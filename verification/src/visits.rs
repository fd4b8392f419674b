//! A scan as a whole: the directories it visits, what each visit adds to the progress,
//! and that the counters come out as the size of what was found.

use crate::flatten::{dir_count, dirs_among};
use crate::scan::{bytes_of, files_of, holds_children, is_leaf_node, leaf_bytes, leaf_places, lists,
    listed_bytes_are_the_files, listing_counts_every_leaf, noted_in_turn, with_dir, with_error,
    Entry, Listing, Progress};
use crate::sums::{lemma_seq_sum_concat, lemma_sum_rearranged, seq_sum};
use crate::tree::LocalNode;
use vstd::prelude::*;

verus! {

/// One directory of a scan: its path, its entries where it could be listed, and the
/// directories below it that were descended into.
pub struct Visit {
    pub path: Seq<char>,
    pub entries: Option<Seq<Entry>>,
    pub below: Seq<Visit>,
}

/// Something that moves the progress of a scan.
pub enum Event {
    Entered { path: Seq<char>, depth: u32 },
    Listed { path: Seq<char>, entries: Seq<Entry> },
    Unlisted { path: Seq<char> },
}

/// How an event moves the progress.
pub open spec fn moves(e: Event, p: Progress, q: Progress) -> bool {
    match e {
        Event::Entered { path, depth } => with_dir(p, path, depth, q),
        Event::Listed { path, entries } => exists|steps: Seq<Progress>|
            #![trigger noted_in_turn(entries, path, steps)]
            noted_in_turn(entries, path, steps) && steps[0] == p && steps.last() == q,
        Event::Unlisted { path } => with_error(p, path, q),
    }
}

/// The progress moves through `states` as the events happen one after the other.
pub open spec fn happened(events: Seq<Event>, states: Seq<Progress>) -> bool {
    &&& states.len() == events.len() + 1
    &&& forall|k: int|
        0 <= k < events.len() ==> moves(#[trigger] events[k], states[k], states[k + 1])
}

/// What happens in the directory of a visit, `depth` levels down.
pub open spec fn own_events(v: Visit, depth: u32) -> Seq<Event> {
    seq![
        Event::Entered { path: v.path, depth },
        match v.entries {
            Some(entries) => Event::Listed { path: v.path, entries },
            None => Event::Unlisted { path: v.path },
        },
    ]
}

/// Everything that happens in a visit and below it.
pub open spec fn events_of(v: Visit, depth: u32) -> Seq<Event>
    decreases v,
{
    own_events(v, depth) + events_below(v.below, (depth + 1) as u32)
}

/// Everything that happens in the visits `s`.
pub open spec fn events_below(s: Seq<Visit>, depth: u32) -> Seq<Event>
    decreases s,
{
    if s.len() == 0 {
        Seq::empty()
    } else {
        events_below(s.drop_last(), depth) + events_of(s.last(), depth)
    }
}

/// `n` is put together from the entries of a directory and from `kids`, one for each
/// directory to descend into.
pub open spec fn put_together(
    n: LocalNode,
    entries: Seq<Entry>,
    dev: u64,
    kids: Seq<LocalNode>,
) -> bool {
    exists|r: Listing, name: Seq<char>|
        #![trigger lists(entries, dev, r), holds_children(n, name, r.files@ + kids)]
        lists(entries, dev, r) && r.descend@.len() == kids.len() && holds_children(
            n,
            name,
            r.files@ + kids,
        )
}

/// `n` is what the visit of a directory on file system `dev` comes to, where the scan
/// is not cancelled.
pub open spec fn comes_to(v: Visit, dev: u64, n: LocalNode) -> bool
    decreases v,
{
    match v.entries {
        Some(entries) => exists|kids: Seq<LocalNode>|
            #![trigger put_together(n, entries, dev, kids)]
            put_together(n, entries, dev, kids) && kids.len() == v.below.len() && forall|i: int|
                0 <= i < v.below.len() ==> comes_to(#[trigger] v.below[i], dev, kids[i]),
        None => n.size == 0 && n.files == 0 && n.is_dir && n.children@.len() == 0
            && v.below.len() == 0,
    }
}

/// The files that an event counts.
pub open spec fn files_in(e: Event) -> nat {
    match e {
        Event::Listed { path: _, entries } => leaf_places(entries, entries.len() as int).len(),
        _ => 0,
    }
}

/// The bytes that an event counts.
pub open spec fn bytes_in(e: Event) -> nat {
    match e {
        Event::Listed { path: _, entries } => leaf_bytes(entries, entries.len() as int),
        _ => 0,
    }
}

/// The directories that an event counts.
pub open spec fn dirs_in(e: Event) -> nat {
    match e {
        Event::Entered { path: _, depth: _ } => 1,
        _ => 0,
    }
}

/// The directories that a node and what is below it count for.
spec fn dirs_of(m: LocalNode) -> nat {
    if m.is_dir {
        dir_count(m)
    } else {
        0
    }
}

proof fn lemma_dirs_among(s: Seq<LocalNode>)
    ensures
        dirs_among(s) == seq_sum(s, |m: LocalNode| dirs_of(m)),
    decreases s.len(),
{
    if s.len() > 0 {
        lemma_dirs_among(s.drop_last());
    }
}

/// The files handed on by a listing are one file each and no directory.
proof fn lemma_leaves(files: Seq<LocalNode>)
    requires
        forall|k: int| 0 <= k < files.len() ==> (#[trigger] files[k]).files == 1 && !files[k].is_dir,
    ensures
        files_of(files) == files.len(),
        seq_sum(files, |m: LocalNode| dirs_of(m)) == 0,
    decreases files.len(),
{
    if files.len() > 0 {
        let fewer = files.drop_last();
        assert forall|k: int| 0 <= k < fewer.len() implies (#[trigger] fewer[k]).files == 1
            && !fewer[k].is_dir by {
            assert(fewer[k] == files[k]);
        }
        lemma_leaves(fewer);
        assert(files[files.len() - 1].files == 1);
    }
}

/// A directory that was put together adds up.
proof fn lemma_put_together(n: LocalNode, entries: Seq<Entry>, dev: u64, kids: Seq<LocalNode>)
    requires
        put_together(n, entries, dev, kids),
    ensures
        n.is_dir,
        n.files == leaf_places(entries, entries.len() as int).len() + files_of(kids),
        n.size == leaf_bytes(entries, entries.len() as int) + bytes_of(kids),
        dir_count(n) == 1 + seq_sum(kids, |m: LocalNode| dirs_of(m)),
{
    let (r, name) = choose|r: Listing, name: Seq<char>|
        #![trigger lists(entries, dev, r), holds_children(n, name, r.files@ + kids)]
        lists(entries, dev, r) && r.descend@.len() == kids.len() && holds_children(
            n,
            name,
            r.files@ + kids,
        );
    let dirs = |m: LocalNode| dirs_of(m);
    let leaves = leaf_places(entries, entries.len() as int);
    assert forall|k: int| 0 <= k < r.files@.len() implies (#[trigger] r.files@[k]).files == 1
        && !r.files@[k].is_dir by {
        assert(is_leaf_node(entries[leaves[k]], r.files@[k]));
    }
    lemma_leaves(r.files@);
    listed_bytes_are_the_files(entries, dev, r);
    lemma_seq_sum_concat(r.files@, kids, |m: LocalNode| m.files as nat);
    lemma_seq_sum_concat(r.files@, kids, |m: LocalNode| m.size as nat);
    lemma_seq_sum_concat(r.files@, kids, dirs);
    lemma_dirs_among(n.children@);
    lemma_sum_rearranged(n.children@, r.files@ + kids, dirs);
}

/// What happens in a visit counts what the visit comes to.
proof fn lemma_visit_counts(v: Visit, dev: u64, depth: u32, n: LocalNode)
    requires
        comes_to(v, dev, n),
    ensures
        n.is_dir,
        seq_sum(events_of(v, depth), |e: Event| files_in(e)) == n.files,
        seq_sum(events_of(v, depth), |e: Event| bytes_in(e)) == n.size,
        seq_sum(events_of(v, depth), |e: Event| dirs_in(e)) == dir_count(n),
    decreases v,
{
    let files = |e: Event| files_in(e);
    let bytes = |e: Event| bytes_in(e);
    let dirs = |e: Event| dirs_in(e);
    let own = own_events(v, depth);
    let below = events_below(v.below, (depth + 1) as u32);
    lemma_seq_sum_concat(own, below, files);
    lemma_seq_sum_concat(own, below, bytes);
    lemma_seq_sum_concat(own, below, dirs);
    lemma_two(own, files);
    lemma_two(own, bytes);
    lemma_two(own, dirs);
    match v.entries {
        Some(entries) => {
            let kids = choose|kids: Seq<LocalNode>|
                #![trigger put_together(n, entries, dev, kids)]
                put_together(n, entries, dev, kids) && kids.len() == v.below.len() && forall|i: int|
                    0 <= i < v.below.len() ==> comes_to(#[trigger] v.below[i], dev, kids[i]);
            lemma_put_together(n, entries, dev, kids);
            lemma_visits_count(v.below, dev, (depth + 1) as u32, kids);
        },
        None => {
            assert(below == Seq::<Event>::empty());
            assert(dirs_among(n.children@) == 0);
        },
    }
}

proof fn lemma_two(s: Seq<Event>, f: spec_fn(Event) -> nat)
    requires
        s.len() == 2,
    ensures
        seq_sum(s, f) == f(s[0]) + f(s[1]),
{
    reveal_with_fuel(seq_sum, 3);
    assert(s.drop_last().last() == s[0]);
}

proof fn lemma_visits_count(s: Seq<Visit>, dev: u64, depth: u32, kids: Seq<LocalNode>)
    requires
        kids.len() == s.len(),
        forall|i: int| 0 <= i < s.len() ==> comes_to(#[trigger] s[i], dev, kids[i]),
    ensures
        seq_sum(events_below(s, depth), |e: Event| files_in(e)) == files_of(kids),
        seq_sum(events_below(s, depth), |e: Event| bytes_in(e)) == bytes_of(kids),
        seq_sum(events_below(s, depth), |e: Event| dirs_in(e)) == seq_sum(
            kids,
            |m: LocalNode| dirs_of(m),
        ),
    decreases s,
{
    if s.len() > 0 {
        let fewer = s.drop_last();
        let rest = kids.drop_last();
        assert forall|i: int| 0 <= i < fewer.len() implies comes_to(
            #[trigger] fewer[i],
            dev,
            rest[i],
        ) by {
            assert(fewer[i] == s[i]);
        }
        assert(comes_to(s[s.len() - 1], dev, kids[s.len() - 1]));
        lemma_visits_count(fewer, dev, depth, rest);
        lemma_visit_counts(s.last(), dev, depth, kids.last());
        let a = events_below(fewer, depth);
        let b = events_of(s.last(), depth);
        lemma_seq_sum_concat(a, b, |e: Event| files_in(e));
        lemma_seq_sum_concat(a, b, |e: Event| bytes_in(e));
        lemma_seq_sum_concat(a, b, |e: Event| dirs_in(e));
    }
}

/// The counters move by what the events count, back to zero after the last number.
proof fn lemma_counters(events: Seq<Event>, states: Seq<Progress>, k: int)
    requires
        happened(events, states),
        0 <= k <= events.len(),
    ensures
        states[k].files == (states[0].files + seq_sum(
            events.take(k),
            |e: Event| files_in(e),
        )) % 0x1_0000_0000_0000_0000,
        states[k].bytes == (states[0].bytes + seq_sum(
            events.take(k),
            |e: Event| bytes_in(e),
        )) % 0x1_0000_0000_0000_0000,
        states[k].dirs == (states[0].dirs + seq_sum(
            events.take(k),
            |e: Event| dirs_in(e),
        )) % 0x1_0000_0000_0000_0000,
    decreases k,
{
    if k == 0 {
        assert(events.take(0) == Seq::<Event>::empty());
    } else {
        lemma_counters(events, states, k - 1);
        let e = events[k - 1];
        let p = states[k - 1];
        let q = states[k];
        assert(moves(events[k - 1], states[k - 1], states[k - 1 + 1]));
        assert(events.take(k).drop_last() == events.take(k - 1));
        assert(events.take(k).last() == e);
        match e {
            Event::Listed { path, entries } => {
                let steps = choose|steps: Seq<Progress>|
                    #![trigger noted_in_turn(entries, path, steps)]
                    noted_in_turn(entries, path, steps) && steps[0] == p && steps.last() == q;
                listing_counts_every_leaf(entries, path, steps, entries.len() as int);
            },
            _ => {},
        }
    }
}

/// A scan counts what it finds: however the visits of its directories are handed out
/// and interleaved, once all that belongs to them has happened, the counters that
/// started at zero say how many files and bytes the scanned directory holds, and how
/// many directories.
pub proof fn whole_scan_is_counted(
    v: Visit,
    dev: u64,
    n: LocalNode,
    events: Seq<Event>,
    states: Seq<Progress>,
)
    requires
        comes_to(v, dev, n),
        happened(events, states),
        events.to_multiset() == events_of(v, 0).to_multiset(),
        states[0].files == 0,
        states[0].bytes == 0,
        states[0].dirs == 0,
    ensures
        states.last().files == n.files,
        states.last().bytes == n.size,
        states.last().dirs == dir_count(n) % 0x1_0000_0000_0000_0000,
{
    lemma_visit_counts(v, dev, 0, n);
    lemma_sum_rearranged(events, events_of(v, 0), |e: Event| files_in(e));
    lemma_sum_rearranged(events, events_of(v, 0), |e: Event| bytes_in(e));
    lemma_sum_rearranged(events, events_of(v, 0), |e: Event| dirs_in(e));
    lemma_counters(events, states, events.len() as int);
    assert(events.take(events.len() as int) == events);
}

} // verus!
