//! One scan from start to finish: from what was found on disk to the arena that
//! everything else shows.

use crate::balance::{balanced, every_byte_accounted_for, living_bytes};
use crate::flatten::{file_bytes, flatten, lays_out, lemma_one_tree};
use crate::laid_out::{layout_is_balanced, lemma_file_bytes_sum, lemma_one_tree_sum};
use crate::scan::Progress;
use crate::store::Store;
use crate::tree::{forest_sum, lemma_level_order_places, lemma_level_order_sum, level_order,
    node_count, tree_sum, weighed, LocalNode};
use vstd::prelude::*;

verus! {

impl Progress {
    /// A scan starts: nothing seen yet, and running.
    pub fn begin(&mut self)
        ensures
            final(self).files == 0,
            final(self).dirs == 0,
            final(self).bytes == 0,
            final(self).errors == 0,
            final(self).err_paths@.len() == 0,
            final(self).scanning,
            !final(self).cancel,
            final(self).current@.len() == 0,
    {
        self.reset();
        self.scanning = true;
    }

    /// The scan is to be given up: it enters nothing more and comes to nothing.
    pub fn give_up(&mut self)
        ensures
            *final(self) == (Progress { cancel: true, ..*old(self) }),
    {
        self.cancel = true;
    }

    /// A scan ends: what was seen stays, and nothing is running any more.
    pub fn end(&mut self)
        ensures
            *final(self) == (Progress { scanning: false, ..*old(self) }),
    {
        self.scanning = false;
    }
}

/// What a file adds to the bytes of a tree.
spec fn own_bytes() -> spec_fn(LocalNode) -> nat {
    |m: LocalNode|
        if m.is_dir {
            0
        } else {
            m.size as nat
        }
}

/// What a node adds to the nodes of a tree.
spec fn one_each() -> spec_fn(LocalNode) -> nat {
    |m: LocalNode| 1nat
}

proof fn lemma_prefix(s: Seq<LocalNode>, f: spec_fn(LocalNode) -> nat, i: int)
    requires
        0 <= i <= s.len(),
    ensures
        forest_sum(s.take(i), f) <= forest_sum(s, f),
    decreases s.len() - i,
{
    if i < s.len() {
        lemma_prefix(s, f, i + 1);
        assert(s.take(i + 1).drop_last() == s.take(i));
    } else {
        assert(s.take(i) == s);
    }
}

/// Counts the nodes of a tree and the bytes of its files, as long as the nodes can
/// be numbered in 32 bits.
fn tally(n: &LocalNode) -> (r: Option<(u64, u128)>)
    ensures
        match r {
            Some((nodes, bytes)) => nodes == tree_sum(*n, one_each()) && nodes <= u32::MAX && bytes
                == tree_sum(*n, own_bytes()) && bytes <= nodes * u64::MAX,
            None => tree_sum(*n, one_each()) > u32::MAX,
        },
    decreases *n,
{
    let kids = &n.children;
    let mut nodes: u64 = 1;
    let mut bytes: u128 = if n.is_dir {
        0
    } else {
        n.size as u128
    };
    let ghost own = bytes as nat;
    assert(kids@.take(0) == Seq::<LocalNode>::empty());
    for i in 0..kids.len()
        invariant
            kids == n.children,
            own == own_bytes()(*n),
            nodes == 1 + forest_sum(kids@.take(i as int), one_each()),
            nodes <= u32::MAX,
            bytes == own + forest_sum(kids@.take(i as int), own_bytes()),
            bytes <= nodes * u64::MAX,
    {
        proof {
            let upto = kids@.take(i + 1);
            assert(upto.drop_last() == kids@.take(i as int));
            assert(upto.last() == kids@[i as int]);
            lemma_prefix(kids@, one_each(), i + 1);
            assert(forest_sum(upto, one_each()) == forest_sum(upto.drop_last(), one_each())
                + tree_sum(upto.last(), one_each()));
            assert(forest_sum(upto, own_bytes()) == forest_sum(upto.drop_last(), own_bytes())
                + tree_sum(upto.last(), own_bytes()));
            assert(decreases_to!(*n => n.children@[i as int]));
        }
        match tally(&kids[i]) {
            Some((more, held)) => {
                if nodes + more > 0xFFFF_FFFF {
                    return None;
                }
                assert((nodes + more) * u64::MAX == nodes * u64::MAX + more * u64::MAX)
                    by (nonlinear_arith);
                assert(nodes * u64::MAX <= 0xFFFF_FFFF * u64::MAX) by (nonlinear_arith)
                    requires
                        nodes <= 0xFFFF_FFFF,
                ;
                assert(more * u64::MAX <= 0xFFFF_FFFF * u64::MAX) by (nonlinear_arith)
                    requires
                        more <= 0xFFFF_FFFF,
                ;
                nodes = nodes + more;
                bytes = bytes + held;
            },
            None => {
                return None;
            },
        }
    }
    assert(kids@.take(kids@.len() as int) == kids@);
    Some((nodes, bytes))
}

/// Whether a scanned directory can be laid out: its nodes can be numbered in 32 bits
/// and the bytes of its files counted in 64.
pub open spec fn fits(root: LocalNode) -> bool {
    &&& root.is_dir
    &&& node_count(root) <= u32::MAX
    &&& file_bytes(level_order(seq![root]), node_count(root) as int) <= u64::MAX
}

/// Whether a scanned directory can be laid out.
pub fn can_lay_out(root: &LocalNode) -> (r: bool)
    ensures
        r == fits(*root),
{
    if !root.is_dir {
        return false;
    }
    proof {
        let l = level_order(seq![*root]);
        lemma_level_order_places(seq![*root]);
        lemma_one_tree(*root);
        assert(l[0] == seq![*root][0]);
        lemma_file_bytes_sum(l, l.len() as int);
        assert(l.take(l.len() as int) == l);
        lemma_level_order_sum(seq![*root], own_bytes());
        lemma_one_tree_sum(*root, own_bytes());
        assert(node_count(*root) == tree_sum(*root, one_each()));
        assert(file_bytes(l, node_count(*root) as int) == tree_sum(*root, own_bytes()));
    }
    match tally(root) {
        Some((_, bytes)) => bytes <= 0xFFFF_FFFF_FFFF_FFFF,
        None => false,
    }
}

/// What a finished scan leaves behind: where it came to something, an arena under
/// the next number; where it was cancelled or found nothing, nothing.
pub fn finish_scan(
    scanned: Option<LocalNode>,
    path: String,
    elapsed_ms: u64,
    errors: u64,
    generation: &mut u64,
) -> (r: Option<Store>)
    requires
        scanned is Some ==> fits(scanned->0) && *old(generation) < u64::MAX,
    ensures
        match scanned {
            Some(root) => *final(generation) == *old(generation) + 1 && r is Some && lays_out(
                r->0,
                root,
            ) && r->0.wf() && r->0.root_path == path && r->0.elapsed_ms == elapsed_ms
                && r->0.generation == *final(generation) && r->0.errors == errors,
            None => r is None && *final(generation) == *old(generation),
        },
{
    match scanned {
        Some(root) => {
            *generation = *generation + 1;
            Some(flatten(root, path, elapsed_ms, *generation, errors))
        },
        None => None,
    }
}

/// Puts the outcome of a scan in place. Where it came to nothing, the scan at hand
/// stays.
pub fn put_in_place(store: &mut Option<Store>, made: Option<Store>)
    ensures
        *final(store) == if made is Some {
            made
        } else {
            *old(store)
        },
{
    match made {
        Some(s) => {
            *store = Some(s);
        },
        None => {},
    }
}

/// A scan of directories that add up leaves an arena that adds up, whose root weighs
/// what was found, every byte of it in a living file.
pub proof fn scan_accounts_for_every_byte(root: LocalNode, s: Store)
    requires
        weighed(root),
        root.is_dir,
        lays_out(s, root),
        s.wf(),
    ensures
        balanced(s),
        s.nodes@[0].size == root.size,
        living_bytes(s.nodes@) == root.size,
{
    layout_is_balanced(s, root);
    every_byte_accounted_for(s);
    lemma_level_order_places(seq![root]);
    lemma_one_tree(root);
    let l = level_order(seq![root]);
    assert(l[0] == seq![root][0]);
    assert(crate::flatten::carries(l, 0, s.nodes@[0]));
}

/// A scanned directory can be laid out where its nodes can be counted in 32 bits and the
/// bytes of its files in 64, and only there; a file never can.
pub proof fn fits_where_it_can_be_counted(root: LocalNode)
    ensures
        !root.is_dir ==> !fits(root),
        root.is_dir ==> (fits(root) <==> tree_sum(root, |m: LocalNode| 1nat) <= 0xFFFF_FFFF
            && tree_sum(
            root,
            |m: LocalNode|
                if m.is_dir {
                    0
                } else {
                    m.size as nat
                },
        ) <= 0xFFFF_FFFF_FFFF_FFFF),
{
    if root.is_dir {
        let l = level_order(seq![root]);
        let f = |m: LocalNode|
            if m.is_dir {
                0
            } else {
                m.size as nat
            };
        lemma_level_order_places(seq![root]);
        lemma_one_tree(root);
        assert(l[0] == seq![root][0]);
        lemma_file_bytes_sum(l, l.len() as int);
        assert(l.take(l.len() as int) == l);
        lemma_level_order_sum(seq![root], f);
        lemma_one_tree_sum(root, f);
        assert(file_bytes(l, node_count(root) as int) == tree_sum(root, f));
    }
}

/// A scan begins with nothing seen and runs until it ends; giving it up only marks it. What
/// was counted stays when it ends.
pub proof fn scan_runs_until_it_ends(p: &mut Progress, q: &mut Progress, r: &mut Progress)
    requires
        call_ensures(Progress::begin, (p,), ()),
        call_ensures(Progress::give_up, (q,), ()),
        call_ensures(Progress::end, (r,), ()),
    ensures
        final(p).scanning && !final(p).cancel,
        final(p).files == 0 && final(p).dirs == 0 && final(p).bytes == 0 && final(p).errors == 0,
        final(p).err_paths@.len() == 0 && final(p).current@.len() == 0,
        final(q).cancel,
        *final(q) == (Progress { cancel: final(q).cancel, ..*old(q) }),
        !final(r).scanning,
        *final(r) == (Progress { scanning: final(r).scanning, ..*old(r) }),
{
}

/// A scan that came to something leaves an arena under a number of its own, one further on
/// than the last, which takes the place of the scan at hand; one that came to nothing leaves
/// everything as it was.
pub proof fn finished_scan_takes_its_place(
    scanned: Option<LocalNode>,
    path: String,
    elapsed_ms: u64,
    errors: u64,
    generation: &mut u64,
    r: Option<Store>,
    store: &mut Option<Store>,
    root: LocalNode,
    ok: bool,
)
    requires
        scanned is Some ==> fits(scanned->0) && *old(generation) < u64::MAX,
        call_ensures(finish_scan, (scanned, path, elapsed_ms, errors, generation), r),
        call_ensures(put_in_place, (store, r), ()),
        call_ensures(can_lay_out, (&root,), ok),
    ensures
        scanned is Some ==> *final(generation) == *old(generation) + 1 && r is Some && lays_out(
            r->0,
            scanned->0,
        ) && r->0.wf() && r->0.root_path == path && r->0.elapsed_ms == elapsed_ms && r->0.generation
            == *final(generation) && r->0.errors == errors && *final(store) == r,
        scanned is None ==> *final(generation) == *old(generation) && r is None && *final(store)
            == *old(store),
        ok <==> fits(root),
{
}

} // verus!
