//! The rules of a scan: what each directory entry counts as, how a directory is
//! put together from what it holds, and the progress that is reported meanwhile.
//! Reading the disk is left to the caller, who hands in what it found.

use crate::order::{heaviest_first, lemma_rearranged, sort_heaviest_first, Weighted};
use crate::sums::{count_where, lemma_sum_prefix, lemma_sum_rearranged, seq_sum, sum_where};
use crate::tree::{weighed, LocalNode};
use vstd::prelude::*;

verus! {

/// How many of the paths that could not be read are remembered.
pub const ERR_PATHS: usize = 50;

/// Directories down to this depth are always shown as the current one.
pub const SHOWN_DEPTH: u32 = 4;

/// Deeper down, one directory in this many is shown.
pub const SHOWN_EVERY: u64 = 512;

/// What a running scan has seen so far.
pub struct Progress {
    pub files: u64,
    pub dirs: u64,
    pub bytes: u64,
    pub errors: u64,
    pub err_paths: Vec<String>,
    pub scanning: bool,
    pub cancel: bool,
    pub current: String,
}

/// The counter one further on, back to zero after the last.
pub open spec fn bumped(n: u64, by: u64) -> u64 {
    n.wrapping_add(by)
}

/// The paths that could not be read, with one more.
pub open spec fn err_paths_with(v: Seq<String>, path: Seq<char>, w: Seq<String>) -> bool {
    if v.len() < ERR_PATHS {
        w.len() == v.len() + 1 && w.take(v.len() as int) == v && w.last()@ == path
    } else {
        w == v
    }
}

/// `p` with one more error noted for `path`.
pub open spec fn with_error(p: Progress, path: Seq<char>, q: Progress) -> bool {
    &&& q.errors == bumped(p.errors, 1)
    &&& err_paths_with(p.err_paths@, path, q.err_paths@)
    &&& q.files == p.files
    &&& q.dirs == p.dirs
    &&& q.bytes == p.bytes
    &&& q.scanning == p.scanning
    &&& q.cancel == p.cancel
    &&& q.current == p.current
}

/// `p` with one more file of `size` bytes.
pub open spec fn with_one_file(p: Progress, size: u64, q: Progress) -> bool {
    &&& q.files == bumped(p.files, 1)
    &&& q.bytes == bumped(p.bytes, size)
    &&& q.errors == p.errors
    &&& q.err_paths == p.err_paths
    &&& q.dirs == p.dirs
    &&& q.scanning == p.scanning
    &&& q.cancel == p.cancel
    &&& q.current == p.current
}

/// `p` with one more directory, `depth` levels down: near the top or once in a while it
/// is shown as the current one.
pub open spec fn with_dir(p: Progress, path: Seq<char>, depth: u32, q: Progress) -> bool {
    &&& q.dirs == bumped(p.dirs, 1)
    &&& q.current@ == if depth <= SHOWN_DEPTH || p.dirs % SHOWN_EVERY == 0 {
        path
    } else {
        p.current@
    }
    &&& q.files == p.files
    &&& q.bytes == p.bytes
    &&& q.errors == p.errors
    &&& q.err_paths == p.err_paths
    &&& q.scanning == p.scanning
    &&& q.cancel == p.cancel
}

impl Progress {
    /// Nothing seen, nothing running.
    pub fn new() -> (p: Progress)
        ensures
            p.files == 0,
            p.dirs == 0,
            p.bytes == 0,
            p.errors == 0,
            p.err_paths@.len() == 0,
            !p.scanning,
            !p.cancel,
            p.current@.len() == 0,
    {
        Progress {
            files: 0,
            dirs: 0,
            bytes: 0,
            errors: 0,
            err_paths: Vec::new(),
            scanning: false,
            cancel: false,
            current: String::new(),
        }
    }

    /// Forgets what was seen and any wish to cancel. Whether a scan is running
    /// stays as it is.
    pub fn reset(&mut self)
        ensures
            final(self).files == 0,
            final(self).dirs == 0,
            final(self).bytes == 0,
            final(self).errors == 0,
            final(self).err_paths@.len() == 0,
            final(self).scanning == old(self).scanning,
            !final(self).cancel,
            final(self).current@.len() == 0,
    {
        self.files = 0;
        self.dirs = 0;
        self.bytes = 0;
        self.errors = 0;
        self.err_paths = Vec::new();
        self.cancel = false;
        self.current = String::new();
    }

    /// Counts one more thing that could not be read, and remembers its path while
    /// there is room.
    pub fn note_err(&mut self, path: &str)
        ensures
            with_error(*old(self), path@, *final(self)),
    {
        self.errors = self.errors.wrapping_add(1);
        if self.err_paths.len() < ERR_PATHS {
            let ghost v = self.err_paths@;
            self.err_paths.push(path.to_owned());
            assert(self.err_paths@.take(v.len() as int) == v);
        }
    }

    /// Enters the directory `path`, `depth` levels down: counts it and, near the
    /// top or once in a while, shows it as the current one. Says whether to go on;
    /// a cancelled scan enters nothing.
    pub fn enter(&mut self, path: &str, depth: u32) -> (go: bool)
        ensures
            go == !old(self).cancel,
            go ==> with_dir(*old(self), path@, depth, *final(self)),
            !go ==> *final(self) == *old(self),
    {
        if self.cancel {
            return false;
        }
        let dcount = self.dirs;
        self.dirs = dcount.wrapping_add(1);
        if depth <= SHOWN_DEPTH || dcount % SHOWN_EVERY == 0 {
            self.current = path.to_owned();
        }
        true
    }
}

/// One entry of a directory, as far as it could be read.
pub enum Entry {
    /// The entry itself could not be read.
    Unread,
    /// What the entry is could not be told.
    Untyped { path: String },
    /// A directory and the file system it lies on, where that could be told.
    Directory { path: String, dev: Option<u64> },
    /// Anything else, a symbolic link among them, and its own size where that
    /// could be told.
    Leaf { name: String, size: Option<u64> },
}

/// What a directory's entries come to: a file for each leaf, and the entries to
/// descend into by their place in the listing.
pub struct Listing {
    pub files: Vec<LocalNode>,
    pub descend: Vec<usize>,
}

/// The leaf that an entry counts as: one file, of no size where none could be told.
pub open spec fn is_leaf_node(e: Entry, n: LocalNode) -> bool {
    match e {
        Entry::Leaf { name, size } => {
            &&& n.name == name
            &&& n.size == leaf_size(size)
            &&& n.files == 1
            &&& !n.is_dir
            &&& n.children@.len() == 0
        },
        _ => false,
    }
}

pub open spec fn leaf_size(size: Option<u64>) -> u64 {
    match size {
        Some(s) => s,
        None => 0,
    }
}

/// Whether a scan of file system `dev` goes down into this entry: a directory of
/// that file system. Links and other file systems are never entered.
pub open spec fn entered(e: Entry, dev: u64) -> bool {
    match e {
        Entry::Directory { path: _, dev: d } => d == Some(dev),
        _ => false,
    }
}

/// How the progress moves over one entry of the directory `dir`.
pub open spec fn noted(e: Entry, dir: Seq<char>, p: Progress, q: Progress) -> bool {
    match e {
        Entry::Unread => with_error(p, dir, q),
        Entry::Untyped { path } => with_error(p, path@, q),
        Entry::Directory { path, dev } => if dev is None {
            with_error(p, path@, q)
        } else {
            p == q
        },
        Entry::Leaf { name: _, size } => with_one_file(p, leaf_size(size), q),
    }
}

/// The leaves among the first `i` entries, by their place in the listing.
pub open spec fn leaf_places(v: Seq<Entry>, i: int) -> Seq<int>
    decreases i,
{
    if i <= 0 {
        Seq::empty()
    } else if v[i - 1] is Leaf {
        leaf_places(v, i - 1).push(i - 1)
    } else {
        leaf_places(v, i - 1)
    }
}

/// The bytes in the leaves among the first `i` entries.
pub open spec fn leaf_bytes(v: Seq<Entry>, i: int) -> nat
    decreases i,
{
    if i <= 0 {
        0
    } else {
        leaf_bytes(v, i - 1) + match v[i - 1] {
            Entry::Leaf { name: _, size } => leaf_size(size) as nat,
            _ => 0,
        }
    }
}

/// The entries to descend into among the first `i`, by their place in the listing.
pub open spec fn entered_places(v: Seq<Entry>, i: int, dev: u64) -> Seq<int>
    decreases i,
{
    if i <= 0 {
        Seq::empty()
    } else if entered(v[i - 1], dev) {
        entered_places(v, i - 1, dev).push(i - 1)
    } else {
        entered_places(v, i - 1, dev)
    }
}

/// The progress moves over the entries of a listing one after the other.
pub open spec fn noted_in_turn(v: Seq<Entry>, dir: Seq<char>, steps: Seq<Progress>) -> bool {
    &&& steps.len() == v.len() + 1
    &&& forall|i: int| 0 <= i < v.len() ==> noted(#[trigger] v[i], dir, steps[i], steps[i + 1])
}

/// What a listing of `v` in file system `dev` comes to.
pub open spec fn lists(v: Seq<Entry>, dev: u64, r: Listing) -> bool {
    let leaves = leaf_places(v, v.len() as int);
    &&& r.files@.len() == leaves.len()
    &&& forall|k: int| 0 <= k < leaves.len() ==> is_leaf_node(v[leaves[k]], #[trigger] r.files@[k])
    &&& r.descend@.map_values(|i: usize| i as int) == entered_places(v, v.len() as int, dev)
}

proof fn lemma_leaf_places(v: Seq<Entry>, i: int)
    requires
        0 <= i <= v.len(),
    ensures
        leaf_places(v, i).len() <= i,
        forall|k: int|
            0 <= k < leaf_places(v, i).len() ==> 0 <= #[trigger] leaf_places(v, i)[k] < i,
    decreases i,
{
    if i > 0 {
        lemma_leaf_places(v, i - 1);
    }
}

impl Progress {
    /// Goes through the entries of the directory `dir` on file system `dev`: notes
    /// what could not be read, counts the leaves, and picks the directories to
    /// descend into.
    pub fn list(&mut self, dir: &str, dev: u64, entries: Vec<Entry>) -> (r: Listing)
        ensures
            lists(entries@, dev, r),
            exists|steps: Seq<Progress>|
                #![trigger noted_in_turn(entries@, dir@, steps)]
                noted_in_turn(entries@, dir@, steps) && steps[0] == *old(self) && steps.last()
                    == *final(self),
    {
        let mut files: Vec<LocalNode> = Vec::new();
        let mut descend: Vec<usize> = Vec::new();
        let ghost v = entries@;
        let ghost mut steps: Seq<Progress> = seq![*self];
        let mut at: usize = 0;
        let total = entries.len();
        for e in it: entries
            invariant
                it.seq() == v,
                total == v.len(),
                at == it.index(),
                steps.len() == at + 1,
                steps[0] == *old(self),
                steps.last() == *self,
                forall|i: int|
                    0 <= i < at ==> noted(#[trigger] v[i], dir@, steps[i], steps[i + 1]),
                files@.len() == leaf_places(v, at as int).len(),
                forall|k: int|
                    0 <= k < files@.len() ==> is_leaf_node(
                        v[leaf_places(v, at as int)[k]],
                        #[trigger] files@[k],
                    ),
                descend@.map_values(|i: usize| i as int) == entered_places(v, at as int, dev),
        {
            let ghost before = *self;
            let ghost f0 = files@;
            let ghost d0 = descend@;
            assert(e == v[at as int]);
            match e {
                Entry::Unread => {
                    self.note_err(dir);
                },
                Entry::Untyped { path } => {
                    self.note_err(path.as_str());
                },
                Entry::Directory { path, dev: found } => {
                    match found {
                        Some(d) => {
                            if d == dev {
                                descend.push(at);
                                assert(descend@.map_values(|i: usize| i as int) == d0.map_values(
                                    |i: usize| i as int,
                                ).push(at as int));
                            }
                        },
                        None => {
                            self.note_err(path.as_str());
                        },
                    }
                },
                Entry::Leaf { name, size } => {
                    let bytes: u64 = match size {
                        Some(s) => s,
                        None => 0,
                    };
                    self.files = self.files.wrapping_add(1);
                    self.bytes = self.bytes.wrapping_add(bytes);
                    files.push(
                        LocalNode {
                            name,
                            size: bytes,
                            files: 1,
                            is_dir: false,
                            children: Vec::new(),
                        },
                    );
                },
            }
            proof {
                let s0 = steps;
                steps = steps.push(*self);
                assert(noted(v[at as int], dir@, steps[at as int], steps[at + 1]));
                assert forall|i: int| 0 <= i < at + 1 implies noted(
                    #[trigger] v[i],
                    dir@,
                    steps[i],
                    steps[i + 1],
                ) by {
                    if i < at {
                        assert(steps[i] == s0[i]);
                        assert(steps[i + 1] == s0[i + 1]);
                    }
                }
                lemma_leaf_places(v, at as int);
                assert forall|k: int| 0 <= k < files@.len() implies is_leaf_node(
                    v[leaf_places(v, at + 1)[k]],
                    #[trigger] files@[k],
                ) by {
                    if k < f0.len() {
                        assert(files@[k] == f0[k]);
                        assert(leaf_places(v, at + 1)[k] == leaf_places(v, at as int)[k]);
                    }
                }
            }
            at = at + 1;
        }
        assert(noted_in_turn(v, dir@, steps));
        Listing { files, descend }
    }

    /// A directory that cannot be listed: an error, and an empty directory in its
    /// place.
    pub fn unlisted(&mut self, path: &str, name: String) -> (n: LocalNode)
        ensures
            with_error(*old(self), path@, *final(self)),
            n.name == name,
            n.size == 0,
            n.files == 0,
            n.is_dir,
            n.children@.len() == 0,
            weighed(n),
    {
        self.note_err(path);
        let n = LocalNode { name, size: 0, files: 0, is_dir: true, children: Vec::new() };
        assert(seq_sum(n.children@, |m: LocalNode| m.size as nat) == 0);
        assert(seq_sum(n.children@, |m: LocalNode| m.files as nat) == 0);
        n
    }
}

impl Weighted for LocalNode {
    open spec fn heft(&self) -> u64 {
        self.size
    }

    fn weight(&self) -> (w: u64) {
        self.size
    }
}

/// The bytes in the nodes `s`.
pub open spec fn bytes_of(s: Seq<LocalNode>) -> nat {
    seq_sum(s, |m: LocalNode| m.size as nat)
}

/// The files in the nodes `s`.
pub open spec fn files_of(s: Seq<LocalNode>) -> nat {
    seq_sum(s, |m: LocalNode| m.files as nat)
}

/// Whether the weights of the two lists together fit a directory's counters.
pub fn sums_fit(files: &Vec<LocalNode>, scanned: &Vec<LocalNode>) -> (r: bool)
    ensures
        r == (bytes_of(files@ + scanned@) <= u64::MAX && files_of(files@ + scanned@) <= u32::MAX),
{
    let ghost all = files@ + scanned@;
    let mut bytes: u64 = 0;
    let mut count: u32 = 0;
    let n = files.len();
    let m = scanned.len();
    assert(all.take(0) == Seq::<LocalNode>::empty());
    let mut first: usize = 0;
    while first < n
        invariant
            n == files@.len(),
            all == files@ + scanned@,
            first <= n,
            bytes == bytes_of(all.take(first as int)),
            count == files_of(all.take(first as int)),
        decreases n - first,
    {
        proof {
            lemma_sum_prefix(all, |m: LocalNode| m.size as nat, first + 1);
            lemma_sum_prefix(all, |m: LocalNode| m.files as nat, first + 1);
            assert(all.take(first + 1).drop_last() == all.take(first as int));
            assert(all.take(first + 1).last() == files@[first as int]);
        }
        let c = &files[first];
        if c.size > u64::MAX - bytes || c.files > u32::MAX - count {
            return false;
        }
        bytes = bytes + c.size;
        count = count + c.files;
        first = first + 1;
    }
    let mut second: usize = 0;
    while second < m
        invariant
            n == files@.len(),
            m == scanned@.len(),
            all == files@ + scanned@,
            second <= m,
            bytes == bytes_of(all.take(n + second)),
            count == files_of(all.take(n + second)),
        decreases m - second,
    {
        proof {
            lemma_sum_prefix(all, |m: LocalNode| m.size as nat, n + second + 1);
            lemma_sum_prefix(all, |m: LocalNode| m.files as nat, n + second + 1);
            assert(all.take(n + second + 1).drop_last() == all.take(n + second));
            assert(all.take(n + second + 1).last() == scanned@[second as int]);
        }
        let c = &scanned[second];
        if c.size > u64::MAX - bytes || c.files > u32::MAX - count {
            return false;
        }
        bytes = bytes + c.size;
        count = count + c.files;
        second = second + 1;
    }
    assert(all.take(n + m) == all);
    true
}

/// `n` is the directory `name` with the children `kids`: it weighs what they weigh
/// together, and lists them heaviest first.
pub open spec fn holds_children(n: LocalNode, name: Seq<char>, kids: Seq<LocalNode>) -> bool {
    &&& n.name@ == name
    &&& n.is_dir
    &&& n.size == bytes_of(kids)
    &&& n.files == files_of(kids)
    &&& n.children@.to_multiset() == kids.to_multiset()
    &&& heaviest_first(n.children@)
}

/// Puts a directory together from its files and the directories scanned below it.
/// A cancelled scan comes to nothing.
pub fn finish_dir(
    cancelled: bool,
    name: String,
    files: Vec<LocalNode>,
    scanned: Vec<LocalNode>,
) -> (r: Option<LocalNode>)
    requires
        !cancelled ==> bytes_of(files@ + scanned@) <= u64::MAX,
        !cancelled ==> files_of(files@ + scanned@) <= u32::MAX,
    ensures
        cancelled ==> r is None,
        !cancelled ==> r is Some && holds_children(r->0, name@, files@ + scanned@),
{
    if cancelled {
        return None;
    }
    let ghost all = files@ + scanned@;
    let mut children = files;
    let mut more = scanned;
    children.append(&mut more);
    assert(children@ == all);
    let mut size: u64 = 0;
    let mut count: u32 = 0;
    assert(all.take(0) == Seq::<LocalNode>::empty());
    for i in 0..children.len()
        invariant
            children@ == all,
            bytes_of(all) <= u64::MAX,
            files_of(all) <= u32::MAX,
            size == bytes_of(all.take(i as int)),
            count == files_of(all.take(i as int)),
    {
        proof {
            lemma_sum_prefix(all, |m: LocalNode| m.size as nat, i + 1);
            lemma_sum_prefix(all, |m: LocalNode| m.files as nat, i + 1);
            assert(all.take(i + 1).drop_last() == all.take(i as int));
            assert(all.take(i + 1).last() == all[i as int]);
        }
        size = size + children[i].size;
        count = count + children[i].files;
    }
    assert(all.take(all.len() as int) == all);
    sort_heaviest_first(&mut children);
    Some(LocalNode { name, size, files: count, is_dir: true, children })
}

/// A directory put together from weighed children is weighed: whatever a scan
/// finds, every directory weighs what its files weigh.
pub proof fn finished_directory_is_weighed(n: LocalNode, name: Seq<char>, kids: Seq<LocalNode>)
    requires
        holds_children(n, name, kids),
        forall|i: int| 0 <= i < kids.len() ==> weighed(#[trigger] kids[i]),
    ensures
        weighed(n),
{
    lemma_sum_rearranged(kids, n.children@, |m: LocalNode| m.size as nat);
    lemma_sum_rearranged(kids, n.children@, |m: LocalNode| m.files as nat);
    lemma_rearranged(kids, n.children@);
    assert forall|i: int| 0 <= i < n.children@.len() implies weighed(#[trigger] n.children@[i]) by {
        let x = n.children@[i];
        assert(n.children@.contains(x));
        assert(kids.contains(x));
    }
}

/// Every leaf of a listing is weighed.
pub proof fn listed_leaves_are_weighed(v: Seq<Entry>, dev: u64, r: Listing)
    requires
        lists(v, dev, r),
    ensures
        forall|k: int| 0 <= k < r.files@.len() ==> weighed(#[trigger] r.files@[k]),
{
    lemma_leaf_places(v, v.len() as int);
}

/// What a listing adds to the progress: for every leaf one file and its bytes, and
/// nothing to what else is going on.
pub proof fn listing_counts_every_leaf(v: Seq<Entry>, dir: Seq<char>, steps: Seq<Progress>, i: int)
    requires
        noted_in_turn(v, dir, steps),
        0 <= i <= v.len(),
    ensures
        steps[i].files == (steps[0].files + leaf_places(v, i).len()) % 0x1_0000_0000_0000_0000,
        steps[i].bytes == (steps[0].bytes + leaf_bytes(v, i)) % 0x1_0000_0000_0000_0000,
        steps[i].dirs == steps[0].dirs,
        steps[i].scanning == steps[0].scanning,
        steps[i].cancel == steps[0].cancel,
        steps[i].current == steps[0].current,
    decreases i,
{
    if i > 0 {
        listing_counts_every_leaf(v, dir, steps, i - 1);
        assert(noted(v[i - 1], dir, steps[i - 1], steps[i - 1 + 1]));
    }
}

/// The bytes that a listing adds to the progress are those of the files it hands on.
pub proof fn listed_bytes_are_the_files(v: Seq<Entry>, dev: u64, r: Listing)
    requires
        lists(v, dev, r),
    ensures
        leaf_bytes(v, v.len() as int) == bytes_of(r.files@),
{
    lemma_bytes_of_leaves(v, v.len() as int, r.files@);
}

proof fn lemma_bytes_of_leaves(v: Seq<Entry>, i: int, files: Seq<LocalNode>)
    requires
        0 <= i <= v.len(),
        files.len() == leaf_places(v, i).len(),
        forall|k: int|
            0 <= k < files.len() ==> is_leaf_node(v[leaf_places(v, i)[k]], #[trigger] files[k]),
    ensures
        leaf_bytes(v, i) == bytes_of(files),
    decreases i,
{
    if i > 0 {
        let rest = leaf_places(v, i - 1);
        let all = leaf_places(v, i);
        if v[i - 1] is Leaf {
            let fewer = files.drop_last();
            assert forall|k: int| 0 <= k < fewer.len() implies is_leaf_node(
                v[rest[k]],
                #[trigger] fewer[k],
            ) by {
                assert(files[k] == fewer[k]);
                assert(all[k] == rest[k]);
            }
            lemma_bytes_of_leaves(v, i - 1, fewer);
            assert(is_leaf_node(v[all[files.len() - 1]], files[files.len() - 1]));
        } else {
            lemma_bytes_of_leaves(v, i - 1, files);
        }
    }
}

proof fn lemma_entered_places(v: Seq<Entry>, i: int, dev: u64)
    requires
        0 <= i <= v.len(),
    ensures
        forall|k: int|
            0 <= k < entered_places(v, i, dev).len() ==> 0 <= #[trigger] entered_places(v, i, dev)[k]
                < i && entered(v[entered_places(v, i, dev)[k]], dev),
    decreases i,
{
    if i > 0 {
        lemma_entered_places(v, i - 1, dev);
        let rest = entered_places(v, i - 1, dev);
        let all = entered_places(v, i, dev);
        assert forall|k: int| 0 <= k < all.len() implies 0 <= #[trigger] all[k] < i && entered(
            v[all[k]],
            dev,
        ) by {
            if k < rest.len() {
                assert(all[k] == rest[k]);
            }
        }
    }
}

/// A scan stays on one file system and follows no link: all that is ever descended
/// into is a directory that lies where the scan started.
pub proof fn scan_stays_on_one_filesystem(v: Seq<Entry>, dev: u64, r: Listing)
    requires
        lists(v, dev, r),
    ensures
        forall|k: int|
            0 <= k < r.descend@.len() ==> (#[trigger] r.descend@[k]) < v.len() && (
            v[r.descend@[k] as int] matches Entry::Directory { path: _, dev: d } && d == Some(dev)),
{
    lemma_entered_places(v, v.len() as int, dev);
    let places = entered_places(v, v.len() as int, dev);
    assert forall|k: int| 0 <= k < r.descend@.len() implies (#[trigger] r.descend@[k]) < v.len() && (
    v[r.descend@[k] as int] matches Entry::Directory { path: _, dev: d } && d == Some(dev)) by {
        assert(r.descend@.map_values(|i: usize| i as int)[k] == r.descend@[k] as int);
        assert(places[k] == r.descend@[k]);
    }
}

/// Whether there is anything to scan: something that could be looked at and is a
/// directory.
pub open spec fn scannable(is_dir: Option<bool>) -> bool {
    is_dir == Some(true)
}

/// Whether a path can be the root of a scan, from what looking at it gave.
pub fn can_scan(is_dir: Option<bool>) -> (r: bool)
    ensures
        r == scannable(is_dir),
{
    match is_dir {
        Some(d) => d,
        None => false,
    }
}

/// The outcome of a scan of `path`, from what looking at it gave and what scanning
/// it came to: the scanned directory, going by its full path.
pub fn scan_root(path: &str, is_dir: Option<bool>, scanned: Option<LocalNode>) -> (r: Option<
    LocalNode,
>)
    ensures
        r is Some <==> scannable(is_dir) && scanned is Some,
        r is Some ==> r->0.name@ == path@ && r->0.size == scanned->0.size && r->0.files
            == scanned->0.files && r->0.is_dir == scanned->0.is_dir && r->0.children
            == scanned->0.children,
        r is Some && weighed(scanned->0) ==> weighed(r->0),
{
    if !can_scan(is_dir) {
        return None;
    }
    match scanned {
        Some(n) => Some(
            LocalNode {
                name: path.to_owned(),
                size: n.size,
                files: n.files,
                is_dir: n.is_dir,
                children: n.children,
            },
        ),
        None => None,
    }
}

/// The files stand for the entries at `places`, in their order: every leaf has one,
/// with its name and its size to the last byte, or no size where none could be told.
pub open spec fn files_stand_for(
    files: Seq<LocalNode>,
    v: Seq<Entry>,
    places: Seq<int>,
) -> bool {
    &&& places.len() == files.len()
    &&& forall|k: int| 0 <= k < places.len() ==> 0 <= #[trigger] places[k] < v.len()
    &&& forall|a: int, b: int|
        0 <= a < b < places.len() ==> #[trigger] places[a] < #[trigger] places[b]
    &&& forall|k: int|
        0 <= k < files.len() ==> v[places[k]] is Leaf && (#[trigger] files[k]).name
            == v[places[k]]->Leaf_name && match v[places[k]]->size {
            Some(s) => files[k].size == s,
            None => files[k].size == 0,
        } && files[k].files == 1 && !files[k].is_dir && files[k].children@.len() == 0
    &&& forall|i: int| 0 <= i < v.len() && (#[trigger] v[i]) is Leaf ==> places.contains(i)
}

proof fn lemma_leaves_in_order(v: Seq<Entry>, i: int)
    requires
        0 <= i <= v.len(),
    ensures
        leaf_places(v, i).len() == count_where(i, |k: int| v[k] is Leaf),
        forall|k: int|
            0 <= k < leaf_places(v, i).len() ==> 0 <= #[trigger] leaf_places(v, i)[k] < i
                && v[leaf_places(v, i)[k]] is Leaf,
        forall|a: int, b: int|
            0 <= a < b < leaf_places(v, i).len() ==> #[trigger] leaf_places(v, i)[a]
                < #[trigger] leaf_places(v, i)[b],
        forall|k: int| 0 <= k < i && (#[trigger] v[k]) is Leaf ==> leaf_places(v, i).contains(k),
    decreases i,
{
    if i > 0 {
        lemma_leaves_in_order(v, i - 1);
        let rest = leaf_places(v, i - 1);
        let all = leaf_places(v, i);
        assert forall|k: int| 0 <= k < all.len() implies 0 <= #[trigger] all[k] < i
            && v[all[k]] is Leaf by {
            if k < rest.len() {
                assert(all[k] == rest[k]);
            }
        }
        assert forall|a: int, b: int| 0 <= a < b < all.len() implies #[trigger] all[a]
            < #[trigger] all[b] by {
            assert(all[a] == rest[a]);
            if b < rest.len() {
                assert(all[b] == rest[b]);
            }
        }
        assert forall|k: int| 0 <= k < i && (#[trigger] v[k]) is Leaf implies all.contains(k) by {
            if k == i - 1 {
                assert(all[all.len() - 1] == k);
            } else {
                assert(rest.contains(k));
                let x = choose|x: int| 0 <= x < rest.len() && rest[x] == k;
                assert(all[x] == k);
            }
        }
    }
}

proof fn lemma_entered_in_order(v: Seq<Entry>, i: int, dev: u64)
    requires
        0 <= i <= v.len(),
    ensures
        forall|k: int|
            0 <= k < entered_places(v, i, dev).len() ==> 0 <= #[trigger] entered_places(v, i, dev)[k]
                < i && v[entered_places(v, i, dev)[k]] is Directory
                && v[entered_places(v, i, dev)[k]]->dev == Some(dev),
        forall|a: int, b: int|
            0 <= a < b < entered_places(v, i, dev).len() ==> #[trigger] entered_places(v, i, dev)[a]
                < #[trigger] entered_places(v, i, dev)[b],
        forall|k: int|
            0 <= k < i && (#[trigger] v[k]) is Directory && v[k]->dev == Some(dev)
                ==> entered_places(v, i, dev).contains(k),
    decreases i,
{
    if i > 0 {
        lemma_entered_in_order(v, i - 1, dev);
        let rest = entered_places(v, i - 1, dev);
        let all = entered_places(v, i, dev);
        assert forall|k: int| 0 <= k < all.len() implies 0 <= #[trigger] all[k] < i
            && v[all[k]] is Directory && v[all[k]]->dev == Some(dev) by {
            if k < rest.len() {
                assert(all[k] == rest[k]);
            }
        }
        assert forall|a: int, b: int| 0 <= a < b < all.len() implies #[trigger] all[a]
            < #[trigger] all[b] by {
            assert(all[a] == rest[a]);
            if b < rest.len() {
                assert(all[b] == rest[b]);
            }
        }
        assert forall|k: int|
            0 <= k < i && (#[trigger] v[k]) is Directory && v[k]->dev == Some(
                dev,
            ) implies all.contains(k) by {
            if k == i - 1 {
                assert(all[all.len() - 1] == k);
            } else {
                assert(rest.contains(k));
                let x = choose|x: int| 0 <= x < rest.len() && rest[x] == k;
                assert(all[x] == k);
            }
        }
    }
}

/// A listing hands on every leaf as one file of its own size, and goes down into every
/// directory of the file system at hand and into nothing else, all in the order of the
/// entries.
pub proof fn listing_hands_on_every_leaf(v: Seq<Entry>, dev: u64, r: Listing)
    requires
        lists(v, dev, r),
    ensures
        exists|places: Seq<int>| #[trigger] files_stand_for(r.files@, v, places),
        r.files@.len() == count_where(v.len() as int, |i: int| v[i] is Leaf),
        forall|k: int|
            0 <= k < r.descend@.len() ==> (#[trigger] r.descend@[k]) < v.len()
                && v[r.descend@[k] as int] is Directory && v[r.descend@[k] as int]->dev == Some(dev),
        forall|a: int, b: int|
            0 <= a < b < r.descend@.len() ==> (#[trigger] r.descend@[a]) < (#[trigger] r.descend@[b]),
        forall|i: int|
            0 <= i < v.len() && (#[trigger] v[i]) is Directory && v[i]->dev == Some(dev)
                ==> exists|k: int| 0 <= k < r.descend@.len() && (#[trigger] r.descend@[k]) == i,
{
    let n = v.len() as int;
    let places = leaf_places(v, n);
    lemma_leaves_in_order(v, n);
    lemma_entered_in_order(v, n, dev);
    assert forall|k: int| 0 <= k < r.files@.len() implies v[places[k]] is Leaf && (
    #[trigger] r.files@[k]).name == v[places[k]]->Leaf_name && match v[places[k]]->size {
        Some(s) => r.files@[k].size == s,
        None => r.files@[k].size == 0,
    } && r.files@[k].files == 1 && !r.files@[k].is_dir && r.files@[k].children@.len() == 0 by {
        assert(is_leaf_node(v[places[k]], r.files@[k]));
    }
    assert(files_stand_for(r.files@, v, places));
    let down = entered_places(v, n, dev);
    assert(r.descend@.map_values(|i: usize| i as int).len() == r.descend@.len());
    assert forall|k: int| 0 <= k < r.descend@.len() implies (#[trigger] r.descend@[k]) == down[k] by {
        assert(r.descend@.map_values(|i: usize| i as int)[k] == r.descend@[k] as int);
    }
    assert forall|i: int|
        0 <= i < v.len() && (#[trigger] v[i]) is Directory && v[i]->dev == Some(
            dev,
        ) implies exists|k: int| 0 <= k < r.descend@.len() && (#[trigger] r.descend@[k]) == i by {
        assert(down.contains(i));
        let k = choose|k: int| 0 <= k < down.len() && down[k] == i;
        assert(r.descend@[k] == i);
    }
}

/// Whether an entry cannot be told what it is, or where a directory lies.
pub open spec fn unreadable(e: Entry) -> bool {
    e is Unread || e is Untyped || (e is Directory && e->dev is None)
}

/// The path that an unreadable entry is noted under: its own, where it has one.
pub open spec fn noted_under(e: Entry, dir: Seq<char>) -> Seq<char> {
    match e {
        Entry::Untyped { path } => path@,
        Entry::Directory { path, dev: _ } => path@,
        _ => dir,
    }
}

/// What a listing does to the counters: every leaf adds one file and its bytes, every
/// unreadable entry adds one error, and nothing else moves.
pub proof fn listing_moves_the_counters(
    v: Seq<Entry>,
    dir: Seq<char>,
    steps: Seq<Progress>,
    i: int,
)
    requires
        noted_in_turn(v, dir, steps),
        0 <= i <= v.len(),
    ensures
        steps[i].files == (steps[0].files + count_where(i, |k: int| v[k] is Leaf))
            % 0x1_0000_0000_0000_0000,
        steps[i].bytes == (steps[0].bytes + sum_where(
            i,
            |k: int| v[k] is Leaf && v[k]->size is Some,
            |k: int| v[k]->size->0 as nat,
        )) % 0x1_0000_0000_0000_0000,
        steps[i].errors == (steps[0].errors + count_where(i, |k: int| unreadable(v[k])))
            % 0x1_0000_0000_0000_0000,
        steps[i].dirs == steps[0].dirs,
        steps[i].scanning == steps[0].scanning,
        steps[i].cancel == steps[0].cancel,
        steps[i].current == steps[0].current,
    decreases i,
{
    if i > 0 {
        listing_moves_the_counters(v, dir, steps, i - 1);
        assert(noted(v[i - 1], dir, steps[i - 1], steps[i - 1 + 1]));
    }
}

/// What could not be read is remembered by its path, in the order in which it was met,
/// the first fifty of them; what was remembered before stays.
pub proof fn listing_remembers_the_unreadable(
    v: Seq<Entry>,
    dir: Seq<char>,
    steps: Seq<Progress>,
    i: int,
)
    requires
        noted_in_turn(v, dir, steps),
        steps[0].err_paths@.len() <= 50,
        0 <= i <= v.len(),
    ensures
        steps[i].err_paths@.len() == if steps[0].err_paths@.len() + count_where(
            i,
            |k: int| unreadable(v[k]),
        ) <= 50 {
            steps[0].err_paths@.len() + count_where(i, |k: int| unreadable(v[k]))
        } else {
            50
        },
        forall|k: int|
            0 <= k < steps[0].err_paths@.len() ==> (#[trigger] steps[i].err_paths@[k])
                == steps[0].err_paths@[k],
        forall|k: int|
            0 <= k < i && unreadable(#[trigger] v[k]) && steps[0].err_paths@.len() + count_where(
                k,
                |j: int| unreadable(v[j]),
            ) < 50 ==> steps[i].err_paths@[(steps[0].err_paths@.len() + count_where(
                k,
                |j: int| unreadable(v[j]),
            )) as int]@ == noted_under(v[k], dir),
    decreases i,
{
    if i > 0 {
        listing_remembers_the_unreadable(v, dir, steps, i - 1);
        assert(noted(v[i - 1], dir, steps[i - 1], steps[i - 1 + 1]));
        let p = steps[i - 1].err_paths@;
        let q = steps[i].err_paths@;
        let bad = |k: int| unreadable(v[k]);
        let base = steps[0].err_paths@.len();
        lemma_paths_kept(v[i - 1], dir, steps[i - 1], steps[i]);
        assert(count_where(i, bad) == count_where(i - 1, bad) + if unreadable(v[i - 1]) {
            1nat
        } else {
            0
        });
        assert forall|k: int|
            0 <= k < i && unreadable(#[trigger] v[k]) && base + count_where(k, bad)
                < 50 implies q[(base + count_where(k, bad)) as int]@ == noted_under(v[k], dir) by {
            if k < i - 1 {
                lemma_sum_grows(k + 1, i - 1, bad);
                assert(count_where(k + 1, bad) == count_where(k, bad) + 1);
                let x = (base + count_where(k, bad)) as int;
                assert(x < p.len());
                assert(q[x] == p[x]);
            }
        }
    }
}

/// One entry leaves the remembered paths alone, or adds one where there is room.
proof fn lemma_paths_kept(e: Entry, dir: Seq<char>, a: Progress, b: Progress)
    requires
        noted(e, dir, a, b),
    ensures
        forall|k: int|
            0 <= k < a.err_paths@.len() ==> (#[trigger] b.err_paths@[k]) == a.err_paths@[k],
        b.err_paths@.len() == a.err_paths@.len() + if unreadable(e) && a.err_paths@.len() < 50 {
            1int
        } else {
            0
        },
        unreadable(e) && a.err_paths@.len() < 50 ==> b.err_paths@[a.err_paths@.len() as int]@
            == noted_under(e, dir),
{
    let p = a.err_paths@;
    let q = b.err_paths@;
    assert forall|k: int| 0 <= k < p.len() implies #[trigger] q[k] == p[k] by {
        if unreadable(e) && p.len() < 50 {
            assert(q.take(p.len() as int)[k] == p[k]);
        }
    }
}

proof fn lemma_sum_grows(a: int, b: int, p: spec_fn(int) -> bool)
    requires
        a <= b,
    ensures
        count_where(a, p) <= count_where(b, p),
    decreases b - a,
{
    if a < b {
        lemma_sum_grows(a, b - 1, p);
        reveal_with_fuel(sum_where, 2);
    }
}

/// Entering a directory counts it, shows it as the current one down to the fifth level
/// and once in every 512, and does nothing else.
pub proof fn entering_counts_a_directory(p: Progress, path: Seq<char>, depth: u32, q: Progress)
    requires
        with_dir(p, path, depth, q),
    ensures
        q.dirs == (p.dirs + 1) % 0x1_0000_0000_0000_0000,
        depth <= 4 || p.dirs % 512 == 0 ==> q.current@ == path,
        depth > 4 && p.dirs % 512 != 0 ==> q.current@ == p.current@,
        q.files == p.files,
        q.bytes == p.bytes,
        q.errors == p.errors,
        q.err_paths == p.err_paths,
        q.scanning == p.scanning,
        q.cancel == p.cancel,
{
}

/// A directory weighs what its files and directories weigh together, holds them all and
/// nothing else, and none of them stands behind a lighter one.
pub proof fn directory_holds_what_was_found(n: LocalNode, name: Seq<char>, kids: Seq<LocalNode>)
    requires
        holds_children(n, name, kids),
    ensures
        n.name@ == name,
        n.is_dir,
        n.children@.len() == kids.len(),
        forall|x: LocalNode| #[trigger] n.children@.contains(x) <==> kids.contains(x),
        n.children@.to_multiset() == kids.to_multiset(),
        forall|i: int, j: int|
            0 <= i < j < n.children@.len() ==> (#[trigger] n.children@[i]).size >= (
            #[trigger] n.children@[j]).size,
        n.size == sum_where(kids.len() as int, |k: int| true, |k: int| kids[k].size as nat),
        n.files == sum_where(kids.len() as int, |k: int| true, |k: int| kids[k].files as nat),
{
    lemma_rearranged(kids, n.children@);
    assert forall|i: int, j: int| 0 <= i < j < n.children@.len() implies (
    #[trigger] n.children@[i]).size >= (#[trigger] n.children@[j]).size by {
        assert(n.children@[i].heft() >= n.children@[j].heft());
    }
    lemma_sum_by_index(kids, |m: LocalNode| m.size as nat, |k: int| kids[k].size as nat);
    lemma_sum_by_index(kids, |m: LocalNode| m.files as nat, |k: int| kids[k].files as nat);
}

proof fn lemma_sum_by_index(
    s: Seq<LocalNode>,
    f: spec_fn(LocalNode) -> nat,
    w: spec_fn(int) -> nat,
)
    requires
        forall|k: int| 0 <= k < s.len() ==> f(#[trigger] s[k]) == w(k),
    ensures
        seq_sum(s, f) == sum_where(s.len() as int, |k: int| true, w),
    decreases s.len(),
{
    if s.len() > 0 {
        let r = s.drop_last();
        assert forall|k: int| 0 <= k < r.len() implies f(#[trigger] r[k]) == w(k) by {
            assert(r[k] == s[k]);
        }
        lemma_sum_by_index(r, f, w);
        assert(f(s[s.len() - 1]) == w(s.len() - 1));
    }
}

/// What cannot be read is counted, and its path is remembered while fewer than fifty are;
/// nothing else changes.
pub proof fn error_is_counted_and_remembered(p: Progress, path: Seq<char>, q: Progress)
    requires
        with_error(p, path, q),
    ensures
        q.errors == (p.errors + 1) % 0x1_0000_0000_0000_0000,
        p.err_paths@.len() < 50 ==> q.err_paths@.len() == p.err_paths@.len() + 1
            && q.err_paths@.last()@ == path && q.err_paths@.drop_last() == p.err_paths@,
        p.err_paths@.len() >= 50 ==> q.err_paths@ == p.err_paths@,
        q.files == p.files,
        q.dirs == p.dirs,
        q.bytes == p.bytes,
        q.scanning == p.scanning,
        q.cancel == p.cancel,
        q.current == p.current,
{
    if p.err_paths@.len() < 50 {
        assert(q.err_paths@.drop_last() == q.err_paths@.take(p.err_paths@.len() as int));
    }
}

/// Only what could be looked at and is a directory can be scanned.
pub proof fn only_directories_are_scanned(is_dir: bool)
    ensures
        scannable(Some(is_dir)) <==> is_dir,
        !scannable(None),
{
}

/// Progress starts at nothing, goes back to nothing when it is reset, whatever runs then, and
/// a cancelled scan enters nothing more; any other counts each directory it enters.
pub proof fn progress_starts_at_nothing(
    p: Progress,
    q: &mut Progress,
    r: &mut Progress,
    path: &str,
    depth: u32,
    go: bool,
    s: &mut Progress,
)
    requires
        call_ensures(Progress::new, (), p),
        call_ensures(Progress::reset, (q,), ()),
        call_ensures(Progress::enter, (r, path, depth), go),
        call_ensures(Progress::note_err, (s, path), ()),
    ensures
        p.files == 0 && p.dirs == 0 && p.bytes == 0 && p.errors == 0,
        p.err_paths@.len() == 0 && p.current@.len() == 0 && !p.scanning && !p.cancel,
        final(q).files == 0 && final(q).dirs == 0 && final(q).bytes == 0 && final(q).errors == 0,
        final(q).err_paths@.len() == 0 && final(q).current@.len() == 0 && !final(q).cancel,
        final(q).scanning == old(q).scanning,
        go <==> !old(r).cancel,
        go ==> with_dir(*old(r), path@, depth, *final(r)),
        !go ==> *final(r) == *old(r),
        with_error(*old(s), path@, *final(s)),
{
}

/// A listing comes to what its entries are, and moves the progress over them one after the
/// other.
pub proof fn listing_comes_to_its_entries(
    p: &mut Progress,
    dir: &str,
    dev: u64,
    entries: Vec<Entry>,
    r: Listing,
)
    requires
        call_ensures(Progress::list, (p, dir, dev, entries), r),
    ensures
        lists(entries@, dev, r),
        exists|places: Seq<int>| #[trigger] files_stand_for(r.files@, entries@, places),
        exists|steps: Seq<Progress>|
            noted_in_turn(entries@, dir@, steps) && #[trigger] steps[0] == *old(p) && steps.last()
                == *final(p),
{
    listing_hands_on_every_leaf(entries@, dev, r);
}

/// What cannot be listed is an empty directory and an error. A directory is put together
/// from what was found in it, unless the scan was cancelled; the root of a scan goes by its
/// path, where it is a directory at all.
pub proof fn directories_are_put_together(
    p: &mut Progress,
    path: &str,
    name: String,
    n: LocalNode,
    cancelled: bool,
    files: Vec<LocalNode>,
    scanned: Vec<LocalNode>,
    made: Option<LocalNode>,
    is_dir: Option<bool>,
    found: Option<LocalNode>,
    root: Option<LocalNode>,
)
    requires
        !cancelled ==> bytes_of(files@ + scanned@) <= u64::MAX,
        !cancelled ==> files_of(files@ + scanned@) <= u32::MAX,
        call_ensures(Progress::unlisted, (p, path, name), n),
        call_ensures(finish_dir, (cancelled, name, files, scanned), made),
        call_ensures(scan_root, (path, is_dir, found), root),
    ensures
        with_error(*old(p), path@, *final(p)),
        n.name == name && n.size == 0 && n.files == 0 && n.is_dir && n.children@.len() == 0,
        made is None <==> cancelled,
        made is Some ==> holds_children(made->0, name@, files@ + scanned@),
        root is Some <==> is_dir == Some(true) && found is Some,
        root is Some ==> root->0.name@ == path@ && root->0.size == found->0.size && root->0.files
            == found->0.files && root->0.is_dir == found->0.is_dir && root->0.children
            == found->0.children,
{
}

/// What was found fits a directory's counters where its bytes fit 64 bits and its files 32,
/// and something can be scanned where it was seen to be a directory.
pub proof fn counters_are_checked(
    files: Vec<LocalNode>,
    scanned: Vec<LocalNode>,
    fit: bool,
    is_dir: Option<bool>,
    can: bool,
)
    requires
        call_ensures(sums_fit, (&files, &scanned), fit),
        call_ensures(can_scan, (is_dir,), can),
    ensures
        fit <==> seq_sum(files@ + scanned@, |m: LocalNode| m.size as nat) <= 0xFFFF_FFFF_FFFF_FFFF
            && seq_sum(files@ + scanned@, |m: LocalNode| m.files as nat) <= 0xFFFF_FFFF,
        can <==> is_dir == Some(true),
{
}

} // verus!
