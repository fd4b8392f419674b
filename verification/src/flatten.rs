//! From the tree that a scan builds to the arena that everything else works on.

use crate::kinds::{kind, kind_of};
use crate::largest::{files_of, is_living_file, lemma_holds_same, lemma_names_largest,
    lemma_none_is_largest, lemma_top_holds_largest, offer, top_from};
use crate::order::{lemma_rearranged, sort_heaviest_first, Ranked};
use crate::store::{is_child, linked, ExtStat, Node, Store, EXT_DIR, SLOT_OTHER};
use crate::tree::{forest_count, kids_before, lemma_level_order_places, level_order, node_count,
    LocalNode};
use std::collections::VecDeque;
use vstd::hash_map::StringHashMap;
use vstd::prelude::*;

verus! {

/// How many file types get a color slot of their own.
pub const SLOTS: usize = 8;

/// Whether node `i` of the level order `l` is a file. The root never is.
pub open spec fn is_file(l: Seq<LocalNode>, i: int) -> bool {
    i > 0 && !l[i].is_dir
}

/// Where the children of node `i` start.
pub open spec fn first_of(l: Seq<LocalNode>, i: int) -> int {
    1 + kids_before(l, i) as int
}

/// The file types among the first `i` nodes, in order of first appearance.
pub open spec fn kinds_seen(l: Seq<LocalNode>, i: int) -> Seq<Seq<char>>
    decreases i,
{
    if i <= 0 {
        Seq::empty()
    } else {
        let t = kinds_seen(l, i - 1);
        let k = kind_of(l[i - 1].name@);
        if is_file(l, i - 1) && !t.contains(k) {
            t.push(k)
        } else {
            t
        }
    }
}

/// The type index of file `i`: its type's place in the table, in sixteen bits.
pub open spec fn kind_id(l: Seq<LocalNode>, i: int) -> int {
    kinds_seen(l, i + 1).index_of(kind_of(l[i].name@)) % 0x10000
}

/// The bytes in the files of type `e` among the first `i` nodes.
pub open spec fn kind_bytes(l: Seq<LocalNode>, i: int, e: int) -> nat
    decreases i,
{
    if i <= 0 {
        0
    } else if is_file(l, i - 1) && kind_id(l, i - 1) == e {
        kind_bytes(l, i - 1, e) + l[i - 1].size as nat
    } else {
        kind_bytes(l, i - 1, e)
    }
}

/// The number of files of type `e` among the first `i` nodes.
pub open spec fn kind_files(l: Seq<LocalNode>, i: int, e: int) -> nat
    decreases i,
{
    if i <= 0 {
        0
    } else if is_file(l, i - 1) && kind_id(l, i - 1) == e {
        kind_files(l, i - 1, e) + 1
    } else {
        kind_files(l, i - 1, e)
    }
}

/// The bytes in all files among the first `i` nodes.
pub open spec fn file_bytes(l: Seq<LocalNode>, i: int) -> nat
    decreases i,
{
    if i <= 0 {
        0
    } else if is_file(l, i - 1) {
        file_bytes(l, i - 1) + l[i - 1].size as nat
    } else {
        file_bytes(l, i - 1)
    }
}

/// The largest files among the first `i` nodes with their sizes, largest first.
pub open spec fn top_files(l: Seq<LocalNode>, i: int) -> Seq<(u64, u32)> {
    top_from(Seq::empty(), i, |k: int| is_file(l, k), |k: int| l[k].size)
}

/// Node `n` carries what node `i` of the level order says, apart from its place
/// in the tree.
pub open spec fn carries(l: Seq<LocalNode>, i: int, n: Node) -> bool {
    &&& n.name@ == l[i].name@
    &&& n.size == l[i].size
    &&& n.files == l[i].files
    &&& n.is_dir == !is_file(l, i)
    &&& n.ext == if is_file(l, i) {
        kind_id(l, i)
    } else {
        EXT_DIR as int
    }
    &&& n.alive
}

/// Node `n` names the children that node `i` of the level order has.
pub open spec fn names_children(l: Seq<LocalNode>, i: int, n: Node) -> bool {
    let count = l[i].children@.len();
    &&& n.child_count == count
    &&& n.first_child == if i == 0 || count > 0 {
        first_of(l, i)
    } else {
        0
    }
}

/// Whether one of the first `m` types wears slot `s`.
pub open spec fn slot_worn(exts: Seq<ExtStat>, m: int, s: int) -> bool {
    exists|e: int| 0 <= e < m && (#[trigger] exts[e]).slot == s
}

/// The slots of a table of file types: the heaviest of the first `m` types wear
/// the slots from 0 on, heavier ones lower slots, as far as the slots go; all the
/// rest wear [`SLOT_OTHER`].
pub open spec fn slots_by_weight(exts: Seq<ExtStat>, m: int) -> bool {
    let used = if m < SLOTS {
        m
    } else {
        SLOTS as int
    };
    &&& forall|e: int|
        0 <= e < exts.len() ==> (#[trigger] exts[e]).slot == SLOT_OTHER || (e < m && exts[e].slot
            < used)
    &&& forall|s: int| 0 <= s < used ==> #[trigger] slot_worn(exts, m, s)
    &&& forall|a: int, b: int|
        0 <= a < m && 0 <= b < m && (#[trigger] exts[a]).slot < (#[trigger] exts[b]).slot
            ==> exts[a].bytes >= exts[b].bytes
    &&& forall|a: int, b: int|
        0 <= a < m && 0 <= b < m && a != b && (#[trigger] exts[a]).slot == (
        #[trigger] exts[b]).slot ==> exts[a].slot == SLOT_OTHER
}

/// The arena grown so far, without the links between its nodes.
struct Builder {
    nodes: Vec<Node>,
    places: StringHashMap<u16>,
    exts: Vec<ExtStat>,
    top: Vec<(u64, u32)>,
}

impl Builder {
    /// The first `m` nodes of `l` have been taken in.
    spec fn holds(&self, l: Seq<LocalNode>, m: int) -> bool {
        &&& self.nodes@.len() == m
        &&& forall|i: int| 0 <= i < m ==> carries(l, i, #[trigger] self.nodes@[i])
        &&& self.table_holds(l, m)
        &&& self.top@ == top_files(l, m)
    }

    spec fn table_holds(&self, l: Seq<LocalNode>, m: int) -> bool {
        let t = kinds_seen(l, m);
        &&& self.exts@.len() == t.len()
        &&& forall|e: int|
            0 <= e < t.len() ==> (#[trigger] self.exts@[e]).name@ == t[e] && self.exts@[e].bytes
                == kind_bytes(l, m, e) && self.exts@[e].files == kind_files(l, m, e)
                && self.exts@[e].slot == SLOT_OTHER
        &&& forall|k: Seq<char>| #[trigger] self.places@.contains_key(k) <==> t.contains(k)
        &&& forall|e: int| 0 <= e < t.len() ==> self.places@[#[trigger] t[e]] == e % 0x10000
    }
}

proof fn lemma_kinds_distinct(l: Seq<LocalNode>, i: int)
    ensures
        kinds_seen(l, i).no_duplicates(),
    decreases i,
{
    if i > 0 {
        lemma_kinds_distinct(l, i - 1);
    }
}

proof fn lemma_kinds_grow(l: Seq<LocalNode>, i: int, j: int)
    requires
        i <= j,
    ensures
        kinds_seen(l, i).len() <= kinds_seen(l, j).len(),
        forall|e: int|
            0 <= e < kinds_seen(l, i).len() ==> #[trigger] kinds_seen(l, j)[e] == kinds_seen(
                l,
                i,
            )[e],
    decreases j - i,
{
    if i < j {
        lemma_kinds_grow(l, i, j - 1);
        reveal_with_fuel(kinds_seen, 2);
    }
}

proof fn lemma_kind_bytes_bounded(l: Seq<LocalNode>, i: int, e: int)
    ensures
        kind_bytes(l, i, e) <= file_bytes(l, i),
        kind_files(l, i, e) <= if i > 0 {
            i
        } else {
            0
        },
    decreases i,
{
    if i > 0 {
        lemma_kind_bytes_bounded(l, i - 1, e);
    }
}

proof fn lemma_file_bytes_grow(l: Seq<LocalNode>, i: int, j: int)
    requires
        i <= j,
    ensures
        file_bytes(l, i) <= file_bytes(l, j),
    decreases j - i,
{
    if i < j {
        lemma_file_bytes_grow(l, i, j - 1);
        reveal_with_fuel(file_bytes, 2);
    }
}

/// Nothing is counted under an index that no type has yet.
proof fn lemma_kind_bytes_unseen(l: Seq<LocalNode>, i: int, e: int)
    requires
        e >= kinds_seen(l, i).len(),
    ensures
        kind_bytes(l, i, e) == 0,
        kind_files(l, i, e) == 0,
    decreases i,
{
    if i > 0 {
        lemma_kinds_grow(l, i - 1, i);
        lemma_kind_bytes_unseen(l, i - 1, e);
        if is_file(l, i - 1) {
            lemma_kind_id(l, i - 1);
        }
    }
}

/// A file's type is in the table from then on, and its index is that place.
proof fn lemma_kind_id(l: Seq<LocalNode>, i: int)
    requires
        is_file(l, i),
    ensures
        kinds_seen(l, i + 1).contains(kind_of(l[i].name@)),
        0 <= kinds_seen(l, i + 1).index_of(kind_of(l[i].name@)) < kinds_seen(l, i + 1).len(),
        kinds_seen(l, i + 1)[kinds_seen(l, i + 1).index_of(kind_of(l[i].name@))] == kind_of(
            l[i].name@,
        ),
        0 <= kind_id(l, i) < kinds_seen(l, i + 1).len(),
        kind_id(l, i) < 0x10000,
{
    let t = kinds_seen(l, i + 1);
    let k = kind_of(l[i].name@);
    if !kinds_seen(l, i).contains(k) {
        assert(t[t.len() - 1] == k);
    }
    assert(t.contains(k));
    let at = t.index_of(k);
    assert(0 <= at % 0x10000 <= at) by (nonlinear_arith)
        requires
            0 <= at,
    ;
}

fn low_bits(n: usize) -> (r: u16)
    ensures
        r == n % 0x10000,
{
    let w: u64 = n as u64;
    assert(w as u16 == w % 0x10000) by (bit_vector);
    w as u16
}

impl Builder {
    fn new() -> (b: Builder)
        ensures
            b.nodes@.len() == 0,
            b.exts@.len() == 0,
            b.places@ == Map::<Seq<char>, u16>::empty(),
            b.top@.len() == 0,
    {
        Builder {
            nodes: Vec::new(),
            places: StringHashMap::new(),
            exts: Vec::new(),
            top: Vec::new(),
        }
    }

    /// Counts one more file, number `m` of `l`, under its type.
    fn count_kind(&mut self, name: &str, size: u64, Ghost(l): Ghost<Seq<LocalNode>>, Ghost(
        m,
    ): Ghost<int>) -> (eid: u16)
        requires
            old(self).table_holds(l, m),
            0 < m < l.len() <= u32::MAX,
            is_file(l, m),
            l[m].name@ == name@,
            l[m].size == size,
            file_bytes(l, l.len() as int) <= u64::MAX,
        ensures
            final(self).table_holds(l, m + 1),
            final(self).nodes == old(self).nodes,
            final(self).top == old(self).top,
            eid == kind_id(l, m),
    {
        let k = kind(name);
        let ghost t = kinds_seen(l, m);
        let ghost t1 = kinds_seen(l, m + 1);
        proof {
            lemma_kinds_distinct(l, m);
            lemma_kinds_distinct(l, m + 1);
            lemma_kind_id(l, m);
            lemma_kinds_grow(l, m, m + 1);
        }
        let eid: u16;
        if self.places.contains_key(k.as_str()) {
            eid = *self.places.get(k.as_str()).unwrap();
            assert(t1 == t);
        } else {
            eid = low_bits(self.exts.len());
            proof {
                lemma_kind_bytes_unseen(l, m, t.len() as int);
            }
            self.exts.push(
                ExtStat { name: k.clone(), bytes: 0, files: 0, slot: SLOT_OTHER },
            );
            self.places.insert(k, eid);
            assert(t1 == t.push(kind_of(name@)));
            assert(t1[t.len() as int] == kind_of(name@));
            assert(t1.index_of(kind_of(name@)) == t.len());
            assert forall|q: Seq<char>| #[trigger] self.places@.contains_key(q) implies t1.contains(
                q,
            ) by {
                if q != kind_of(name@) {
                    assert(t.contains(q));
                    let e = choose|e: int| 0 <= e < t.len() && t[e] == q;
                    assert(t1[e] == q);
                }
            }
            assert forall|q: Seq<char>| #[trigger] t1.contains(q) implies self.places@.contains_key(
                q,
            ) by {
                if q != kind_of(name@) {
                    let e = choose|e: int| 0 <= e < t1.len() && t1[e] == q;
                    assert(t[e] == q);
                    assert(t.contains(q));
                }
            }
            assert forall|e: int| 0 <= e < t1.len() implies self.places@[#[trigger] t1[e]] == e
                % 0x10000 by {
                if e < t.len() {
                    assert(t1[e] == t[e]);
                }
            }
        }
        assert(eid == kind_id(l, m));
        let ghost before = self.exts@;
        let ix: usize = eid as usize;
        proof {
            lemma_kind_bytes_bounded(l, m + 1, eid as int);
            lemma_file_bytes_grow(l, m + 1, l.len() as int);
        }
        let seen = self.exts[ix].files;
        let held = self.exts[ix].bytes;
        self.exts[ix].bytes = held + size;
        self.exts[ix].files = seen + 1;
        proof {
            assert forall|e: int| 0 <= e < t1.len() implies (#[trigger] self.exts@[e]).name@ == t1[e]
                && self.exts@[e].bytes == kind_bytes(l, m + 1, e) && self.exts@[e].files
                == kind_files(l, m + 1, e) && self.exts@[e].slot == SLOT_OTHER by {
                assert(before[e].name@ == t1[e]);
            }
        }
        eid
    }

    /// Takes in node `m` of `l`, a child of `parent`.
    fn take_in(
        &mut self,
        name: String,
        size: u64,
        files: u32,
        is_dir: bool,
        parent: u32,
        Ghost(l): Ghost<Seq<LocalNode>>,
        Ghost(m): Ghost<int>,
    )
        requires
            old(self).holds(l, m),
            0 < m < l.len() <= u32::MAX,
            l[m].name@ == name@,
            l[m].size == size,
            l[m].files == files,
            l[m].is_dir == is_dir,
            file_bytes(l, l.len() as int) <= u64::MAX,
        ensures
            final(self).holds(l, m + 1),
            final(self).nodes@.drop_last() == old(self).nodes@,
            final(self).nodes@[m].parent == parent,
            final(self).nodes@[m].first_child == 0,
            final(self).nodes@[m].child_count == 0,
    {
        let id: u32 = self.nodes.len() as u32;
        let ext: u16;
        if is_dir {
            ext = EXT_DIR;
            assert(kinds_seen(l, m + 1) == kinds_seen(l, m));
        } else {
            ext = self.count_kind(name.as_str(), size, Ghost(l), Ghost(m));
            offer(&mut self.top, (size, id));
        }
        self.nodes.push(
            Node {
                name,
                size,
                parent,
                first_child: 0,
                child_count: 0,
                files,
                ext,
                is_dir,
                alive: true,
            },
        );
        assert(self.nodes@.drop_last() == old(self).nodes@);
    }
}

/// Gives the heaviest types their slots.
fn assign_slots(exts: &mut Vec<ExtStat>)
    requires
        forall|e: int| 0 <= e < old(exts)@.len() ==> (#[trigger] old(exts)@[e]).slot == SLOT_OTHER,
    ensures
        final(exts)@.len() == old(exts)@.len(),
        forall|e: int|
            0 <= e < old(exts)@.len() ==> (#[trigger] final(exts)@[e]).name == old(exts)@[e].name
                && final(exts)@[e].bytes == old(exts)@[e].bytes && final(exts)@[e].files == old(
                exts,
            )@[e].files,
        slots_by_weight(final(exts)@, old(exts)@.len() as int % 0x10000),
{
    let m: u16 = low_bits(exts.len());
    let mut order: Vec<Ranked> = Vec::new();
    for e in 0..m
        invariant
            m <= exts@.len(),
            order@.len() == e,
            forall|k: int|
                0 <= k < e ==> (#[trigger] order@[k]).id == k && order@[k].weight
                    == exts@[k].bytes,
    {
        order.push(Ranked { weight: exts[e as usize].bytes, id: e as u32 });
    }
    let ghost base = order@;
    sort_heaviest_first(&mut order);
    proof {
        lemma_rearranged(base, order@);
        assert forall|a: int| 0 <= a < order@.len() implies (#[trigger] order@[a]).id < m
            && order@[a].weight == exts@[order@[a].id as int].bytes by {
            assert(order@.contains(order@[a]));
            assert(base.contains(order@[a]));
        }
    }
    let used: usize = if order.len() < SLOTS {
        order.len()
    } else {
        SLOTS
    };
    for s in 0..used
        invariant
            used <= SLOTS,
            used <= order@.len() == m,
            m <= old(exts)@.len() == exts@.len(),
            order@.no_duplicates(),
            forall|a: int|
                0 <= a < order@.len() ==> (#[trigger] order@[a]).id < m && order@[a].weight == old(
                    exts,
                )@[order@[a].id as int].bytes,
            forall|e: int|
                0 <= e < exts@.len() ==> (#[trigger] exts@[e]).name == old(exts)@[e].name
                    && exts@[e].bytes == old(exts)@[e].bytes && exts@[e].files == old(
                    exts,
                )@[e].files,
            forall|a: int| 0 <= a < s ==> exts@[(#[trigger] order@[a]).id as int].slot == a,
            forall|e: int|
                0 <= e < exts@.len() ==> (#[trigger] exts@[e]).slot == SLOT_OTHER || (exts@[e].slot
                    < s && order@[exts@[e].slot as int].id == e),
    {
        let ghost before = exts@;
        let e: usize = order[s].id as usize;
        exts[e].slot = s as u8;
        proof {
            assert forall|a: int| 0 <= a < s implies exts@[(#[trigger] order@[a]).id as int].slot
                == a by {
                if order@[a].id == e {
                    assert(order@[a] == order@[s as int]);
                }
            }
        }
    }
    proof {
        assert forall|q: int| 0 <= q < used implies #[trigger] slot_worn(exts@, m as int, q) by {
            assert(exts@[order@[q].id as int].slot == q);
        }
        assert forall|a: int, b: int|
            0 <= a < m && 0 <= b < m && (#[trigger] exts@[a]).slot < (
            #[trigger] exts@[b]).slot implies exts@[a].bytes >= exts@[b].bytes by {
            let x = exts@[a].slot as int;
            assert(order@[x].id == a);
            assert(base.contains(base[b]));
            assert(order@.contains(base[b]));
            let y = choose|y: int| 0 <= y < order@.len() && order@[y] == base[b];
            if y <= x {
                assert(exts@[order@[y].id as int].slot == y);
            }
            assert(order@[x].weight >= order@[y].weight);
        }
    }
}

/// How many directories a tree holds, as far as directories hold directories.
pub open spec fn dir_count(n: LocalNode) -> nat
    decreases n,
{
    1 + dirs_among(n.children@)
}

/// How many directories the directories among `s` hold, themselves included.
pub open spec fn dirs_among(s: Seq<LocalNode>) -> nat
    decreases s,
{
    if s.len() == 0 {
        0
    } else if s.last().is_dir {
        dirs_among(s.drop_last()) + dir_count(s.last())
    } else {
        dirs_among(s.drop_last())
    }
}

proof fn lemma_dirs_bounded(s: Seq<LocalNode>)
    ensures
        dirs_among(s) <= forest_count(s),
    decreases s,
{
    if s.len() > 0 {
        lemma_dirs_bounded(s.drop_last());
        lemma_dirs_bounded(s.last().children@);
        assert(forest_count(s) == forest_count(s.drop_last()) + node_count(s.last()));
        assert(node_count(s.last()) == 1 + forest_count(s.last().children@));
        assert(dir_count(s.last()) == 1 + dirs_among(s.last().children@));
    }
}

/// Counts the directories of a tree.
pub fn count_dirs(n: &LocalNode) -> (r: u64)
    requires
        node_count(*n) <= u64::MAX,
    ensures
        r == dir_count(*n),
    decreases *n,
{
    let mut total: u64 = 0;
    let kids = &n.children;
    assert(kids@.take(0) == Seq::<LocalNode>::empty());
    for i in 0..kids.len()
        invariant
            kids == n.children,
            node_count(*n) <= u64::MAX,
            total == dirs_among(kids@.take(i as int)),
    {
        let ghost upto = kids@.take(i + 1);
        proof {
            assert(upto.drop_last() == kids@.take(i as int));
            lemma_forest_prefix(kids@, i + 1);
            lemma_dirs_bounded(upto);
            assert(decreases_to!(*n => n.children@[i as int]));
        }
        if kids[i].is_dir {
            total = total + count_dirs(&kids[i]);
        }
    }
    proof {
        assert(kids@.take(kids@.len() as int) == kids@);
        lemma_dirs_bounded(kids@);
    }
    1 + total
}

proof fn lemma_forest_prefix(s: Seq<LocalNode>, i: int)
    requires
        0 <= i <= s.len(),
    ensures
        forest_count(s.take(i)) <= forest_count(s),
        i > 0 ==> node_count(s[i - 1]) <= forest_count(s),
    decreases s.len() - i,
{
    if i < s.len() {
        lemma_forest_prefix(s, i + 1);
        assert(s.take(i + 1).drop_last() == s.take(i));
    } else {
        assert(s.take(i) == s);
    }
    if i > 0 {
        assert(s.take(i).last() == s[i - 1]);
        assert(forest_count(s.take(i)) == forest_count(s.take(i).drop_last()) + node_count(
            s.take(i).last(),
        ));
    }
}

/// What the arena says of the tree it was made from: the nodes stand in level
/// order with their children in runs, the table lists the file types in order of
/// appearance with what their files add up to, the heaviest types wear the slots,
/// and the largest files are listed largest first.
pub open spec fn lays_out(s: Store, root: LocalNode) -> bool {
    let l = level_order(seq![root]);
    let kinds = kinds_seen(l, l.len() as int);
    &&& s.nodes@.len() == l.len()
    &&& forall|i: int|
        0 <= i < l.len() ==> carries(l, i, #[trigger] s.nodes@[i]) && names_children(
            l,
            i,
            s.nodes@[i],
        )
    &&& s.nodes@[0].parent == 0
    &&& forall|i: int|
        0 < i < l.len() ==> (#[trigger] s.nodes@[i]).parent < i && first_of(
            l,
            s.nodes@[i].parent as int,
        ) <= i < first_of(l, s.nodes@[i].parent + 1)
    &&& s.exts@.len() == kinds.len()
    &&& forall|e: int|
        0 <= e < kinds.len() ==> (#[trigger] s.exts@[e]).name@ == kinds[e] && s.exts@[e].bytes
            == kind_bytes(l, l.len() as int, e) && s.exts@[e].files == kind_files(
            l,
            l.len() as int,
            e,
        )
    &&& slots_by_weight(s.exts@, kinds.len() as int % 0x10000)
    &&& s.largest@ == top_files(l, l.len() as int).map_values(|f: (u64, u32)| f.1)
    &&& s.dirs == dir_count(root)
}

/// Queue entries stand for the nodes from `p` to `m` that have children, in order.
spec fn queued(
    q: Seq<(u32, Vec<LocalNode>)>,
    l: Seq<LocalNode>,
    p: int,
    m: int,
) -> bool {
    &&& forall|a: int|
        0 <= a < q.len() ==> p <= (#[trigger] q[a]).0 < m && q[a].1 == l[q[a].0 as int].children
            && (q[a].0 == 0 || q[a].1@.len() > 0)
    &&& forall|a: int, b: int| 0 <= a < b < q.len() ==> (#[trigger] q[a]).0 < (#[trigger] q[b]).0
    &&& forall|j: int|
        p <= j < m && (#[trigger] l[j]).children@.len() > 0 ==> exists|a: int|
            0 <= a < q.len() && (#[trigger] q[a]).0 == j
}

/// The nodes before `p` name their children, the others none yet.
spec fn linked_up_to(nodes: Seq<Node>, l: Seq<LocalNode>, p: int) -> bool {
    &&& forall|i: int| 0 <= i < p ==> names_children(l, i, #[trigger] nodes[i])
    &&& forall|i: int|
        p <= i < nodes.len() ==> (#[trigger] nodes[i]).first_child == 0 && nodes[i].child_count == 0
}

/// Every node but the first names the parent among whose children it stands.
spec fn parented(nodes: Seq<Node>, l: Seq<LocalNode>) -> bool {
    &&& nodes[0].parent == 0
    &&& forall|c: int|
        0 < c < nodes.len() ==> (#[trigger] nodes[c]).parent < c && first_of(
            l,
            nodes[c].parent as int,
        ) <= c < first_of(l, nodes[c].parent + 1)
}

proof fn lemma_no_kids_between(l: Seq<LocalNode>, i: int, j: int)
    requires
        0 <= i <= j <= l.len(),
        forall|k: int| i <= k < j ==> (#[trigger] l[k]).children@.len() == 0,
    ensures
        kids_before(l, i) == kids_before(l, j),
    decreases j - i,
{
    if i < j {
        lemma_no_kids_between(l, i, j - 1);
    }
}

pub proof fn lemma_kids_before_grow(l: Seq<LocalNode>, i: int, j: int)
    requires
        i <= j,
    ensures
        kids_before(l, i) <= kids_before(l, j),
    decreases j - i,
{
    if i < j {
        lemma_kids_before_grow(l, i, j - 1);
        reveal_with_fuel(kids_before, 2);
    }
}

/// An arena whose nodes are placed as in level order is one tree.
proof fn lemma_laid_out_is_linked(nodes: Seq<Node>, root: LocalNode)
    requires
        nodes.len() == level_order(seq![root]).len(),
        node_count(root) <= u32::MAX,
        linked_up_to(nodes, level_order(seq![root]), nodes.len() as int),
        parented(nodes, level_order(seq![root])),
        nodes[0].is_dir,
    ensures
        linked(nodes),
{
    let q = seq![root];
    let l = level_order(q);
    lemma_level_order_places(q);
    lemma_one_tree(root);
    assert forall|c: int| 0 < c < nodes.len() implies (#[trigger] nodes[c]).parent < c && is_child(
        nodes,
        nodes[c].parent as int,
        c,
    ) by {
        let p = nodes[c].parent as int;
        assert(names_children(l, p, nodes[p]));
    }
    assert forall|p: int| 0 <= p < nodes.len() implies (#[trigger] nodes[p]).first_child
        + nodes[p].child_count <= nodes.len() by {
        assert(names_children(l, p, nodes[p]));
        assert(q.len() + kids_before(l, p) + l[p].children@.len() <= l.len());
    }
    assert forall|p: int, c: int|
        0 <= p < nodes.len() && #[trigger] is_child(nodes, p, c) implies 0 < c && nodes[c].parent
        == p by {
        assert(names_children(l, p, nodes[p]));
        assert(q.len() + kids_before(l, p) + l[p].children@.len() <= l.len());
        let r = nodes[c].parent as int;
        if r < p {
            lemma_kids_before_grow(l, r + 1, p);
        }
        if p < r {
            lemma_kids_before_grow(l, p + 1, r);
        }
    }
}

pub proof fn lemma_one_tree(root: LocalNode)
    ensures
        forest_count(seq![root]) == node_count(root),
{
    assert(seq![root].drop_last() == Seq::<LocalNode>::empty());
    reveal_with_fuel(crate::tree::forest_sum, 2);
}

/// Lays a scanned tree out as an arena.
pub fn flatten(
    root: LocalNode,
    root_path: String,
    elapsed_ms: u64,
    generation: u64,
    errors: u64,
) -> (s: Store)
    requires
        node_count(root) <= u32::MAX,
        file_bytes(level_order(seq![root]), node_count(root) as int) <= u64::MAX,
    ensures
        lays_out(s, root),
        s.wf(),
        s.root_path == root_path,
        s.elapsed_ms == elapsed_ms,
        s.generation == generation,
        s.errors == errors,
{
    let ghost l = level_order(seq![root]);
    proof {
        lemma_one_tree(root);
        lemma_level_order_places(seq![root]);
        assert(l[0] == seq![root][0]);
    }
    let dirs = count_dirs(&root);
    let LocalNode { name, size, files, is_dir: _, children } = root;
    let mut b = Builder::new();
    b.nodes.push(
        Node {
            name,
            size,
            parent: 0,
            first_child: 0,
            child_count: 0,
            files,
            ext: EXT_DIR,
            is_dir: true,
            alive: true,
        },
    );
    let mut queue: VecDeque<(u32, Vec<LocalNode>)> = VecDeque::new();
    queue.push_back((0, children));
    let ghost mut p: int = 0;
    proof {
        reveal_with_fuel(kinds_seen, 2);
        reveal_with_fuel(top_from, 2);
        assert(queue@[0].1 == l[0].children);
        assert(kinds_seen(l, 1) == Seq::<Seq<char>>::empty());
        assert(top_files(l, 1) == Seq::<(u64, u32)>::empty());
        assert(b.table_holds(l, 1));
        assert(carries(l, 0, b.nodes@[0]));
        assert(b.top@ == top_files(l, 1));
        assert(b.holds(l, 1));
    }
    while queue.len() > 0
        invariant
            l == level_order(seq![root]),
            l.len() == node_count(root) <= u32::MAX,
            file_bytes(l, l.len() as int) <= u64::MAX,
            0 <= p <= b.nodes@.len() <= l.len(),
            b.nodes@.len() == first_of(l, p),
            b.holds(l, b.nodes@.len() as int),
            queued(queue@, l, p, b.nodes@.len() as int),
            linked_up_to(b.nodes@, l, p),
            parented(b.nodes@, l),
            queue@.len() == 0 ==> p > 0,
            p == 0 ==> queue@.len() > 0 && queue@[0].0 == 0,
        decreases l.len() - p,
    {
        proof {
            lemma_level_order_places(seq![root]);
        }
        let ghost q0 = queue@;
        let (pid, kids) = queue.pop_front().unwrap();
        let ghost j = pid as int;
        let ghost kv = kids@;
        proof {
            assert(q0[0].0 == pid && q0[0].1 == kids);
            assert forall|k: int| p <= k < j implies (#[trigger] l[k]).children@.len() == 0 by {
                if l[k].children@.len() > 0 {
                    let a = choose|a: int| 0 <= a < q0.len() && (#[trigger] q0[a]).0 == k;
                    assert(a > 0 ==> q0[0].0 < q0[a].0);
                }
            }
            lemma_no_kids_between(l, p, j);
            assert(kids == l[j].children);
            assert(seq![root].len() + kids_before(l, j) + l[j].children@.len() <= l.len());
        }
        let first: u32 = b.nodes.len() as u32;
        let count: u32 = kids.len() as u32;
        b.nodes[pid as usize].first_child = first;
        b.nodes[pid as usize].child_count = count;
        proof {
            assert forall|i: int| 0 <= i < b.nodes@.len() implies carries(
                l,
                i,
                #[trigger] b.nodes@[i],
            ) by {}
            assert(b.holds(l, b.nodes@.len() as int));
            assert forall|i: int| 0 <= i < j + 1 implies names_children(
                l,
                i,
                #[trigger] b.nodes@[i],
            ) by {
                if p <= i < j {
                    assert(l[i].children@.len() == 0);
                }
            }
            assert forall|a: int| 0 <= a < queue@.len() implies j + 1 <= (#[trigger] queue@[a]).0
                < b.nodes@.len() && queue@[a].1 == l[queue@[a].0 as int].children
                && (queue@[a].0 == 0 || queue@[a].1@.len() > 0) by {
                assert(queue@[a] == q0[a + 1]);
                assert(q0[0].0 < q0[a + 1].0);
            }
            assert forall|k: int|
                j + 1 <= k < b.nodes@.len() && (
                #[trigger] l[k]).children@.len() > 0 implies exists|a: int|
                0 <= a < queue@.len() && (#[trigger] queue@[a]).0 == k by {
                let a = choose|a: int| 0 <= a < q0.len() && (#[trigger] q0[a]).0 == k;
                assert(queue@[a - 1] == q0[a]);
            }
            assert(queued(queue@, l, j + 1, b.nodes@.len() as int));
        }
        for c in it: kids
            invariant
                it.seq() == kv,
                kv == l[j].children@,
                0 <= j == pid < l.len(),
                l == level_order(seq![root]),
                l.len() == node_count(root) <= u32::MAX,
                file_bytes(l, l.len() as int) <= u64::MAX,
                first_of(l, j) + kv.len() <= l.len(),
                b.nodes@.len() == first_of(l, j) + it.index(),
                j < b.nodes@.len(),
                b.holds(l, b.nodes@.len() as int),
                queued(queue@, l, j + 1, b.nodes@.len() as int),
                linked_up_to(b.nodes@, l, j + 1),
                parented(b.nodes@, l),
        {
            let ghost m = b.nodes@.len() as int;
            let ghost was = b.nodes@;
            let ghost q1 = queue@;
            proof {
                lemma_level_order_places(seq![root]);
                let k = it.index() as int;
                assert(c == kv[k]);
                assert(l[seq![root].len() + kids_before(l, j) + k] == l[j].children@[k]);
                assert(l[m] == c);
            }
            let LocalNode { name, size, files, is_dir, children } = c;
            let id: u32 = b.nodes.len() as u32;
            b.take_in(name, size, files, is_dir, pid, Ghost(l), Ghost(m));
            proof {
                assert forall|i: int| 0 <= i < m implies #[trigger] b.nodes@[i] == was[i] by {
                    assert(b.nodes@.drop_last()[i] == was[i]);
                }
            }
            if children.len() > 0 {
                queue.push_back((id, children));
                proof {
                    assert forall|a: int| 0 <= a < queue@.len() implies j + 1 <= (
                    #[trigger] queue@[a]).0 < m + 1 && queue@[a].1 == l[queue@[a].0 as int].children
                && (queue@[a].0 == 0 || queue@[a].1@.len() > 0) by {
                        if a < q1.len() {
                            assert(queue@[a] == q1[a]);
                        }
                    }
                    assert forall|k: int|
                        j + 1 <= k < m + 1 && (
                        #[trigger] l[k]).children@.len() > 0 implies exists|a: int|
                        0 <= a < queue@.len() && (#[trigger] queue@[a]).0 == k by {
                        if k == m {
                            assert(queue@[q1.len() as int].0 == k);
                        } else {
                            let a = choose|a: int| 0 <= a < q1.len() && (#[trigger] q1[a]).0 == k;
                            assert(queue@[a] == q1[a]);
                        }
                    }
                }
            }
        }
        proof {
            p = j + 1;
        }
    }
    let Builder { nodes, places: _, mut exts, top } = b;
    let ghost m = nodes@.len() as int;
    proof {
        lemma_level_order_places(seq![root]);
        lemma_no_kids_between(l, p, m);
        if m < l.len() {
            assert(seq![root].len() + kids_before(l, m) > m);
        }
        assert forall|i: int| 0 <= i < m implies names_children(l, i, #[trigger] nodes@[i]) by {
            if i >= p {
                assert(l[i].children@.len() == 0);
            }
        }
        lemma_laid_out_is_linked(nodes@, root);
        assert forall|k: int| 0 <= k < m implies is_file(l, k) == is_living_file(nodes@, k)
            && l[k].size == (#[trigger] nodes@[k]).size by {
            assert(carries(l, k, nodes@[k]));
        }
        let none = |k: int| false;
        let picked = |k: int| is_file(l, k);
        let size = |k: int| l[k].size;
        lemma_none_is_largest(m, size);
        lemma_top_holds_largest(m, m, none, picked, size, Seq::empty());
        lemma_holds_same(
            m,
            |k: int| none(k) || (k < m && picked(k)),
            size,
            |k: int| is_living_file(nodes@, k),
            |k: int| nodes@[k].size,
            top@,
        );
        lemma_names_largest(nodes@, top@);
    }
    let ghost counted = exts@;
    assign_slots(&mut exts);
    let largest = files_of(&top);
    let s = Store { nodes, exts, root_path, elapsed_ms, generation, largest, dirs, errors };
    proof {
        assert forall|i: int| 0 <= i < l.len() && !(#[trigger] s.nodes@[i]).is_dir implies s.nodes@[i].ext
            < s.exts@.len() by {
            assert(carries(l, i, s.nodes@[i]));
            lemma_kind_id(l, i);
            lemma_kinds_grow(l, i + 1, m);
        }
        assert forall|e: int| 0 <= e < s.exts@.len() implies (#[trigger] s.exts@[e]).name@
            == kinds_seen(l, m)[e] && s.exts@[e].bytes == kind_bytes(l, m, e) && s.exts@[e].files
            == kind_files(l, m, e) by {
            assert(counted[e].name@ == kinds_seen(l, m)[e]);
        }
    }
    s
}

/// A file's type stands in the table where the file points to, as long as sixteen bits are
/// enough, and it stands there once.
pub proof fn lemma_type_of_file(l: Seq<LocalNode>, i: int)
    requires
        0 <= i < l.len(),
        is_file(l, i),
        kinds_seen(l, l.len() as int).len() <= 0xFFFF,
    ensures
        0 <= kind_id(l, i) < kinds_seen(l, l.len() as int).len(),
        kinds_seen(l, l.len() as int)[kind_id(l, i)] == kind_of(l[i].name@),
        kinds_seen(l, l.len() as int).no_duplicates(),
{
    let n = l.len() as int;
    lemma_kind_id(l, i);
    lemma_kinds_grow(l, i + 1, n);
    lemma_kinds_distinct(l, n);
    let t = kinds_seen(l, i + 1);
    let at = t.index_of(kind_of(l[i].name@));
    assert(at % 0x10000 == at) by (nonlinear_arith)
        requires
            0 <= at <= 0xFFFF,
    ;
    assert(kinds_seen(l, n)[at] == t[at]);
}

/// The place of a file's type in the whole table, whose low sixteen bits the file holds.
pub proof fn lemma_place_of_type(l: Seq<LocalNode>, i: int) -> (x: int)
    requires
        0 <= i < l.len(),
        is_file(l, i),
    ensures
        0 <= x < kinds_seen(l, l.len() as int).len(),
        kinds_seen(l, l.len() as int)[x] == kind_of(l[i].name@),
        kind_id(l, i) == x % 0x10000,
{
    lemma_kind_id(l, i);
    lemma_kinds_grow(l, i + 1, l.len() as int);
    let t = kinds_seen(l, i + 1);
    let x = t.index_of(kind_of(l[i].name@));
    assert(kinds_seen(l, l.len() as int)[x] == t[x]);
    x
}

/// Every type in the table is that of a file among those seen.
pub proof fn lemma_type_comes_from_a_file(l: Seq<LocalNode>, n: int, e: int) -> (i: int)
    requires
        0 <= n <= l.len(),
        0 <= e < kinds_seen(l, n).len(),
    ensures
        0 <= i < n,
        is_file(l, i),
        kind_of(l[i].name@) == kinds_seen(l, n)[e],
    decreases n,
{
    let rest = kinds_seen(l, n - 1);
    if e < rest.len() {
        lemma_kinds_grow(l, n - 1, n);
        lemma_type_comes_from_a_file(l, n - 1, e)
    } else {
        n - 1
    }
}

/// A file's type is in the table as soon as the file has been seen, behind those of all
/// files before it.
pub proof fn lemma_type_is_in_by_then(l: Seq<LocalNode>, i: int)
    requires
        0 <= i < l.len(),
        is_file(l, i),
        kinds_seen(l, l.len() as int).len() <= 0xFFFF,
    ensures
        kind_id(l, i) < kinds_seen(l, i + 1).len(),
        forall|e: int|
            0 <= e < kinds_seen(l, i + 1).len() ==> #[trigger] kinds_seen(l, l.len() as int)[e]
                == kinds_seen(l, i + 1)[e],
{
    lemma_kind_id(l, i);
    lemma_kinds_grow(l, i + 1, l.len() as int);
}

} // verus!
