//! What holds of every arena that a scanned tree is laid out as: it adds up where
//! the tree does.

use crate::balance::{balanced, child_bytes, child_files, type_bytes, type_files};
use crate::flatten::{carries, dir_count, dirs_among, file_bytes, first_of, flatten, is_file,
    kind_bytes, kind_files, lays_out, lemma_one_tree, lemma_place_of_type,
    lemma_type_comes_from_a_file, lemma_type_is_in_by_then, lemma_type_of_file, names_children,
    slot_worn, slots_by_weight};
use crate::kinds::kind_of;
use crate::largest::{lemma_offered_alike, top_from};
use crate::store::{is_child, Store};
use crate::sums::{count_where, lemma_sum_none, lemma_sum_same, seq_sum, sum_where};
use crate::tree::{forest_sum, kids_before, lemma_level_order_places, lemma_level_order_sum,
    lemma_weighed_bytes, level_order, node_count, tree_sum, weighed, LocalNode};
use vstd::prelude::*;

verus! {

/// A sum over a run of indices is the sum over what stands there.
proof fn lemma_run_sum(
    n: int,
    first: int,
    kids: Seq<LocalNode>,
    p: spec_fn(int) -> bool,
    w: spec_fn(int) -> nat,
    g: spec_fn(LocalNode) -> nat,
)
    requires
        0 <= first,
        kids.len() > 0 ==> first + kids.len() <= n,
        forall|c: int| 0 <= c < n ==> #[trigger] p(c) == (first <= c < first + kids.len()),
        forall|k: int| 0 <= k < kids.len() ==> w(first + k) == g(#[trigger] kids[k]),
    ensures
        sum_where(n, p, w) == seq_sum(kids, g),
    decreases n,
{
    if kids.len() == 0 {
        lemma_sum_none(n, p, w);
    } else if n == first + kids.len() {
        assert(p(n - 1));
        let rest = kids.drop_last();
        assert(w(first + (kids.len() - 1)) == g(kids[kids.len() - 1]));
        assert forall|k: int| 0 <= k < rest.len() implies w(first + k) == g(#[trigger] rest[k]) by {
            assert(rest[k] == kids[k]);
        }
        assert forall|c: int| 0 <= c < n - 1 implies #[trigger] p(c) == (first <= c < first
            + rest.len()) by {}
        lemma_run_sum(n - 1, first, rest, p, w, g);
    } else {
        assert(!p(n - 1));
        lemma_run_sum(n - 1, first, kids, p, w, g);
    }
}

/// Every node of a weighed tree is weighed.
proof fn lemma_weighed_everywhere(s: Store, root: LocalNode, i: int)
    requires
        lays_out(s, root),
        weighed(root),
        0 <= i < level_order(seq![root]).len(),
    ensures
        weighed(level_order(seq![root])[i]),
    decreases i,
{
    let l = level_order(seq![root]);
    lemma_level_order_places(seq![root]);
    if i == 0 {
        assert(l[0] == seq![root][0]);
    } else {
        let p = s.nodes@[i].parent as int;
        lemma_weighed_everywhere(s, root, p);
        let k = i - first_of(l, p);
        assert(l[p].children@[k] == l[i]);
    }
}

/// The living directories of a weighed tree are the directories of the tree.
proof fn lemma_weighed_dirs(n: LocalNode)
    requires
        weighed(n),
        n.is_dir,
    ensures
        tree_sum(
            n,
            |m: LocalNode|
                if m.is_dir {
                    1nat
                } else {
                    0
                },
        ) == dir_count(n),
    decreases n,
{
    lemma_weighed_dirs_among(n.children@);
}

proof fn lemma_weighed_dirs_among(s: Seq<LocalNode>)
    requires
        forall|i: int| 0 <= i < s.len() ==> weighed(#[trigger] s[i]),
    ensures
        forest_sum(
            s,
            |m: LocalNode|
                if m.is_dir {
                    1nat
                } else {
                    0
                },
        ) == dirs_among(s),
    decreases s,
{
    let f = |m: LocalNode|
        if m.is_dir {
            1nat
        } else {
            0
        };
    if s.len() > 0 {
        let x = s.last();
        assert(weighed(s[s.len() - 1]));
        lemma_weighed_dirs_among(s.drop_last());
        if x.is_dir {
            lemma_weighed_dirs(x);
        } else {
            assert(tree_sum(x, f) == f(x) + forest_sum(x.children@, f));
            assert(forest_sum(x.children@, f) == 0);
        }
    }
}

/// A sum over the first nodes, by index and one by one.
proof fn lemma_prefix_sum(
    l: Seq<LocalNode>,
    i: int,
    p: spec_fn(int) -> bool,
    w: spec_fn(int) -> nat,
    f: spec_fn(LocalNode) -> nat,
)
    requires
        0 <= i <= l.len(),
        forall|k: int|
            0 <= k < i ==> f(#[trigger] l[k]) == if p(k) {
                w(k)
            } else {
                0
            },
    ensures
        sum_where(i, p, w) == seq_sum(l.take(i), f),
    decreases i,
{
    if i > 0 {
        lemma_prefix_sum(l, i - 1, p, w, f);
        assert(l.take(i).drop_last() == l.take(i - 1));
        assert(l.take(i).last() == l[i - 1]);
    } else {
        assert(l.take(0) == Seq::<LocalNode>::empty());
    }
}

pub proof fn lemma_file_bytes_sum(l: Seq<LocalNode>, i: int)
    requires
        0 <= i <= l.len(),
        l.len() > 0 ==> l[0].is_dir,
    ensures
        file_bytes(l, i) == seq_sum(
            l.take(i),
            |m: LocalNode|
                if m.is_dir {
                    0
                } else {
                    m.size as nat
                },
        ),
    decreases i,
{
    if i > 0 {
        lemma_file_bytes_sum(l, i - 1);
        assert(l.take(i).drop_last() == l.take(i - 1));
        assert(l.take(i).last() == l[i - 1]);
    } else {
        assert(l.take(0) == Seq::<LocalNode>::empty());
    }
}

/// The files of a weighed tree hold together what its root says: a weighed tree
/// of a node count that fits can always be laid out.
pub proof fn weighed_tree_fits(root: LocalNode)
    requires
        weighed(root),
        root.is_dir,
    ensures
        file_bytes(level_order(seq![root]), node_count(root) as int) == root.size,
        file_bytes(level_order(seq![root]), node_count(root) as int) <= u64::MAX,
{
    let l = level_order(seq![root]);
    let f = |m: LocalNode|
        if m.is_dir {
            0
        } else {
            m.size as nat
        };
    lemma_level_order_places(seq![root]);
    lemma_one_tree(root);
    assert(l[0] == seq![root][0]);
    lemma_file_bytes_sum(l, l.len() as int);
    assert(l.take(l.len() as int) == l);
    lemma_level_order_sum(seq![root], f);
    lemma_one_tree_sum(root, f);
    lemma_weighed_bytes(root);
}

pub proof fn lemma_one_tree_sum(root: LocalNode, f: spec_fn(LocalNode) -> nat)
    ensures
        forest_sum(seq![root], f) == tree_sum(root, f),
{
    assert(seq![root].drop_last() == Seq::<LocalNode>::empty());
    reveal_with_fuel(forest_sum, 2);
}

proof fn lemma_types_laid_out(s: Store, root: LocalNode, i: int, e: int)
    requires
        lays_out(s, root),
        0 <= i <= level_order(seq![root]).len(),
        0 <= e,
    ensures
        sum_where(
            i,
            |k: int| s.nodes@[k].alive && !s.nodes@[k].is_dir && s.nodes@[k].ext == e,
            |k: int| s.nodes@[k].size as nat,
        ) == kind_bytes(level_order(seq![root]), i, e),
        sum_where(
            i,
            |k: int| s.nodes@[k].alive && !s.nodes@[k].is_dir && s.nodes@[k].ext == e,
            |k: int| 1nat,
        ) == kind_files(level_order(seq![root]), i, e),
    decreases i,
{
    let l = level_order(seq![root]);
    if i > 0 {
        lemma_types_laid_out(s, root, i - 1, e);
        assert(carries(l, i - 1, s.nodes@[i - 1]));
    }
}

proof fn lemma_directory_laid_out(s: Store, root: LocalNode, p: int)
    requires
        lays_out(s, root),
        s.wf(),
        weighed(root),
        root.is_dir,
        0 <= p < s.nodes@.len(),
        s.nodes@[p].is_dir,
    ensures
        s.nodes@[p].size == child_bytes(s.nodes@, p),
        s.nodes@[p].files == child_files(s.nodes@, p),
{
    let l = level_order(seq![root]);
    let nodes = s.nodes@;
    let len = nodes.len() as int;
    lemma_level_order_places(seq![root]);
    lemma_weighed_everywhere(s, root, p);
    assert(l[0] == seq![root][0]);
    assert(carries(l, p, nodes[p]));
    assert(names_children(l, p, nodes[p]));
    let kids = l[p].children@;
    let first = nodes[p].first_child as int;
    let pick = |c: int| is_child(nodes, p, c) && nodes[c].alive;
    assert forall|c: int| 0 <= c < len implies #[trigger] pick(c) == (first <= c < first
        + kids.len()) by {
        assert(carries(l, c, nodes[c]));
    }
    assert forall|k: int| 0 <= k < kids.len() implies nodes[first + k].size == (
    #[trigger] kids[k]).size && nodes[first + k].files == kids[k].files by {
        assert(l[p].children@[k] == l[first + k]);
        assert(carries(l, first + k, nodes[first + k]));
    }
    lemma_run_sum(
        len,
        first,
        kids,
        pick,
        |c: int| nodes[c].size as nat,
        |m: LocalNode| m.size as nat,
    );
    lemma_run_sum(
        len,
        first,
        kids,
        pick,
        |c: int| nodes[c].files as nat,
        |m: LocalNode| m.files as nat,
    );
}

/// A scanned tree that adds up is laid out as an arena that adds up.
pub proof fn layout_is_balanced(s: Store, root: LocalNode)
    requires
        lays_out(s, root),
        s.wf(),
        weighed(root),
        root.is_dir,
    ensures
        balanced(s),
        s.nodes@[0].alive,
{
    let l = level_order(seq![root]);
    let nodes = s.nodes@;
    let len = nodes.len() as int;
    lemma_level_order_places(seq![root]);
    lemma_one_tree(root);
    assert(l[0] == seq![root][0]);
    assert(carries(l, 0, nodes[0]));
    assert forall|i: int| 0 <= i < len && !(#[trigger] nodes[i]).is_dir implies nodes[i].files == 1
        && nodes[i].child_count == 0 by {
        assert(carries(l, i, nodes[i]));
        assert(names_children(l, i, nodes[i]));
        lemma_weighed_everywhere(s, root, i);
    }
    assert forall|i: int| 0 < i < len && (#[trigger] nodes[i]).alive implies nodes[
        nodes[i].parent as int].alive by {
        let p = nodes[i].parent as int;
        assert(carries(l, p, nodes[p]));
    }
    assert forall|p: int| 0 <= p < len && (#[trigger] nodes[p]).alive && nodes[p].is_dir implies nodes[p].size
        == child_bytes(nodes, p) && nodes[p].files == child_files(nodes, p) by {
        lemma_directory_laid_out(s, root, p);
    }
    assert forall|e: int| 0 <= e < s.exts@.len() implies (#[trigger] s.exts@[e]).bytes == type_bytes(
        nodes,
        e,
    ) && s.exts@[e].files == type_files(nodes, e) by {
        lemma_types_laid_out(s, root, len, e);
    }
    let f = |m: LocalNode|
        if m.is_dir {
            1nat
        } else {
            0
        };
    assert forall|k: int| 0 <= k < len implies f(#[trigger] l[k]) == if nodes[k].alive
        && nodes[k].is_dir {
        1nat
    } else {
        0
    } by {
        assert(carries(l, k, nodes[k]));
    }
    lemma_prefix_sum(l, len, |k: int| nodes[k].alive && nodes[k].is_dir, |k: int| 1nat, f);
    assert(l.take(len) == l);
    lemma_level_order_sum(seq![root], f);
    lemma_one_tree_sum(root, f);
    lemma_weighed_dirs(root);
}

/// The arena is the tree: it has a node for each of the tree's, which says the same of name,
/// size and files, is alive, and has the same children, side by side and in order, each of
/// which knows it for its parent. Nothing but the root is a directory that was none.
pub proof fn arena_is_the_tree(s: Store, root: LocalNode)
    requires
        lays_out(s, root),
    ensures
        ({
            let l = level_order(seq![root]);
            &&& s.nodes@.len() == node_count(root)
            &&& s.nodes@.len() == l.len()
            &&& l[0] == root
            &&& forall|i: int|
                0 <= i < l.len() ==> (#[trigger] s.nodes@[i]).name@ == l[i].name@ && s.nodes@[i].size
                    == l[i].size && s.nodes@[i].files == l[i].files && s.nodes@[i].alive
                    && s.nodes@[i].child_count == l[i].children@.len() && (s.nodes@[i].is_dir <==> i
                    == 0 || l[i].is_dir) && (s.nodes@[i].is_dir ==> s.nodes@[i].ext == 0xFFFF) && (i
                    > 0 && l[i].children@.len() == 0 ==> s.nodes@[i].first_child == 0)
            &&& forall|i: int, k: int|
                0 <= i < l.len() && 0 <= k < l[i].children@.len() ==> l[s.nodes@[i].first_child
                    + k] == #[trigger] l[i].children@[k] && s.nodes@[s.nodes@[i].first_child
                    + k].parent == i
        }),
{
    let l = level_order(seq![root]);
    lemma_level_order_places(seq![root]);
    lemma_one_tree(root);
    assert(l[0] == seq![root][0]);
    assert forall|i: int| 0 <= i < l.len() implies carries(l, i, #[trigger] s.nodes@[i])
        && names_children(l, i, s.nodes@[i]) by {
    }
    assert forall|i: int, k: int|
        0 <= i < l.len() && 0 <= k < l[i].children@.len() implies l[s.nodes@[i].first_child + k]
        == #[trigger] l[i].children@[k] && s.nodes@[s.nodes@[i].first_child + k].parent == i by {
        assert(names_children(l, i, s.nodes@[i]));
        let c = first_of(l, i) + k;
        assert(s.nodes@[i].first_child + k == c);
        assert(1 + kids_before(l, i) > i);
        assert(1 + kids_before(l, i) + l[i].children@.len() <= l.len());
        let p = s.nodes@[c].parent as int;
        assert(p < c && first_of(l, p) <= c < first_of(l, p + 1));
        if p < i {
            lemma_first_of_grows(l, p + 1, i);
        }
        if p > i {
            lemma_first_of_grows(l, i + 1, p);
        }
    }
}

proof fn lemma_first_of_grows(l: Seq<LocalNode>, i: int, j: int)
    requires
        0 <= i <= j,
    ensures
        first_of(l, i) <= first_of(l, j),
    decreases j - i,
{
    if i < j {
        lemma_first_of_grows(l, i, j - 1);
    }
}

/// The table of types goes by the names of the files: every file's entry names its type, as
/// long as the types can be told apart in sixteen bits; no type has two entries; and the
/// bytes and files of an entry are those of the files that point to it.
pub proof fn types_go_by_their_files(s: Store, root: LocalNode, i: int, e: int)
    requires
        lays_out(s, root),
        s.exts@.len() <= 0xFFFF,
        0 <= i < s.nodes@.len(),
        !s.nodes@[i].is_dir,
        0 <= e < s.exts@.len(),
    ensures
        s.nodes@[i].ext < s.exts@.len(),
        s.exts@[s.nodes@[i].ext as int].name@ == kind_of(s.nodes@[i].name@),
        s.exts@[e].name@ == kind_of(s.nodes@[i].name@) ==> s.nodes@[i].ext == e,
        s.exts@[e].bytes == sum_where(
            s.nodes@.len() as int,
            |k: int| !s.nodes@[k].is_dir && s.nodes@[k].ext == e,
            |k: int| s.nodes@[k].size as nat,
        ),
        s.exts@[e].files == count_where(
            s.nodes@.len() as int,
            |k: int| !s.nodes@[k].is_dir && s.nodes@[k].ext == e,
        ),
{
    let l = level_order(seq![root]);
    lemma_level_order_places(seq![root]);
    lemma_one_tree(root);
    assert(carries(l, i, s.nodes@[i]));
    lemma_type_of_file(l, i);
    lemma_types_laid_out(s, root, l.len() as int, e);
    let living = |k: int| s.nodes@[k].alive && !s.nodes@[k].is_dir && s.nodes@[k].ext == e;
    let all = |k: int| !s.nodes@[k].is_dir && s.nodes@[k].ext == e;
    assert forall|k: int| 0 <= k < s.nodes@.len() implies #[trigger] living(k) == all(k) by {
        assert(carries(l, k, s.nodes@[k]));
    }
    let size = |k: int| s.nodes@[k].size as nat;
    lemma_sum_same(s.nodes@.len() as int, living, all, size, size);
    lemma_sum_same(s.nodes@.len() as int, living, all, |k: int| 1nat, |k: int| 1nat);
}

/// The types that have a color of their own are the heaviest: up to eight of them wear the
/// slots from 0 on, the heavier the lower, and no type without a slot is heavier than one
/// with a slot. So for all types, as long as sixteen bits can number them; of more than
/// that, for as many as are left over after the last full sixteen bits.
pub proof fn heaviest_types_wear_the_slots(
    s: Store,
    root: LocalNode,
    m: int,
    a: int,
    b: int,
    slot: u8,
)
    requires
        lays_out(s, root),
        m == s.exts@.len() as int % 0x1_0000,
        0 <= a < s.exts@.len(),
        0 <= b < m,
        a != b,
    ensures
        s.exts@[a].slot < 8 || s.exts@[a].slot == 255,
        a >= m ==> s.exts@[a].slot == 255,
        a < m && s.exts@[a].slot == s.exts@[b].slot ==> s.exts@[a].slot == 255,
        a < m && s.exts@[a].slot < s.exts@[b].slot ==> s.exts@[a].bytes >= s.exts@[b].bytes,
        slot < 8 && slot < m ==> exists|e: int| 0 <= e < m && (#[trigger] s.exts@[e]).slot == slot,
{
    assert(slots_by_weight(s.exts@, m));
    if slot < 8 && slot < m {
        assert(slot_worn(s.exts@, m, slot as int));
    }
}

/// A file points to its type by the low sixteen bits of the type's place in the table.
pub proof fn types_are_numbered_in_sixteen_bits(s: Store, root: LocalNode, i: int)
    requires
        lays_out(s, root),
        0 <= i < s.nodes@.len(),
        !s.nodes@[i].is_dir,
    ensures
        exists|x: int|
            0 <= x < s.exts@.len() && (#[trigger] s.exts@[x]).name@ == kind_of(s.nodes@[i].name@)
                && s.nodes@[i].ext == x % 0x1_0000,
{
    let l = level_order(seq![root]);
    lemma_level_order_places(seq![root]);
    assert(carries(l, i, s.nodes@[i]));
    let x = lemma_place_of_type(l, i);
    assert(s.exts@[x].name@ == kind_of(s.nodes@[i].name@));
}

/// A tree that fits is laid out as the arena of that tree, in order, with what is known of
/// the scan beside it.
pub proof fn tree_is_laid_out(
    root: LocalNode,
    root_path: String,
    elapsed_ms: u64,
    generation: u64,
    errors: u64,
    s: Store,
)
    requires
        node_count(root) <= u32::MAX,
        file_bytes(level_order(seq![root]), node_count(root) as int) <= u64::MAX,
        call_ensures(flatten, (root, root_path, elapsed_ms, generation, errors), s),
    ensures
        lays_out(s, root),
        s.wf(),
        s.root_path == root_path,
        s.elapsed_ms == elapsed_ms,
        s.generation == generation,
        s.errors == errors,
{
}

/// The files of a new scan are offered to the list of largest ones in the order of the
/// arena.
pub proof fn largest_are_found_in_order(s: Store, root: LocalNode)
    requires
        lays_out(s, root),
    ensures
        s.largest@ == top_from(
            Seq::empty(),
            s.nodes@.len() as int,
            |k: int| !s.nodes@[k].is_dir,
            |k: int| s.nodes@[k].size,
        ).map_values(|f: (u64, u32)| f.1),
{
    let l = level_order(seq![root]);
    let p = |k: int| is_file(l, k);
    let q = |k: int| !s.nodes@[k].is_dir;
    let w = |k: int| l[k].size;
    let v = |k: int| s.nodes@[k].size;
    assert forall|k: int| 0 <= k < l.len() implies #[trigger] p(k) == q(k) && w(k) == v(k) by {
        assert(carries(l, k, s.nodes@[k]));
    }
    lemma_offered_alike(Seq::empty(), l.len() as int, p, w, q, v);
}

/// Types stand in the table in the order in which their first files do in the arena, and
/// none stands there without a file.
pub proof fn types_stand_in_order_of_appearance(s: Store, root: LocalNode, e: int, j: int)
    requires
        lays_out(s, root),
        s.exts@.len() <= 0xFFFF,
        0 <= e < s.exts@.len(),
    ensures
        exists|i: int|
            0 <= i < s.nodes@.len() && !(#[trigger] s.nodes@[i]).is_dir && s.nodes@[i].ext == e,
        0 <= j < s.nodes@.len() && !s.nodes@[j].is_dir && e < s.nodes@[j].ext ==> exists|i: int|
            0 <= i < j && !(#[trigger] s.nodes@[i]).is_dir && s.nodes@[i].ext == e,
{
    let l = level_order(seq![root]);
    let n = l.len() as int;
    let i = lemma_type_comes_from_a_file(l, n, e);
    assert(carries(l, i, s.nodes@[i]));
    lemma_type_of_file(l, i);
    if 0 <= j < s.nodes@.len() && !s.nodes@[j].is_dir && e < s.nodes@[j].ext {
        assert(carries(l, j, s.nodes@[j]));
        lemma_type_is_in_by_then(l, j);
        lemma_type_of_file(l, j);
        let k = lemma_type_comes_from_a_file(l, j + 1, e);
        assert(carries(l, k, s.nodes@[k]));
        lemma_type_of_file(l, k);
        assert(k != j);
    }
}

} // verus!
