//! Every byte accounted for: the sums that a store keeps, and that they survive
//! laying a tree out and taking subtrees away.

use crate::largest::{is_living_file, largest_are_the_largest, lemma_same_sizes};
use crate::prune::{doomed, is_above, lemma_pruned_wf, pruned, same_place};
use crate::store::{is_child, linked, Node, Store};
use crate::sums::{count_where, lemma_sum_alike, lemma_sum_at_least, lemma_sum_none,
    lemma_sum_one_more, lemma_sum_same, lemma_sum_shift, lemma_sum_split, share, sum_where};
use crate::summary::{lists_largest, sums_up, Summary};
use vstd::prelude::*;

verus! {

/// The bytes in the living children of `p`.
pub open spec fn child_bytes(nodes: Seq<Node>, p: int) -> nat {
    sum_where(
        nodes.len() as int,
        |c: int| is_child(nodes, p, c) && nodes[c].alive,
        |c: int| nodes[c].size as nat,
    )
}

/// The files in the living children of `p`.
pub open spec fn child_files(nodes: Seq<Node>, p: int) -> nat {
    sum_where(
        nodes.len() as int,
        |c: int| is_child(nodes, p, c) && nodes[c].alive,
        |c: int| nodes[c].files as nat,
    )
}

/// The bytes in the living files of type `e`.
pub open spec fn type_bytes(nodes: Seq<Node>, e: int) -> nat {
    sum_where(
        nodes.len() as int,
        |k: int| nodes[k].alive && !nodes[k].is_dir && nodes[k].ext == e,
        |k: int| nodes[k].size as nat,
    )
}

/// The number of living files of type `e`.
pub open spec fn type_files(nodes: Seq<Node>, e: int) -> nat {
    count_where(
        nodes.len() as int,
        |k: int| nodes[k].alive && !nodes[k].is_dir && nodes[k].ext == e,
    )
}

/// The number of living directories.
pub open spec fn living_dirs(nodes: Seq<Node>) -> nat {
    count_where(nodes.len() as int, |k: int| nodes[k].alive && nodes[k].is_dir)
}

/// The bytes in all living files.
pub open spec fn living_bytes(nodes: Seq<Node>) -> nat {
    sum_where(
        nodes.len() as int,
        |k: int| nodes[k].alive && !nodes[k].is_dir,
        |k: int| nodes[k].size as nat,
    )
}

/// A file is one file and holds nothing; what lives hangs on something living; a
/// living directory weighs what its living children weigh.
pub open spec fn nodes_balanced(nodes: Seq<Node>) -> bool {
    &&& forall|i: int|
        0 <= i < nodes.len() && !(#[trigger] nodes[i]).is_dir ==> nodes[i].files == 1
            && nodes[i].child_count == 0
    &&& forall|i: int|
        0 < i < nodes.len() && (#[trigger] nodes[i]).alive ==> nodes[nodes[i].parent as int].alive
    &&& forall|p: int|
        0 <= p < nodes.len() && (#[trigger] nodes[p]).alive && nodes[p].is_dir ==> nodes[p].size
            == child_bytes(nodes, p) && nodes[p].files == child_files(nodes, p)
}

/// Every total that a store keeps is the sum over what lives.
pub open spec fn balanced(s: Store) -> bool {
    &&& nodes_balanced(s.nodes@)
    &&& forall|e: int|
        0 <= e < s.exts@.len() ==> (#[trigger] s.exts@[e]).bytes == type_bytes(s.nodes@, e)
            && s.exts@[e].files == type_files(s.nodes@, e)
    &&& s.dirs == living_dirs(s.nodes@)
}

/// What lies above a living node lives, is a directory, and weighs no less.
pub proof fn lemma_above_heavier(nodes: Seq<Node>, a: int, n: int)
    requires
        linked(nodes),
        nodes_balanced(nodes),
        0 <= n < nodes.len(),
        nodes[n].alive,
        is_above(nodes, a, n),
    ensures
        0 <= a < n,
        nodes[a].alive,
        nodes[a].is_dir,
        nodes[a].size >= nodes[n].size,
        nodes[a].files >= nodes[n].files,
    decreases n,
{
    let p = nodes[n].parent as int;
    assert(is_child(nodes, p, n));
    assert(nodes[p].is_dir);
    lemma_sum_at_least(
        nodes.len() as int,
        |c: int| is_child(nodes, p, c) && nodes[c].alive,
        |c: int| nodes[c].size as nat,
        n,
    );
    lemma_sum_at_least(
        nodes.len() as int,
        |c: int| is_child(nodes, p, c) && nodes[c].alive,
        |c: int| nodes[c].files as nat,
        n,
    );
    if p != a {
        lemma_above_heavier(nodes, a, p);
    }
}

pub proof fn lemma_above_below(nodes: Seq<Node>, a: int, n: int)
    requires
        linked(nodes),
        0 <= n < nodes.len(),
        is_above(nodes, a, n),
    ensures
        0 <= a < n,
    decreases n,
{
    if nodes[n].parent != a {
        lemma_above_below(nodes, a, nodes[n].parent as int);
    }
}

/// The child of `p` on the way down to `id`.
spec fn toward(nodes: Seq<Node>, p: int, id: int) -> int
    decreases id,
{
    if id <= 0 || nodes[id].parent >= id || nodes[id].parent == p {
        id
    } else {
        toward(nodes, p, nodes[id].parent as int)
    }
}

/// Of the children of a node above `id`, exactly one is `id` or lies above it.
proof fn lemma_toward(nodes: Seq<Node>, p: int, id: int)
    requires
        linked(nodes),
        0 <= id < nodes.len(),
        is_above(nodes, p, id),
    ensures
        0 < toward(nodes, p, id) <= id,
        is_child(nodes, p, toward(nodes, p, id)),
        toward(nodes, p, id) == id || is_above(nodes, toward(nodes, p, id), id),
        forall|c: int|
            is_child(nodes, p, c) && (c == id || #[trigger] is_above(nodes, c, id)) ==> c == toward(
                nodes,
                p,
                id,
            ),
    decreases id,
{
    let u = nodes[id].parent as int;
    lemma_above_below(nodes, p, id);
    if u == p {
        assert forall|c: int| is_child(nodes, p, c) && (c == id || #[trigger] is_above(
            nodes,
            c,
            id,
        )) implies c == id by {
            if c != id {
                assert(nodes[c].parent == p);
                if c != u {
                    lemma_above_below(nodes, c, u);
                }
                assert(c <= u);
                assert(0 < c);
                assert(nodes[c].parent < c);
            }
        }
    } else {
        lemma_toward(nodes, p, u);
        assert forall|c: int| is_child(nodes, p, c) && (c == id || #[trigger] is_above(
            nodes,
            c,
            id,
        )) implies c == toward(nodes, p, id) by {
            assert(nodes[c].parent == p);
            assert(c == u || is_above(nodes, c, u));
        }
    }
}

/// A child above `id`, or `id` itself, puts its parent above `id`.
pub proof fn lemma_parent_above(nodes: Seq<Node>, p: int, c: int, id: int)
    requires
        linked(nodes),
        0 <= id < nodes.len(),
        0 <= p < nodes.len(),
        is_child(nodes, p, c),
        c == id || is_above(nodes, c, id),
    ensures
        is_above(nodes, p, id),
    decreases id,
{
    if c != id {
        lemma_above_below(nodes, c, id);
        lemma_parent_above(nodes, p, c, nodes[id].parent as int);
    }
}

/// The sums along one directory after a removal.
proof fn lemma_directory_balanced(s: Store, id: int, t: Store, p: int)
    requires
        s.wf(),
        balanced(s),
        0 <= id < s.nodes@.len(),
        s.nodes@[id].alive,
        pruned(s, id, t),
        0 <= p < s.nodes@.len(),
        t.nodes@[p].alive,
        t.nodes@[p].is_dir,
    ensures
        t.nodes@[p].size == child_bytes(t.nodes@, p),
        t.nodes@[p].files == child_files(t.nodes@, p),
{
    let a = s.nodes@;
    let b = t.nodes@;
    let len = a.len() as int;
    let pa = |c: int| is_child(a, p, c) && a[c].alive;
    let pb = |c: int| is_child(b, p, c) && b[c].alive;
    let wa = |c: int| a[c].size as nat;
    let wb = |c: int| b[c].size as nat;
    let fa = |c: int| a[c].files as nat;
    let fb = |c: int| b[c].files as nat;
    assert(same_place(a[p], b[p]));
    assert(a[p].alive && !doomed(a, id, p));
    assert(a[p].size == child_bytes(a, p));
    // children that neither are `id` nor lie above it keep their share
    assert forall|c: int|
        0 <= c < len && c != id && !is_above(a, c, id) implies #[trigger] share(pa, wa, c) == share(
        pb,
        wb,
        c,
    ) && share(pa, fa, c) == share(pb, fb, c) by {
        assert(same_place(a[c], b[c]));
        if is_child(a, p, c) && a[c].alive {
            assert(a[c].parent == p);
            assert(!doomed(a, id, c));
        }
    }
    if is_above(a, p, id) {
        lemma_toward(a, p, id);
        lemma_above_below(a, p, id);
        let x = toward(a, p, id);
        assert(same_place(a[x], b[x]));
        assert(a[x].parent == p);
        lemma_above_heavier(a, p, id);
        if x == id {
            assert(doomed(a, id, id));
            assert(!b[x].alive);
            assert(share(pa, wa, x) == share(pb, wb, x) + a[id].size as nat);
        } else {
            lemma_above_heavier(a, x, id);
            if doomed(a, id, x) {
                assert(doomed(a, id, a[x].parent as int));
            }
            assert(share(pa, wa, x) == share(pb, wb, x) + a[id].size as nat);
        }
        assert forall|c: int| 0 <= c < len && c != x implies #[trigger] share(pa, wa, c) == share(
            pb,
            wb,
            c,
        ) && share(pa, fa, c) == share(pb, fb, c) by {
            assert(same_place(a[c], b[c]));
            if is_child(a, p, c) {
                assert(!(c == id || is_above(a, c, id)));
            }
        }
        assert forall|c: int| 0 <= c < len && c != x implies #[trigger] share(pa, fa, c) == share(
            pb,
            fb,
            c,
        ) by {
            assert(share(pa, wa, c) == share(pb, wb, c));
        }
        lemma_sum_shift(len, pa, wa, pb, wb, x, a[id].size as nat);
        lemma_sum_shift(len, pa, fa, pb, fb, x, a[id].files as nat);
    } else {
        assert forall|c: int| 0 <= c < len implies #[trigger] share(pa, wa, c) == share(pb, wb, c)
            && share(pa, fa, c) == share(pb, fb, c) by {
            assert(same_place(a[c], b[c]));
            if is_child(a, p, c) && (c == id || is_above(a, c, id)) {
                lemma_parent_above(a, p, c, id);
            }
        }
        assert forall|c: int| 0 <= c < len implies #[trigger] share(pa, fa, c) == share(
            pb,
            fb,
            c,
        ) by {
            assert(share(pa, wa, c) == share(pb, wb, c));
        }
        lemma_sum_alike(len, pa, wa, pb, wb);
        lemma_sum_alike(len, pa, fa, pb, fb);
    }
}

/// Removing a living subtree keeps every total: what is left still adds up, with
/// no rescan.
pub proof fn removal_keeps_balance(s: Store, id: int, t: Store)
    requires
        s.wf(),
        balanced(s),
        0 <= id < s.nodes@.len(),
        s.nodes@[id].alive,
        pruned(s, id, t),
    ensures
        balanced(t),
{
    let a = s.nodes@;
    let b = t.nodes@;
    let len = a.len() as int;
    assert forall|i: int| #[trigger] is_above(a, i, id) implies 0 <= i < len && a[i].is_dir by {
        lemma_above_heavier(a, i, id);
    }
    assert forall|i: int| 0 <= i < len && !(#[trigger] b[i]).is_dir implies b[i].files == 1
        && b[i].child_count == 0 by {
        assert(same_place(a[i], b[i]));
        assert(!is_above(a, i, id));
    }
    assert forall|i: int| 0 < i < len && (#[trigger] b[i]).alive implies b[b[i].parent as int].alive by {
        assert(same_place(a[i], b[i]));
        let p = a[i].parent as int;
        assert(is_child(a, p, i));
        assert(a[p].is_dir);
        assert(a[i].alive && !doomed(a, id, i));
        assert(b[p].alive == (a[p].alive && !doomed(a, id, p)));
    }
    assert forall|p: int| 0 <= p < len && (#[trigger] b[p]).alive && b[p].is_dir implies b[p].size
        == child_bytes(b, p) && b[p].files == child_files(b, p) by {
        lemma_directory_balanced(s, id, t, p);
    }
    assert forall|e: int| 0 <= e < t.exts@.len() implies (#[trigger] t.exts@[e]).bytes == type_bytes(
        b,
        e,
    ) && t.exts@[e].files == type_files(b, e) by {
        let p = |k: int| a[k].alive && !a[k].is_dir && a[k].ext == e;
        let lost = |k: int| doomed(a, id, k) && !a[k].is_dir && a[k].ext == e;
        let kept = |k: int| b[k].alive && !b[k].is_dir && b[k].ext == e;
        let w = |k: int| a[k].size as nat;
        let one = |k: int| 1nat;
        assert forall|k: int| 0 <= k < len implies #[trigger] p(k) == (lost(k) || kept(k)) && !(lost(
            k,
        ) && kept(k)) by {
            assert(same_place(a[k], b[k]));
        }
        lemma_sum_split(len, p, lost, kept, w);
        lemma_sum_split(len, p, lost, kept, one);
        assert forall|k: int| 0 <= k < len && #[trigger] kept(k) implies w(k) == (|j: int|
            b[j].size as nat)(k) by {
            assert(same_place(a[k], b[k]));
            assert(!is_above(a, k, id));
        }
        lemma_sum_same(len, kept, kept, w, |k: int| b[k].size as nat);
        assert(s.exts@[e].bytes == type_bytes(a, e));
    }
    let p = |k: int| a[k].alive && a[k].is_dir;
    let lost = |k: int| doomed(a, id, k) && a[k].is_dir;
    let kept = |k: int| b[k].alive && b[k].is_dir;
    assert forall|k: int| 0 <= k < len implies #[trigger] p(k) == (lost(k) || kept(k)) && !(lost(k)
        && kept(k)) by {
        assert(same_place(a[k], b[k]));
    }
    lemma_sum_split(len, p, lost, kept, |k: int| 1nat);
}

/// What lies above `d` lies above whatever `d` lies above.
proof fn lemma_above_through(nodes: Seq<Node>, x: int, d: int, c: int)
    requires
        is_above(nodes, x, d),
        is_above(nodes, d, c),
    ensures
        is_above(nodes, x, c),
    decreases c,
{
    if nodes[c].parent != d {
        lemma_above_through(nodes, x, d, nodes[c].parent as int);
    }
}

/// Of two nodes above the same one, either lies above the other.
proof fn lemma_above_in_line(nodes: Seq<Node>, x: int, y: int, c: int)
    requires
        is_above(nodes, x, c),
        is_above(nodes, y, c),
    ensures
        x == y || is_above(nodes, x, y) || is_above(nodes, y, x),
    decreases c,
{
    let p = nodes[c].parent as int;
    if x != p && y != p {
        lemma_above_in_line(nodes, x, y, p);
    }
}

/// Where the parents are the same, so is what lies above.
proof fn lemma_above_same(a: Seq<Node>, b: Seq<Node>, x: int, n: int)
    requires
        linked(a),
        b.len() == a.len(),
        forall|i: int| 0 <= i < a.len() ==> same_place(a[i], #[trigger] b[i]),
        0 <= n < a.len(),
    ensures
        is_above(a, x, n) == is_above(b, x, n),
    decreases n,
{
    assert(same_place(a[n], b[n]));
    if n > 0 {
        lemma_above_same(a, b, x, a[n].parent as int);
    }
}

/// Removing a directory takes every living node below it.
proof fn lemma_below_is_doomed(nodes: Seq<Node>, d: int, c: int)
    requires
        linked(nodes),
        nodes_balanced(nodes),
        0 <= c < nodes.len(),
        nodes[c].alive,
        is_above(nodes, d, c),
    ensures
        doomed(nodes, d, c),
    decreases c,
{
    let p = nodes[c].parent as int;
    assert(is_child(nodes, p, c));
    assert(nodes[p].is_dir);
    if p != d {
        lemma_below_is_doomed(nodes, d, p);
    }
}

proof fn lemma_doomed_comes_after(nodes: Seq<Node>, d: int, k: int)
    requires
        doomed(nodes, d, k),
    ensures
        d <= k,
    decreases k,
{
    if k != d {
        lemma_doomed_comes_after(nodes, d, nodes[k].parent as int);
    }
}

/// What goes with `c` goes with whatever takes `c`.
proof fn lemma_doomed_through(nodes: Seq<Node>, d: int, c: int, k: int)
    requires
        doomed(nodes, d, c),
        doomed(nodes, c, k),
    ensures
        doomed(nodes, d, k),
    decreases k,
{
    if k != c {
        lemma_doomed_through(nodes, d, c, nodes[k].parent as int);
    }
}

/// Once `c` is gone, removing `d` takes what it would have taken, without what went
/// with `c`.
proof fn lemma_doomed_in_two(a: Seq<Node>, b: Seq<Node>, d: int, c: int, k: int)
    requires
        linked(a),
        b.len() == a.len(),
        forall|i: int|
            0 <= i < a.len() ==> same_place(a[i], #[trigger] b[i]) && b[i].alive == (a[i].alive
                && !doomed(a, c, i)),
        doomed(a, d, c),
        0 <= d < c,
        0 <= k < a.len(),
    ensures
        doomed(b, d, k) == (doomed(a, d, k) && !doomed(a, c, k)),
    decreases k,
{
    assert(same_place(a[k], b[k]));
    if k == d {
        if doomed(a, c, d) {
            lemma_doomed_comes_after(a, c, d);
        }
    } else if k > 0 {
        let p = a[k].parent as int;
        assert(same_place(a[p], b[p]));
        lemma_doomed_in_two(a, b, d, c, p);
    }
}

/// The two say the same of everything that is shown of a scan.
pub open spec fn same_scan(s: Store, t: Store) -> bool {
    &&& s.nodes@.len() == t.nodes@.len()
    &&& forall|i: int|
        0 <= i < s.nodes@.len() ==> same_place(#[trigger] s.nodes@[i], t.nodes@[i])
            && s.nodes@[i].alive == t.nodes@[i].alive && (s.nodes@[i].alive ==> s.nodes@[i].size
            == t.nodes@[i].size && s.nodes@[i].files == t.nodes@[i].files)
    &&& s.exts@.len() == t.exts@.len()
    &&& forall|e: int|
        0 <= e < s.exts@.len() ==> (#[trigger] s.exts@[e]).name == t.exts@[e].name
            && s.exts@[e].bytes == t.exts@[e].bytes && s.exts@[e].files == t.exts@[e].files
            && s.exts@[e].slot == t.exts@[e].slot
    &&& s.dirs == t.dirs
    &&& s.root_path == t.root_path
    &&& s.elapsed_ms == t.elapsed_ms
    &&& s.generation == t.generation
    &&& s.largest@.len() == t.largest@.len()
    &&& forall|k: int|
        0 <= k < s.largest@.len() ==> s.nodes@[(#[trigger] s.largest@[k]) as int].size
            == t.nodes@[t.largest@[k] as int].size
    &&& s.errors == t.errors
}

/// Nothing is subtracted twice: deleting something below a directory and then the
/// directory comes to the same as deleting the directory at once. What the two
/// deletions free adds up to what the one frees, and afterwards all that lives, its
/// weights, the table of types, the directories and the sizes of the largest files
/// agree.
pub proof fn removal_in_two_steps(s: Store, c: int, d: int, mid: Store, last: Store, once: Store)
    requires
        s.wf(),
        balanced(s),
        0 <= c < s.nodes@.len(),
        s.nodes@[c].alive,
        is_above(s.nodes@, d, c),
        pruned(s, c, mid),
        pruned(mid, d, last),
        pruned(s, d, once),
    ensures
        s.nodes@[c].size + mid.nodes@[d].size == s.nodes@[d].size,
        s.nodes@[c].files + mid.nodes@[d].files == s.nodes@[d].files,
        same_scan(last, once),
{
    let a = s.nodes@;
    let b = mid.nodes@;
    let x = last.nodes@;
    let y = once.nodes@;
    let len = a.len() as int;
    lemma_above_heavier(a, d, c);
    lemma_below_is_doomed(a, d, c);
    assert(same_place(a[d], b[d]));
    assert forall|k: int| 0 <= k < len implies #[trigger] doomed(b, d, k) == (doomed(a, d, k)
        && !doomed(a, c, k)) by {
        lemma_doomed_in_two(a, b, d, c, k);
    }
    assert(doomed(a, d, d));
    assert(doomed(b, d, d)) by {
        if doomed(a, c, d) {
            lemma_doomed_comes_after(a, c, d);
        }
    }
    assert forall|i: int| 0 <= i < len implies same_place(#[trigger] x[i], y[i]) && x[i].alive
        == y[i].alive && (x[i].alive ==> x[i].size == y[i].size && x[i].files == y[i].files) by {
        assert(same_place(a[i], b[i]));
        assert(same_place(b[i], x[i]));
        assert(same_place(a[i], y[i]));
        assert(doomed(b, d, i) == (doomed(a, d, i) && !doomed(a, c, i)));
        if doomed(a, c, i) {
            lemma_doomed_through(a, d, c, i);
        }
        lemma_above_same(a, b, i, d);
        if y[i].alive {
            if is_above(a, i, d) {
                lemma_above_heavier(a, i, d);
                lemma_above_through(a, i, d, c);
            } else if is_above(a, i, c) {
                lemma_above_in_line(a, i, d, c);
                if is_above(a, d, i) {
                    lemma_below_is_doomed(a, d, i);
                }
            }
        }
    }
    lemma_pruned_wf(s, c, mid);
    removal_keeps_balance(s, c, mid);
    removal_keeps_balance(mid, d, last);
    removal_keeps_balance(s, d, once);
    assert forall|e: int| 0 <= e < last.exts@.len() implies (#[trigger] last.exts@[e]).name
        == once.exts@[e].name && last.exts@[e].bytes == once.exts@[e].bytes && last.exts@[e].files
        == once.exts@[e].files && last.exts@[e].slot == once.exts@[e].slot by {
        let p = |k: int| x[k].alive && !x[k].is_dir && x[k].ext == e;
        let q = |k: int| y[k].alive && !y[k].is_dir && y[k].ext == e;
        assert forall|k: int| 0 <= k < len implies #[trigger] p(k) == q(k) by {
            assert(same_place(x[k], y[k]));
        }
        assert forall|k: int| 0 <= k < len && #[trigger] p(k) implies x[k].size == y[k].size by {
            assert(same_place(x[k], y[k]));
        }
        lemma_sum_same(len, p, q, |k: int| x[k].size as nat, |k: int| y[k].size as nat);
        lemma_sum_same(len, p, q, |k: int| 1nat, |k: int| 1nat);
        assert(mid.exts@[e].name == s.exts@[e].name);
        assert(once.exts@[e].bytes == type_bytes(y, e));
    }
    let p = |k: int| x[k].alive && x[k].is_dir;
    let q = |k: int| y[k].alive && y[k].is_dir;
    assert forall|k: int| 0 <= k < len implies #[trigger] p(k) == q(k) by {
        assert(same_place(x[k], y[k]));
    }
    lemma_sum_same(len, p, q, |k: int| 1nat, |k: int| 1nat);
    lemma_pruned_wf(mid, d, last);
    lemma_pruned_wf(s, d, once);
    assert forall|i: int| 0 <= i < len implies is_living_file(x, i) == is_living_file(y, i) && (
    is_living_file(x, i) ==> (#[trigger] x[i]).size == y[i].size) by {
        assert(same_place(x[i], y[i]));
    }
    largest_are_the_largest(last);
    largest_are_the_largest(once);
    lemma_sum_same(
        len,
        |k: int| x[k].alive && !x[k].is_dir,
        |k: int| y[k].alive && !y[k].is_dir,
        |k: int| 1nat,
        |k: int| 1nat,
    );
    assert forall|k: int| 0 <= k < last.largest@.len() implies x[(
    #[trigger] last.largest@[k]) as int].size == y[once.largest@[k] as int].size by {
        lemma_same_sizes(x, last.largest@, y, once.largest@, k);
        lemma_same_sizes(y, once.largest@, x, last.largest@, k);
    }
}

/// The number of living files.
pub open spec fn living_files(nodes: Seq<Node>) -> nat {
    count_where(nodes.len() as int, |k: int| nodes[k].alive && !nodes[k].is_dir)
}

/// Whether `c` hangs on the first `j` nodes without being one of them.
spec fn at_edge(nodes: Seq<Node>, j: int, c: int) -> bool {
    j <= c && nodes[c].alive && nodes[c].parent < j
}

/// Whether `k` is a living file among the first `j` nodes.
spec fn inside_leaf(nodes: Seq<Node>, j: int, k: int) -> bool {
    k < j && nodes[k].alive && !nodes[k].is_dir
}

/// The weight of what hangs on the first `j` nodes, and of the files among them.
spec fn cut_weight(nodes: Seq<Node>, w: spec_fn(int) -> nat, j: int) -> nat {
    sum_where(nodes.len() as int, |c: int| at_edge(nodes, j, c), w) + sum_where(
        nodes.len() as int,
        |k: int| inside_leaf(nodes, j, k),
        w,
    )
}

/// Every living directory weighs what its living children weigh.
spec fn weighs_children(nodes: Seq<Node>, w: spec_fn(int) -> nat) -> bool {
    forall|p: int|
        0 <= p < nodes.len() && (#[trigger] nodes[p]).alive && nodes[p].is_dir ==> w(p)
            == sum_where(
            nodes.len() as int,
            |c: int| is_child(nodes, p, c) && nodes[c].alive,
            w,
        )
}

/// Moving the cut past node `i` puts its children at the edge in its place.
proof fn lemma_edge_moves(nodes: Seq<Node>, w: spec_fn(int) -> nat, i: int)
    requires
        linked(nodes),
        1 <= i < nodes.len(),
    ensures
        sum_where(nodes.len() as int, |c: int| at_edge(nodes, i + 1, c), w) + if nodes[i].alive {
            w(i)
        } else {
            0
        } == sum_where(nodes.len() as int, |c: int| at_edge(nodes, i, c), w) + sum_where(
            nodes.len() as int,
            |c: int| is_child(nodes, i, c) && nodes[c].alive,
            w,
        ),
{
    let len = nodes.len() as int;
    let edge = |c: int| at_edge(nodes, i + 1, c);
    let edge0 = |c: int| at_edge(nodes, i, c);
    let both = |c: int| i + 1 <= c && nodes[c].alive && nodes[c].parent < i;
    let kids = |c: int| is_child(nodes, i, c) && nodes[c].alive;
    assert(is_child(nodes, nodes[i].parent as int, i));
    assert forall|c: int| 0 <= c < len implies #[trigger] edge(c) == (both(c) || kids(c)) && !(both(
        c,
    ) && kids(c)) by {
        if c > 0 {
            assert(is_child(nodes, nodes[c].parent as int, c));
        }
    }
    lemma_sum_split(len, edge, both, kids, w);
    if nodes[i].alive {
        lemma_sum_one_more(len, both, edge0, w, i);
    } else {
        lemma_sum_same(len, both, edge0, w, w);
    }
}

/// Moving the cut past node `i` takes it in where it is a living file.
proof fn lemma_leaves_move(nodes: Seq<Node>, w: spec_fn(int) -> nat, i: int)
    requires
        1 <= i < nodes.len(),
    ensures
        sum_where(nodes.len() as int, |k: int| inside_leaf(nodes, i + 1, k), w) == sum_where(
            nodes.len() as int,
            |k: int| inside_leaf(nodes, i, k),
            w,
        ) + if nodes[i].alive && !nodes[i].is_dir {
            w(i)
        } else {
            0
        },
{
    let len = nodes.len() as int;
    let inner = |k: int| inside_leaf(nodes, i + 1, k);
    let inner0 = |k: int| inside_leaf(nodes, i, k);
    if nodes[i].alive && !nodes[i].is_dir {
        lemma_sum_one_more(len, inner0, inner, w, i);
    } else {
        lemma_sum_same(len, inner, inner0, w, w);
    }
}

/// Wherever the cut is made, what is inside and what hangs on it weigh what the root
/// weighs.
proof fn lemma_leaves_add_up(nodes: Seq<Node>, w: spec_fn(int) -> nat, j: int)
    requires
        linked(nodes),
        nodes_balanced(nodes),
        nodes[0].alive,
        1 <= j <= nodes.len(),
        weighs_children(nodes, w),
    ensures
        w(0) == cut_weight(nodes, w, j),
    decreases j,
{
    let len = nodes.len() as int;
    if j == 1 {
        let kids = |c: int| is_child(nodes, 0, c) && nodes[c].alive;
        let edge = |c: int| at_edge(nodes, j, c);
        assert forall|c: int| 0 <= c < len implies #[trigger] kids(c) == edge(c) by {
            if c > 0 {
                assert(is_child(nodes, nodes[c].parent as int, c));
            }
        }
        lemma_sum_same(len, kids, edge, w, w);
        lemma_sum_none(len, |k: int| inside_leaf(nodes, j, k), w);
        assert(nodes[0].alive && nodes[0].is_dir);
    } else {
        let i = j - 1;
        lemma_leaves_add_up(nodes, w, i);
        lemma_edge_moves(nodes, w, i);
        lemma_leaves_move(nodes, w, i);
        let kids = |c: int| is_child(nodes, i, c) && nodes[c].alive;
        if !(nodes[i].alive && nodes[i].is_dir) {
            assert forall|c: int| 0 <= c < len implies !#[trigger] kids(c) by {
                if is_child(nodes, i, c) && nodes[c].alive {
                    assert(nodes[nodes[c].parent as int].alive);
                }
            }
            lemma_sum_none(len, kids, w);
        }
    }
}

/// What the types together hold are the files whose type is in the table.
proof fn lemma_types_add_up(nodes: Seq<Node>, w: spec_fn(int) -> nat, e: int)
    requires
        0 <= e,
    ensures
        sum_where(
            e,
            |x: int| true,
            |x: int|
                sum_where(
                    nodes.len() as int,
                    |k: int| nodes[k].alive && !nodes[k].is_dir && nodes[k].ext == x,
                    w,
                ),
        ) == sum_where(
            nodes.len() as int,
            |k: int| nodes[k].alive && !nodes[k].is_dir && nodes[k].ext < e,
            w,
        ),
    decreases e,
{
    let len = nodes.len() as int;
    let upto = |k: int| nodes[k].alive && !nodes[k].is_dir && nodes[k].ext < e;
    if e == 0 {
        lemma_sum_none(len, upto, w);
    } else {
        lemma_types_add_up(nodes, w, e - 1);
        lemma_sum_split(
            len,
            upto,
            |k: int| nodes[k].alive && !nodes[k].is_dir && nodes[k].ext < e - 1,
            |k: int| nodes[k].alive && !nodes[k].is_dir && nodes[k].ext == e - 1,
            w,
        );
    }
}

/// Every byte is accounted for: as long as the root stands, it weighs what the
/// living files weigh, and so do the file types together.
pub proof fn every_byte_accounted_for(s: Store)
    requires
        s.wf(),
        balanced(s),
        s.nodes@[0].alive,
    ensures
        s.nodes@[0].size == living_bytes(s.nodes@),
        s.nodes@[0].files == living_files(s.nodes@),
        s.nodes@[0].size == sum_where(
            s.exts@.len() as int,
            |e: int| true,
            |e: int| s.exts@[e].bytes as nat,
        ),
        s.nodes@[0].files == sum_where(
            s.exts@.len() as int,
            |e: int| true,
            |e: int| s.exts@[e].files as nat,
        ),
{
    let nodes = s.nodes@;
    let len = nodes.len() as int;
    let all = s.exts@.len() as int;
    let size = |k: int| nodes[k].size as nat;
    let files = |k: int| nodes[k].files as nat;
    let one = |k: int| 1nat;
    let leaf = |k: int| nodes[k].alive && !nodes[k].is_dir;
    let edge = |c: int| at_edge(nodes, len, c);
    let inner = |k: int| inside_leaf(nodes, len, k);
    let typed = |k: int| nodes[k].alive && !nodes[k].is_dir && nodes[k].ext < all;
    lemma_leaves_add_up(nodes, size, len);
    lemma_leaves_add_up(nodes, files, len);
    lemma_sum_none(len, edge, size);
    lemma_sum_none(len, edge, files);
    lemma_sum_same(len, inner, leaf, size, size);
    lemma_sum_same(len, inner, leaf, files, one);
    lemma_types_add_up(nodes, size, all);
    lemma_types_add_up(nodes, one, all);
    lemma_sum_same(len, typed, leaf, size, size);
    lemma_sum_same(len, typed, leaf, one, one);
    let any = |e: int| true;
    lemma_sum_same(all, any, any, |e: int| s.exts@[e].bytes as nat, |x: int|
        sum_where(
            len,
            |k: int| nodes[k].alive && !nodes[k].is_dir && nodes[k].ext == x,
            size,
        ));
    lemma_sum_same(all, any, any, |e: int| s.exts@[e].files as nat, |x: int|
        sum_where(
            len,
            |k: int| nodes[k].alive && !nodes[k].is_dir && nodes[k].ext == x,
            one,
        ));
}

proof fn lemma_root_above(nodes: Seq<Node>, id: int)
    requires
        linked(nodes),
        0 < id < nodes.len(),
    ensures
        is_above(nodes, 0, id),
    decreases id,
{
    let p = nodes[id].parent as int;
    if p > 0 {
        lemma_root_above(nodes, p);
    }
}

/// Deleting needs no rescan: as soon as a living node other than the root has been
/// taken out, the summary says what the files that are left add up to, the total is
/// less by exactly what the node weighed, and the files listed are the largest of
/// those that are left, with nothing deleted among them and nothing larger left out.
pub proof fn deletion_shows_at_once(
    s: Store,
    id: int,
    t: Store,
    m: Summary,
    disk: (u64, u64),
    sep: char,
)
    requires
        s.wf(),
        balanced(s),
        s.nodes@[0].alive,
        0 < id < s.nodes@.len(),
        s.nodes@[id].alive,
        pruned(s, id, t),
        sums_up(m, t, disk, sep),
    ensures
        balanced(t),
        t.nodes@[0].alive,
        m.bytes == living_bytes(t.nodes@),
        m.files == living_files(t.nodes@),
        m.dirs == living_dirs(t.nodes@),
        m.bytes + s.nodes@[id].size == s.nodes@[0].size,
        m.files + s.nodes@[id].files == s.nodes@[0].files,
        lists_largest(m.largest@, t, sep),
        forall|k: int|
            0 <= k < m.largest@.len() ==> !doomed(
                s.nodes@,
                id,
                (#[trigger] m.largest@[k]).id as int,
            ),
{
    removal_keeps_balance(s, id, t);
    lemma_pruned_wf(s, id, t);
    lemma_root_above(s.nodes@, id);
    lemma_above_heavier(s.nodes@, 0, id);
    assert(!doomed(s.nodes@, id, 0));
    assert(same_place(s.nodes@[0], t.nodes@[0]));
    every_byte_accounted_for(t);
    assert forall|k: int| 0 <= k < m.largest@.len() implies !doomed(
        s.nodes@,
        id,
        (#[trigger] m.largest@[k]).id as int,
    ) by {
        let i = m.largest@[k].id as int;
        assert(same_place(s.nodes@[i], t.nodes@[i]));
    }
}

/// Removing a living node takes it away with all that lives below it, and nothing else: a
/// node that lived lives on just where it is not that one and its parent lives on. The
/// table of types and the number of directories lose exactly what went.
pub proof fn removal_takes_the_subtree(s: Store, id: int, t: Store)
    requires
        s.wf(),
        balanced(s),
        0 <= id < s.nodes@.len(),
        s.nodes@[id].alive,
        pruned(s, id, t),
    ensures
        t.nodes@.len() == s.nodes@.len(),
        !t.nodes@[id].alive,
        id > 0 ==> t.nodes@[0].alive == s.nodes@[0].alive,
        forall|i: int|
            0 < i < s.nodes@.len() ==> ((#[trigger] t.nodes@[i]).alive <==> s.nodes@[i].alive && i
                != id && t.nodes@[s.nodes@[i].parent as int].alive),
        forall|i: int|
            0 <= i < s.nodes@.len() ==> (#[trigger] t.nodes@[i]).name@ == s.nodes@[i].name@
                && t.nodes@[i].parent == s.nodes@[i].parent && t.nodes@[i].first_child
                == s.nodes@[i].first_child && t.nodes@[i].child_count == s.nodes@[i].child_count
                && t.nodes@[i].ext == s.nodes@[i].ext && t.nodes@[i].is_dir == s.nodes@[i].is_dir,
        forall|i: int|
            0 <= i < s.nodes@.len() && !s.nodes@[i].is_dir ==> (#[trigger] t.nodes@[i]).size
                == s.nodes@[i].size && t.nodes@[i].files == s.nodes@[i].files,
        forall|i: int| #[trigger]
            is_above(s.nodes@, i, id) ==> t.nodes@[i].size + s.nodes@[id].size == s.nodes@[i].size
                && t.nodes@[i].files + s.nodes@[id].files == s.nodes@[i].files,
        forall|i: int|
            0 <= i < s.nodes@.len() && !is_above(s.nodes@, i, id) ==> (#[trigger] t.nodes@[i]).size
                == s.nodes@[i].size && t.nodes@[i].files == s.nodes@[i].files,
        t.exts@.len() == s.exts@.len(),
        forall|e: int|
            0 <= e < s.exts@.len() ==> (#[trigger] t.exts@[e]).name@ == s.exts@[e].name@
                && t.exts@[e].slot == s.exts@[e].slot && t.exts@[e].bytes + sum_where(
                s.nodes@.len() as int,
                |k: int|
                    s.nodes@[k].alive && !t.nodes@[k].alive && !s.nodes@[k].is_dir
                        && s.nodes@[k].ext == e,
                |k: int| s.nodes@[k].size as nat,
            ) == s.exts@[e].bytes && t.exts@[e].files + count_where(
                s.nodes@.len() as int,
                |k: int|
                    s.nodes@[k].alive && !t.nodes@[k].alive && !s.nodes@[k].is_dir
                        && s.nodes@[k].ext == e,
            ) == s.exts@[e].files,
        t.dirs + count_where(
            s.nodes@.len() as int,
            |k: int| s.nodes@[k].alive && !t.nodes@[k].alive && s.nodes@[k].is_dir,
        ) == s.dirs,
        t.root_path@ == s.root_path@,
        t.elapsed_ms == s.elapsed_ms,
        t.generation == s.generation,
        t.errors == s.errors,
{
    let a = s.nodes@;
    let b = t.nodes@;
    let len = a.len() as int;
    removal_keeps_balance(s, id, t);
    assert(doomed(a, id, id));
    assert(same_place(a[id], b[id]));
    assert(same_place(a[0], b[0]));
    assert forall|i: int| 0 < i < len implies ((#[trigger] b[i]).alive <==> a[i].alive && i != id
        && b[a[i].parent as int].alive) by {
        let p = a[i].parent as int;
        assert(is_child(a, p, i));
        assert(a[p].is_dir);
        assert(same_place(a[i], b[i]));
        assert(same_place(a[p], b[p]));
    }
    assert forall|i: int| 0 <= i < len implies same_place(a[i], #[trigger] b[i]) by {
        assert(same_place(a[i], b[i]));
    }
    assert forall|i: int| #[trigger] is_above(a, i, id) implies b[i].size + a[id].size == a[i].size
        && b[i].files + a[id].files == a[i].files && a[i].is_dir by {
        lemma_above_heavier(a, i, id);
        assert(same_place(a[i], b[i]));
    }
    assert forall|e: int| 0 <= e < s.exts@.len() implies (#[trigger] t.exts@[e]).bytes + sum_where(
        len,
        |k: int| a[k].alive && !b[k].alive && !a[k].is_dir && a[k].ext == e,
        |k: int| a[k].size as nat,
    ) == s.exts@[e].bytes && t.exts@[e].files + count_where(
        len,
        |k: int| a[k].alive && !b[k].alive && !a[k].is_dir && a[k].ext == e,
    ) == s.exts@[e].files by {
        let was = |k: int| a[k].alive && !a[k].is_dir && a[k].ext == e;
        let is = |k: int| b[k].alive && !b[k].is_dir && b[k].ext == e;
        let went = |k: int| a[k].alive && !b[k].alive && !a[k].is_dir && a[k].ext == e;
        let size = |k: int| a[k].size as nat;
        let left = |k: int| b[k].size as nat;
        assert forall|k: int| 0 <= k < len implies #[trigger] was(k) == (is(k) || went(k)) && !(is(
            k,
        ) && went(k)) && (is(k) ==> size(k) == left(k)) by {
            assert(same_place(a[k], b[k]));
        }
        lemma_sum_split(len, was, is, went, size);
        lemma_sum_split(len, was, is, went, |k: int| 1nat);
        assert forall|k: int| 0 <= k < len && #[trigger] is(k) implies size(k) == left(k) by {
            assert(was(k) == (is(k) || went(k)));
        }
        lemma_sum_same(len, is, is, size, left);
        assert(s.exts@[e].bytes == type_bytes(a, e));
        assert(s.exts@[e].files == type_files(a, e));
        assert(t.exts@[e].bytes == type_bytes(b, e));
        assert(t.exts@[e].files == type_files(b, e));
    }
    let was = |k: int| a[k].alive && a[k].is_dir;
    let is = |k: int| b[k].alive && b[k].is_dir;
    let went = |k: int| a[k].alive && !b[k].alive && a[k].is_dir;
    assert forall|k: int| 0 <= k < len implies #[trigger] was(k) == (is(k) || went(k)) && !(is(k)
        && went(k)) by {
        assert(same_place(a[k], b[k]));
    }
    lemma_sum_split(len, was, is, went, |k: int| 1nat);
}

} // verus!
