//! The largest files: how the list of them is kept, and that nothing larger is ever
//! left out of it.

use crate::balance::{balanced, living_files};
use crate::prune::{doomed, is_above, pruned, same_place};
use crate::store::{Node, Store};
use crate::sums::{count_where, lemma_sum_none, lemma_sum_one_more, lemma_sum_same};
use vstd::prelude::*;

verus! {

/// How many of the largest files are kept.
pub const TOP_N: usize = 15;

/// Whether the entry `f` stands ahead of `g`: it is larger, or as large and later in
/// the arena.
pub open spec fn ahead(f: (u64, u32), g: (u64, u32)) -> bool {
    f.0 > g.0 || (f.0 == g.0 && f.1 > g.1)
}

/// How many entries at the front of `t` stand ahead of `f`.
pub open spec fn ahead_in_front(t: Seq<(u64, u32)>, f: (u64, u32)) -> int
    decreases t.len(),
{
    if t.len() == 0 || !ahead(t[0], f) {
        0
    } else {
        1 + ahead_in_front(t.drop_first(), f)
    }
}

/// `t`, largest first, with one more file in its place.
pub open spec fn with_file(t: Seq<(u64, u32)>, f: (u64, u32)) -> Seq<(u64, u32)> {
    t.insert(ahead_in_front(t, f), f)
}

/// `t` once `f` has been offered to it: while there is room, `f` gets its place; in
/// a full list a file larger than the last one takes that one's place.
pub open spec fn offered(t: Seq<(u64, u32)>, f: (u64, u32)) -> Seq<(u64, u32)> {
    if t.len() < TOP_N {
        with_file(t, f)
    } else if f.0 > t.last().0 {
        with_file(t.drop_last(), f)
    } else {
        t
    }
}

/// The list `t` once the indices below `n` that `p` picks have been offered to it in
/// turn, each with its size.
pub open spec fn top_from(
    t: Seq<(u64, u32)>,
    n: int,
    p: spec_fn(int) -> bool,
    w: spec_fn(int) -> u64,
) -> Seq<(u64, u32)>
    decreases n,
{
    if n <= 0 {
        t
    } else if p(n - 1) {
        offered(top_from(t, n - 1, p, w), (w(n - 1), (n - 1) as u32))
    } else {
        top_from(t, n - 1, p, w)
    }
}

/// Whether node `k` is a file that is still there.
pub open spec fn is_living_file(nodes: Seq<Node>, k: int) -> bool {
    nodes[k].alive && !nodes[k].is_dir
}

/// Those of the first `i` files of `ids` that are still there, offered in turn.
pub open spec fn kept(nodes: Seq<Node>, ids: Seq<u32>, i: int) -> Seq<(u64, u32)>
    decreases i,
{
    if i <= 0 {
        Seq::empty()
    } else if is_living_file(nodes, ids[i - 1] as int) {
        offered(kept(nodes, ids, i - 1), (nodes[ids[i - 1] as int].size, ids[i - 1]))
    } else {
        kept(nodes, ids, i - 1)
    }
}

/// The list `ids` brought up to date: what is still there of it stays, and the room
/// that is left goes to the largest of the other files.
#[verifier::opaque]
pub open spec fn refilled(nodes: Seq<Node>, ids: Seq<u32>) -> Seq<u32> {
    top_from(
        kept(nodes, ids, ids.len() as int),
        nodes.len() as int,
        |k: int| is_living_file(nodes, k) && !ids.contains(k as u32),
        |k: int| nodes[k].size,
    ).map_values(|f: (u64, u32)| f.1)
}

proof fn lemma_front(t: Seq<(u64, u32)>, f: (u64, u32))
    ensures
        0 <= ahead_in_front(t, f) <= t.len(),
        forall|i: int| 0 <= i < ahead_in_front(t, f) ==> ahead(#[trigger] t[i], f),
        ahead_in_front(t, f) < t.len() ==> !ahead(t[ahead_in_front(t, f)], f),
    decreases t.len(),
{
    if t.len() > 0 && ahead(t[0], f) {
        let r = t.drop_first();
        lemma_front(r, f);
        assert forall|i: int| 0 <= i < ahead_in_front(t, f) implies ahead(#[trigger] t[i], f) by {
            if i > 0 {
                assert(t[i] == r[i - 1]);
            }
        }
    }
}

/// Only one place divides those ahead from the rest.
proof fn lemma_front_unique(t: Seq<(u64, u32)>, f: (u64, u32), k: int)
    requires
        0 <= k <= t.len(),
        forall|i: int| 0 <= i < k ==> ahead(#[trigger] t[i], f),
        k < t.len() ==> !ahead(t[k], f),
    ensures
        k == ahead_in_front(t, f),
{
    lemma_front(t, f);
    let j = ahead_in_front(t, f);
    if j < k {
        assert(ahead(t[j], f));
    }
    if k < j {
        assert(ahead(t[k], f));
    }
}

fn insert_file(top: &mut Vec<(u64, u32)>, f: (u64, u32))
    ensures
        final(top)@ == with_file(old(top)@, f),
{
    let mut k: usize = 0;
    while k < top.len() && (top[k].0 > f.0 || (top[k].0 == f.0 && top[k].1 > f.1))
        invariant
            k <= top@.len(),
            top@ == old(top)@,
            forall|i: int| 0 <= i < k ==> ahead(#[trigger] top@[i], f),
        decreases top@.len() - k,
    {
        k = k + 1;
    }
    proof {
        lemma_front_unique(top@, f, k as int);
    }
    top.insert(k, f);
}

/// Offers a file to the list.
pub(crate) fn offer(top: &mut Vec<(u64, u32)>, f: (u64, u32))
    ensures
        final(top)@ == offered(old(top)@, f),
{
    if top.len() < TOP_N {
        insert_file(top, f);
    } else if f.0 > top[top.len() - 1].0 {
        let _ = top.pop();
        insert_file(top, f);
    }
}

/// The files of a list, without their sizes.
pub(crate) fn files_of(top: &Vec<(u64, u32)>) -> (ids: Vec<u32>)
    ensures
        ids@ == top@.map_values(|f: (u64, u32)| f.1),
{
    let mut ids: Vec<u32> = Vec::new();
    let ghost all = top@.map_values(|f: (u64, u32)| f.1);
    for k in 0..top.len()
        invariant
            all == top@.map_values(|f: (u64, u32)| f.1),
            ids@ == all.take(k as int),
    {
        ids.push(top[k].1);
        assert(all.take(k + 1) == all.take(k as int).push(all[k as int]));
    }
    assert(all.take(top@.len() as int) == all);
    ids
}

fn is_among(ids: &Vec<u32>, id: u32) -> (r: bool)
    ensures
        r == ids@.contains(id),
{
    for k in 0..ids.len()
        invariant
            forall|i: int| 0 <= i < k ==> #[trigger] ids@[i] != id,
    {
        if ids[k] == id {
            return true;
        }
    }
    false
}

/// Brings the list `ids` of largest files up to date.
pub fn refill(nodes: &Vec<Node>, ids: &Vec<u32>) -> (r: Vec<u32>)
    requires
        nodes@.len() <= u32::MAX,
        forall|k: int| 0 <= k < ids@.len() ==> (#[trigger] ids@[k]) < nodes@.len(),
    ensures
        r@ == refilled(nodes@, ids@),
{
    let mut top: Vec<(u64, u32)> = Vec::new();
    for i in 0..ids.len()
        invariant
            forall|k: int| 0 <= k < ids@.len() ==> (#[trigger] ids@[k]) < nodes@.len(),
            top@ == kept(nodes@, ids@, i as int),
    {
        let id = ids[i];
        assert(ids@[i as int] < nodes@.len());
        let n = &nodes[id as usize];
        if n.alive && !n.is_dir {
            offer(&mut top, (n.size, id));
        }
    }
    let ghost base = top@;
    let ghost p = |k: int| is_living_file(nodes@, k) && !ids@.contains(k as u32);
    let ghost w = |k: int| nodes@[k].size;
    for i in 0..nodes.len()
        invariant
            nodes@.len() <= u32::MAX,
            p == (|k: int| is_living_file(nodes@, k) && !ids@.contains(k as u32)),
            w == (|k: int| nodes@[k].size),
            top@ == top_from(base, i as int, p, w),
    {
        let n = &nodes[i];
        if n.alive && !n.is_dir && !is_among(ids, i as u32) {
            offer(&mut top, (n.size, i as u32));
        }
    }
    proof {
        reveal(refilled);
    }
    files_of(&top)
}

/// Whether `j` is in the list `t`.
pub open spec fn listed(t: Seq<(u64, u32)>, j: int) -> bool {
    exists|k: int| 0 <= k < t.len() && (#[trigger] t[k]).1 == j
}

/// The list holds the largest of the picks below `n`: picks with their sizes, each
/// ahead of the next; as many as there are, up to the limit; and nothing left out is
/// larger than anything in it.
pub open spec fn holds_largest(
    n: int,
    p: spec_fn(int) -> bool,
    w: spec_fn(int) -> u64,
    t: Seq<(u64, u32)>,
) -> bool {
    &&& t.len() == if count_where(n, p) < TOP_N {
        count_where(n, p)
    } else {
        TOP_N as nat
    }
    &&& forall|k: int|
        0 <= k < t.len() ==> (#[trigger] t[k]).1 < n && p(t[k].1 as int) && t[k].0 == w(
            t[k].1 as int,
        )
    &&& forall|a: int, b: int| 0 <= a < b < t.len() ==> ahead(#[trigger] t[a], #[trigger] t[b])
    &&& forall|j: int, k: int|
        0 <= j < n && p(j) && !(#[trigger] listed(t, j)) && 0 <= k < t.len() ==> w(j) <= (
        #[trigger] t[k]).0
    &&& t.len() < TOP_N ==> forall|j: int| 0 <= j < n && p(j) ==> #[trigger] listed(t, j)
}

/// The list `ids` names the largest files that are still there.
#[verifier::opaque]
pub open spec fn names_largest(nodes: Seq<Node>, ids: Seq<u32>) -> bool {
    holds_largest(
        nodes.len() as int,
        |k: int| is_living_file(nodes, k),
        |k: int| nodes[k].size,
        ids.map_values(|i: u32| (nodes[i as int].size, i)),
    )
}

proof fn lemma_insert_largest(
    n: int,
    p: spec_fn(int) -> bool,
    q: spec_fn(int) -> bool,
    w: spec_fn(int) -> u64,
    t: Seq<(u64, u32)>,
    d: Seq<(u64, u32)>,
    i: int,
)
    requires
        0 <= i < n <= u32::MAX,
        !p(i),
        q(i),
        forall|j: int| 0 <= j < n && j != i ==> #[trigger] p(j) == q(j),
        holds_largest(n, p, w, t),
        d == t || (t.len() == TOP_N && d == t.drop_last() && w(i) > t.last().0),
        d.len() < TOP_N,
    ensures
        holds_largest(n, q, w, with_file(d, (w(i), i as u32))),
{
    let f = (w(i), i as u32);
    let l = with_file(d, f);
    let at = ahead_in_front(d, f);
    lemma_front(d, f);
    lemma_sum_one_more(n, p, q, |k: int| 1nat, i);
    assert forall|k: int| 0 <= k < l.len() implies #[trigger] l[k] == if k < at {
        d[k]
    } else if k == at {
        f
    } else {
        d[k - 1]
    } by {}
    assert forall|k: int| 0 <= k < d.len() implies #[trigger] d[k] == t[k] && d[k].1 != i && q(
        d[k].1 as int,
    ) by {
        assert(p(t[k].1 as int));
    }
    assert forall|k: int| 0 <= k < l.len() implies (#[trigger] l[k]).1 < n && q(l[k].1 as int)
        && l[k].0 == w(l[k].1 as int) by {
        if k < at {
            assert(d[k] == t[k]);
        } else if k > at {
            assert(d[k - 1] == t[k - 1]);
        }
    }
    assert forall|a: int, b: int| 0 <= a < b < l.len() implies ahead(
        #[trigger] l[a],
        #[trigger] l[b],
    ) by {
        let x = if a < at {
            a
        } else {
            a - 1
        };
        let y = if b < at {
            b
        } else {
            b - 1
        };
        if a != at {
            assert(d[x] == t[x]);
        }
        if b != at {
            assert(d[y] == t[y]);
        }
        if a != at && b != at {
            assert(ahead(t[x], t[y]));
        }
        if a == at && at < d.len() {
            assert(!ahead(d[at], f));
            assert(d[at] == t[at]);
            assert(y >= at);
            if y > at {
                assert(ahead(t[at], t[y]));
            }
        }
    }
    assert forall|j: int| #[trigger] listed(l, j) == (listed(d, j) || j == i) by {
        if listed(d, j) {
            let k = choose|k: int| 0 <= k < d.len() && (#[trigger] d[k]).1 == j;
            let m = if k < at {
                k
            } else {
                k + 1
            };
            assert(l[m].1 == j);
        }
        if j == i {
            assert(l[at].1 == j);
        }
        if listed(l, j) && j != i {
            let m = choose|m: int| 0 <= m < l.len() && (#[trigger] l[m]).1 == j;
            let k = if m < at {
                m
            } else {
                m - 1
            };
            assert(d[k].1 == j);
        }
    }
    assert forall|j: int| #[trigger] listed(t, j) && !listed(d, j) implies d != t && t.last().1
        == j by {
        let k = choose|k: int| 0 <= k < t.len() && (#[trigger] t[k]).1 == j;
        if k < d.len() {
            assert(d[k].1 == j);
        }
    }
    assert forall|j: int, k: int|
        0 <= j < n && q(j) && !(#[trigger] listed(l, j)) && 0 <= k < l.len() implies w(j) <= (
    #[trigger] l[k]).0 by {
        assert(p(j));
        assert(d != t) by {
            if d == t {
                assert(listed(t, j));
            }
        }
        let e = t.len() - 1;
        assert(w(j) <= t[e].0) by {
            if listed(t, j) {
                assert(t.last().1 == j);
                assert(t[e].0 == w(j));
            }
        }
        if k < at {
            assert(ahead(t[k], t[e]));
        } else if k > at {
            if k - 1 < e {
                assert(ahead(t[k - 1], t[e]));
            }
        }
    }
    assert forall|j: int| l.len() < TOP_N && 0 <= j < n && q(j) implies #[trigger] listed(l, j) by {
        if j != i {
            assert(p(j));
            assert(listed(t, j));
        }
    }
}

/// Offering one more pick gives the largest of the picks with that one.
proof fn lemma_offer(
    n: int,
    p: spec_fn(int) -> bool,
    q: spec_fn(int) -> bool,
    w: spec_fn(int) -> u64,
    t: Seq<(u64, u32)>,
    i: int,
)
    requires
        0 <= i < n <= u32::MAX,
        !p(i),
        q(i),
        forall|j: int| 0 <= j < n && j != i ==> #[trigger] p(j) == q(j),
        holds_largest(n, p, w, t),
    ensures
        holds_largest(n, q, w, offered(t, (w(i), i as u32))),
{
    if t.len() < TOP_N {
        lemma_insert_largest(n, p, q, w, t, t, i);
    } else if w(i) > t.last().0 {
        lemma_insert_largest(n, p, q, w, t, t.drop_last(), i);
    } else {
        lemma_sum_one_more(n, p, q, |k: int| 1nat, i);
        assert forall|k: int| 0 <= k < t.len() implies q((#[trigger] t[k]).1 as int) by {
            assert(p(t[k].1 as int));
        }
        assert forall|j: int, k: int|
            0 <= j < n && q(j) && !(#[trigger] listed(t, j)) && 0 <= k < t.len() implies w(j) <= (
        #[trigger] t[k]).0 by {
            if j != i {
                assert(p(j));
            } else if k < t.len() - 1 {
                assert(ahead(t[k], t[t.len() - 1]));
            }
        }
    }
}

/// The same picks with the same sizes have the same largest.
pub proof fn lemma_holds_same(
    n: int,
    p: spec_fn(int) -> bool,
    w: spec_fn(int) -> u64,
    q: spec_fn(int) -> bool,
    v: spec_fn(int) -> u64,
    t: Seq<(u64, u32)>,
)
    requires
        holds_largest(n, p, w, t),
        forall|i: int| 0 <= i < n ==> #[trigger] p(i) == q(i),
        forall|i: int| 0 <= i < n && #[trigger] p(i) ==> w(i) == v(i),
    ensures
        holds_largest(n, q, v, t),
{
    lemma_sum_same(n, p, q, |i: int| 1nat, |i: int| 1nat);
    assert forall|k: int| 0 <= k < t.len() implies (#[trigger] t[k]).1 < n && q(t[k].1 as int)
        && t[k].0 == v(t[k].1 as int) by {
        assert(p(t[k].1 as int));
    }
    assert forall|j: int, k: int|
        0 <= j < n && q(j) && !(#[trigger] listed(t, j)) && 0 <= k < t.len() implies v(j) <= (
    #[trigger] t[k]).0 by {
        assert(p(j));
    }
    assert forall|j: int| t.len() < TOP_N && 0 <= j < n && q(j) implies #[trigger] listed(t, j) by {
        assert(p(j));
    }
}

/// Offering all picks of `p` in turn gives the largest of them and of what was there.
pub proof fn lemma_top_holds_largest(
    n: int,
    m: int,
    was: spec_fn(int) -> bool,
    p: spec_fn(int) -> bool,
    w: spec_fn(int) -> u64,
    t: Seq<(u64, u32)>,
)
    requires
        0 <= m <= n <= u32::MAX,
        holds_largest(n, was, w, t),
        forall|j: int| 0 <= j < n ==> !(#[trigger] was(j) && p(j)),
    ensures
        holds_largest(n, |j: int| was(j) || (j < m && p(j)), w, top_from(t, m, p, w)),
    decreases m,
{
    let q = |j: int| was(j) || (j < m && p(j));
    if m == 0 {
        lemma_holds_same(n, was, w, q, w, t);
    } else {
        let i = m - 1;
        let q0 = |j: int| was(j) || (j < i && p(j));
        lemma_top_holds_largest(n, i, was, p, w, t);
        if p(i) {
            assert(!(was(i) && p(i)));
            lemma_offer(n, q0, q, w, top_from(t, i, p, w), i);
        } else {
            lemma_holds_same(n, q0, w, q, w, top_from(t, i, p, w));
        }
    }
}

/// Of nothing, nothing is the largest.
pub proof fn lemma_none_is_largest(n: int, w: spec_fn(int) -> u64)
    ensures
        holds_largest(n, |j: int| false, w, Seq::empty()),
{
    lemma_sum_none(n, |j: int| false, |k: int| 1nat);
}

/// A list with sizes that holds the largest living files names them.
pub proof fn lemma_names_largest(nodes: Seq<Node>, t: Seq<(u64, u32)>)
    requires
        holds_largest(
            nodes.len() as int,
            |k: int| is_living_file(nodes, k),
            |k: int| nodes[k].size,
            t,
        ),
    ensures
        names_largest(nodes, t.map_values(|f: (u64, u32)| f.1)),
{
    reveal(names_largest);
    let ids = t.map_values(|f: (u64, u32)| f.1);
    let sized = ids.map_values(|i: u32| (nodes[i as int].size, i));
    assert forall|k: int| 0 <= k < t.len() implies #[trigger] sized[k] == t[k] by {
        assert(t[k].0 == nodes[t[k].1 as int].size);
    }
    assert(sized =~= t);
}

proof fn lemma_kept_holds_largest(nodes: Seq<Node>, ids: Seq<u32>, i: int)
    requires
        nodes.len() <= u32::MAX,
        0 <= i <= ids.len(),
        forall|k: int| 0 <= k < ids.len() ==> (#[trigger] ids[k]) < nodes.len(),
        ids.no_duplicates(),
    ensures
        holds_largest(
            nodes.len() as int,
            |j: int| is_living_file(nodes, j) && ids.take(i).contains(j as u32),
            |k: int| nodes[k].size,
            kept(nodes, ids, i),
        ),
    decreases i,
{
    let n = nodes.len() as int;
    let w = |k: int| nodes[k].size;
    let q = |j: int| is_living_file(nodes, j) && ids.take(i).contains(j as u32);
    if i == 0 {
        lemma_none_is_largest(n, w);
        lemma_holds_same(n, |j: int| false, w, q, w, Seq::empty());
    } else {
        let p = |j: int| is_living_file(nodes, j) && ids.take(i - 1).contains(j as u32);
        let x = ids[i - 1];
        let fewer = ids.take(i - 1);
        let upto = ids.take(i);
        lemma_kept_holds_largest(nodes, ids, i - 1);
        assert(x < nodes.len());
        assert(upto == fewer.push(x));
        assert(upto[i - 1] == x);
        assert(!fewer.contains(x)) by {
            if fewer.contains(x) {
                let k = choose|k: int| 0 <= k < fewer.len() && fewer[k] == x;
                assert(ids[k] == x);
            }
        }
        assert forall|j: int| 0 <= j < n && j != x implies #[trigger] p(j) == q(j) by {
            if upto.contains(j as u32) {
                let k = choose|k: int| 0 <= k < upto.len() && upto[k] == j as u32;
                assert(fewer[k] == j as u32);
            }
            if fewer.contains(j as u32) {
                let k = choose|k: int| 0 <= k < fewer.len() && fewer[k] == j as u32;
                assert(upto[k] == j as u32);
            }
        }
        if is_living_file(nodes, x as int) {
            lemma_offer(n, p, q, w, kept(nodes, ids, i - 1), x as int);
        } else {
            lemma_holds_same(n, p, w, q, w, kept(nodes, ids, i - 1));
        }
    }
}

/// A list brought up to date names the largest files that are there.
pub proof fn lemma_refilled_names_largest(nodes: Seq<Node>, ids: Seq<u32>)
    requires
        nodes.len() <= u32::MAX,
        forall|k: int| 0 <= k < ids.len() ==> (#[trigger] ids[k]) < nodes.len(),
        ids.no_duplicates(),
    ensures
        names_largest(nodes, refilled(nodes, ids)),
{
    reveal(refilled);
    let n = nodes.len() as int;
    let w = |k: int| nodes[k].size;
    let t = kept(nodes, ids, ids.len() as int);
    let was = |j: int| is_living_file(nodes, j) && ids.contains(j as u32);
    let p = |k: int| is_living_file(nodes, k) && !ids.contains(k as u32);
    lemma_kept_holds_largest(nodes, ids, ids.len() as int);
    assert(ids.take(ids.len() as int) == ids);
    assert(holds_largest(n, was, w, t));
    lemma_top_holds_largest(n, n, was, p, w, t);
    let all = |j: int| was(j) || (j < n && p(j));
    lemma_holds_same(n, all, w, |k: int| is_living_file(nodes, k), w, top_from(t, n, p, w));
    lemma_names_largest(nodes, top_from(t, n, p, w));
}

/// What a list that names the largest files says of each of them.
pub proof fn lemma_named(nodes: Seq<Node>, ids: Seq<u32>)
    requires
        names_largest(nodes, ids),
    ensures
        ids.len() <= TOP_N,
        forall|k: int|
            0 <= k < ids.len() ==> (#[trigger] ids[k]) < nodes.len() && is_living_file(
                nodes,
                ids[k] as int,
            ),
        forall|a: int, b: int|
            0 <= a < b < ids.len() ==> ahead(
                (nodes[(#[trigger] ids[a]) as int].size, ids[a]),
                (nodes[(#[trigger] ids[b]) as int].size, ids[b]),
            ),
        forall|j: int, k: int|
            0 <= j < nodes.len() && is_living_file(nodes, j) && !(#[trigger] ids.contains(j as u32))
                && j <= u32::MAX && 0 <= k < ids.len() ==> nodes[j].size <= nodes[(
            #[trigger] ids[k]) as int].size,
        ids.len() < TOP_N ==> forall|j: int|
            0 <= j < nodes.len() && j <= u32::MAX && is_living_file(nodes, j)
                ==> #[trigger] ids.contains(j as u32),
        ids.no_duplicates(),
{
    reveal(names_largest);
    let p = |k: int| is_living_file(nodes, k);
    let t = ids.map_values(|i: u32| (nodes[i as int].size, i));
    assert forall|k: int| 0 <= k < ids.len() implies (#[trigger] ids[k]) < nodes.len()
        && is_living_file(nodes, ids[k] as int) by {
        assert(t[k].1 == ids[k]);
        assert(p(t[k].1 as int));
    }
    assert forall|a: int, b: int| 0 <= a < b < ids.len() implies ahead(
        (nodes[(#[trigger] ids[a]) as int].size, ids[a]),
        (nodes[(#[trigger] ids[b]) as int].size, ids[b]),
    ) by {
        assert(ahead(t[a], t[b]));
    }
    assert forall|j: int| 0 <= j <= u32::MAX && #[trigger] listed(t, j) implies ids.contains(
        j as u32,
    ) by {
        let k = choose|k: int| 0 <= k < t.len() && (#[trigger] t[k]).1 == j;
        assert(ids[k] == j as u32);
    }
    assert forall|j: int, k: int|
        0 <= j < nodes.len() && is_living_file(nodes, j) && !(#[trigger] ids.contains(j as u32)) && j
            <= u32::MAX && 0 <= k < ids.len() implies nodes[j].size <= nodes[(
    #[trigger] ids[k]) as int].size by {
        assert(!listed(t, j));
        assert(p(j));
        assert(t[k].0 == nodes[ids[k] as int].size);
    }
    assert forall|j: int|
        ids.len() < TOP_N && 0 <= j < nodes.len() && j <= u32::MAX && is_living_file(
            nodes,
            j,
        ) implies #[trigger] ids.contains(j as u32) by {
        assert(p(j));
        assert(listed(t, j));
    }
}

/// Whether node `j` is on the list of largest files.
pub open spec fn on_list(s: Store, j: int) -> bool {
    exists|k: int| 0 <= k < s.largest@.len() && (#[trigger] s.largest@[k]) == j
}

/// The largest files of an arena are the largest there are, however much has been
/// deleted from it: living files, none twice, largest first, as many as there are up
/// to the limit, and no living file left out is larger than one listed.
pub proof fn largest_are_the_largest(s: Store)
    requires
        s.wf(),
    ensures
        s.largest@.len() == if living_files(s.nodes@) < TOP_N {
            living_files(s.nodes@)
        } else {
            TOP_N as nat
        },
        forall|k: int|
            0 <= k < s.largest@.len() ==> (#[trigger] s.largest@[k]) < s.nodes@.len()
                && is_living_file(s.nodes@, s.largest@[k] as int),
        forall|a: int, b: int|
            0 <= a < b < s.largest@.len() ==> ahead(
                (s.nodes@[(#[trigger] s.largest@[a]) as int].size, s.largest@[a]),
                (s.nodes@[(#[trigger] s.largest@[b]) as int].size, s.largest@[b]),
            ),
        forall|j: int, k: int|
            0 <= j < s.nodes@.len() && is_living_file(s.nodes@, j) && !(#[trigger] on_list(s, j))
                && 0 <= k < s.largest@.len() ==> s.nodes@[j].size <= s.nodes@[(
            #[trigger] s.largest@[k]) as int].size,
{
    let nodes = s.nodes@;
    let len = nodes.len() as int;
    lemma_named(nodes, s.largest@);
    lemma_sum_same(
        len,
        |k: int| is_living_file(nodes, k),
        |k: int| nodes[k].alive && !nodes[k].is_dir,
        |k: int| 1nat,
        |k: int| 1nat,
    );
    assert(s.largest@.len() == if living_files(nodes) < TOP_N {
        living_files(nodes)
    } else {
        TOP_N as nat
    }) by {
        reveal(names_largest);
        assert(s.largest@.map_values(|i: u32| (nodes[i as int].size, i)).len() == s.largest@.len());
    }
    assert forall|j: int, k: int|
        0 <= j < len && is_living_file(nodes, j) && !(#[trigger] on_list(s, j)) && 0 <= k
            < s.largest@.len() implies nodes[j].size <= nodes[(
    #[trigger] s.largest@[k]) as int].size by {
        if s.largest@.contains(j as u32) {
            let x = choose|x: int| 0 <= x < s.largest@.len() && s.largest@[x] == j as u32;
            assert(s.largest@[x] == j);
        }
    }
}

/// Two lists of the largest of the same files show the same sizes, place for place.
pub proof fn lemma_same_sizes(a: Seq<Node>, x: Seq<u32>, b: Seq<Node>, y: Seq<u32>, k: int)
    requires
        a.len() == b.len() <= u32::MAX,
        forall|i: int|
            0 <= i < a.len() ==> is_living_file(a, i) == is_living_file(b, i) && (is_living_file(
                a,
                i,
            ) ==> (#[trigger] a[i]).size == b[i].size),
        names_largest(a, x),
        names_largest(b, y),
        0 <= k < x.len(),
        k < y.len(),
    ensures
        a[x[k] as int].size <= b[y[k] as int].size,
{
    lemma_named(a, x);
    lemma_named(b, y);
    let limit = b[y[k] as int].size;
    if a[x[k] as int].size > limit {
        // the first `k + 1` of `x` would all stand among the first `k` of `y`
        let more = x.take(k + 1);
        let fewer = y.take(k);
        assert forall|v: u32| #[trigger] more.to_set().contains(v) implies fewer.to_set().contains(
            v,
        ) by {
            let i = choose|i: int| 0 <= i < more.len() && more[i] == v;
            assert(x[i] == v);
            assert(a[v as int].size == b[v as int].size);
            if i < k {
                assert(ahead((a[x[i] as int].size, x[i]), (a[x[k] as int].size, x[k])));
            }
            assert(b[v as int].size > limit);
            assert(y.contains(v)) by {
                if !y.contains(v) {
                    assert(!y.contains(v as int as u32));
                    assert(b[v as int].size <= b[y[k] as int].size);
                }
            }
            let j = choose|j: int| 0 <= j < y.len() && y[j] == v;
            if j > k {
                assert(ahead((b[y[k] as int].size, y[k]), (b[y[j] as int].size, y[j])));
            }
            assert(j < k);
            assert(fewer[j] == v);
        }
        assert(more.no_duplicates()) by {
            assert forall|i: int, j: int|
                0 <= i < more.len() && 0 <= j < more.len() && i != j implies more[i] != more[j] by {
                assert(more[i] == x[i] && more[j] == x[j]);
            }
        }
        assert(fewer.no_duplicates()) by {
            assert forall|i: int, j: int|
                0 <= i < fewer.len() && 0 <= j < fewer.len() && i != j implies fewer[i]
                != fewer[j] by {
                assert(fewer[i] == y[i] && fewer[j] == y[j]);
            }
        }
        more.unique_seq_to_set();
        fewer.unique_seq_to_set();
        vstd::set_lib::lemma_len_subset(more.to_set(), fewer.to_set());
    }
}

/// A file that is listed and not deleted stays listed, and where no listed file is
/// deleted, the list stays as it is.
pub proof fn deletion_keeps_listed(s: Store, id: int, t: Store)
    requires
        s.wf(),
        balanced(s),
        0 <= id < s.nodes@.len(),
        s.nodes@[id].alive,
        pruned(s, id, t),
    ensures
        forall|k: int|
            0 <= k < s.largest@.len() && !doomed(s.nodes@, id, (#[trigger] s.largest@[k]) as int)
                ==> on_list(t, s.largest@[k] as int),
        (forall|k: int|
            0 <= k < s.largest@.len() ==> !doomed(s.nodes@, id, (#[trigger] s.largest@[k]) as int))
            ==> t.largest@ == s.largest@,
{
    let a = s.nodes@;
    let b = t.nodes@;
    let ids = s.largest@;
    let n = a.len() as int;
    lemma_named(a, ids);
    assert forall|j: int| 0 <= j < n && is_living_file(b, j) implies is_living_file(a, j) && (
    #[trigger] b[j]).size == a[j].size by {
        assert(same_place(a[j], b[j]));
        if is_above(a, j, id) {
            crate::balance::lemma_above_heavier(a, j, id);
        }
    }
    let w = |k: int| b[k].size;
    let p = |k: int| is_living_file(b, k) && !ids.contains(k as u32);
    let t0 = kept(b, ids, ids.len() as int);
    lemma_kept_in_order(a, b, ids, ids.len() as int);
    assert forall|j: int, k: int|
        0 <= j < n && #[trigger] p(j) && 0 <= k < t0.len() implies w(j) <= (#[trigger] t0[k]).0 by {
        let x = choose|x: int| 0 <= x < ids.len() && (#[trigger] ids[x]) == t0[k].1;
        assert(a[j].size <= a[ids[x] as int].size);
        assert(b[j].size == a[j].size);
    }
    lemma_top_keeps(n, n, p, w, t0);
    reveal(refilled);
    let last = top_from(t0, n, p, w);
    assert(t.largest@ == last.map_values(|f: (u64, u32)| f.1));
    assert forall|k: int| 0 <= k < ids.len() && !doomed(a, id, (#[trigger] ids[k]) as int) implies on_list(
        t,
        ids[k] as int,
    ) by {
        let j = ids[k] as int;
        assert(same_place(a[j], b[j]));
        assert(is_living_file(b, j));
        assert(listed(t0, j));
        assert(listed(last, j));
        let x = choose|x: int| 0 <= x < last.len() && (#[trigger] last[x]).1 == j;
        assert(t.largest@[x] == j);
    }
    if forall|k: int| 0 <= k < ids.len() ==> !doomed(a, id, (#[trigger] ids[k]) as int) {
        assert forall|k: int| 0 <= k < ids.len() implies is_living_file(
            b,
            (#[trigger] ids[k]) as int,
        ) by {
            assert(same_place(a[ids[k] as int], b[ids[k] as int]));
        }
        lemma_all_kept(a, b, ids, ids.len() as int);
        if ids.len() < TOP_N {
            assert forall|j: int| 0 <= j < n implies !#[trigger] p(j) by {
                if is_living_file(b, j) {
                    assert(ids.contains(j as u32));
                }
            }
        }
        lemma_nothing_taken(n, n, p, w, t0);
        assert(t.largest@ =~= ids);
    }
}

/// What is kept is what is still there of the list.
proof fn lemma_kept_in_order(a: Seq<Node>, b: Seq<Node>, ids: Seq<u32>, i: int)
    requires
        names_largest(a, ids),
        0 <= i <= ids.len(),
        a.len() == b.len(),
        forall|j: int|
            0 <= j < a.len() && is_living_file(b, j) ==> (#[trigger] b[j]).size == a[j].size,
    ensures
        kept(b, ids, i).len() <= i,
        forall|k: int|
            0 <= k < kept(b, ids, i).len() ==> exists|x: int|
                0 <= x < i && (#[trigger] ids[x]) == (#[trigger] kept(b, ids, i)[k]).1
                    && kept(b, ids, i)[k].0 == a[ids[x] as int].size,
        forall|x: int|
            0 <= x < i && is_living_file(b, (#[trigger] ids[x]) as int) ==> listed(
                kept(b, ids, i),
                ids[x] as int,
            ),
    decreases i,
{
    lemma_named(a, ids);
    if i > 0 {
        lemma_kept_in_order(a, b, ids, i - 1);
        let t = kept(b, ids, i - 1);
        let l = kept(b, ids, i);
        let id = ids[i - 1];
        if is_living_file(b, id as int) {
            let f = (b[id as int].size, id);
            assert(b[id as int].size == a[id as int].size);
            lemma_front(t, f);
            let at = ahead_in_front(t, f);
            assert(l == t.insert(at, f));
            assert forall|k: int| 0 <= k < l.len() implies exists|x: int|
                0 <= x < i && (#[trigger] ids[x]) == (#[trigger] l[k]).1 && l[k].0
                    == a[ids[x] as int].size by {
                if k == at {
                    assert(ids[i - 1] == l[k].1);
                } else {
                    let m = if k < at {
                        k
                    } else {
                        k - 1
                    };
                    assert(l[k] == t[m]);
                    let x = choose|x: int|
                        0 <= x < i - 1 && (#[trigger] ids[x]) == t[m].1 && t[m].0
                            == a[ids[x] as int].size;
                    assert(ids[x] == l[k].1);
                }
            }
            assert forall|x: int|
                0 <= x < i && is_living_file(b, (#[trigger] ids[x]) as int) implies listed(
                l,
                ids[x] as int,
            ) by {
                if x == i - 1 {
                    assert(l[at].1 == ids[x]);
                } else {
                    assert(listed(t, ids[x] as int));
                    let m = choose|m: int| 0 <= m < t.len() && (#[trigger] t[m]).1 == ids[x];
                    let k = if m < at {
                        m
                    } else {
                        m + 1
                    };
                    assert(l[k].1 == ids[x]);
                }
            }
        }
    }
}

/// Where all of the list is still there, all of it is kept, in its order.
proof fn lemma_all_kept(a: Seq<Node>, b: Seq<Node>, ids: Seq<u32>, i: int)
    requires
        names_largest(a, ids),
        0 <= i <= ids.len(),
        forall|k: int|
            0 <= k < ids.len() ==> is_living_file(b, (#[trigger] ids[k]) as int)
                && b[ids[k] as int].size == a[ids[k] as int].size,
    ensures
        kept(b, ids, i).len() == i,
        forall|k: int|
            0 <= k < i ==> (#[trigger] kept(b, ids, i)[k]) == (a[ids[k] as int].size, ids[k]),
    decreases i,
{
    lemma_named(a, ids);
    if i > 0 {
        lemma_all_kept(a, b, ids, i - 1);
        let t = kept(b, ids, i - 1);
        let id = ids[i - 1];
        let f = (b[id as int].size, id);
        assert(is_living_file(b, ids[i - 1] as int));
        assert forall|k: int| 0 <= k < t.len() implies ahead(#[trigger] t[k], f) by {
            assert(t[k] == (a[ids[k] as int].size, ids[k]));
            assert(ahead((a[ids[k] as int].size, ids[k]), (a[ids[i - 1] as int].size, ids[i - 1])));
        }
        lemma_front_unique(t, f, t.len() as int);
        assert(kept(b, ids, i) == t.push(f));
    }
}

/// What is no smaller than anything offered is never pushed out.
proof fn lemma_top_keeps(
    n: int,
    m: int,
    p: spec_fn(int) -> bool,
    w: spec_fn(int) -> u64,
    t: Seq<(u64, u32)>,
)
    requires
        m <= n,
        t.len() <= TOP_N,
        forall|j: int, k: int|
            0 <= j < n && #[trigger] p(j) && 0 <= k < t.len() ==> w(j) <= (#[trigger] t[k]).0,
    ensures
        top_from(t, m, p, w).len() <= TOP_N,
        forall|k: int| 0 <= k < t.len() ==> top_from(t, m, p, w).contains(#[trigger] t[k]),
        forall|j: int| #[trigger] listed(t, j) ==> listed(top_from(t, m, p, w), j),
    decreases m,
{
    let l = top_from(t, m, p, w);
    if m > 0 {
        lemma_top_keeps(n, m - 1, p, w, t);
        let r = top_from(t, m - 1, p, w);
        let f = (w(m - 1), (m - 1) as u32);
        if p(m - 1) {
            assert forall|k: int| 0 <= k < t.len() implies l.contains(#[trigger] t[k]) by {
                let x = choose|x: int| 0 <= x < r.len() && r[x] == t[k];
                assert(w(m - 1) <= t[k].0);
                if r.len() < TOP_N {
                    lemma_front(r, f);
                    let at = ahead_in_front(r, f);
                    assert(l[if x < at {
                        x
                    } else {
                        x + 1
                    }] == t[k]);
                } else if f.0 > r.last().0 {
                    let d = r.drop_last();
                    lemma_front(d, f);
                    let at = ahead_in_front(d, f);
                    assert(x < d.len());
                    assert(d[x] == t[k]);
                    assert(l[if x < at {
                        x
                    } else {
                        x + 1
                    }] == t[k]);
                }
            }
            lemma_front(r, f);
            if r.len() > 0 {
                lemma_front(r.drop_last(), f);
            }
        }
    } else {
        assert forall|k: int| 0 <= k < t.len() implies l.contains(#[trigger] t[k]) by {
            assert(l[k] == t[k]);
        }
    }
    assert forall|j: int| #[trigger] listed(t, j) implies listed(l, j) by {
        let k = choose|k: int| 0 <= k < t.len() && (#[trigger] t[k]).1 == j;
        assert(l.contains(t[k]));
        let x = choose|x: int| 0 <= x < l.len() && l[x] == t[k];
        assert(l[x].1 == j);
    }
}

/// A full list takes nothing that is no larger than anything in it.
proof fn lemma_nothing_taken(
    n: int,
    m: int,
    p: spec_fn(int) -> bool,
    w: spec_fn(int) -> u64,
    t: Seq<(u64, u32)>,
)
    requires
        m <= n,
        t.len() < TOP_N ==> forall|j: int| 0 <= j < n ==> !#[trigger] p(j),
        forall|j: int, k: int|
            0 <= j < n && #[trigger] p(j) && 0 <= k < t.len() ==> w(j) <= (#[trigger] t[k]).0,
    ensures
        top_from(t, m, p, w) == t,
    decreases m,
{
    if m > 0 {
        lemma_nothing_taken(n, m - 1, p, w, t);
        if p(m - 1) {
            assert(w(m - 1) <= t[t.len() - 1].0);
        }
    }
}

/// A scan lists its fifteen largest living files, or as many as there are, in falling order
/// of size and without repeating one; no living file that it leaves out is larger than one
/// that it lists.
pub proof fn scan_lists_its_largest(s: Store)
    requires
        s.wf(),
    ensures
        s.largest@.len() == if count_where(
            s.nodes@.len() as int,
            |k: int| s.nodes@[k].alive && !s.nodes@[k].is_dir,
        ) < 15 {
            count_where(
                s.nodes@.len() as int,
                |k: int| s.nodes@[k].alive && !s.nodes@[k].is_dir,
            )
        } else {
            15
        },
        forall|k: int|
            0 <= k < s.largest@.len() ==> (#[trigger] s.largest@[k]) < s.nodes@.len()
                && s.nodes@[s.largest@[k] as int].alive && !s.nodes@[s.largest@[k] as int].is_dir,
        forall|a: int, b: int|
            0 <= a < b < s.largest@.len() ==> s.nodes@[(#[trigger] s.largest@[a]) as int].size
                >= s.nodes@[(#[trigger] s.largest@[b]) as int].size && s.largest@[a]
                != s.largest@[b],
        forall|j: int, k: int|
            0 <= j < s.nodes@.len() && s.nodes@[j].alive && !s.nodes@[j].is_dir && 0 <= k
                < s.largest@.len() && s.nodes@[(#[trigger] s.largest@[k]) as int].size < (
            #[trigger] s.nodes@[j]).size ==> exists|i: int|
                0 <= i < s.largest@.len() && (#[trigger] s.largest@[i]) == j,
{
    let nodes = s.nodes@;
    largest_are_the_largest(s);
    lemma_sum_same(
        nodes.len() as int,
        |k: int| is_living_file(nodes, k),
        |k: int| nodes[k].alive && !nodes[k].is_dir,
        |k: int| 1nat,
        |k: int| 1nat,
    );
    assert forall|j: int, k: int|
        0 <= j < nodes.len() && nodes[j].alive && !nodes[j].is_dir && 0 <= k < s.largest@.len()
            && nodes[(#[trigger] s.largest@[k]) as int].size < (
        #[trigger] nodes[j]).size implies exists|i: int|
        0 <= i < s.largest@.len() && (#[trigger] s.largest@[i]) == j by {
        assert(is_living_file(nodes, j));
        assert(on_list(s, j));
    }
    assert forall|a: int, b: int| 0 <= a < b < s.largest@.len() implies nodes[(
    #[trigger] s.largest@[a]) as int].size >= nodes[(#[trigger] s.largest@[b]) as int].size
        && s.largest@[a] != s.largest@[b] by {
        assert(ahead(
            (nodes[s.largest@[a] as int].size, s.largest@[a]),
            (nodes[s.largest@[b] as int].size, s.largest@[b]),
        ));
    }
}

/// What a list of fifteen at most does with one more file: it takes it in while there is
/// room, in its place by size and, among equals, with the higher number first; a full list
/// lets its last one go for a larger one, and keeps it otherwise.
pub proof fn list_takes_the_larger(t: Seq<(u64, u32)>, f: (u64, u32), k: int)
    requires
        0 <= k <= t.len(),
        forall|i: int|
            0 <= i < k ==> (#[trigger] t[i]).0 > f.0 || (t[i].0 == f.0 && t[i].1 > f.1),
        k < t.len() ==> t[k].0 < f.0 || (t[k].0 == f.0 && t[k].1 <= f.1),
    ensures
        t.len() < 15 ==> offered(t, f) == t.take(k) + seq![f] + t.skip(k),
        t.len() >= 15 && f.0 <= t.last().0 ==> offered(t, f) == t,
        t.len() >= 15 && f.0 > t.last().0 ==> k < t.len() && offered(t, f) == t.take(k) + seq![f]
            + t.subrange(k, t.len() - 1),
{
    if t.len() < 15 {
        lemma_front_unique(t, f, k);
        assert(t.insert(k, f) == t.take(k) + seq![f] + t.skip(k));
    } else if f.0 > t.last().0 {
        if k == t.len() {
            assert(t[k - 1].0 >= f.0);
        }
        let r = t.drop_last();
        assert forall|i: int| 0 <= i < k implies ahead(#[trigger] r[i], f) by {
            assert(r[i] == t[i]);
        }
        if k < r.len() {
            assert(r[k] == t[k]);
        }
        lemma_front_unique(r, f, k);
        assert(r.insert(k, f) == t.take(k) + seq![f] + t.subrange(k, t.len() - 1));
    }
}

/// Lists of largest files are made by offering one file after the other, by their numbers:
/// first what is left of the list at hand, in its order, and behind it all other living
/// files.
pub proof fn files_are_offered_in_order(
    nodes: Seq<Node>,
    ids: Seq<u32>,
    i: int,
    t: Seq<(u64, u32)>,
    n: int,
    p: spec_fn(int) -> bool,
    w: spec_fn(int) -> u64,
)
    ensures
        top_from(t, 0, p, w) == t,
        0 <= n && p(n) ==> top_from(t, n + 1, p, w) == offered(
            top_from(t, n, p, w),
            (w(n), n as u32),
        ),
        0 <= n && !p(n) ==> top_from(t, n + 1, p, w) == top_from(t, n, p, w),
        kept(nodes, ids, 0) == Seq::<(u64, u32)>::empty(),
        0 <= i < ids.len() && nodes[ids[i] as int].alive && !nodes[ids[i] as int].is_dir ==> kept(
            nodes,
            ids,
            i + 1,
        ) == offered(kept(nodes, ids, i), (nodes[ids[i] as int].size, ids[i])),
        0 <= i < ids.len() && !(nodes[ids[i] as int].alive && !nodes[ids[i] as int].is_dir) ==> kept(
            nodes,
            ids,
            i + 1,
        ) == kept(nodes, ids, i),
        refilled(nodes, ids) == top_from(
            kept(nodes, ids, ids.len() as int),
            nodes.len() as int,
            |k: int| nodes[k].alive && !nodes[k].is_dir && !ids.contains(k as u32),
            |k: int| nodes[k].size,
        ).map_values(|f: (u64, u32)| f.1),
{
    reveal(refilled);
    lemma_offered_alike(
        kept(nodes, ids, ids.len() as int),
        nodes.len() as int,
        |k: int| is_living_file(nodes, k) && !ids.contains(k as u32),
        |k: int| nodes[k].size,
        |k: int| nodes[k].alive && !nodes[k].is_dir && !ids.contains(k as u32),
        |k: int| nodes[k].size,
    );
}

/// The same picks of the same sizes make the same list.
pub proof fn lemma_offered_alike(
    t: Seq<(u64, u32)>,
    n: int,
    p: spec_fn(int) -> bool,
    w: spec_fn(int) -> u64,
    q: spec_fn(int) -> bool,
    v: spec_fn(int) -> u64,
)
    requires
        forall|k: int| 0 <= k < n ==> #[trigger] p(k) == q(k),
        forall|k: int| 0 <= k < n && #[trigger] p(k) ==> w(k) == v(k),
    ensures
        top_from(t, n, p, w) == top_from(t, n, q, v),
    decreases n,
{
    if n > 0 {
        lemma_offered_alike(t, n - 1, p, w, q, v);
        assert(p(n - 1) == q(n - 1));
    }
}

/// A list brought up to date is the list refilled.
pub proof fn list_is_brought_up_to_date(nodes: Vec<Node>, ids: Vec<u32>, r: Vec<u32>)
    requires
        nodes@.len() <= u32::MAX,
        forall|k: int| 0 <= k < ids@.len() ==> (#[trigger] ids@[k]) < nodes@.len(),
        call_ensures(refill, (&nodes, &ids), r),
    ensures
        r@ == refilled(nodes@, ids@),
        ids@.no_duplicates() ==> names_largest(nodes@, r@),
{
    if ids@.no_duplicates() {
        lemma_refilled_names_largest(nodes@, ids@);
    }
}

} // verus!
