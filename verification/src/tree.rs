//! The tree that a scan builds, and its level order.

use crate::sums::{lemma_seq_sum_concat, seq_sum};
use vstd::prelude::*;

verus! {

/// One scanned entry with everything below it.
pub struct LocalNode {
    pub name: String,
    pub size: u64,
    pub files: u32,
    pub is_dir: bool,
    pub children: Vec<LocalNode>,
}

/// What `f` adds up to over a node and everything below it.
pub open spec fn tree_sum(n: LocalNode, f: spec_fn(LocalNode) -> nat) -> nat
    decreases n,
{
    f(n) + forest_sum(n.children@, f)
}

/// What `f` adds up to over every node of the trees `s`.
pub open spec fn forest_sum(s: Seq<LocalNode>, f: spec_fn(LocalNode) -> nat) -> nat
    decreases s,
{
    if s.len() == 0 {
        0
    } else {
        forest_sum(s.drop_last(), f) + tree_sum(s.last(), f)
    }
}

/// The number of nodes in a tree.
pub open spec fn node_count(n: LocalNode) -> nat {
    tree_sum(n, |m: LocalNode| 1nat)
}

/// The number of nodes in the trees `s`.
pub open spec fn forest_count(s: Seq<LocalNode>) -> nat {
    forest_sum(s, |m: LocalNode| 1nat)
}

/// The nodes of the trees `queue`, level by level: the first tree's root, then
/// whatever follows once its children have joined the end of the queue.
pub open spec fn level_order(queue: Seq<LocalNode>) -> Seq<LocalNode>
    decreases forest_count(queue),
{
    if queue.len() == 0 {
        Seq::empty()
    } else {
        proof {
            lemma_forest_step(queue, |m: LocalNode| 1nat);
        }
        seq![queue[0]] + level_order(queue.drop_first() + queue[0].children@)
    }
}

/// How many children the first `i` nodes of `l` have together.
pub open spec fn kids_before(l: Seq<LocalNode>, i: int) -> nat
    decreases i,
{
    if i <= 0 {
        0
    } else {
        kids_before(l, i - 1) + l[i - 1].children@.len()
    }
}

pub proof fn lemma_forest_concat(
    a: Seq<LocalNode>,
    b: Seq<LocalNode>,
    f: spec_fn(LocalNode) -> nat,
)
    ensures
        forest_sum(a + b, f) == forest_sum(a, f) + forest_sum(b, f),
    decreases b.len(),
{
    if b.len() == 0 {
        assert(a + b == a);
    } else {
        assert((a + b).drop_last() == a + b.drop_last());
        lemma_forest_concat(a, b.drop_last(), f);
    }
}

/// Taking the first tree off a queue and putting its children at the end takes
/// exactly that tree's root out of every sum.
pub proof fn lemma_forest_step(q: Seq<LocalNode>, f: spec_fn(LocalNode) -> nat)
    requires
        q.len() > 0,
    ensures
        forest_sum(q, f) == f(q[0]) + forest_sum(q.drop_first() + q[0].children@, f),
{
    let one = seq![q[0]];
    assert(one + q.drop_first() == q);
    lemma_forest_concat(one, q.drop_first(), f);
    lemma_forest_concat(q.drop_first(), q[0].children@, f);
    assert(one.drop_last() == Seq::<LocalNode>::empty());
    reveal_with_fuel(forest_sum, 2);
}

/// Level order visits every node exactly once, so a sum over it is the sum over
/// the trees.
pub proof fn lemma_level_order_sum(q: Seq<LocalNode>, f: spec_fn(LocalNode) -> nat)
    ensures
        seq_sum(level_order(q), f) == forest_sum(q, f),
    decreases forest_count(q),
{
    if q.len() > 0 {
        let rest = q.drop_first() + q[0].children@;
        lemma_forest_step(q, |m: LocalNode| 1nat);
        lemma_forest_step(q, f);
        lemma_level_order_sum(rest, f);
        lemma_seq_sum_concat(seq![q[0]], level_order(rest), f);
        assert(seq![q[0]].drop_last() == Seq::<LocalNode>::empty());
        reveal_with_fuel(seq_sum, 2);
    }
}

pub proof fn lemma_seq_sum_ones(s: Seq<LocalNode>)
    ensures
        seq_sum(s, |m: LocalNode| 1nat) == s.len(),
    decreases s.len(),
{
    if s.len() > 0 {
        lemma_seq_sum_ones(s.drop_last());
    }
}

pub proof fn lemma_kids_before_shift(x: LocalNode, r: Seq<LocalNode>, i: int)
    requires
        1 <= i <= r.len() + 1,
    ensures
        kids_before(seq![x] + r, i) == x.children@.len() + kids_before(r, i - 1),
    decreases i,
{
    let l = seq![x] + r;
    if i == 1 {
        reveal_with_fuel(kids_before, 2);
    } else {
        lemma_kids_before_shift(x, r, i - 1);
        assert(l[i - 1] == r[i - 2]);
    }
}

/// The places that level order gives to the nodes: the queue comes first, and
/// behind it the children of each node in turn, side by side and in order.
pub proof fn lemma_level_order_places(q: Seq<LocalNode>)
    ensures
        level_order(q).len() == forest_count(q),
        level_order(q).len() == q.len() + kids_before(level_order(q), level_order(q).len() as int),
        forall|i: int| 0 <= i < q.len() ==> #[trigger] level_order(q)[i] == q[i],
        q.len() <= level_order(q).len(),
        forall|i: int|
            0 <= i < level_order(q).len() ==> q.len() + #[trigger] kids_before(level_order(q), i)
                > i,
        forall|i: int, k: int|
            0 <= i < level_order(q).len() && 0 <= k < level_order(q)[i].children@.len()
                ==> level_order(q)[q.len() + kids_before(level_order(q), i) + k]
                == #[trigger] level_order(q)[i].children@[k],
        forall|i: int|
            0 <= i < level_order(q).len() ==> q.len() + #[trigger] kids_before(level_order(q), i)
                + level_order(q)[i].children@.len() <= level_order(q).len(),
    decreases forest_count(q),
{
    let l = level_order(q);
    lemma_level_order_sum(q, |m: LocalNode| 1nat);
    lemma_seq_sum_ones(l);
    if q.len() > 0 {
        let x = q[0];
        let rest = q.drop_first() + x.children@;
        let r = level_order(rest);
        lemma_forest_step(q, |m: LocalNode| 1nat);
        lemma_level_order_places(rest);
        assert(l == seq![x] + r);
        lemma_kids_before_shift(x, r, l.len() as int);
        assert forall|i: int| 0 <= i < q.len() implies #[trigger] l[i] == q[i] by {
            if i > 0 {
                assert(l[i] == r[i - 1]);
                assert(rest[i - 1] == q[i]);
            }
        }
        assert forall|i: int| 0 <= i < l.len() implies q.len() + #[trigger] kids_before(l, i)
            > i by {
            if i > 0 {
                lemma_kids_before_shift(x, r, i);
                assert(rest.len() + kids_before(r, i - 1) > i - 1);
            }
        }
        assert forall|i: int| 0 <= i < l.len() implies q.len() + #[trigger] kids_before(l, i)
            + l[i].children@.len() <= l.len() by {
            if i > 0 {
                lemma_kids_before_shift(x, r, i);
                assert(l[i] == r[i - 1]);
                assert(rest.len() + kids_before(r, i - 1) + r[i - 1].children@.len() <= r.len());
            }
        }
        assert forall|i: int, k: int|
            0 <= i < l.len() && 0 <= k < l[i].children@.len() implies l[q.len() + kids_before(l, i)
            + k] == #[trigger] l[i].children@[k] by {
            if i == 0 {
                assert(rest[q.len() - 1 + k] == x.children@[k]);
                assert(r[q.len() - 1 + k] == rest[q.len() - 1 + k]);
                assert(l[q.len() + k] == r[q.len() - 1 + k]);
            } else {
                lemma_kids_before_shift(x, r, i);
                assert(l[i] == r[i - 1]);
                let j = rest.len() + kids_before(r, i - 1) + k;
                assert(r[j] == r[i - 1].children@[k]);
                assert(rest.len() + kids_before(r, i - 1) + r[i - 1].children@.len() <= r.len());
                assert(l[j + 1] == r[j]);
            }
        }
    }
}

/// A file is one file and holds nothing; a directory weighs what its children
/// weigh together, and so does everything below it.
pub open spec fn weighed(n: LocalNode) -> bool
    decreases n,
{
    if n.is_dir {
        &&& n.size == seq_sum(n.children@, |m: LocalNode| m.size as nat)
        &&& n.files == seq_sum(n.children@, |m: LocalNode| m.files as nat)
        &&& forall|i: int| 0 <= i < n.children@.len() ==> weighed(#[trigger] n.children@[i])
    } else {
        n.files == 1 && n.children@.len() == 0
    }
}

/// The bytes in the files of a weighed tree are what its root weighs.
pub proof fn lemma_weighed_bytes(n: LocalNode)
    requires
        weighed(n),
    ensures
        tree_sum(
            n,
            |m: LocalNode|
                if m.is_dir {
                    0
                } else {
                    m.size as nat
                },
        ) == n.size,
    decreases n,
{
    let f = |m: LocalNode|
        if m.is_dir {
            0
        } else {
            m.size as nat
        };
    if n.is_dir {
        lemma_weighed_bytes_among(n.children@);
    } else {
        assert(forest_sum(n.children@, f) == 0);
    }
}

proof fn lemma_weighed_bytes_among(s: Seq<LocalNode>)
    requires
        forall|i: int| 0 <= i < s.len() ==> weighed(#[trigger] s[i]),
    ensures
        forest_sum(
            s,
            |m: LocalNode|
                if m.is_dir {
                    0
                } else {
                    m.size as nat
                },
        ) == seq_sum(s, |m: LocalNode| m.size as nat),
    decreases s,
{
    if s.len() > 0 {
        assert(weighed(s[s.len() - 1]));
        lemma_weighed_bytes(s.last());
        lemma_weighed_bytes_among(s.drop_last());
    }
}

} // verus!
