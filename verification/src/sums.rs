//! Sums over the indices that a condition picks, and over the elements of a sequence.

use crate::order::lemma_rearranged;
use vstd::prelude::*;

verus! {

/// What `w` adds up to over the indices below `n` that `p` picks.
pub open spec fn sum_where(n: int, p: spec_fn(int) -> bool, w: spec_fn(int) -> nat) -> nat
    decreases n,
{
    if n <= 0 {
        0
    } else if p(n - 1) {
        sum_where(n - 1, p, w) + w(n - 1)
    } else {
        sum_where(n - 1, p, w)
    }
}

/// How many indices below `n` satisfy `p`.
pub open spec fn count_where(n: int, p: spec_fn(int) -> bool) -> nat {
    sum_where(n, p, |i: int| 1nat)
}

/// `a - b`, but never below zero.
pub open spec fn less(a: int, b: int) -> int {
    if a >= b {
        a - b
    } else {
        0
    }
}

/// The same picks with the same weights add up to the same.
pub proof fn lemma_sum_same(
    n: int,
    p: spec_fn(int) -> bool,
    q: spec_fn(int) -> bool,
    w: spec_fn(int) -> nat,
    v: spec_fn(int) -> nat,
)
    requires
        forall|i: int| 0 <= i < n ==> #[trigger] p(i) == q(i),
        forall|i: int| 0 <= i < n && #[trigger] p(i) ==> w(i) == v(i),
    ensures
        sum_where(n, p, w) == sum_where(n, q, v),
    decreases n,
{
    if n > 0 {
        assert(p(n - 1) == q(n - 1));
        lemma_sum_same(n - 1, p, q, w, v);
    }
}

/// One more pick adds its weight.
pub proof fn lemma_sum_one_more(
    n: int,
    p: spec_fn(int) -> bool,
    q: spec_fn(int) -> bool,
    w: spec_fn(int) -> nat,
    x: int,
)
    requires
        0 <= x < n,
        !p(x),
        q(x),
        forall|i: int| 0 <= i < n && i != x ==> #[trigger] p(i) == q(i),
    ensures
        sum_where(n, q, w) == sum_where(n, p, w) + w(x),
    decreases n,
{
    if n - 1 == x {
        lemma_sum_same(n - 1, p, q, w, w);
    } else {
        assert(p(n - 1) == q(n - 1));
        lemma_sum_one_more(n - 1, p, q, w, x);
    }
}

/// Where nothing is picked, nothing adds up.
pub proof fn lemma_sum_none(n: int, p: spec_fn(int) -> bool, w: spec_fn(int) -> nat)
    requires
        forall|i: int| 0 <= i < n ==> !#[trigger] p(i),
    ensures
        sum_where(n, p, w) == 0,
    decreases n,
{
    if n > 0 {
        lemma_sum_none(n - 1, p, w);
        assert(!p(n - 1));
    }
}

/// Where every pick is one of `q` or one of `r`, and never of both, the sum is
/// the two sums together.
pub proof fn lemma_sum_split(
    n: int,
    p: spec_fn(int) -> bool,
    q: spec_fn(int) -> bool,
    r: spec_fn(int) -> bool,
    w: spec_fn(int) -> nat,
)
    requires
        forall|i: int| 0 <= i < n ==> #[trigger] p(i) == (q(i) || r(i)) && !(q(i) && r(i)),
    ensures
        sum_where(n, p, w) == sum_where(n, q, w) + sum_where(n, r, w),
    decreases n,
{
    if n > 0 {
        assert(p(n - 1) == (q(n - 1) || r(n - 1)));
        lemma_sum_split(n - 1, p, q, r, w);
    }
}

/// What index `i` contributes to a sum.
pub open spec fn share(p: spec_fn(int) -> bool, w: spec_fn(int) -> nat, i: int) -> nat {
    if p(i) {
        w(i)
    } else {
        0
    }
}

/// A sum in which one index contributes `d` less is less by `d`.
pub proof fn lemma_sum_shift(
    n: int,
    p: spec_fn(int) -> bool,
    w: spec_fn(int) -> nat,
    q: spec_fn(int) -> bool,
    v: spec_fn(int) -> nat,
    x: int,
    d: nat,
)
    requires
        0 <= x < n,
        forall|i: int| 0 <= i < n && i != x ==> #[trigger] share(p, w, i) == share(q, v, i),
        share(p, w, x) == share(q, v, x) + d,
    ensures
        sum_where(n, p, w) == sum_where(n, q, v) + d,
    decreases n,
{
    if n - 1 == x {
        lemma_sum_alike(n - 1, p, w, q, v);
    } else {
        assert(share(p, w, n - 1) == share(q, v, n - 1));
        lemma_sum_shift(n - 1, p, w, q, v, x, d);
    }
}

/// Sums to which every index contributes the same are the same.
pub proof fn lemma_sum_alike(
    n: int,
    p: spec_fn(int) -> bool,
    w: spec_fn(int) -> nat,
    q: spec_fn(int) -> bool,
    v: spec_fn(int) -> nat,
)
    requires
        forall|i: int| 0 <= i < n ==> #[trigger] share(p, w, i) == share(q, v, i),
    ensures
        sum_where(n, p, w) == sum_where(n, q, v),
    decreases n,
{
    if n > 0 {
        assert(share(p, w, n - 1) == share(q, v, n - 1));
        lemma_sum_alike(n - 1, p, w, q, v);
    }
}

/// A picked index contributes no more than the whole sum.
pub proof fn lemma_sum_at_least(n: int, p: spec_fn(int) -> bool, w: spec_fn(int) -> nat, x: int)
    requires
        0 <= x < n,
        p(x),
    ensures
        w(x) <= sum_where(n, p, w),
    decreases n,
{
    if n - 1 != x {
        lemma_sum_at_least(n - 1, p, w, x);
    }
}

/// What `f` adds up to over the elements of `s`.
pub open spec fn seq_sum<T>(s: Seq<T>, f: spec_fn(T) -> nat) -> nat
    decreases s.len(),
{
    if s.len() == 0 {
        0
    } else {
        seq_sum(s.drop_last(), f) + f(s.last())
    }
}

/// Two sequences one after the other add up to their sums together.
pub proof fn lemma_seq_sum_concat<T>(a: Seq<T>, b: Seq<T>, f: spec_fn(T) -> nat)
    ensures
        seq_sum(a + b, f) == seq_sum(a, f) + seq_sum(b, f),
    decreases b.len(),
{
    if b.len() == 0 {
        assert(a + b == a);
    } else {
        assert((a + b).drop_last() == a + b.drop_last());
        lemma_seq_sum_concat(a, b.drop_last(), f);
    }
}

proof fn lemma_sum_remove<T>(s: Seq<T>, f: spec_fn(T) -> nat, i: int)
    requires
        0 <= i < s.len(),
    ensures
        seq_sum(s, f) == seq_sum(s.remove(i), f) + f(s[i]),
    decreases s.len(),
{
    if i == s.len() - 1 {
        assert(s.remove(i) == s.drop_last());
    } else {
        lemma_sum_remove(s.drop_last(), f, i);
        assert(s.remove(i).drop_last() == s.drop_last().remove(i));
        assert(s.remove(i).last() == s.last());
    }
}

/// A rearrangement adds up to the same.
pub proof fn lemma_sum_rearranged<T>(a: Seq<T>, b: Seq<T>, f: spec_fn(T) -> nat)
    requires
        a.to_multiset() == b.to_multiset(),
    ensures
        seq_sum(a, f) == seq_sum(b, f),
    decreases a.len(),
{
    lemma_rearranged(a, b);
    if a.len() > 0 {
        let x = a.last();
        assert(a.contains(x));
        assert(b.contains(x));
        let i = choose|i: int| 0 <= i < b.len() && b[i] == x;
        a.to_multiset_ensures();
        b.to_multiset_ensures();
        assert(a.remove(a.len() - 1) == a.drop_last());
        assert(b.remove(i).to_multiset() == b.to_multiset().remove(x));
        assert(a.drop_last().to_multiset() == a.to_multiset().remove(x));
        lemma_sum_rearranged(a.drop_last(), b.remove(i), f);
        lemma_sum_remove(b, f, i);
    }
}

/// The elements in front add up to no more than all of them.
pub proof fn lemma_sum_prefix<T>(s: Seq<T>, f: spec_fn(T) -> nat, i: int)
    requires
        0 <= i <= s.len(),
    ensures
        seq_sum(s.take(i), f) <= seq_sum(s, f),
    decreases s.len() - i,
{
    if i < s.len() {
        lemma_sum_prefix(s, f, i + 1);
        assert(s.take(i + 1).drop_last() == s.take(i));
    } else {
        assert(s.take(i) == s);
    }
}

/// Taking away stops at zero.
pub proof fn taking_away_stops_at_zero(a: int, b: int)
    ensures
        a >= b ==> less(a, b) + b == a,
        a < b ==> less(a, b) == 0,
{
}

} // verus!
