//! Putting things in order of weight, the heaviest first.

use std::cmp::Ordering;
use vstd::prelude::*;

verus! {

/// Something with a weight to be ranked by.
pub trait Weighted {
    /// The weight.
    spec fn heft(&self) -> u64;

    /// The weight.
    fn weight(&self) -> (w: u64)
        ensures
            w == self.heft(),
    ;
}

/// A weight and what it belongs to.
#[derive(Clone, Copy)]
pub struct Ranked {
    pub weight: u64,
    pub id: u32,
}

impl Weighted for Ranked {
    open spec fn heft(&self) -> u64 {
        self.weight
    }

    fn weight(&self) -> (w: u64) {
        self.weight
    }
}

/// A weight and the place in a list that it belongs to.
#[derive(Clone, Copy)]
pub struct Placed {
    pub weight: u64,
    pub at: usize,
}

impl Weighted for Placed {
    open spec fn heft(&self) -> u64 {
        self.weight
    }

    fn weight(&self) -> (w: u64) {
        self.weight
    }
}

/// No element is heavier than one before it.
pub open spec fn heaviest_first<T: Weighted>(s: Seq<T>) -> bool {
    forall|i: int, j: int|
        0 <= i < j < s.len() ==> (#[trigger] s[i]).heft() >= (#[trigger] s[j]).heft()
}

/// How two elements stand to each other where the heavier comes first.
fn heavier_first<T: Weighted>(a: &T, b: &T) -> (o: Ordering)
    ensures
        o == if a.heft() > b.heft() {
            Ordering::Less
        } else if a.heft() < b.heft() {
            Ordering::Greater
        } else {
            Ordering::Equal
        },
{
    let x = a.weight();
    let y = b.weight();
    if x > y {
        Ordering::Less
    } else if x < y {
        Ordering::Greater
    } else {
        Ordering::Equal
    }
}

/// `<[T]>::sort_unstable_by`, comparing weights: the same elements, the heaviest
/// first. Elements of equal weight come in no particular order.
#[verifier::external_body]
pub(crate) fn sort_heaviest_first<T: Weighted>(v: &mut Vec<T>)
    ensures
        final(v)@.to_multiset() == old(v)@.to_multiset(),
        heaviest_first(final(v)@),
{
    v.sort_unstable_by(|a, b| heavier_first(a, b));
}

/// A rearrangement has the same length and the same members, and repeats nothing
/// that was not repeated before.
pub proof fn lemma_rearranged<T>(a: Seq<T>, b: Seq<T>)
    requires
        a.to_multiset() == b.to_multiset(),
    ensures
        a.len() == b.len(),
        forall|x: T| #[trigger] a.contains(x) == b.contains(x),
        a.no_duplicates() ==> b.no_duplicates(),
{
    a.to_multiset_ensures();
    b.to_multiset_ensures();
    assert forall|x: T| #[trigger] a.contains(x) == b.contains(x) by {
        assert(a.contains(x) <==> a.to_multiset().count(x) > 0);
        assert(b.contains(x) <==> b.to_multiset().count(x) > 0);
    }
    if a.no_duplicates() {
        a.lemma_multiset_has_no_duplicates();
        b.lemma_multiset_has_no_duplicates_conv();
    }
}

} // verus!
