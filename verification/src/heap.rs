//! A heap of directories waiting to be drawn, the largest on top.

use vstd::multiset::Multiset;
use vstd::prelude::*;

verus! {

/// A directory to be drawn: the area it fills, the place on the map where that
/// area lies, and how deep below the drawn root it is. Areas are compared as
/// numbers and nothing else is done with them.
#[derive(Clone, Copy)]
pub struct Work {
    pub area: u64,
    pub id: u32,
    pub spot: usize,
    pub depth: u16,
}

/// Directories to be drawn, arranged so that the largest can be taken at once.
pub struct Heap {
    items: Vec<Work>,
}

spec fn above(i: int) -> int {
    (i - 1) / 2
}

/// No item is larger than the one above it.
spec fn arranged(s: Seq<Work>) -> bool {
    forall|i: int| 0 < i < s.len() ==> s[above(i)].area >= (#[trigger] s[i]).area
}

/// Arranged but for what stands at `k` against the one above it.
spec fn rising(s: Seq<Work>, k: int) -> bool {
    &&& 0 <= k < s.len()
    &&& forall|i: int| 0 < i < s.len() && i != k ==> s[above(i)].area >= (#[trigger] s[i]).area
    &&& k > 0 ==> forall|i: int|
        0 < i < s.len() && above(i) == k ==> s[above(k)].area >= (#[trigger] s[i]).area
}

/// Arranged but for what stands at `k` against the ones below it.
spec fn sinking(s: Seq<Work>, k: int) -> bool {
    &&& 0 <= k < s.len()
    &&& forall|i: int|
        0 < i < s.len() && above(i) != k ==> s[above(i)].area >= (#[trigger] s[i]).area
    &&& k > 0 ==> forall|i: int|
        0 < i < s.len() && above(i) == k ==> s[above(k)].area >= (#[trigger] s[i]).area
}

proof fn lemma_top_is_largest(s: Seq<Work>, i: int)
    requires
        arranged(s),
        0 <= i < s.len(),
    ensures
        s[0].area >= s[i].area,
    decreases i,
{
    if i > 0 {
        lemma_top_is_largest(s, above(i));
    }
}

proof fn lemma_exchange(s: Seq<Work>, i: int, j: int)
    requires
        0 <= i < s.len(),
        0 <= j < s.len(),
        i != j,
    ensures
        s.update(i, s[j]).update(j, s[i]).to_multiset() == s.to_multiset(),
{
    let a = s.update(i, s[j]);
    lemma_replace(s, i, s[j]);
    lemma_replace(a, j, s[i]);
    let m = s.to_multiset();
    s.to_multiset_ensures();
    a.to_multiset_ensures();
    assert(s.contains(s[i]));
    assert(s.contains(s[j]));
    assert(a.contains(a[j]));
    assert(m.remove(s[i]).insert(s[j]).remove(s[j]).insert(s[i]) =~= m);
}

proof fn lemma_replace(s: Seq<Work>, i: int, w: Work)
    requires
        0 <= i < s.len(),
    ensures
        s.update(i, w).to_multiset() == s.to_multiset().remove(s[i]).insert(w),
{
    assert(s.update(i, w) == s.remove(i).insert(i, w));
    vstd::seq_lib::to_multiset_remove(s, i);
    vstd::seq_lib::to_multiset_insert(s.remove(i), i, w);
}

impl Heap {
    /// What waits, in no order.
    pub closed spec fn waiting(&self) -> Multiset<Work> {
        self.items@.to_multiset()
    }

    pub closed spec fn wf(&self) -> bool {
        arranged(self.items@)
    }

    /// Nothing waits.
    pub fn new() -> (h: Heap)
        ensures
            h.wf(),
            h.waiting() == Multiset::<Work>::empty(),
    {
        let h = Heap { items: Vec::new() };
        proof {
            h.items@.to_multiset_ensures();
            assert(h.items@.to_multiset() =~= Multiset::<Work>::empty()) by {
                assert forall|w: Work| h.items@.to_multiset().count(w) == 0 by {
                    assert(!h.items@.contains(w));
                }
            }
        }
        h
    }

    /// How many wait.
    pub fn len(&self) -> (n: usize)
        ensures
            n == self.waiting().len(),
    {
        proof {
            self.items@.to_multiset_ensures();
        }
        self.items.len()
    }

    /// Lets one more wait.
    pub fn push(&mut self, w: Work)
        requires
            old(self).wf(),
        ensures
            final(self).wf(),
            final(self).waiting() == old(self).waiting().insert(w),
    {
        proof {
            self.items@.to_multiset_ensures();
        }
        let ghost goal = self.items@.to_multiset().insert(w);
        self.items.push(w);
        let mut k: usize = self.items.len() - 1;
        while k > 0
            invariant
                rising(self.items@, k as int),
                self.items@.to_multiset() == goal,
            ensures
                arranged(self.items@),
                self.items@.to_multiset() == goal,
            decreases k,
        {
            let p: usize = (k - 1) / 2;
            let ghost s = self.items@;
            let low = self.items[k];
            let high = self.items[p];
            if high.area >= low.area {
                break;
            }
            self.items.set(k, high);
            self.items.set(p, low);
            proof {
                lemma_exchange(s, k as int, p as int);
                let t = self.items@;
                assert forall|i: int| 0 < i < t.len() && i != p implies t[above(i)].area >= (
                #[trigger] t[i]).area by {
                    assert(s[above(i)].area >= s[i].area || i == k);
                    if i != k && above(i) == k {
                        assert(s[above(k as int)].area >= s[i].area);
                    }
                }
                if p > 0 {
                    assert forall|i: int| 0 < i < t.len() && above(i) == p implies t[above(
                        p as int,
                    )].area >= (#[trigger] t[i]).area by {
                        assert(s[above(p as int)].area >= s[p as int].area);
                        if i != k {
                            assert(s[above(i)].area >= s[i].area);
                        }
                    }
                }
            }
            k = p;
        }
    }

    /// Takes one that is as large as any.
    pub fn pop(&mut self) -> (r: Option<Work>)
        requires
            old(self).wf(),
        ensures
            final(self).wf(),
            match r {
                Some(w) => old(self).waiting().contains(w) && final(self).waiting()
                    == old(self).waiting().remove(w) && forall|x: Work| #[trigger]
                    old(self).waiting().contains(x) ==> w.area >= x.area,
                None => old(self).waiting() == Multiset::<Work>::empty() && final(self).waiting()
                    == old(self).waiting(),
            },
    {
        let ghost s0 = self.items@;
        let n = self.items.len();
        proof {
            s0.to_multiset_ensures();
        }
        if n == 0 {
            proof {
                assert(s0.to_multiset() =~= Multiset::<Work>::empty()) by {
                    assert forall|w: Work| s0.to_multiset().count(w) == 0 by {
                        assert(!s0.contains(w));
                    }
                }
            }
            return None;
        }
        let top = self.items[0];
        let last = self.items.pop().unwrap();
        let ghost goal = s0.to_multiset().remove(top);
        proof {
            assert(s0.contains(top));
            assert forall|x: Work| #[trigger] s0.to_multiset().contains(x) implies top.area
                >= x.area by {
                assert(s0.contains(x));
                let i = choose|i: int| 0 <= i < s0.len() && s0[i] == x;
                lemma_top_is_largest(s0, i);
            }
            assert(s0.drop_last() == s0.remove(s0.len() - 1));
            vstd::seq_lib::to_multiset_remove(s0, s0.len() - 1);
        }
        if n > 1 {
            let ghost s1 = self.items@;
            self.items.set(0, last);
            proof {
                lemma_replace(s1, 0, last);
                s1.to_multiset_ensures();
                assert(s1.contains(s1[0]));
                assert(s0.contains(last));
                let m = s0.to_multiset();
                assert(m.count(top) > 0 && m.count(last) > 0);
                assert(m.remove(last).count(top) > 0);
                assert(m.remove(last).remove(top).insert(last) =~= m.remove(top)) by {
                    if top == last {
                        assert(m.count(top) >= 2) by {
                            assert(m.remove(last).count(top) > 0);
                        }
                    }
                }
                assert(self.items@.to_multiset() == goal);
                let t = self.items@;
                assert forall|i: int| 0 < i < t.len() && above(i) != 0 implies t[above(i)].area >= (
                #[trigger] t[i]).area by {
                    assert(s0[above(i)].area >= s0[i].area);
                }
            }
            self.sink(Ghost(goal));
        }
        Some(top)
    }

    /// Lets the item on top sink to its place.
    fn sink(&mut self, Ghost(goal): Ghost<Multiset<Work>>)
        requires
            sinking(old(self).items@, 0),
            old(self).items@.to_multiset() == goal,
        ensures
            arranged(final(self).items@),
            final(self).items@.to_multiset() == goal,
    {
        let n = self.items.len();
        let mut k: usize = 0;
        while k < n / 2
            invariant
                n == self.items@.len(),
                sinking(self.items@, k as int),
                self.items@.to_multiset() == goal,
            ensures
                arranged(self.items@),
                self.items@.to_multiset() == goal,
            decreases n - k,
        {
            let ghost s = self.items@;
            let mut c: usize = 2 * k + 1;
            if c + 1 < n && self.items[c + 1].area > self.items[c].area {
                c = c + 1;
            }
            assert(above(c as int) == k);
            let high = self.items[k];
            let low = self.items[c];
            assert forall|i: int| 0 < i < s.len() && above(i) == k implies low.area >= (
            #[trigger] s[i]).area by {
                assert(i == 2 * k + 1 || i == 2 * k + 2);
            }
            if high.area >= low.area {
                assert forall|i: int| 0 < i < s.len() implies s[above(i)].area >= (
                #[trigger] s[i]).area by {}
                break;
            }
            self.items.set(k, low);
            self.items.set(c, high);
            proof {
                lemma_exchange(s, k as int, c as int);
                let t = self.items@;
                assert forall|i: int| 0 < i < t.len() && above(i) != c implies t[above(i)].area >= (
                #[trigger] t[i]).area by {
                    if i == k {
                        assert(s[above(k as int)].area >= s[c as int].area);
                    } else if above(i) == k {
                        assert(low.area >= s[i].area);
                    } else {
                        assert(s[above(i)].area >= s[i].area);
                    }
                }
                assert forall|i: int| 0 < i < t.len() && above(i) == c implies t[above(
                    c as int,
                )].area >= (#[trigger] t[i]).area by {
                    assert(s[above(i)].area >= s[i].area);
                }
            }
            k = c;
        }
    }
}

/// What waits leaves in falling order of area, each once: what is put in waits, the largest
/// comes out, and nothing comes out only where nothing waits.
pub proof fn largest_leaves_first(
    e: Heap,
    a: Heap,
    n: usize,
    h: &mut Heap,
    w: Work,
    g: &mut Heap,
    r: Option<Work>,
)
    requires
        call_ensures(Heap::new, (), e),
        call_ensures(Heap::len, (&a,), n),
        old(h).wf(),
        call_ensures(Heap::push, (h, w), ()),
        old(g).wf(),
        call_ensures(Heap::pop, (g,), r),
    ensures
        e.waiting().len() == 0,
        n == a.waiting().len(),
        final(h).waiting() == old(h).waiting().insert(w),
        r is None <==> old(g).waiting() == Multiset::<Work>::empty(),
        r is None ==> final(g).waiting() == old(g).waiting(),
        r is Some ==> old(g).waiting().contains(r->0) && final(g).waiting()
            == old(g).waiting().remove(r->0),
        r is Some ==> forall|x: Work| #[trigger]
            old(g).waiting().contains(x) ==> (r->0).area >= x.area,
{
}

} // verus!
