//! Taking a subtree out of the arena.

use crate::largest::{lemma_named, lemma_refilled_names_largest, refill, refilled};
use crate::store::{is_child, linked, Node, Store};
use crate::sums::{count_where, lemma_sum_one_more, lemma_sum_same, less, sum_where};
use vstd::prelude::*;

verus! {

/// Whether removing `id` takes `n` with it: `n` is alive, and so is every node
/// on the way up to `id`, all of them directories.
pub open spec fn doomed(nodes: Seq<Node>, id: int, n: int) -> bool
    decreases n,
{
    &&& nodes[n].alive
    &&& n == id || (0 <= nodes[n].parent < n && nodes[nodes[n].parent as int].is_dir && doomed(
        nodes,
        id,
        nodes[n].parent as int,
    ))
}

/// Whether `a` lies above `n`: its parent, that one's parent, and so on to the
/// root.
pub open spec fn is_above(nodes: Seq<Node>, a: int, n: int) -> bool
    decreases n,
{
    n > 0 && nodes[n].parent < n && (nodes[n].parent == a || is_above(
        nodes,
        a,
        nodes[n].parent as int,
    ))
}

/// The bytes in the files of type `e` that removing `id` takes.
pub open spec fn lost_bytes(nodes: Seq<Node>, id: int, e: int) -> nat {
    sum_where(
        nodes.len() as int,
        |k: int| doomed(nodes, id, k) && !nodes[k].is_dir && nodes[k].ext == e,
        |k: int| nodes[k].size as nat,
    )
}

/// The number of files of type `e` that removing `id` takes.
pub open spec fn lost_files(nodes: Seq<Node>, id: int, e: int) -> nat {
    count_where(
        nodes.len() as int,
        |k: int| doomed(nodes, id, k) && !nodes[k].is_dir && nodes[k].ext == e,
    )
}

/// The number of directories that removing `id` takes.
pub open spec fn lost_dirs(nodes: Seq<Node>, id: int) -> nat {
    count_where(nodes.len() as int, |k: int| doomed(nodes, id, k) && nodes[k].is_dir)
}

/// Two nodes agree on everything but their weight and whether they are alive.
pub open spec fn same_place(a: Node, b: Node) -> bool {
    &&& a.name == b.name
    &&& a.parent == b.parent
    &&& a.first_child == b.first_child
    &&& a.child_count == b.child_count
    &&& a.ext == b.ext
    &&& a.is_dir == b.is_dir
}

/// `t` is `s` without the subtree of `id`: the doomed nodes are dead, every node
/// above is lighter by what `id` weighed, the table of types and the number of
/// directories have lost what went, and the room that is left in the list of largest
/// files goes to the largest of the others. No count falls below zero.
pub open spec fn pruned(s: Store, id: int, t: Store) -> bool {
    let a = s.nodes@;
    let b = t.nodes@;
    &&& b.len() == a.len()
    &&& forall|i: int|
        0 <= i < a.len() ==> same_place(a[i], #[trigger] b[i]) && b[i].alive == (a[i].alive
            && !doomed(a, id, i)) && b[i].size == (if is_above(a, i, id) {
            less(a[i].size as int, a[id].size as int)
        } else {
            a[i].size as int
        }) && b[i].files == (if is_above(a, i, id) {
            less(a[i].files as int, a[id].files as int)
        } else {
            a[i].files as int
        })
    &&& t.exts@.len() == s.exts@.len()
    &&& forall|e: int|
        0 <= e < s.exts@.len() ==> (#[trigger] t.exts@[e]).name == s.exts@[e].name
            && t.exts@[e].slot == s.exts@[e].slot && t.exts@[e].bytes == less(
            s.exts@[e].bytes as int,
            lost_bytes(a, id, e) as int,
        ) && t.exts@[e].files == less(s.exts@[e].files as int, lost_files(a, id, e) as int)
    &&& t.dirs == less(s.dirs as int, lost_dirs(a, id) as int)
    &&& t.root_path == s.root_path
    &&& t.elapsed_ms == s.elapsed_ms
    &&& t.generation == s.generation
    &&& t.largest@ == refilled(b, s.largest@)
    &&& t.errors == s.errors
}

/// Whether node `k` was alive in `a` and no longer is in `b`.
spec fn gone(a: Seq<Node>, b: Seq<Node>, k: int) -> bool {
    a[k].alive && !b[k].alive
}

spec fn bytes_gone(a: Seq<Node>, b: Seq<Node>, e: int) -> nat {
    sum_where(
        a.len() as int,
        |k: int| gone(a, b, k) && !a[k].is_dir && a[k].ext == e,
        |k: int| a[k].size as nat,
    )
}

spec fn files_gone(a: Seq<Node>, b: Seq<Node>, e: int) -> nat {
    count_where(a.len() as int, |k: int| gone(a, b, k) && !a[k].is_dir && a[k].ext == e)
}

spec fn dirs_gone(a: Seq<Node>, b: Seq<Node>) -> nat {
    count_where(a.len() as int, |k: int| gone(a, b, k) && a[k].is_dir)
}

spec fn living(b: Seq<Node>) -> nat {
    count_where(b.len() as int, |k: int| b[k].alive)
}

/// `b` is `a` with some nodes dead.
spec fn only_deaths(a: Seq<Node>, b: Seq<Node>) -> bool {
    &&& b.len() == a.len()
    &&& forall|k: int|
        0 <= k < a.len() ==> same_place(a[k], #[trigger] b[k]) && b[k].size == a[k].size
            && b[k].files == a[k].files && (b[k].alive ==> a[k].alive)
}

/// The walk over the subtree of `id`: what has died was doomed, and what is still
/// to die is on the stack or below something there.
spec fn walking(a: Seq<Node>, b: Seq<Node>, id: int, stack: Seq<u32>) -> bool {
    &&& only_deaths(a, b)
    &&& forall|k: int| 0 <= k < a.len() && #[trigger] gone(a, b, k) ==> doomed(a, id, k)
    &&& forall|x: int|
        0 <= x < stack.len() ==> (#[trigger] stack[x]) < a.len() && (stack[x] == id || (stack[x] > 0
            && gone(a, b, a[stack[x] as int].parent as int)
            && a[a[stack[x] as int].parent as int].is_dir))
    &&& gone(a, b, id) || !a[id].alive || stack.contains(id as u32)
    &&& forall|p: int, c: int|
        0 <= p < a.len() && gone(a, b, p) && a[p].is_dir && #[trigger] is_child(a, p, c) ==> gone(
            a,
            b,
            c,
        ) || !a[c].alive || stack.contains(c as u32)
}

/// The tallies match what has died.
spec fn tallied(s: Store, t: Store) -> bool {
    let a = s.nodes@;
    let b = t.nodes@;
    &&& t.exts@.len() == s.exts@.len()
    &&& forall|e: int|
        0 <= e < s.exts@.len() ==> (#[trigger] t.exts@[e]).name == s.exts@[e].name
            && t.exts@[e].slot == s.exts@[e].slot && t.exts@[e].bytes == less(
            s.exts@[e].bytes as int,
            bytes_gone(a, b, e) as int,
        ) && t.exts@[e].files == less(s.exts@[e].files as int, files_gone(a, b, e) as int)
    &&& t.dirs == less(s.dirs as int, dirs_gone(a, b) as int)
    &&& t.root_path == s.root_path
    &&& t.elapsed_ms == s.elapsed_ms
    &&& t.generation == s.generation
    &&& t.largest == s.largest
    &&& t.errors == s.errors
}

/// One more death moves exactly its own tally.
proof fn lemma_one_death(a: Seq<Node>, b: Seq<Node>, b2: Seq<Node>, n: int)
    requires
        only_deaths(a, b),
        0 <= n < a.len(),
        b[n].alive,
        b2.len() == b.len(),
        !b2[n].alive,
        forall|k: int| 0 <= k < b.len() && k != n ==> (#[trigger] b2[k]).alive == b[k].alive,
    ensures
        forall|e: int| #[trigger]
            bytes_gone(a, b2, e) == bytes_gone(a, b, e) + if !a[n].is_dir && a[n].ext == e {
                a[n].size as nat
            } else {
                0
            },
        forall|e: int| #[trigger]
            files_gone(a, b2, e) == files_gone(a, b, e) + if !a[n].is_dir && a[n].ext == e {
                1nat
            } else {
                0
            },
        dirs_gone(a, b2) == dirs_gone(a, b) + if a[n].is_dir {
            1nat
        } else {
            0
        },
        living(b) == living(b2) + 1,
{
    let len = a.len() as int;
    assert forall|e: int| #[trigger]
        bytes_gone(a, b2, e) == bytes_gone(a, b, e) + if !a[n].is_dir && a[n].ext == e {
            a[n].size as nat
        } else {
            0
        } by {
        let p = |k: int| gone(a, b, k) && !a[k].is_dir && a[k].ext == e;
        let q = |k: int| gone(a, b2, k) && !a[k].is_dir && a[k].ext == e;
        let w = |k: int| a[k].size as nat;
        if !a[n].is_dir && a[n].ext == e {
            lemma_sum_one_more(len, p, q, w, n);
        } else {
            lemma_sum_same(len, p, q, w, w);
        }
    }
    assert forall|e: int| #[trigger]
        files_gone(a, b2, e) == files_gone(a, b, e) + if !a[n].is_dir && a[n].ext == e {
            1nat
        } else {
            0
        } by {
        let p = |k: int| gone(a, b, k) && !a[k].is_dir && a[k].ext == e;
        let q = |k: int| gone(a, b2, k) && !a[k].is_dir && a[k].ext == e;
        let w = |k: int| 1nat;
        if !a[n].is_dir && a[n].ext == e {
            lemma_sum_one_more(len, p, q, w, n);
        } else {
            lemma_sum_same(len, p, q, w, w);
        }
    }
    let p = |k: int| gone(a, b, k) && a[k].is_dir;
    let q = |k: int| gone(a, b2, k) && a[k].is_dir;
    let w = |k: int| 1nat;
    if a[n].is_dir {
        lemma_sum_one_more(len, p, q, w, n);
    } else {
        lemma_sum_same(len, p, q, w, w);
    }
    lemma_sum_one_more(len, |k: int| b2[k].alive, |k: int| b[k].alive, w, n);
}

/// Once the stack is empty, exactly the doomed nodes have died.
proof fn lemma_walk_done(a: Seq<Node>, b: Seq<Node>, id: int, k: int)
    requires
        linked(a),
        walking(a, b, id, Seq::empty()),
        0 <= id < a.len(),
        0 <= k < a.len(),
    ensures
        gone(a, b, k) == doomed(a, id, k),
    decreases k,
{
    if doomed(a, id, k) && k != id {
        let p = a[k].parent as int;
        lemma_walk_done(a, b, id, p);
        assert(k > 0);
        assert(is_child(a, p, k));
    }
}

/// A node above `id` and below `c` on the way from `id` to `c` is above `c`'s.
proof fn lemma_above_chain(nodes: Seq<Node>, a: int, c: int, id: int)
    requires
        linked(nodes),
        0 <= id < nodes.len(),
        is_above(nodes, a, id),
        c == id || is_above(nodes, c, id),
        a < c,
    ensures
        c > 0,
        a <= nodes[c].parent,
        0 <= c < nodes.len(),
    decreases id,
{
    let p = nodes[id].parent as int;
    if c == id {
        if p != a {
            lemma_above_smaller(nodes, a, p);
        }
    } else if c == p {
        if is_above(nodes, a, p) {
            lemma_above_chain(nodes, a, c, p);
        }
    } else {
        if p == a {
            lemma_above_smaller(nodes, c, p);
        }
        lemma_above_chain(nodes, a, c, p);
    }
}

proof fn lemma_above_smaller(nodes: Seq<Node>, a: int, n: int)
    requires
        linked(nodes),
        0 <= n < nodes.len(),
        is_above(nodes, a, n),
    ensures
        0 <= a < n,
    decreases n,
{
    if nodes[n].parent != a {
        lemma_above_smaller(nodes, a, nodes[n].parent as int);
    }
}

proof fn lemma_above_next(nodes: Seq<Node>, c: int, id: int)
    requires
        linked(nodes),
        0 <= id < nodes.len(),
        c == id || is_above(nodes, c, id),
        c > 0,
    ensures
        is_above(nodes, nodes[c].parent as int, id),
    decreases id,
{
    if c != id {
        lemma_above_smaller(nodes, c, id);
        lemma_above_next(nodes, c, nodes[id].parent as int);
    }
}

impl Store {
    /// Kills node `n` and everything alive below it, keeping the tallies.
    fn kill_below(&mut self, id: u32)
        requires
            old(self).wf(),
            id < old(self).nodes@.len(),
        ensures
            only_deaths(old(self).nodes@, final(self).nodes@),
            tallied(*old(self), *final(self)),
            forall|k: int|
                0 <= k < old(self).nodes@.len() ==> gone(
                    old(self).nodes@,
                    final(self).nodes@,
                    k,
                ) == #[trigger] doomed(old(self).nodes@, id as int, k),
    {
        let ghost s0 = *self;
        let ghost a = self.nodes@;
        let mut stack: Vec<u32> = Vec::new();
        stack.push(id);
        proof {
            assert(stack@[0] == id);
            assert forall|e: int| bytes_gone(a, a, e) == 0 && files_gone(a, a, e) == 0 by {
                crate::sums::lemma_sum_none(
                    a.len() as int,
                    |k: int| gone(a, a, k) && !a[k].is_dir && a[k].ext == e,
                    |k: int| a[k].size as nat,
                );
                crate::sums::lemma_sum_none(
                    a.len() as int,
                    |k: int| gone(a, a, k) && !a[k].is_dir && a[k].ext == e,
                    |k: int| 1nat,
                );
            }
            crate::sums::lemma_sum_none(
                a.len() as int,
                |k: int| gone(a, a, k) && a[k].is_dir,
                |k: int| 1nat,
            );
        }
        while stack.len() > 0
            invariant
                a == s0.nodes@,
                s0.wf(),
                id < a.len(),
                walking(a, self.nodes@, id as int, stack@),
                tallied(s0, *self),
            decreases living(self.nodes@), stack@.len(),
        {
            let ghost st0 = stack@;
            let n = stack.pop().unwrap();
            let ghost b = self.nodes@;
            assert(st0[st0.len() - 1] == n);
            assert(st0 == stack@.push(n));
            let at: usize = n as usize;
            let first = self.nodes[at].first_child;
            let count = self.nodes[at].child_count;
            let ext = self.nodes[at].ext;
            let is_dir = self.nodes[at].is_dir;
            let size = self.nodes[at].size;
            if !self.nodes[at].alive {
                assert forall|x: u32| st0.contains(x) && x != n implies stack@.contains(x) by {
                    lemma_still_there(stack@, n, x);
                }
                continue;
            }
            self.nodes[at].alive = false;
            proof {
                lemma_one_death(a, b, self.nodes@, n as int);
                assert(gone(a, self.nodes@, n as int));
                assert(a[n as int].alive);
                if n != id {
                    assert(doomed(a, id as int, a[n as int].parent as int));
                }
                assert(doomed(a, id as int, n as int));
                assert forall|k: int| 0 <= k < a.len() && #[trigger] gone(
                    a,
                    self.nodes@,
                    k,
                ) implies doomed(a, id as int, k) by {
                    if k != n {
                        assert(gone(a, b, k));
                    }
                }
            }
            let ghost b2 = self.nodes@;
            if is_dir {
                self.dirs = self.dirs.saturating_sub(1);
                let ghost st1 = stack@;
                let end: u32 = first + count;
                for c in first..end
                    invariant
                        st1.len() <= stack@.len(),
                        first <= end,
                        stack@.len() == st1.len() + (c - first),
                        forall|x: int| 0 <= x < st1.len() ==> #[trigger] stack@[x] == st1[x],
                        forall|x: int|
                            st1.len() <= x < stack@.len() ==> #[trigger] stack@[x] == first + (x
                                - st1.len()),
                {
                    stack.push(c);
                }
                proof {
                    assert forall|x: int| 0 <= x < stack@.len() implies (#[trigger] stack@[x])
                        < a.len() && (stack@[x] == id || (stack@[x] > 0 && gone(
                        a,
                        b2,
                        a[stack@[x] as int].parent as int,
                    ) && a[a[stack@[x] as int].parent as int].is_dir)) by {
                        if x < st1.len() {
                            assert(st0[x] == st1[x]);
                            if stack@[x] != id {
                                assert(gone(a, b, a[stack@[x] as int].parent as int));
                            }
                        } else {
                            assert(is_child(a, n as int, stack@[x] as int));
                        }
                    }
                    assert forall|x: u32| #[trigger] st0.contains(x) && x != n implies stack@.contains(
                        x,
                    ) by {
                        lemma_still_there(st1, n, x);
                        let y = choose|y: int| 0 <= y < st1.len() && st1[y] == x;
                        assert(stack@[y] == x);
                    }
                    assert forall|p: int, c: int|
                        0 <= p < a.len() && gone(a, b2, p) && a[p].is_dir && #[trigger] is_child(
                            a,
                            p,
                            c,
                        ) implies gone(a, b2, c) || !a[c].alive || stack@.contains(c as u32) by {
                        assert(0 < c < a.len());
                        if p == n {
                            assert(stack@[st1.len() + (c - first)] == c);
                        } else {
                            assert(gone(a, b, p));
                            if st0.contains(c as u32) && c as u32 != n {
                                assert(stack@.contains(c as u32));
                            }
                        }
                    }
                    assert(gone(a, b2, id as int) || !a[id as int].alive || stack@.contains(id));
                }
            } else {
                let e: usize = ext as usize;
                let bytes = self.exts[e].bytes;
                let files = self.exts[e].files;
                self.exts[e].bytes = bytes.saturating_sub(size);
                self.exts[e].files = files.saturating_sub(1);
                proof {
                    assert forall|x: u32| #[trigger] st0.contains(x) && x != n implies stack@.contains(
                        x,
                    ) by {
                        lemma_still_there(stack@, n, x);
                    }
                    assert forall|x: int| 0 <= x < stack@.len() implies (#[trigger] stack@[x])
                        < a.len() && (stack@[x] == id || (stack@[x] > 0 && gone(
                        a,
                        b2,
                        a[stack@[x] as int].parent as int,
                    ) && a[a[stack@[x] as int].parent as int].is_dir)) by {
                        assert(st0[x] == stack@[x]);
                        if stack@[x] != id {
                            assert(gone(a, b, a[stack@[x] as int].parent as int));
                        }
                    }
                    assert forall|p: int, c: int|
                        0 <= p < a.len() && gone(a, b2, p) && a[p].is_dir && #[trigger] is_child(
                            a,
                            p,
                            c,
                        ) implies gone(a, b2, c) || !a[c].alive || stack@.contains(c as u32) by {
                        assert(gone(a, b, p));
                    }
                }
            }
        }
        proof {
            assert(stack@ == Seq::<u32>::empty());
            assert forall|k: int| 0 <= k < a.len() implies gone(a, self.nodes@, k)
                == #[trigger] doomed(a, id as int, k) by {
                lemma_walk_done(a, self.nodes@, id as int, k);
            }
        }
    }
}

proof fn lemma_still_there(stack: Seq<u32>, n: u32, x: u32)
    requires
        stack.push(n).contains(x),
        x != n,
    ensures
        stack.contains(x),
{
    let i = choose|i: int| 0 <= i < stack.push(n).len() && stack.push(n)[i] == x;
    assert(stack[i] == x);
}

/// The two agree on everything but the nodes.
spec fn same_but_nodes(s: Store, t: Store) -> bool {
    &&& s.exts == t.exts
    &&& s.root_path == t.root_path
    &&& s.elapsed_ms == t.elapsed_ms
    &&& s.generation == t.generation
    &&& s.largest == t.largest
    &&& s.dirs == t.dirs
    &&& s.errors == t.errors
}

/// `c` is `b`, where the nodes of `a` above `id` from `cur` on are lighter by what
/// `id` weighs.
spec fn lighter(a: Seq<Node>, b: Seq<Node>, c: Seq<Node>, id: int, cur: int) -> bool {
    &&& c.len() == a.len()
    &&& forall|i: int|
        0 <= i < a.len() ==> same_place(a[i], #[trigger] c[i]) && c[i].alive == b[i].alive
            && c[i].size == (if is_above(a, i, id) && i >= cur {
            less(a[i].size as int, a[id].size as int)
        } else {
            a[i].size as int
        }) && c[i].files == (if is_above(a, i, id) && i >= cur {
            less(a[i].files as int, a[id].files as int)
        } else {
            a[i].files as int
        })
}

impl Store {
    /// Takes `freed` bytes and `files` files off every node above `id`.
    fn lighten_above(&mut self, id: u32, freed: u64, files: u32, Ghost(a): Ghost<Seq<Node>>)
        requires
            linked(a),
            id < a.len(),
            only_deaths(a, old(self).nodes@),
            freed == a[id as int].size,
            files == a[id as int].files,
        ensures
            same_but_nodes(*old(self), *final(self)),
            lighter(a, old(self).nodes@, final(self).nodes@, id as int, 0),
    {
        let ghost s1 = *self;
        let ghost b = self.nodes@;
        let mut cur: u32 = id;
        proof {
            assert forall|i: int| #[trigger] is_above(a, i, id as int) implies i < id by {
                lemma_above_smaller(a, i, id as int);
            }
        }
        while cur != 0
            invariant
                linked(a),
                id < a.len(),
                only_deaths(a, b),
                freed == a[id as int].size,
                files == a[id as int].files,
                cur < a.len(),
                cur == id || is_above(a, cur as int, id as int),
                same_but_nodes(s1, *self),
                lighter(a, b, self.nodes@, id as int, cur as int),
            decreases cur,
        {
            let ghost c0 = cur as int;
            let ghost before = self.nodes@;
            proof {
                lemma_above_next(a, c0, id as int);
                assert forall|i: int| #[trigger] is_above(a, i, id as int) && i < c0 implies i
                    <= a[c0].parent by {
                    lemma_above_chain(a, i, c0, id as int);
                }
                assert(same_place(a[c0], before[c0]));
            }
            cur = self.nodes[cur as usize].parent;
            assert(cur < c0);
            let at: usize = cur as usize;
            let size = self.nodes[at].size;
            let held = self.nodes[at].files;
            self.nodes[at].size = size.saturating_sub(freed);
            self.nodes[at].files = held.saturating_sub(files);
            proof {
                assert forall|i: int| 0 <= i < a.len() && i != cur implies #[trigger] self.nodes@[i]
                    == before[i] by {}
                assert(same_place(a[cur as int], before[cur as int]));
                assert forall|i: int| 0 <= i < a.len() implies same_place(
                    a[i],
                    #[trigger] self.nodes@[i],
                ) && self.nodes@[i].alive == b[i].alive && self.nodes@[i].size == (if is_above(
                    a,
                    i,
                    id as int,
                ) && i >= cur {
                    less(a[i].size as int, a[id as int].size as int)
                } else {
                    a[i].size as int
                }) && self.nodes@[i].files == (if is_above(a, i, id as int) && i >= cur {
                    less(a[i].files as int, a[id as int].files as int)
                } else {
                    a[i].files as int
                }) by {
                    if i != cur {
                        assert(same_place(a[i], before[i]));
                        if is_above(a, i, id as int) && i < c0 {
                            assert(i <= a[c0].parent);
                        }
                    }
                }
            }
        }
        proof {
            assert forall|i: int| 0 <= i < a.len() && #[trigger] is_above(a, i, id as int) implies i
                >= 0 by {}
        }
    }
}

proof fn lemma_tally_of_doomed(s: Store, s1: Store, id: int)
    requires
        s.wf(),
        0 <= id < s.nodes@.len(),
        only_deaths(s.nodes@, s1.nodes@),
        tallied(s, s1),
        forall|k: int|
            0 <= k < s.nodes@.len() ==> gone(s.nodes@, s1.nodes@, k) == #[trigger] doomed(
                s.nodes@,
                id,
                k,
            ),
    ensures
        forall|e: int|
            0 <= e < s.exts@.len() ==> (#[trigger] s1.exts@[e]).name == s.exts@[e].name
                && s1.exts@[e].slot == s.exts@[e].slot && s1.exts@[e].bytes == less(
                s.exts@[e].bytes as int,
                lost_bytes(s.nodes@, id, e) as int,
            ) && s1.exts@[e].files == less(
                s.exts@[e].files as int,
                lost_files(s.nodes@, id, e) as int,
            ),
        s1.dirs == less(s.dirs as int, lost_dirs(s.nodes@, id) as int),
        forall|k: int|
            0 <= k < s.nodes@.len() ==> (#[trigger] s1.nodes@[k]).alive == (s.nodes@[k].alive
                && !doomed(s.nodes@, id, k)),
{
    let a = s.nodes@;
    let b = s1.nodes@;
    let len = a.len() as int;
    assert forall|e: int| 0 <= e < s.exts@.len() implies (#[trigger] s1.exts@[e]).name
        == s.exts@[e].name && s1.exts@[e].slot == s.exts@[e].slot && s1.exts@[e].bytes == less(
        s.exts@[e].bytes as int,
        lost_bytes(a, id, e) as int,
    ) && s1.exts@[e].files == less(s.exts@[e].files as int, lost_files(a, id, e) as int) by {
        let p = |k: int| gone(a, b, k) && !a[k].is_dir && a[k].ext == e;
        let q = |k: int| doomed(a, id, k) && !a[k].is_dir && a[k].ext == e;
        assert forall|k: int| 0 <= k < len implies #[trigger] p(k) == q(k) by {
            assert(gone(a, b, k) == doomed(a, id, k));
        }
        lemma_sum_same(len, p, q, |k: int| a[k].size as nat, |k: int| a[k].size as nat);
        lemma_sum_same(len, p, q, |k: int| 1nat, |k: int| 1nat);
    }
    let p = |k: int| gone(a, b, k) && a[k].is_dir;
    let q = |k: int| doomed(a, id, k) && a[k].is_dir;
    assert forall|k: int| 0 <= k < len implies #[trigger] p(k) == q(k) by {
        assert(gone(a, b, k) == doomed(a, id, k));
    }
    lemma_sum_same(len, p, q, |k: int| 1nat, |k: int| 1nat);
    assert forall|k: int| 0 <= k < len implies (#[trigger] b[k]).alive == (a[k].alive && !doomed(
        a,
        id,
        k,
    )) by {
        assert(gone(a, b, k) == doomed(a, id, k));
        assert(same_place(a[k], b[k]));
    }
}

/// Marks the subtree of `id` dead and takes its weight off everything above it
/// and off the type table. Returns the bytes and files that `id` held.
pub fn remove_subtree(store: &mut Store, id: u32) -> (r: (u64, u64))
    requires
        old(store).wf(),
        id < old(store).nodes@.len(),
    ensures
        r.0 == old(store).nodes@[id as int].size,
        r.1 == old(store).nodes@[id as int].files,
        pruned(*old(store), id as int, *final(store)),
        final(store).wf(),
{
    let freed = store.nodes[id as usize].size;
    let files: u32 = store.nodes[id as usize].files;
    let ghost s0 = *store;
    store.kill_below(id);
    let ghost s1 = *store;
    store.lighten_above(id, freed, files, Ghost(s0.nodes@));
    proof {
        lemma_named(s0.nodes@, s0.largest@);
    }
    let largest = refill(&store.nodes, &store.largest);
    store.largest = largest;
    proof {
        lemma_tally_of_doomed(s0, s1, id as int);
        let t = *store;
        assert forall|i: int| 0 <= i < s0.nodes@.len() implies same_place(
            s0.nodes@[i],
            #[trigger] t.nodes@[i],
        ) && t.nodes@[i].alive == (s0.nodes@[i].alive && !doomed(s0.nodes@, id as int, i)) by {
            assert(s1.nodes@[i].alive == t.nodes@[i].alive);
        }
        assert(pruned(s0, id as int, t));
        lemma_pruned_wf(s0, id as int, t);
    }
    (freed, files as u64)
}

/// Pruning leaves the tree's shape alone.
pub proof fn lemma_pruned_wf(s: Store, id: int, t: Store)
    requires
        s.wf(),
        pruned(s, id, t),
    ensures
        t.wf(),
{
    let a = s.nodes@;
    let b = t.nodes@;
    lemma_named(a, s.largest@);
    lemma_refilled_names_largest(b, s.largest@);
    assert forall|c: int| 0 < c < b.len() implies (#[trigger] b[c]).parent < c && is_child(
        b,
        b[c].parent as int,
        c,
    ) by {
        assert(same_place(a[c], b[c]));
        let p = a[c].parent as int;
        assert(same_place(a[p], b[p]));
        assert(is_child(a, p, c));
    }
    assert forall|p: int| 0 <= p < b.len() implies (#[trigger] b[p]).first_child
        + b[p].child_count <= b.len() by {
        assert(same_place(a[p], b[p]));
    }
    assert forall|p: int, c: int| 0 <= p < b.len() && #[trigger] is_child(b, p, c) implies 0 < c
        && b[c].parent == p by {
        assert(same_place(a[p], b[p]));
        assert(is_child(a, p, c));
        assert(a[p].first_child + a[p].child_count <= a.len());
        assert(same_place(a[c], b[c]));
    }
    assert(same_place(a[0], b[0]));
    assert forall|i: int| 0 <= i < b.len() && !(#[trigger] b[i]).is_dir implies b[i].ext
        < t.exts@.len() by {
        assert(same_place(a[i], b[i]));
    }
}

/// A removal goes down from the node through what lives, and no other way: below a living
/// directory that goes, everything goes; what hangs on something that was dead before, or
/// on something that stays, stays.
pub proof fn removal_goes_down_through_the_living(s: Store, id: int, t: Store, i: int)
    requires
        s.wf(),
        pruned(s, id, t),
        0 <= id < s.nodes@.len(),
        0 < i < s.nodes@.len(),
    ensures
        ({
            let p = s.nodes@[i].parent as int;
            &&& s.nodes@[p].alive && s.nodes@[p].is_dir && !t.nodes@[p].alive
                ==> !t.nodes@[i].alive
            &&& i != id && s.nodes@[i].alive && !s.nodes@[p].alive ==> t.nodes@[i].alive
            &&& i != id && s.nodes@[i].alive && t.nodes@[p].alive ==> t.nodes@[i].alive
            &&& i == id ==> !t.nodes@[i].alive
        }),
{
    let a = s.nodes@;
    let b = t.nodes@;
    let p = a[i].parent as int;
    assert(p < i && linked(a));
    assert(b[i].alive == (a[i].alive && !doomed(a, id, i)));
    assert(b[p].alive == (a[p].alive && !doomed(a, id, p)));
    lemma_doomed_by_parent(a, id, i);
    lemma_doomed_lives(a, id, p);
}

proof fn lemma_doomed_by_parent(nodes: Seq<Node>, id: int, i: int)
    requires
        0 <= nodes[i].parent < i,
    ensures
        doomed(nodes, id, i) == (nodes[i].alive && (i == id
            || (nodes[nodes[i].parent as int].is_dir && doomed(
            nodes,
            id,
            nodes[i].parent as int,
        )))),
{
}

proof fn lemma_doomed_lives(nodes: Seq<Node>, id: int, i: int)
    ensures
        doomed(nodes, id, i) ==> nodes[i].alive,
{
}

/// What a removal takes off, whatever the counts were: everything above the node loses what
/// the node weighed, the types and the directories lose what went, and none of them goes
/// below zero. Nothing else gets lighter.
pub proof fn removal_lightens_what_lies_above(s: Store, id: int, t: Store, i: int, e: int)
    requires
        s.wf(),
        pruned(s, id, t),
        0 <= id < s.nodes@.len(),
        0 <= i < s.nodes@.len(),
        0 <= e < s.exts@.len(),
    ensures
        is_above(s.nodes@, i, id) && s.nodes@[i].size >= s.nodes@[id].size ==> t.nodes@[i].size
            + s.nodes@[id].size == s.nodes@[i].size,
        is_above(s.nodes@, i, id) && s.nodes@[i].size < s.nodes@[id].size ==> t.nodes@[i].size == 0,
        is_above(s.nodes@, i, id) && s.nodes@[i].files >= s.nodes@[id].files ==> t.nodes@[i].files
            + s.nodes@[id].files == s.nodes@[i].files,
        is_above(s.nodes@, i, id) && s.nodes@[i].files < s.nodes@[id].files ==> t.nodes@[i].files
            == 0,
        !is_above(s.nodes@, i, id) ==> t.nodes@[i].size == s.nodes@[i].size && t.nodes@[i].files
            == s.nodes@[i].files,
        ({
            let went = sum_where(
                s.nodes@.len() as int,
                |k: int|
                    s.nodes@[k].alive && !t.nodes@[k].alive && !s.nodes@[k].is_dir
                        && s.nodes@[k].ext == e,
                |k: int| s.nodes@[k].size as nat,
            );
            &&& went <= s.exts@[e].bytes ==> t.exts@[e].bytes + went == s.exts@[e].bytes
            &&& went > s.exts@[e].bytes ==> t.exts@[e].bytes == 0
        }),
        ({
            let went = count_where(
                s.nodes@.len() as int,
                |k: int|
                    s.nodes@[k].alive && !t.nodes@[k].alive && !s.nodes@[k].is_dir
                        && s.nodes@[k].ext == e,
            );
            &&& went <= s.exts@[e].files ==> t.exts@[e].files + went == s.exts@[e].files
            &&& went > s.exts@[e].files ==> t.exts@[e].files == 0
        }),
        ({
            let went = count_where(
                s.nodes@.len() as int,
                |k: int| s.nodes@[k].alive && !t.nodes@[k].alive && s.nodes@[k].is_dir,
            );
            &&& went <= s.dirs ==> t.dirs + went == s.dirs
            &&& went > s.dirs ==> t.dirs == 0
        }),
{
    let a = s.nodes@;
    let b = t.nodes@;
    let n = a.len() as int;
    assert(same_place(a[i], b[i]));
    assert forall|k: int| 0 <= k < n implies #[trigger] doomed(a, id, k) == (a[k].alive
        && !b[k].alive) by {
        assert(b[k].alive == (a[k].alive && !doomed(a, id, k)));
        lemma_doomed_lives(a, id, k);
    }
    let size = |k: int| a[k].size as nat;
    let one = |k: int| 1nat;
    let was = |k: int| doomed(a, id, k) && !a[k].is_dir && a[k].ext == e;
    let went = |k: int| a[k].alive && !b[k].alive && !a[k].is_dir && a[k].ext == e;
    lemma_sum_same(n, was, went, size, size);
    lemma_sum_same(n, was, went, one, one);
    lemma_sum_same(
        n,
        |k: int| doomed(a, id, k) && a[k].is_dir,
        |k: int| a[k].alive && !b[k].alive && a[k].is_dir,
        one,
        one,
    );
}

/// Removing a node leaves a scan in order without its subtree, and hands out what the node
/// weighed and held.
pub proof fn removal_hands_out_the_weight(store: &mut Store, id: u32, freed: (u64, u64))
    requires
        old(store).wf(),
        id < old(store).nodes@.len(),
        call_ensures(remove_subtree, (store, id), freed),
    ensures
        freed.0 == old(store).nodes@[id as int].size,
        freed.1 == old(store).nodes@[id as int].files,
        pruned(*old(store), id as int, *final(store)),
        final(store).wf(),
{
}

} // verus!
