//! Where a node lies on disk, and what lies above it.

use crate::prune::is_above;
use crate::store::{linked, Node, Store};
use crate::text::{chars_of, push_text, text_between};
use vstd::prelude::*;

verus! {

/// `std::path::MAIN_SEPARATOR`, which std documents as the primary separator of
/// path components on the platform at hand: a slash on Unix, a backslash on
/// Windows. Which of them is not stated.
#[verifier::external_body]
fn main_separator() -> (sep: char)
    ensures
        sep == '/' || sep == '\\',
{
    std::path::MAIN_SEPARATOR
}

/// The names on the way from the root down to `id`, the root's own left out.
pub open spec fn names_down(nodes: Seq<Node>, id: int) -> Seq<Seq<char>>
    decreases id,
{
    if id <= 0 || nodes[id].parent >= id {
        Seq::empty()
    } else {
        names_down(nodes, nodes[id].parent as int).push(nodes[id].name@)
    }
}

/// The parts one after the other, each with the separator in front.
pub open spec fn joined(parts: Seq<Seq<char>>, sep: char) -> Seq<char>
    decreases parts.len(),
{
    if parts.len() == 0 {
        Seq::empty()
    } else {
        joined(parts.drop_last(), sep) + seq![sep] + parts.last()
    }
}

/// The scan root's path without a separator at its end.
pub open spec fn root_base(store: Store, sep: char) -> Seq<char> {
    let root = store.root_path@;
    if root.len() > 0 && root.last() == sep {
        root.drop_last()
    } else {
        root
    }
}

/// The path of node `id`.
pub open spec fn path_text(store: Store, id: int, sep: char) -> Seq<char> {
    let path = root_base(store, sep) + joined(names_down(store.nodes@, id), sep);
    if path.len() == 0 {
        seq![sep]
    } else {
        path
    }
}

/// What lies above `id`, from the root down to its parent.
pub open spec fn ancestors(nodes: Seq<Node>, id: int) -> Seq<int>
    decreases id,
{
    if id <= 0 || nodes[id].parent >= id {
        Seq::empty()
    } else {
        ancestors(nodes, nodes[id].parent as int).push(nodes[id].parent as int)
    }
}

/// The nodes from `id` up to just below the root.
spec fn way_up(nodes: Seq<Node>, id: int) -> Seq<int>
    decreases id,
{
    if id <= 0 || nodes[id].parent >= id {
        Seq::empty()
    } else {
        seq![id] + way_up(nodes, nodes[id].parent as int)
    }
}

/// The names on the way down are the names on the way up, read backwards.
proof fn lemma_way_up(nodes: Seq<Node>, id: int)
    ensures
        way_up(nodes, id).len() == names_down(nodes, id).len(),
        way_up(nodes, id).len() == ancestors(nodes, id).len(),
        forall|k: int|
            0 <= k < way_up(nodes, id).len() ==> nodes[#[trigger] way_up(nodes, id)[k]].name@
                == names_down(nodes, id)[way_up(nodes, id).len() - 1 - k],
        forall|k: int|
            0 <= k < way_up(nodes, id).len() ==> nodes[#[trigger] way_up(nodes, id)[k]].parent
                == ancestors(nodes, id)[way_up(nodes, id).len() - 1 - k],
    decreases id,
{
    if !(id <= 0 || nodes[id].parent >= id) {
        lemma_way_up(nodes, nodes[id].parent as int);
    }
}

/// The path of node `id`, its parts set apart by `sep`.
pub fn path_with(store: &Store, id: u32, sep: char) -> (path: String)
    requires
        store.wf(),
        id < store.nodes@.len(),
    ensures
        path@ == path_text(*store, id as int, sep),
{
    let ghost nodes = store.nodes@;
    let ghost up = way_up(nodes, id as int);
    let mut parts: Vec<u32> = Vec::new();
    let mut cur: u32 = id;
    while cur != 0
        invariant
            nodes == store.nodes@,
            linked(nodes),
            cur < nodes.len(),
            up == parts@.map_values(|c: u32| c as int) + way_up(nodes, cur as int),
            forall|k: int| 0 <= k < parts@.len() ==> (#[trigger] parts@[k]) < nodes.len(),
        decreases cur,
    {
        let ghost before = parts@;
        let ghost here = cur as int;
        parts.push(cur);
        cur = store.nodes[cur as usize].parent;
        proof {
            assert(nodes[here].parent < here);
            assert(parts@.map_values(|c: u32| c as int) == before.map_values(
                |c: u32| c as int,
            ).push(here));
            assert(up == parts@.map_values(|c: u32| c as int) + way_up(nodes, cur as int));
        }
    }
    proof {
        assert(way_up(nodes, 0) == Seq::<int>::empty());
        assert(up == parts@.map_values(|c: u32| c as int));
        lemma_way_up(nodes, id as int);
    }
    let root = chars_of(store.root_path.as_str());
    let mut keep: usize = root.len();
    if keep > 0 && root[keep - 1] == sep {
        keep = keep - 1;
    }
    let mut path = text_between(&root, 0, keep);
    let ghost base = root_base(*store, sep);
    let ghost names = names_down(nodes, id as int);
    assert(path@ == base);
    proof {
        assert(names.take(0) == Seq::<Seq<char>>::empty());
        assert forall|k: int| 0 <= k < parts@.len() implies nodes[(#[trigger] parts@[k]) as int].name@
            == names[names.len() - 1 - k] by {
            assert(up[k] == parts@[k]);
        }
    }
    let mut left: usize = parts.len();
    while left > 0
        invariant
            nodes == store.nodes@,
            left <= parts@.len() == names.len(),
            path@ == base + joined(names.take(names.len() - left), sep),
            forall|k: int| 0 <= k < parts@.len() ==> (#[trigger] parts@[k]) < nodes.len(),
            forall|k: int|
                0 <= k < parts@.len() ==> nodes[(#[trigger] parts@[k]) as int].name@
                    == names[names.len() - 1 - k],
        decreases left,
    {
        let ghost upto = names.take(names.len() - left + 1);
        left = left - 1;
        path.push(sep);
        push_text(&mut path, store.nodes[parts[left] as usize].name.as_str());
        proof {
            assert(upto.drop_last() == names.take(names.len() - left - 1));
            assert(nodes[parts@[left as int] as int].name@ == names[names.len() - 1 - left]);
            assert(path@ == base + joined(upto, sep));
        }
    }
    assert(names.take(names.len() as int) == names);
    if path.as_str().is_empty() {
        path.push(sep);
    }
    path
}

/// The path of node `id`, with the separator of the platform at hand.
pub fn path_of(store: &Store, id: u32) -> (path: String)
    requires
        store.wf(),
        id < store.nodes@.len(),
    ensures
        path@ == path_text(*store, id as int, '/') || path@ == path_text(*store, id as int, '\\'),
{
    path_with(store, id, main_separator())
}

/// What lies above node `id`, from the root down to its parent.
pub fn ancestors_of(store: &Store, id: u32) -> (anc: Vec<u32>)
    requires
        store.wf(),
        id < store.nodes@.len(),
    ensures
        anc@.map_values(|a: u32| a as int) == ancestors(store.nodes@, id as int),
{
    let ghost nodes = store.nodes@;
    let mut up: Vec<u32> = Vec::new();
    let mut cur: u32 = id;
    let ghost whole = ancestors(nodes, id as int);
    while cur != 0
        invariant
            nodes == store.nodes@,
            linked(nodes),
            cur < nodes.len(),
            whole == ancestors(nodes, cur as int) + up@.map_values(|a: u32| a as int).reverse(),
        decreases cur,
    {
        let ghost before = up@;
        let ghost here = cur as int;
        cur = store.nodes[cur as usize].parent;
        up.push(cur);
        proof {
            assert(nodes[here].parent < here);
            assert(up@.map_values(|a: u32| a as int).reverse() == seq![cur as int]
                + before.map_values(|a: u32| a as int).reverse());
            assert(whole == ancestors(nodes, cur as int) + up@.map_values(
                |a: u32| a as int,
            ).reverse());
        }
    }
    assert(whole == up@.map_values(|a: u32| a as int).reverse());
    let mut anc: Vec<u32> = Vec::new();
    let mut left: usize = up.len();
    while left > 0
        invariant
            left <= up@.len(),
            anc@ == up@.reverse().take(up@.len() - left),
        decreases left,
    {
        left = left - 1;
        anc.push(up[left]);
        assert(up@.reverse().take(up@.len() - left) == up@.reverse().take(
            up@.len() - left - 1,
        ).push(up@[left as int]));
    }
    assert(anc@.map_values(|a: u32| a as int) == up@.map_values(|a: u32| a as int).reverse());
    anc
}

/// A node's path is its parent's path, the separator and its own name. Right below
/// the root, the root's path goes without a separator at its end.
pub proof fn path_extends_parent(store: Store, id: int, sep: char)
    requires
        store.wf(),
        0 < id < store.nodes@.len(),
    ensures
        path_text(store, id, sep) == if store.nodes@[id].parent == 0 {
            root_base(store, sep)
        } else {
            path_text(store, store.nodes@[id].parent as int, sep)
        } + seq![sep] + store.nodes@[id].name@,
{
    let nodes = store.nodes@;
    let p = nodes[id].parent as int;
    let down = names_down(nodes, p);
    let base = root_base(store, sep);
    assert(p < id);
    assert(names_down(nodes, id) == down.push(nodes[id].name@));
    lemma_one_part_more(base, down, nodes[id].name@, sep);
    if p == 0 {
        assert(down == Seq::<Seq<char>>::empty());
        assert(base + joined(down, sep) == base);
    } else {
        assert(nodes[p].parent < p);
        assert(down == names_down(nodes, nodes[p].parent as int).push(nodes[p].name@));
        lemma_one_part_more(
            base,
            names_down(nodes, nodes[p].parent as int),
            nodes[p].name@,
            sep,
        );
    }
}

/// One part more comes after the others, with the separator in front.
proof fn lemma_one_part_more(base: Seq<char>, parts: Seq<Seq<char>>, part: Seq<char>, sep: char)
    ensures
        base + joined(parts.push(part), sep) == base + joined(parts, sep) + seq![sep] + part,
        base + joined(parts.push(part), sep) != Seq::<char>::empty(),
{
    assert(parts.push(part).drop_last() == parts);
    assert(base + (joined(parts, sep) + seq![sep] + part) == base + joined(parts, sep) + seq![sep]
        + part);
    assert((base + joined(parts, sep) + seq![sep] + part).len() > 0);
}

/// The path of the root is the path that was scanned, without a separator at its
/// end unless there is nothing else.
pub proof fn path_of_root(store: Store, sep: char)
    ensures
        path_text(store, 0, sep) == if root_base(store, sep).len() == 0 {
            seq![sep]
        } else {
            root_base(store, sep)
        },
{
    assert(names_down(store.nodes@, 0) == Seq::<Seq<char>>::empty());
    assert(root_base(store, sep) + joined(names_down(store.nodes@, 0), sep) == root_base(
        store,
        sep,
    ));
}

/// The ancestors of a node are exactly the nodes above it, each before the ones
/// below: the root comes first and the parent last.
pub proof fn ancestors_lie_above(nodes: Seq<Node>, id: int)
    requires
        linked(nodes),
        0 <= id < nodes.len(),
    ensures
        forall|a: int| #[trigger] ancestors(nodes, id).contains(a) <==> is_above(nodes, a, id),
        forall|i: int, j: int|
            0 <= i < j < ancestors(nodes, id).len() ==> #[trigger] ancestors(nodes, id)[i]
                < #[trigger] ancestors(nodes, id)[j],
        id > 0 ==> ancestors(nodes, id).len() > 0 && ancestors(nodes, id)[0] == 0 && ancestors(
            nodes,
            id,
        ).last() == nodes[id].parent,
        forall|i: int|
            0 <= i < ancestors(nodes, id).len() ==> 0 <= #[trigger] ancestors(nodes, id)[i] < id,
    decreases id,
{
    if id > 0 {
        let p = nodes[id].parent as int;
        assert(p < id);
        ancestors_lie_above(nodes, p);
        let up = ancestors(nodes, p);
        let all = ancestors(nodes, id);
        assert(all == up.push(p));
        assert forall|a: int| #[trigger] all.contains(a) <==> is_above(nodes, a, id) by {
            if all.contains(a) {
                let i = choose|i: int| 0 <= i < all.len() && all[i] == a;
                if i < up.len() {
                    assert(up[i] == a);
                    assert(up.contains(a));
                }
            }
            if is_above(nodes, a, id) {
                if a == p {
                    assert(all[all.len() - 1] == a);
                } else {
                    assert(up.contains(a));
                    let i = choose|i: int| 0 <= i < up.len() && up[i] == a;
                    assert(all[i] == a);
                }
            }
        }
        assert(all[0] == 0) by {
            if p > 0 {
                assert(all[0] == up[0]);
            }
        }
    }
}

/// Paths follow what was scanned: the root's is the scanned path, without a separator at
/// its end unless there is nothing else, and something right below the root has its name
/// behind the scanned path, with one separator between the two.
pub proof fn paths_begin_with_what_was_scanned(store: Store, id: int, base: Seq<char>, sep: char)
    requires
        store.wf(),
        0 < id < store.nodes@.len(),
        store.nodes@[id].parent == 0,
        store.root_path@ == base || store.root_path@ == base + seq![sep],
        store.root_path@ == base ==> base.len() == 0 || base.last() != sep,
    ensures
        path_text(store, 0, sep) == if base.len() > 0 {
            base
        } else {
            seq![sep]
        },
        path_text(store, id, sep) == base + seq![sep] + store.nodes@[id].name@,
{
    path_extends_parent(store, id, sep);
    path_of_root(store, sep);
    assert((base + seq![sep]).drop_last() == base);
    assert((base + seq![sep]).last() == sep);
}

/// The ancestors of a node are its parent's ancestors and its parent; the root has none.
pub proof fn ancestors_end_with_the_parent(nodes: Seq<Node>, id: int)
    requires
        linked(nodes),
        0 < id < nodes.len(),
    ensures
        ancestors(nodes, 0) == Seq::<int>::empty(),
        ancestors(nodes, id) == ancestors(nodes, nodes[id].parent as int).push(
            nodes[id].parent as int,
        ),
{
}

/// A node's path and its ancestors are what is said of them.
pub proof fn nodes_are_located(store: Store, id: u32, sep: char, p: String, up: Vec<u32>, k: int)
    requires
        store.wf(),
        id < store.nodes@.len(),
        call_ensures(path_with, (&store, id, sep), p),
        call_ensures(ancestors_of, (&store, id), up),
    ensures
        p@ == path_text(store, id as int, sep),
        up@.len() == ancestors(store.nodes@, id as int).len(),
        0 <= k < up@.len() ==> up@[k] == ancestors(store.nodes@, id as int)[k],
{
    let m = up@.map_values(|a: u32| a as int);
    assert(m.len() == up@.len());
    if 0 <= k < up@.len() {
        assert(m[k] == up@[k] as int);
    }
}

} // verus!
