//! The children of a directory, heaviest first.

use crate::order::{heaviest_first, lemma_rearranged, sort_heaviest_first, Ranked, Weighted};
use crate::sums::{count_where, lemma_sum_alike, lemma_sum_none, lemma_sum_one_more,
    lemma_sum_rearranged, lemma_sum_same, seq_sum, share, sum_where};
use crate::store::{is_child, linked, Node, Store};
use vstd::prelude::*;

verus! {

/// Whether a child is listed: a living one and, unless empty ones are listed too,
/// one that weighs anything.
pub open spec fn listed(n: Node, empty_too: bool) -> bool {
    n.alive && (empty_too || n.size > 0)
}

/// The listed ones among the nodes from `first` up to `end`, with their sizes.
pub open spec fn listed_among(
    nodes: Seq<Node>,
    first: int,
    end: int,
    empty_too: bool,
) -> Seq<Ranked>
    decreases end - first,
{
    if end <= first {
        Seq::empty()
    } else {
        let rest = listed_among(nodes, first, end - 1, empty_too);
        if listed(nodes[end - 1], empty_too) {
            rest.push(Ranked { weight: nodes[end - 1].size, id: (end - 1) as u32 })
        } else {
            rest
        }
    }
}

/// The listed children of `id`, in the order in which they are stored.
pub open spec fn kids_of(nodes: Seq<Node>, id: int, empty_too: bool) -> Seq<Ranked> {
    listed_among(
        nodes,
        nodes[id].first_child as int,
        nodes[id].first_child + nodes[id].child_count,
        empty_too,
    )
}

/// What `kids` weigh together.
pub open spec fn weight_of(kids: Seq<Ranked>) -> nat {
    seq_sum(kids, |k: Ranked| k.weight as nat)
}

/// `kids` are the listed children of `id`, heaviest first.
pub open spec fn by_weight(nodes: Seq<Node>, id: int, empty_too: bool, kids: Seq<Ranked>) -> bool {
    &&& kids.to_multiset() == kids_of(nodes, id, empty_too).to_multiset()
    &&& heaviest_first(kids)
}

proof fn lemma_listed(nodes: Seq<Node>, first: int, end: int, empty_too: bool)
    requires
        0 <= first,
        end <= u32::MAX,
    ensures
        listed_among(nodes, first, end, empty_too).len() <= if end > first {
            end - first
        } else {
            0
        },
        forall|k: int|
            0 <= k < listed_among(nodes, first, end, empty_too).len() ==> ({
                let x = #[trigger] listed_among(nodes, first, end, empty_too)[k];
                first <= x.id < end && x.weight == nodes[x.id as int].size && listed(
                    nodes[x.id as int],
                    empty_too,
                )
            }),
        forall|c: int|
            first <= c < end && #[trigger] listed(nodes[c], empty_too) ==> listed_among(
                nodes,
                first,
                end,
                empty_too,
            ).contains(Ranked { weight: nodes[c].size, id: c as u32 }),
        listed_among(nodes, first, end, empty_too).no_duplicates(),
    decreases end - first,
{
    if end > first {
        lemma_listed(nodes, first, end - 1, empty_too);
        let rest = listed_among(nodes, first, end - 1, empty_too);
        let all = listed_among(nodes, first, end, empty_too);
        assert forall|k: int| 0 <= k < all.len() implies ({
            let x = #[trigger] all[k];
            first <= x.id < end && x.weight == nodes[x.id as int].size && listed(
                nodes[x.id as int],
                empty_too,
            )
        }) by {
            if k < rest.len() {
                assert(all[k] == rest[k]);
            }
        }
        assert forall|c: int| first <= c < end && #[trigger] listed(
            nodes[c],
            empty_too,
        ) implies all.contains(Ranked { weight: nodes[c].size, id: c as u32 }) by {
            let x = Ranked { weight: nodes[c].size, id: c as u32 };
            if c == end - 1 {
                assert(all[all.len() - 1] == x);
            } else {
                assert(rest.contains(x));
                let k = choose|k: int| 0 <= k < rest.len() && rest[k] == x;
                assert(all[k] == x);
            }
        }
    }
}

/// The listed children of a directory are its own, carry their sizes, and none is
/// missing or listed twice.
pub proof fn lists_every_child(nodes: Seq<Node>, id: int, empty_too: bool, kids: Seq<Ranked>)
    requires
        linked(nodes),
        0 <= id < nodes.len(),
        by_weight(nodes, id, empty_too, kids),
    ensures
        kids.len() <= nodes[id].child_count,
        forall|k: int|
            0 <= k < kids.len() ==> is_child(nodes, id, (#[trigger] kids[k]).id as int)
                && kids[k].weight == nodes[kids[k].id as int].size && listed(
                nodes[kids[k].id as int],
                empty_too,
            ),
        forall|c: int|
            is_child(nodes, id, c) && #[trigger] listed(nodes[c], empty_too) ==> kids.contains(
                Ranked { weight: nodes[c].size, id: c as u32 },
            ),
        forall|a: int, b: int|
            0 <= a < b < kids.len() ==> (#[trigger] kids[a]).id != (#[trigger] kids[b]).id,
{
    let all = kids_of(nodes, id, empty_too);
    let first = nodes[id].first_child as int;
    let end = first + nodes[id].child_count;
    lemma_listed(nodes, first, end, empty_too);
    lemma_rearranged(all, kids);
    assert forall|k: int| 0 <= k < kids.len() implies is_child(
        nodes,
        id,
        (#[trigger] kids[k]).id as int,
    ) && kids[k].weight == nodes[kids[k].id as int].size && listed(
        nodes[kids[k].id as int],
        empty_too,
    ) by {
        assert(kids.contains(kids[k]));
        assert(all.contains(kids[k]));
        let j = choose|j: int| 0 <= j < all.len() && all[j] == kids[k];
        assert(all[j] == kids[k]);
    }
    assert forall|a: int, b: int| 0 <= a < b < kids.len() implies (#[trigger] kids[a]).id != (
    #[trigger] kids[b]).id by {
        assert(kids[a] != kids[b]);
        assert(kids[a].weight == nodes[kids[a].id as int].size);
        assert(kids[b].weight == nodes[kids[b].id as int].size);
    }
}

/// The listed children of `id`, heaviest first.
pub fn kids_by_weight(store: &Store, id: u32, empty_too: bool) -> (kids: Vec<Ranked>)
    requires
        store.wf(),
        id < store.nodes@.len(),
    ensures
        by_weight(store.nodes@, id as int, empty_too, kids@),
        kids@.len() <= store.nodes@[id as int].child_count,
        forall|k: int|
            0 <= k < kids@.len() ==> is_child(
                store.nodes@,
                id as int,
                (#[trigger] kids@[k]).id as int,
            ) && kids@[k].weight == store.nodes@[kids@[k].id as int].size,
{
    let ghost nodes = store.nodes@;
    let first = store.nodes[id as usize].first_child;
    let count = store.nodes[id as usize].child_count;
    let end: u32 = first + count;
    let mut kids: Vec<Ranked> = Vec::new();
    for c in first..end
        invariant
            nodes == store.nodes@,
            end <= nodes.len(),
            kids@ == listed_among(nodes, first as int, c as int, empty_too),
    {
        let at: usize = c as usize;
        if store.nodes[at].alive && (empty_too || store.nodes[at].size > 0) {
            kids.push(Ranked { weight: store.nodes[at].size, id: c });
        }
    }
    sort_heaviest_first(&mut kids);
    proof {
        lists_every_child(nodes, id as int, empty_too, kids@);
    }
    kids
}

/// How many of `len` are left out by showing no more than `cap`.
pub open spec fn left_out(len: int, cap: int) -> int {
    if len > cap {
        len - cap
    } else {
        0
    }
}

/// The first `cap` of `kids`.
pub open spec fn heaviest(kids: Seq<Ranked>, cap: int) -> Seq<Ranked> {
    kids.take(kids.len() - left_out(kids.len() as int, cap))
}

/// Keeps the first `cap` of `kids` and says how many are left out.
pub fn keep_heaviest(kids: &mut Vec<Ranked>, cap: usize) -> (more: u32)
    requires
        old(kids)@.len() <= u32::MAX,
    ensures
        final(kids)@ == heaviest(old(kids)@, cap as int),
        more == left_out(old(kids)@.len() as int, cap as int),
{
    let len = kids.len();
    if len > cap {
        kids.truncate(cap);
        (len - cap) as u32
    } else {
        assert(kids@.take(len as int) == kids@);
        0
    }
}

proof fn lemma_listed_counted(nodes: Seq<Node>, first: int, end: int, empty_too: bool, n: int)
    requires
        0 <= first,
        end <= n <= u32::MAX,
    ensures
        listed_among(nodes, first, end, empty_too).len() == count_where(
            n,
            |c: int| first <= c < end && listed(nodes[c], empty_too),
        ),
        weight_of(listed_among(nodes, first, end, empty_too)) == sum_where(
            n,
            |c: int| first <= c < end && listed(nodes[c], empty_too),
            |c: int| nodes[c].size as nat,
        ),
    decreases end - first,
{
    let q = |c: int| first <= c < end && listed(nodes[c], empty_too);
    let size = |c: int| nodes[c].size as nat;
    let one = |c: int| 1nat;
    if end <= first {
        lemma_sum_none(n, q, size);
        lemma_sum_none(n, q, one);
    } else {
        let p = |c: int| first <= c < end - 1 && listed(nodes[c], empty_too);
        lemma_listed_counted(nodes, first, end - 1, empty_too, n);
        if listed(nodes[end - 1], empty_too) {
            lemma_sum_one_more(n, p, q, size, end - 1);
            lemma_sum_one_more(n, p, q, one, end - 1);
            let rest = listed_among(nodes, first, end - 1, empty_too);
            let all = listed_among(nodes, first, end, empty_too);
            assert(all.drop_last() == rest);
        } else {
            lemma_sum_same(n, q, p, size, size);
            lemma_sum_same(n, q, p, one, one);
        }
    }
}

/// The children listed are as many as there are living ones, the empty ones counted only
/// where they are asked for. They come in falling order of size, none of them twice, and
/// weigh together what those children weigh.
pub proof fn children_listed_are_the_living_ones(
    nodes: Seq<Node>,
    id: int,
    empty_too: bool,
    kids: Seq<Ranked>,
)
    requires
        linked(nodes),
        0 <= id < nodes.len(),
        by_weight(nodes, id, empty_too, kids),
    ensures
        kids.len() == count_where(
            nodes.len() as int,
            |c: int|
                nodes[id].first_child <= c < nodes[id].first_child + nodes[id].child_count
                    && nodes[c].alive && (empty_too || nodes[c].size > 0),
        ),
        empty_too ==> kids.len() == count_where(
            nodes.len() as int,
            |c: int|
                nodes[id].first_child <= c < nodes[id].first_child + nodes[id].child_count
                    && nodes[c].alive,
        ),
        weight_of(kids) == sum_where(
            nodes.len() as int,
            |c: int|
                nodes[id].first_child <= c < nodes[id].first_child + nodes[id].child_count
                    && nodes[c].alive,
            |c: int| nodes[c].size as nat,
        ),
        forall|k: int|
            0 <= k < kids.len() ==> nodes[id].first_child <= (#[trigger] kids[k]).id
                < nodes[id].first_child + nodes[id].child_count && nodes[kids[k].id as int].alive
                && kids[k].weight == nodes[kids[k].id as int].size,
        forall|k: int|
            0 <= k < kids.len() && !empty_too ==> nodes[(#[trigger] kids[k]).id as int].size > 0,
        forall|c: int|
            nodes[id].first_child <= c < nodes[id].first_child + nodes[id].child_count
                && (#[trigger] nodes[c]).alive && (empty_too || nodes[c].size > 0) ==> exists|k: int|
                0 <= k < kids.len() && (#[trigger] kids[k]).id == c,
        forall|i: int, j: int|
            0 <= i < j < kids.len() ==> (#[trigger] kids[i]).weight >= (#[trigger] kids[j]).weight
                && kids[i].id != kids[j].id,
{
    let first = nodes[id].first_child as int;
    let end = nodes[id].first_child + nodes[id].child_count;
    let n = nodes.len() as int;
    let size = |c: int| nodes[c].size as nat;
    lists_every_child(nodes, id, empty_too, kids);
    lemma_rearranged(kids, kids_of(nodes, id, empty_too));
    lemma_listed_counted(nodes, first, end, empty_too, n);
    let l = |c: int| first <= c < end && listed(nodes[c], empty_too);
    let raw = |c: int|
        nodes[id].first_child <= c < nodes[id].first_child + nodes[id].child_count && nodes[c].alive
            && (empty_too || nodes[c].size > 0);
    let any = |c: int|
        nodes[id].first_child <= c < nodes[id].first_child + nodes[id].child_count
            && nodes[c].alive;
    lemma_sum_same(n, l, raw, |c: int| 1nat, |c: int| 1nat);
    if empty_too {
        lemma_sum_same(n, l, any, |c: int| 1nat, |c: int| 1nat);
    }
    lemma_sum_rearranged(kids, kids_of(nodes, id, empty_too), |k: Ranked| k.weight as nat);
    assert forall|c: int| 0 <= c < n implies #[trigger] share(l, size, c) == share(any, size, c) by {
    }
    lemma_sum_alike(n, l, size, any, size);
    assert forall|c: int|
        nodes[id].first_child <= c < nodes[id].first_child + nodes[id].child_count && (
        #[trigger] nodes[c]).alive && (empty_too || nodes[c].size > 0) implies exists|k: int|
        0 <= k < kids.len() && (#[trigger] kids[k]).id == c by {
        assert(is_child(nodes, id, c) && listed(nodes[c], empty_too));
        let x = Ranked { weight: nodes[c].size, id: c as u32 };
        assert(kids.contains(x));
        let k = choose|k: int| 0 <= k < kids.len() && kids[k] == x;
        assert(kids[k].id == c);
    }
    assert forall|k: int| 0 <= k < kids.len() implies nodes[id].first_child <= (
    #[trigger] kids[k]).id < nodes[id].first_child + nodes[id].child_count by {
        assert(is_child(nodes, id, kids[k].id as int));
    }
    lemma_listed(nodes, first, end, empty_too);
    assert forall|i: int, j: int| 0 <= i < j < kids.len() implies (#[trigger] kids[i]).weight >= (
    #[trigger] kids[j]).weight && kids[i].id != kids[j].id by {
        assert(kids[i].heft() >= kids[j].heft());
        if kids[i].id == kids[j].id {
            assert(kids[i] == kids[j]);
        }
    }
}

/// Where only the heaviest children are kept, those kept and those left out are all the
/// living ones together, and none that is left out is heavier than one that is kept.
pub proof fn heaviest_children_are_kept(nodes: Seq<Node>, id: int, kids: Seq<Ranked>, cap: int)
    requires
        linked(nodes),
        0 <= id < nodes.len(),
        0 <= cap,
        by_weight(nodes, id, true, kids),
    ensures
        heaviest(kids, cap).len() <= cap,
        left_out(kids.len() as int, cap) > 0 ==> heaviest(kids, cap).len() == cap,
        heaviest(kids, cap).len() + left_out(kids.len() as int, cap) == count_where(
            nodes.len() as int,
            |c: int|
                nodes[id].first_child <= c < nodes[id].first_child + nodes[id].child_count
                    && nodes[c].alive,
        ),
        forall|k: int|
            0 <= k < heaviest(kids, cap).len() ==> nodes[id].first_child <= (#[trigger] heaviest(
                kids,
                cap,
            )[k]).id < nodes[id].first_child + nodes[id].child_count && nodes[heaviest(
                kids,
                cap,
            )[k].id as int].alive && heaviest(kids, cap)[k].weight == nodes[heaviest(
                kids,
                cap,
            )[k].id as int].size,
        forall|i: int, j: int|
            0 <= i < j < heaviest(kids, cap).len() ==> (#[trigger] heaviest(kids, cap)[i]).weight
                >= (#[trigger] heaviest(kids, cap)[j]).weight && heaviest(kids, cap)[i].id
                != heaviest(kids, cap)[j].id,
        forall|c: int, k: int|
            nodes[id].first_child <= c < nodes[id].first_child + nodes[id].child_count
                && nodes[c].alive && 0 <= k < heaviest(kids, cap).len() && (#[trigger] heaviest(
                kids,
                cap,
            )[k]).weight < (#[trigger] nodes[c]).size ==> exists|j: int|
                0 <= j < k && (#[trigger] heaviest(kids, cap)[j]).id == c,
{
    children_listed_are_the_living_ones(nodes, id, true, kids);
    let kept = heaviest(kids, cap);
    assert forall|k: int| 0 <= k < kept.len() implies #[trigger] kept[k] == kids[k] by {
    }
    assert forall|c: int, k: int|
        nodes[id].first_child <= c < nodes[id].first_child + nodes[id].child_count && nodes[c].alive
            && 0 <= k < kept.len() && (#[trigger] kept[k]).weight < (
        #[trigger] nodes[c]).size implies exists|j: int|
        0 <= j < k && (#[trigger] kept[j]).id == c by {
        let m = choose|m: int| 0 <= m < kids.len() && (#[trigger] kids[m]).id == c;
        assert(0 <= m < kids.len() && kids[m].id == c);
        assert(kids[m].weight == nodes[c].size);
        if m > k {
            assert(kids[k].weight >= kids[m].weight);
        }
        assert(kept[m].id == c);
    }
}

/// Children are listed by weight, and only the heaviest are kept where there are too many.
pub proof fn children_are_listed_by_weight(
    store: Store,
    id: u32,
    empty_too: bool,
    kids: Vec<Ranked>,
    v: &mut Vec<Ranked>,
    cap: usize,
    more: u32,
)
    requires
        store.wf(),
        id < store.nodes@.len(),
        old(v)@.len() <= u32::MAX,
        call_ensures(kids_by_weight, (&store, id, empty_too), kids),
        call_ensures(keep_heaviest, (v, cap), more),
    ensures
        by_weight(store.nodes@, id as int, empty_too, kids@),
        old(v)@.len() <= cap ==> final(v)@ == old(v)@ && more == 0,
        old(v)@.len() > cap ==> final(v)@ == old(v)@.take(cap as int) && more == old(v)@.len()
            - cap,
{
    assert(old(v)@.take(old(v)@.len() as int) == old(v)@);
}

} // verus!
