//! What a treemap shows: over a whole run of the layout every node drawn is a living
//! one below the root, none is drawn twice, and none lies inside another.

use crate::balance::{balanced, child_bytes, lemma_parent_above, nodes_balanced};
use crate::heap::Work;
use crate::kids::{by_weight, kids_of, listed, listed_among, lists_every_child, weight_of};
use crate::order::Ranked;
use crate::prune::is_above;
use crate::store::{is_child, linked, Node, Store};
use crate::sums::{count_where, lemma_seq_sum_concat, lemma_sum_none, lemma_sum_one_more,
    lemma_sum_rearranged, lemma_sum_same, seq_sum, sum_where};
use crate::treemap::{closed_tile, closed_tiles, every_visible_child_is_drawn, fates, filled,
    frame_views, largest_of, lemma_tail_start, merged, opened, tail_start, then_waiting, tile_views,
    within, works_off, Fate, Fit, FrameView, Item, Layout, TileView, MAX_RECTS};
use vstd::multiset::Multiset;
use vstd::prelude::*;

verus! {

/// A map on the way: what is drawn, what waits, and the directory being opened.
pub struct Drawing {
    pub tiles: Seq<TileView>,
    pub frames: Seq<FrameView>,
    pub waiting: Multiset<Work>,
    pub open: Option<Work>,
}

impl Layout {
    /// The map as it stands while `open` is being opened.
    pub open spec fn drawing(&self, open: Option<Work>) -> Drawing {
        Drawing {
            tiles: tile_views(self.tiles@),
            frames: frame_views(self.frames@),
            waiting: self.heap.waiting(),
            open,
        }
    }
}

/// A map of `root` before anything is drawn.
pub open spec fn begun(store: Store, root: u32, area: u64, d: Drawing) -> bool {
    &&& d.tiles.len() == 0
    &&& d.frames.len() == 0
    &&& d.open is None
    &&& d.waiting == if store.nodes@[root as int].size == 0 {
        Multiset::<Work>::empty()
    } else {
        Multiset::<Work>::empty().insert(Work { area, id: root, spot: 0, depth: 0 })
    }
}

/// The largest directory that waits is taken up.
pub open spec fn takes_up(d: Drawing, e: Drawing) -> bool {
    &&& d.open is None
    &&& d.tiles.len() < MAX_RECTS
    &&& e.open is Some
    &&& largest_of(d.waiting, e.open->0)
    &&& e.waiting == d.waiting.remove(e.open->0)
    &&& e.tiles == d.tiles
    &&& e.frames == d.frames
}

/// There are tiles enough, and all that waits is filled as it is.
pub open spec fn closes_up(store: Store, d: Drawing, e: Drawing) -> bool {
    &&& d.open is None
    &&& d.tiles.len() >= MAX_RECTS
    &&& e.open is None
    &&& e.waiting == Multiset::<Work>::empty()
    &&& e.frames == d.frames
    &&& exists|order: Seq<Work>|
        #![trigger works_off(d.waiting, order)]
        works_off(d.waiting, order) && e.tiles == d.tiles + closed_tiles(store, order)
}

/// Nothing waits, and nothing changes any more.
pub open spec fn rests(d: Drawing, e: Drawing) -> bool {
    &&& d.open is None
    &&& d.tiles.len() < MAX_RECTS
    &&& d.waiting == Multiset::<Work>::empty()
    &&& e == d
}

/// The directory being opened is filled with `items`.
pub open spec fn fills(
    store: Store,
    d: Drawing,
    e: Drawing,
    items: Seq<Item>,
    fits: Seq<Fit>,
    base: int,
) -> bool {
    let f = fates(store, d.open->0, items, fits, base);
    &&& d.open is Some
    &&& e.open is None
    &&& e.tiles == d.tiles + filled(f)
    &&& e.frames == d.frames + opened(f)
    &&& e.waiting == then_waiting(d.waiting, f)
}

/// `items` are what weighs anything in the directory `id`, the small ones merged.
pub open spec fn items_of(nodes: Seq<Node>, id: int, items: Seq<Item>) -> bool {
    exists|kids: Seq<Ranked>, tiny: Seq<bool>|
        #![trigger merged(kids, tiny)]
        by_weight(nodes, id, false, kids) && tiny.len() == kids.len() && items == merged(kids, tiny)
}

/// One step of a run.
pub open spec fn goes_on(store: Store, d: Drawing, e: Drawing) -> bool {
    ||| takes_up(d, e)
    ||| closes_up(store, d, e)
    ||| rests(d, e)
    ||| exists|items: Seq<Item>, fits: Seq<Fit>, base: int|
        #![trigger fills(store, d, e, items, fits, base)]
        fills(store, d, e, items, fits, base) && items_of(
            store.nodes@,
            (d.open->0).id as int,
            items,
        )
}

/// A run of the layout of `root`.
pub open spec fn is_run(store: Store, root: u32, area: u64, run: Seq<Drawing>) -> bool {
    &&& run.len() > 0
    &&& begun(store, root, area, run[0])
    &&& forall|k: int| 0 <= k < run.len() - 1 ==> goes_on(store, #[trigger] run[k], run[k + 1])
}

/// What is still to be drawn, with the directory being opened.
pub open spec fn pending(d: Drawing) -> Multiset<Work> {
    match d.open {
        Some(w) => d.waiting.insert(w),
        None => d.waiting,
    }
}

/// Whether neither is the other or lies inside it.
pub open spec fn apart(nodes: Seq<Node>, a: int, b: int) -> bool {
    a != b && !is_above(nodes, a, b) && !is_above(nodes, b, a)
}

/// Whether `n` is a living node below `root`.
pub open spec fn lives_below(nodes: Seq<Node>, root: int, n: int) -> bool {
    0 <= n < nodes.len() && nodes[n].alive && is_above(nodes, root, n)
}

/// Whether a tile stands for a node by itself, and not for the small items in it.
pub open spec fn by_itself(t: TileView) -> bool {
    t.kind != 2
}

/// The tiles that stand for nodes by themselves are living nodes below the root with
/// what they weigh, none of them twice and none inside another. Small items are merged in one tile of
/// a living directory at most, which is neither drawn as a tile nor inside one.
pub open spec fn tiles_apart(nodes: Seq<Node>, root: int, tiles: Seq<TileView>) -> bool {
    &&& forall|i: int|
        0 <= i < tiles.len() && by_itself(#[trigger] tiles[i]) ==> lives_below(
            nodes,
            root,
            tiles[i].node as int,
        ) && tiles[i].bytes == nodes[tiles[i].node as int].size
    &&& forall|i: int|
        0 <= i < tiles.len() && !by_itself(#[trigger] tiles[i]) ==> tiles[i].node < nodes.len()
            && nodes[tiles[i].node as int].alive && (tiles[i].node == root || is_above(
            nodes,
            root,
            tiles[i].node as int,
        ))
    &&& forall|i: int, j: int|
        0 <= i < tiles.len() && 0 <= j < tiles.len() && i != j && by_itself(#[trigger] tiles[i])
            && by_itself(#[trigger] tiles[j]) ==> apart(
            nodes,
            tiles[i].node as int,
            tiles[j].node as int,
        )
    &&& forall|i: int, j: int|
        0 <= i < tiles.len() && 0 <= j < tiles.len() && i != j && !by_itself(#[trigger] tiles[i])
            && !by_itself(#[trigger] tiles[j]) ==> tiles[i].node != tiles[j].node
    &&& forall|i: int, j: int|
        0 <= i < tiles.len() && 0 <= j < tiles.len() && by_itself(#[trigger] tiles[i])
            && !by_itself(#[trigger] tiles[j]) ==> tiles[i].node != tiles[j].node && !is_above(
            nodes,
            tiles[i].node as int,
            tiles[j].node as int,
        )
}

/// The frames are those of living directories below the root, one each, and none lies
/// inside a tile.
pub open spec fn frames_apart(
    nodes: Seq<Node>,
    root: int,
    tiles: Seq<TileView>,
    frames: Seq<FrameView>,
) -> bool {
    &&& forall|i: int|
        0 <= i < frames.len() ==> lives_below(nodes, root, (#[trigger] frames[i]).node as int)
            && nodes[frames[i].node as int].is_dir
    &&& forall|i: int, j: int|
        0 <= i < j < frames.len() ==> (#[trigger] frames[i]).node != (#[trigger] frames[j]).node
    &&& forall|i: int, j: int|
        0 <= i < tiles.len() && by_itself(#[trigger] tiles[i]) && 0 <= j < frames.len()
            ==> !is_above(nodes, tiles[i].node as int, (#[trigger] frames[j]).node as int)
}

/// What is still to be drawn is living, the root itself or below it, and apart from
/// each other and from what is drawn.
pub open spec fn pending_apart(
    nodes: Seq<Node>,
    root: int,
    tiles: Seq<TileView>,
    frames: Seq<FrameView>,
    m: Multiset<Work>,
) -> bool {
    &&& forall|x: Work| #[trigger]
        m.contains(x) ==> m.count(x) == 1 && ((lives_below(nodes, root, x.id as int)
            && nodes[x.id as int].is_dir) || (x.id == root && nodes[root].alive && tiles.len()
            == 0))
    &&& forall|x: Work, y: Work|
        #![trigger m.contains(x), m.contains(y)]
        m.contains(x) && m.contains(y) && x != y ==> apart(nodes, x.id as int, y.id as int)
    &&& forall|i: int, x: Work|
        0 <= i < tiles.len() && by_itself(#[trigger] tiles[i]) && #[trigger] m.contains(x) ==> apart(
            nodes,
            tiles[i].node as int,
            x.id as int,
        )
    &&& forall|i: int, x: Work|
        0 <= i < tiles.len() && !by_itself(#[trigger] tiles[i]) && #[trigger] m.contains(x)
            ==> tiles[i].node != x.id && !is_above(nodes, x.id as int, tiles[i].node as int)
    &&& forall|i: int, x: Work|
        0 <= i < frames.len() && #[trigger] m.contains(x) ==> !is_above(
            nodes,
            x.id as int,
            (#[trigger] frames[i]).node as int,
        )
}

/// Everything drawn and everything still to be drawn is in its own place.
pub open spec fn tidy(
    nodes: Seq<Node>,
    root: int,
    tiles: Seq<TileView>,
    frames: Seq<FrameView>,
    m: Multiset<Work>,
) -> bool {
    &&& tiles_apart(nodes, root, tiles)
    &&& frames_apart(nodes, root, tiles, frames)
    &&& pending_apart(nodes, root, tiles, frames, m)
}

/// What the tiles say they hold, together.
pub open spec fn tile_bytes(tiles: Seq<TileView>) -> nat {
    seq_sum(tiles, |t: TileView| t.bytes as nat)
}

/// Whether node `k` is still to be drawn.
pub open spec fn waits(m: Multiset<Work>, k: int) -> bool {
    exists|x: Work| #[trigger] m.contains(x) && x.id == k
}

/// What is still to be drawn weighs, together.
pub open spec fn waiting_bytes(nodes: Seq<Node>, m: Multiset<Work>) -> nat {
    sum_where(nodes.len() as int, |k: int| waits(m, k), |k: int| nodes[k].size as nat)
}

/// What is drawn and what is still to be drawn, together.
pub open spec fn drawn_bytes(nodes: Seq<Node>, tiles: Seq<TileView>, m: Multiset<Work>) -> nat {
    tile_bytes(tiles) + waiting_bytes(nodes, m)
}

/// What an item weighs.
pub open spec fn item_bytes(nodes: Seq<Node>, item: Item) -> nat {
    match item {
        Item::One { id } => nodes[id as int].size as nat,
        Item::Rest { count: _, bytes } => bytes as nat,
    }
}

/// What the items weigh together.
pub open spec fn items_bytes(nodes: Seq<Node>, items: Seq<Item>) -> nat {
    seq_sum(items, |i: Item| item_bytes(nodes, i))
}

proof fn lemma_one_more_waits(nodes: Seq<Node>, m: Multiset<Work>, o: Work)
    requires
        o.id < nodes.len(),
        !waits(m, o.id as int),
    ensures
        waiting_bytes(nodes, m.insert(o)) == waiting_bytes(nodes, m) + nodes[o.id as int].size,
{
    let more = m.insert(o);
    let p = |k: int| waits(m, k);
    let q = |k: int| waits(more, k);
    assert(more.contains(o));
    assert forall|k: int| 0 <= k < nodes.len() && k != o.id implies #[trigger] p(k) == q(k) by {
        if waits(m, k) {
            let x = choose|x: Work| #[trigger] m.contains(x) && x.id == k;
            assert(more.contains(x));
        }
        if waits(more, k) {
            let x = choose|x: Work| #[trigger] more.contains(x) && x.id == k;
            assert(more.count(x) == m.count(x));
            assert(m.contains(x));
        }
    }
    lemma_sum_one_more(nodes.len() as int, p, q, |k: int| nodes[k].size as nat, o.id as int);
}

proof fn lemma_one_less_waits(nodes: Seq<Node>, m: Multiset<Work>, w: Work)
    requires
        w.id < nodes.len(),
        m.contains(w),
        m.count(w) == 1,
        forall|x: Work| #[trigger] m.contains(x) && x != w ==> x.id != w.id,
    ensures
        waiting_bytes(nodes, m) == waiting_bytes(nodes, m.remove(w)) + nodes[w.id as int].size,
{
    let left = m.remove(w);
    assert(left.insert(w) =~= m);
    assert(!waits(left, w.id as int)) by {
        if waits(left, w.id as int) {
            let x = choose|x: Work| #[trigger] left.contains(x) && x.id == w.id;
            assert(left.count(w) == 0);
            assert(m.contains(x));
        }
    }
    lemma_one_more_waits(nodes, left, w);
}

proof fn lemma_one_more_tile(tiles: Seq<TileView>, t: TileView)
    ensures
        tile_bytes(tiles.push(t)) == tile_bytes(tiles) + t.bytes,
{
    assert(tiles.push(t).drop_last() == tiles);
}

/// What the listed ones of a run of nodes weigh together.
proof fn lemma_listed_weigh(nodes: Seq<Node>, first: int, end: int)
    requires
        0 <= first,
        end <= nodes.len() <= u32::MAX,
    ensures
        weight_of(listed_among(nodes, first, end, false)) == sum_where(
            nodes.len() as int,
            |c: int| first <= c < end && nodes[c].alive,
            |c: int| nodes[c].size as nat,
        ),
    decreases end - first,
{
    let len = nodes.len() as int;
    let q = |c: int| first <= c < end && nodes[c].alive;
    let w = |c: int| nodes[c].size as nat;
    if end <= first {
        lemma_sum_none(len, q, w);
    } else {
        lemma_listed_weigh(nodes, first, end - 1);
        let p = |c: int| first <= c < end - 1 && nodes[c].alive;
        let rest = listed_among(nodes, first, end - 1, false);
        let all = listed_among(nodes, first, end, false);
        if listed(nodes[end - 1], false) {
            assert(all.drop_last() == rest);
            assert(all.last().weight == nodes[end - 1].size);
        }
        if nodes[end - 1].alive {
            lemma_sum_one_more(len, p, q, w, end - 1);
        } else {
            lemma_sum_same(len, p, q, w, w);
        }
    }
}

/// The children that weigh anything weigh together what all living children weigh.
proof fn lemma_kids_weigh(nodes: Seq<Node>, id: int, kids: Seq<Ranked>)
    requires
        linked(nodes),
        0 <= id < nodes.len(),
        by_weight(nodes, id, false, kids),
    ensures
        weight_of(kids) == child_bytes(nodes, id),
{
    let first = nodes[id].first_child as int;
    let end = first + nodes[id].child_count;
    lemma_sum_rearranged(kids, kids_of(nodes, id, false), |k: Ranked| k.weight as nat);
    lemma_listed_weigh(nodes, first, end);
    lemma_sum_same(
        nodes.len() as int,
        |c: int| first <= c < end && nodes[c].alive,
        |c: int| is_child(nodes, id, c) && nodes[c].alive,
        |c: int| nodes[c].size as nat,
        |c: int| nodes[c].size as nat,
    );
}

/// The items weigh what the children weigh that they stand for, as far as that can be
/// counted.
proof fn lemma_items_weigh(nodes: Seq<Node>, kids: Seq<Ranked>, tiny: Seq<bool>)
    requires
        kids.len() == tiny.len(),
        forall|k: int|
            0 <= k < kids.len() ==> (#[trigger] kids[k]).weight == nodes[kids[k].id as int].size,
    ensures
        items_bytes(nodes, merged(kids, tiny)) <= weight_of(kids),
        weight_of(kids) <= u64::MAX ==> items_bytes(nodes, merged(kids, tiny)) == weight_of(kids),
{
    lemma_tail_start(tiny, 0);
    let at = tail_start(tiny, 0);
    let ones = Seq::new(at as nat, |i: int| Item::One { id: kids[i].id });
    lemma_ones_weigh(nodes, kids, at);
    lemma_seq_sum_concat(kids.take(at), kids.skip(at), |k: Ranked| k.weight as nat);
    assert(kids.take(at) + kids.skip(at) == kids);
    if at < kids.len() {
        assert(merged(kids, tiny).drop_last() == ones);
    } else {
        assert(kids.skip(at) == Seq::<Ranked>::empty());
        assert(merged(kids, tiny) == ones);
    }
}

proof fn lemma_ones_weigh(nodes: Seq<Node>, kids: Seq<Ranked>, n: int)
    requires
        0 <= n <= kids.len(),
        forall|k: int|
            0 <= k < kids.len() ==> (#[trigger] kids[k]).weight == nodes[kids[k].id as int].size,
    ensures
        items_bytes(nodes, Seq::new(n as nat, |i: int| Item::One { id: kids[i].id })) == weight_of(
            kids.take(n),
        ),
    decreases n,
{
    let ones = Seq::new(n as nat, |i: int| Item::One { id: kids[i].id });
    if n > 0 {
        lemma_ones_weigh(nodes, kids, n - 1);
        assert(ones.drop_last() == Seq::new((n - 1) as nat, |i: int| Item::One { id: kids[i].id }));
        assert(kids.take(n).drop_last() == kids.take(n - 1));
        assert(kids.take(n).last() == kids[n - 1]);
    }
}

/// Whether `c` can be drawn by itself beside everything else.
spec fn clear(
    nodes: Seq<Node>,
    tiles: Seq<TileView>,
    frames: Seq<FrameView>,
    m: Multiset<Work>,
    c: int,
) -> bool {
    &&& forall|i: int|
        0 <= i < tiles.len() && by_itself(#[trigger] tiles[i]) ==> apart(
            nodes,
            tiles[i].node as int,
            c,
        )
    &&& forall|i: int|
        0 <= i < tiles.len() && !by_itself(#[trigger] tiles[i]) ==> tiles[i].node != c && !is_above(
            nodes,
            c,
            tiles[i].node as int,
        )
    &&& forall|x: Work| #[trigger] m.contains(x) ==> apart(nodes, x.id as int, c)
    &&& forall|i: int|
        0 <= i < frames.len() ==> !is_above(nodes, c, (#[trigger] frames[i]).node as int)
}

/// Whether `c` has no frame.
spec fn unframed(frames: Seq<FrameView>, c: int) -> bool {
    forall|i: int| 0 <= i < frames.len() ==> (#[trigger] frames[i]).node != c
}

/// Whether the small items of `w` can be drawn beside everything else.
spec fn room_for_rest(nodes: Seq<Node>, tiles: Seq<TileView>, m: Multiset<Work>, w: int) -> bool {
    &&& forall|i: int|
        0 <= i < tiles.len() ==> (#[trigger] tiles[i]).node != w && (by_itself(tiles[i])
            ==> !is_above(nodes, tiles[i].node as int, w))
    &&& forall|x: Work| #[trigger] m.contains(x) ==> x.id != w && !is_above(nodes, x.id as int, w)
}

/// Whether the root is not waiting.
spec fn without_root(m: Multiset<Work>, root: int) -> bool {
    forall|x: Work| #[trigger] m.contains(x) ==> x.id != root
}

proof fn lemma_put_tile(
    nodes: Seq<Node>,
    root: int,
    tiles: Seq<TileView>,
    frames: Seq<FrameView>,
    m: Multiset<Work>,
    t: TileView,
)
    requires
        tidy(nodes, root, tiles, frames, m),
        by_itself(t),
        lives_below(nodes, root, t.node as int),
        t.bytes == nodes[t.node as int].size,
        clear(nodes, tiles, frames, m, t.node as int),
        without_root(m, root),
    ensures
        tidy(nodes, root, tiles.push(t), frames, m),
{
    let more = tiles.push(t);
    let n = tiles.len() as int;
    assert forall|i: int| 0 <= i < n implies #[trigger] more[i] == tiles[i] by {}
    assert(more[n] == t);
}

proof fn lemma_put_rest(
    nodes: Seq<Node>,
    root: int,
    tiles: Seq<TileView>,
    frames: Seq<FrameView>,
    m: Multiset<Work>,
    t: TileView,
)
    requires
        tidy(nodes, root, tiles, frames, m),
        !by_itself(t),
        t.node < nodes.len(),
        nodes[t.node as int].alive,
        t.node == root || is_above(nodes, root, t.node as int),
        room_for_rest(nodes, tiles, m, t.node as int),
        without_root(m, root),
    ensures
        tidy(nodes, root, tiles.push(t), frames, m),
{
    let more = tiles.push(t);
    let n = tiles.len() as int;
    assert forall|i: int| 0 <= i < n implies #[trigger] more[i] == tiles[i] by {}
    assert(more[n] == t);
}

proof fn lemma_put_work(
    nodes: Seq<Node>,
    root: int,
    tiles: Seq<TileView>,
    frames: Seq<FrameView>,
    m: Multiset<Work>,
    g: FrameView,
    o: Work,
)
    requires
        linked(nodes),
        tidy(nodes, root, tiles, frames, m),
        g.node == o.id,
        lives_below(nodes, root, o.id as int),
        nodes[o.id as int].is_dir,
        clear(nodes, tiles, frames, m, o.id as int),
        unframed(frames, o.id as int),
    ensures
        tidy(nodes, root, tiles, frames.push(g), m.insert(o)),
{
    let more = frames.push(g);
    let n = frames.len() as int;
    let m2 = m.insert(o);
    assert forall|i: int| 0 <= i < n implies #[trigger] more[i] == frames[i] by {}
    assert(more[n] == g);
    assert(!m.contains(o)) by {
        if m.contains(o) {
            assert(apart(nodes, o.id as int, o.id as int));
        }
    }
    assert forall|x: Work| #[trigger] m2.contains(x) implies m2.count(x) == 1 && (x == o
        || m.contains(x)) by {
        assert(m2.count(x) > 0);
        if x != o {
            assert(m2.count(x) == m.count(x));
            assert(m.contains(x));
        } else {
            assert(m.count(o) == 0);
        }
    }
    assert(!is_above(nodes, o.id as int, o.id as int)) by {
        if is_above(nodes, o.id as int, o.id as int) {
            crate::balance::lemma_above_below(nodes, o.id as int, o.id as int);
        }
    }
}

/// A child of what is taken up is clear of everything else.
proof fn lemma_child_is_clear(
    nodes: Seq<Node>,
    root: int,
    tiles: Seq<TileView>,
    frames: Seq<FrameView>,
    m: Multiset<Work>,
    w: Work,
    c: int,
)
    requires
        linked(nodes),
        tidy(nodes, root, tiles, frames, m),
        m.contains(w),
        is_child(nodes, w.id as int, c),
        w.id < nodes.len(),
        nodes[c].alive,
    ensures
        clear(nodes, tiles, frames, m.remove(w), c),
        unframed(frames, c),
        lives_below(nodes, root, c),
{
    let p = w.id as int;
    let left = m.remove(w);
    assert(0 < c && nodes[c].parent == p);
    assert(nodes[p].first_child + nodes[p].child_count <= nodes.len());
    assert(nodes[c].parent < c);
    assert(is_above(nodes, p, c));
    assert forall|x: Work| #[trigger] left.contains(x) implies m.contains(x) && x != w by {
        assert(m.count(w) == 1);
        assert(left.count(w) == 0);
    }
    assert forall|x: int| #[trigger] is_above(nodes, c, x) && 0 <= x < nodes.len() implies is_above(
        nodes,
        p,
        x,
    ) by {
        lemma_parent_above(nodes, p, c, x);
    }
    assert forall|x: int| #[trigger] is_above(nodes, x, c) implies x == p || is_above(
        nodes,
        x,
        p,
    ) by {}
    assert forall|x: Work| #[trigger] left.contains(x) implies apart(nodes, x.id as int, c) by {
        assert(m.contains(x) && m.contains(w));
        assert(apart(nodes, x.id as int, p));
        assert(0 <= x.id < nodes.len());
    }
}

/// Of two children of one directory, neither lies inside the other.
proof fn lemma_siblings_apart(nodes: Seq<Node>, p: int, a: int, b: int)
    requires
        linked(nodes),
        0 <= p < nodes.len(),
        is_child(nodes, p, a),
        is_child(nodes, p, b),
        a != b,
    ensures
        apart(nodes, a, b),
        !is_above(nodes, a, p),
        a != p,
{
    assert(0 < a && nodes[a].parent == p);
    assert(0 < b && nodes[b].parent == p);
    assert(nodes[p].first_child + nodes[p].child_count <= nodes.len());
    assert(nodes[a].parent < a && nodes[b].parent < b);
    lemma_not_above(nodes, a, p);
    lemma_not_above(nodes, b, p);
}

/// What comes after a node does not lie above it.
proof fn lemma_not_above(nodes: Seq<Node>, a: int, p: int)
    requires
        linked(nodes),
        0 <= p < nodes.len(),
        p <= a,
    ensures
        !is_above(nodes, a, p),
{
    if is_above(nodes, a, p) {
        crate::balance::lemma_above_below(nodes, a, p);
    }
}

/// The children `ids` from `n` on can still be drawn.
spec fn ready(
    nodes: Seq<Node>,
    tiles: Seq<TileView>,
    frames: Seq<FrameView>,
    m: Multiset<Work>,
    ids: Seq<int>,
    n: int,
) -> bool {
    forall|j: int|
        n <= j < ids.len() ==> clear(nodes, tiles, frames, m, #[trigger] ids[j]) && unframed(
            frames,
            ids[j],
        )
}

/// The first `n` items have been dealt with.
proof fn lemma_items_placed(
    store: Store,
    root: int,
    d: Drawing,
    items: Seq<Item>,
    fits: Seq<Fit>,
    base: int,
    ids: Seq<int>,
    n: int,
)
    requires
        store.wf(),
        d.open is Some,
        (d.open->0).id < store.nodes@.len(),
        0 <= root < store.nodes@.len(),
        tidy(store.nodes@, root, d.tiles, d.frames, d.waiting),
        without_root(d.waiting, root),
        room_for_rest(store.nodes@, d.tiles, d.waiting, (d.open->0).id as int),
        ready(store.nodes@, d.tiles, d.frames, d.waiting, ids, 0),
        0 <= n <= ids.len() <= items.len(),
        forall|j: int| 0 <= j < ids.len() ==> (#[trigger] items[j]) == (Item::One {
            id: ids[j] as u32,
        }) && 0 <= ids[j] < store.nodes@.len() && lives_below(store.nodes@, root, ids[j])
            && is_child(store.nodes@, (d.open->0).id as int, ids[j]),
        forall|a: int, b: int| 0 <= a < b < ids.len() ==> #[trigger] ids[a] != #[trigger] ids[b],
    ensures
        ({
            let f = fates(store, d.open->0, items, fits, base).take(n);
            let tiles = d.tiles + filled(f);
            let frames = d.frames + opened(f);
            let m = then_waiting(d.waiting, f);
            &&& tidy(store.nodes@, root, tiles, frames, m)
            &&& without_root(m, root)
            &&& room_for_rest(store.nodes@, tiles, m, (d.open->0).id as int)
            &&& ready(store.nodes@, tiles, frames, m, ids, n)
            &&& drawn_bytes(store.nodes@, tiles, m) <= drawn_bytes(
                store.nodes@,
                d.tiles,
                d.waiting,
            ) + items_bytes(store.nodes@, items.take(n))
            &&& (forall|j: int| 0 <= j < n ==> (#[trigger] fits[j]).visible) ==> drawn_bytes(
                store.nodes@,
                tiles,
                m,
            ) == drawn_bytes(store.nodes@, d.tiles, d.waiting) + items_bytes(
                store.nodes@,
                items.take(n),
            )
        }),
    decreases n,
{
    let nodes = store.nodes@;
    let w = d.open->0;
    let all = fates(store, w, items, fits, base);
    if n == 0 {
        assert(all.take(0) == Seq::<Fate>::empty());
        assert(d.tiles + filled(all.take(0)) == d.tiles);
        assert(d.frames + opened(all.take(0)) == d.frames);
        assert(items.take(0) == Seq::<Item>::empty());
    } else {
        lemma_items_placed(store, root, d, items, fits, base, ids, n - 1);
        let i = n - 1;
        let c = ids[i];
        let f0 = all.take(i);
        let f = all.take(n);
        assert(f.drop_last() == f0);
        assert(f.last() == all[i]);
        assert(items[i] == (Item::One { id: c as u32 }));
        let t0 = d.tiles + filled(f0);
        let g0 = d.frames + opened(f0);
        let m0 = then_waiting(d.waiting, f0);
        assert(clear(nodes, t0, g0, m0, c) && unframed(g0, c));
        assert(items.take(n).drop_last() == items.take(i));
        assert(items.take(n).last() == items[i]);
        assert(item_bytes(nodes, items[i]) == nodes[c].size);
        assert(root < c) by {
            crate::balance::lemma_above_below(nodes, root, c);
        }
        lemma_not_above(nodes, c, w.id as int);
        assert(nodes[c].parent < c);
        assert forall|j: int| n <= j < ids.len() implies apart(nodes, c, #[trigger] ids[j]) by {
            assert(items[j] == (Item::One { id: ids[j] as u32 }));
            assert(ids[i] != ids[j]);
            lemma_siblings_apart(nodes, w.id as int, c, ids[j]);
        }
        match all[i] {
            Fate::Nothing => {
                assert(!fits[i].visible);
                assert(d.tiles + filled(f) == t0);
                assert(d.frames + opened(f) == g0);
            },
            Fate::Filled(t) => {
                assert(t.node == c && by_itself(t));
                lemma_put_tile(nodes, root, t0, g0, m0, t);
                lemma_one_more_tile(t0, t);
                let t1 = t0.push(t);
                assert(d.tiles + filled(f) == t1);
                assert(d.frames + opened(f) == g0);
                assert forall|k: int| 0 <= k < t0.len() implies #[trigger] t1[k] == t0[k] by {}
                assert(t1[t0.len() as int] == t);
                assert forall|j: int| n <= j < ids.len() implies clear(
                    nodes,
                    t1,
                    g0,
                    m0,
                    #[trigger] ids[j],
                ) && unframed(g0, ids[j]) by {
                    assert(clear(nodes, t0, g0, m0, ids[j]));
                    assert(apart(nodes, c, ids[j]));
                }
            },
            Fate::Opened(g, o) => {
                assert(g.node == c && o.id == c);
                lemma_put_work(nodes, root, t0, g0, m0, g, o);
                assert(!waits(m0, c)) by {
                    if waits(m0, c) {
                        let x = choose|x: Work| #[trigger] m0.contains(x) && x.id == c;
                        assert(apart(nodes, x.id as int, c));
                    }
                }
                lemma_one_more_waits(nodes, m0, o);
                let g1 = g0.push(g);
                let m1 = m0.insert(o);
                assert(d.tiles + filled(f) == t0);
                assert(d.frames + opened(f) == g1);
                assert forall|k: int| 0 <= k < g0.len() implies #[trigger] g1[k] == g0[k] by {}
                assert(g1[g0.len() as int] == g);
                assert forall|x: Work| #[trigger] m1.contains(x) implies x == o || m0.contains(
                    x,
                ) by {}
                assert forall|j: int| n <= j < ids.len() implies clear(
                    nodes,
                    t0,
                    g1,
                    m1,
                    #[trigger] ids[j],
                ) && unframed(g1, ids[j]) by {
                    assert(clear(nodes, t0, g0, m0, ids[j]));
                    assert(apart(nodes, c, ids[j]));
                }
            },
        }
    }
}

/// Filling the directory that was taken up keeps everything in its own place.
proof fn lemma_filling_is_tidy(
    store: Store,
    root: int,
    d: Drawing,
    e: Drawing,
    items: Seq<Item>,
    fits: Seq<Fit>,
    base: int,
)
    requires
        store.wf(),
        0 <= root < store.nodes@.len(),
        fills(store, d, e, items, fits, base),
        items_of(store.nodes@, (d.open->0).id as int, items),
        tidy(store.nodes@, root, d.tiles, d.frames, pending(d)),
    ensures
        tidy(store.nodes@, root, e.tiles, e.frames, pending(e)),
        nodes_balanced(store.nodes@) ==> drawn_bytes(store.nodes@, e.tiles, pending(e))
            <= drawn_bytes(store.nodes@, d.tiles, pending(d)),
        nodes_balanced(store.nodes@) && store.nodes@[(d.open->0).id as int].is_dir && (forall|j: int|
            0 <= j < items.len() ==> (#[trigger] fits[j]).visible) ==> drawn_bytes(
            store.nodes@,
            e.tiles,
            pending(e),
        ) == drawn_bytes(store.nodes@, d.tiles, pending(d)),
{
    let nodes = store.nodes@;
    let w = d.open->0;
    let p = w.id as int;
    let m = pending(d);
    let (kids, tiny) = choose|kids: Seq<Ranked>, tiny: Seq<bool>|
        #![trigger merged(kids, tiny)]
        by_weight(nodes, p, false, kids) && tiny.len() == kids.len() && items == merged(kids, tiny);
    assert(m.contains(w));
    assert(m.remove(w) =~= d.waiting);
    assert(0 <= p < nodes.len());
    lists_every_child(nodes, p, false, kids);
    lemma_tail_start(tiny, 0);
    let at = tail_start(tiny, 0);
    let ids = Seq::new(at as nat, |i: int| kids[i].id as int);
    let f = fates(store, w, items, fits, base);
    assert forall|x: Work| #[trigger] d.waiting.contains(x) implies m.contains(x) && x != w by {
        assert(m.count(w) == 1);
        assert(m.count(x) >= d.waiting.count(x));
    }
    assert(tidy(nodes, root, d.tiles, d.frames, d.waiting)) by {
        assert forall|x: Work| #[trigger] d.waiting.contains(x) implies d.waiting.count(x) == 1 by {
            assert(m.count(x) == 1);
        }
        assert(pending_apart(nodes, root, d.tiles, d.frames, d.waiting));
    }
    assert(without_root(d.waiting, root)) by {
        assert forall|x: Work| #[trigger] d.waiting.contains(x) implies x.id != root by {
            assert(m.contains(x) && m.contains(w));
            assert(apart(nodes, x.id as int, p));
        }
    }
    assert(room_for_rest(nodes, d.tiles, d.waiting, p)) by {
        assert forall|x: Work| #[trigger] d.waiting.contains(x) implies x.id != p && !is_above(
            nodes,
            x.id as int,
            p,
        ) by {
            assert(m.contains(x) && m.contains(w));
            assert(apart(nodes, x.id as int, p));
        }
        assert forall|i: int| 0 <= i < d.tiles.len() implies (#[trigger] d.tiles[i]).node != p && (
        by_itself(d.tiles[i]) ==> !is_above(nodes, d.tiles[i].node as int, p)) by {
            assert(m.contains(w));
        }
    }
    assert forall|j: int| 0 <= j < ids.len() implies (#[trigger] items[j]) == (Item::One {
        id: ids[j] as u32,
    }) && 0 <= ids[j] < nodes.len() && lives_below(nodes, root, ids[j]) && is_child(
        nodes,
        p,
        ids[j],
    ) by {
        assert(is_child(nodes, p, kids[j].id as int));
        assert(listed(nodes[kids[j].id as int], false));
        lemma_child_is_clear(nodes, root, d.tiles, d.frames, m, w, ids[j]);
    }
    assert forall|j: int| 0 <= j < ids.len() implies clear(
        nodes,
        d.tiles,
        d.frames,
        d.waiting,
        #[trigger] ids[j],
    ) && unframed(d.frames, ids[j]) by {
        assert(items[j] == (Item::One { id: ids[j] as u32 }));
        assert(listed(nodes[kids[j].id as int], false));
        lemma_child_is_clear(nodes, root, d.tiles, d.frames, m, w, ids[j]);
    }
    assert forall|a: int, b: int| 0 <= a < b < ids.len() implies #[trigger] ids[a]
        != #[trigger] ids[b] by {
        assert(kids[a].id != kids[b].id);
    }
    lemma_items_placed(store, root, d, items, fits, base, ids, at);
    assert(waiting_bytes(nodes, m) == waiting_bytes(nodes, d.waiting) + nodes[p].size) by {
        assert forall|x: Work| #[trigger] m.contains(x) && x != w implies x.id != w.id by {
            assert(m.contains(w));
            assert(apart(nodes, x.id as int, p));
        }
        lemma_one_less_waits(nodes, m, w);
    }
    lemma_items_weigh(nodes, kids, tiny);
    if nodes_balanced(nodes) {
        lemma_kids_weigh(nodes, p, kids);
        if !nodes[p].is_dir {
            assert(kids.len() == 0);
        }
    }
    if at < kids.len() {
        let f0 = f.take(at);
        assert(f.drop_last() == f0);
        let t0 = d.tiles + filled(f0);
        let g0 = d.frames + opened(f0);
        let m0 = then_waiting(d.waiting, f0);
        assert(items[at] is Rest);
        assert(items.len() == at + 1);
        assert(items.drop_last() == items.take(at));
        match f.last() {
            Fate::Filled(t) => {
                assert(t.node == p && !by_itself(t));
                lemma_put_rest(nodes, root, t0, g0, m0, t);
                lemma_one_more_tile(t0, t);
                assert(e.tiles == t0.push(t));
                assert(e.frames == g0);
            },
            _ => {
                assert(e.tiles == t0);
                assert(e.frames == g0);
            },
        }
    } else {
        assert(f.take(at) == f);
        assert(items.take(at) == items);
    }
}

/// Filling all that waits as it is keeps everything in its own place.
proof fn lemma_closing_is_tidy(
    store: Store,
    root: int,
    tiles: Seq<TileView>,
    frames: Seq<FrameView>,
    m: Multiset<Work>,
    order: Seq<Work>,
)
    requires
        linked(store.nodes@),
        tidy(store.nodes@, root, tiles, frames, m),
        without_root(m, root),
        order.to_multiset() == m,
    ensures
        tidy(
            store.nodes@,
            root,
            tiles + closed_tiles(store, order),
            frames,
            Multiset::<Work>::empty(),
        ),
        drawn_bytes(
            store.nodes@,
            tiles + closed_tiles(store, order),
            Multiset::<Work>::empty(),
        ) == drawn_bytes(store.nodes@, tiles, m),
    decreases order.len(),
{
    let nodes = store.nodes@;
    order.to_multiset_ensures();
    if order.len() == 0 {
        assert(tiles + closed_tiles(store, order) == tiles);
        assert(m =~= Multiset::<Work>::empty()) by {
            assert forall|x: Work| m.count(x) == 0 by {
                assert(!order.contains(x));
            }
        }
    } else {
        let w = order[0];
        let rest = order.drop_first();
        let left = m.remove(w);
        let t = closed_tile(store, w.id, w.spot);
        assert(order.contains(w));
        assert(m.contains(w));
        assert(seq![w] + rest == order);
        assert(rest.to_multiset() =~= left) by {
            assert(order.remove(0) == rest);
        }
        assert forall|x: Work| #[trigger] left.contains(x) implies m.contains(x) && x != w by {
            assert(m.count(w) == 1);
            assert(left.count(w) == 0);
        }
        assert(tidy(nodes, root, tiles, frames, left)) by {
            assert forall|x: Work| #[trigger] left.contains(x) implies left.count(x) == 1 by {
                assert(m.count(x) == 1);
            }
            assert(pending_apart(nodes, root, tiles, frames, left));
        }
        assert(clear(nodes, tiles, frames, left, w.id as int)) by {
            assert forall|x: Work| #[trigger] left.contains(x) implies apart(
                nodes,
                x.id as int,
                w.id as int,
            ) by {
                assert(m.contains(x) && m.contains(w));
            }
        }
        lemma_put_tile(nodes, root, tiles, frames, left, t);
        lemma_one_more_tile(tiles, t);
        assert forall|x: Work| #[trigger] m.contains(x) && x != w implies x.id != w.id by {
            assert(apart(nodes, x.id as int, w.id as int));
        }
        lemma_one_less_waits(nodes, m, w);
        assert(without_root(left, root));
        lemma_closing_is_tidy(store, root, tiles.push(t), frames, left, rest);
        assert(tiles.push(t) + closed_tiles(store, rest) == tiles + closed_tiles(store, order));
    }
}

/// A step in which nothing that is opened is too small to be seen.
pub open spec fn goes_on_in_full(store: Store, d: Drawing, e: Drawing) -> bool {
    ||| takes_up(d, e)
    ||| closes_up(store, d, e)
    ||| rests(d, e)
    ||| exists|items: Seq<Item>, fits: Seq<Fit>, base: int|
        #![trigger fills(store, d, e, items, fits, base)]
        fills(store, d, e, items, fits, base) && items_of(
            store.nodes@,
            (d.open->0).id as int,
            items,
        ) && forall|j: int| 0 <= j < items.len() ==> (#[trigger] fits[j]).visible
}

proof fn lemma_step_is_tidy(store: Store, root: u32, d: Drawing, e: Drawing)
    requires
        store.wf(),
        root < store.nodes@.len(),
        goes_on(store, d, e),
        tidy(store.nodes@, root as int, d.tiles, d.frames, pending(d)),
    ensures
        tidy(store.nodes@, root as int, e.tiles, e.frames, pending(e)),
        nodes_balanced(store.nodes@) ==> drawn_bytes(store.nodes@, e.tiles, pending(e))
            <= drawn_bytes(store.nodes@, d.tiles, pending(d)),
        nodes_balanced(store.nodes@) && store.nodes@[root as int].is_dir && goes_on_in_full(
            store,
            d,
            e,
        ) ==> drawn_bytes(store.nodes@, e.tiles, pending(e)) == drawn_bytes(
            store.nodes@,
            d.tiles,
            pending(d),
        ),
{
    if takes_up(d, e) {
        let w = e.open->0;
        assert(d.waiting.count(w) > 0);
        assert(pending(e) =~= pending(d));
    } else if closes_up(store, d, e) {
        let order = choose|order: Seq<Work>|
            #![trigger works_off(d.waiting, order)]
            works_off(d.waiting, order) && e.tiles == d.tiles + closed_tiles(store, order);
        lemma_not_above(store.nodes@, root as int, root as int);
        assert(without_root(d.waiting, root as int));
        lemma_closing_is_tidy(store, root as int, d.tiles, d.frames, d.waiting, order);
    } else if rests(d, e) {
    } else if goes_on_in_full(store, d, e) {
        let (items, fits, base) = choose|items: Seq<Item>, fits: Seq<Fit>, base: int|
            #![trigger fills(store, d, e, items, fits, base)]
            fills(store, d, e, items, fits, base) && items_of(
                store.nodes@,
                (d.open->0).id as int,
                items,
            ) && forall|j: int| 0 <= j < items.len() ==> (#[trigger] fits[j]).visible;
        assert(pending(d).contains(d.open->0));
        lemma_filling_is_tidy(store, root as int, d, e, items, fits, base);
    } else {
        let (items, fits, base) = choose|items: Seq<Item>, fits: Seq<Fit>, base: int|
            #![trigger fills(store, d, e, items, fits, base)]
            fills(store, d, e, items, fits, base) && items_of(
                store.nodes@,
                (d.open->0).id as int,
                items,
            );
        lemma_filling_is_tidy(store, root as int, d, e, items, fits, base);
    }
}

/// A map draws nothing twice: at every moment of a run, each node that has a tile of
/// its own is a living one below the root, none has two, and none lies inside another
/// that is drawn. What is still to be drawn keeps apart from all of it.
pub proof fn nothing_is_drawn_twice(
    store: Store,
    root: u32,
    area: u64,
    run: Seq<Drawing>,
    i: int,
)
    requires
        store.wf(),
        root < store.nodes@.len(),
        store.nodes@[root as int].alive,
        is_run(store, root, area, run),
        0 <= i < run.len(),
    ensures
        tidy(store.nodes@, root as int, run[i].tiles, run[i].frames, pending(run[i])),
    decreases i,
{
    if i == 0 {
        let m = pending(run[0]);
        assert forall|x: Work| #[trigger] m.contains(x) implies m.count(x) == 1 && x == (Work {
            area,
            id: root,
            spot: 0,
            depth: 0,
        }) by {
            assert(m.count(x) > 0);
        }
    } else {
        nothing_is_drawn_twice(store, root, area, run, i - 1);
        assert(goes_on(store, run[i - 1], run[i - 1 + 1]));
        lemma_step_is_tidy(store, root, run[i - 1], run[i]);
    }
}

/// No byte is drawn twice: at every moment of a run, what the tiles say they hold and
/// what is still to be drawn come to no more than the directory that is drawn. Where
/// nothing was too small to be seen, they come to exactly that, and once nothing waits
/// any more the tiles alone do.
pub proof fn drawn_bytes_add_up(store: Store, root: u32, area: u64, run: Seq<Drawing>, i: int)
    requires
        store.wf(),
        balanced(store),
        root < store.nodes@.len(),
        store.nodes@[root as int].alive,
        is_run(store, root, area, run),
        0 <= i < run.len(),
    ensures
        tile_bytes(run[i].tiles) <= store.nodes@[root as int].size,
        drawn_bytes(store.nodes@, run[i].tiles, pending(run[i])) <= store.nodes@[root as int].size,
        store.nodes@[root as int].is_dir && (forall|k: int|
            0 <= k < i ==> goes_on_in_full(store, #[trigger] run[k], run[k + 1])) ==> drawn_bytes(
            store.nodes@,
            run[i].tiles,
            pending(run[i]),
        ) == store.nodes@[root as int].size,
        store.nodes@[root as int].is_dir && (forall|k: int|
            0 <= k < i ==> goes_on_in_full(store, #[trigger] run[k], run[k + 1])) && pending(run[i])
            == Multiset::<Work>::empty() ==> tile_bytes(run[i].tiles)
            == store.nodes@[root as int].size,
    decreases i,
{
    let nodes = store.nodes@;
    let none = Multiset::<Work>::empty();
    lemma_sum_none(nodes.len() as int, |k: int| waits(none, k), |k: int| nodes[k].size as nat);
    if i == 0 {
        let w = Work { area, id: root, spot: 0, depth: 0 };
        assert(tile_bytes(run[0].tiles) == 0);
        if nodes[root as int].size != 0 {
            lemma_one_more_waits(nodes, none, w);
        }
    } else {
        drawn_bytes_add_up(store, root, area, run, i - 1);
        nothing_is_drawn_twice(store, root, area, run, i - 1);
        assert(goes_on(store, run[i - 1], run[i - 1 + 1]));
        lemma_step_is_tidy(store, root, run[i - 1], run[i]);
        if nodes[root as int].is_dir && (forall|k: int|
            0 <= k < i ==> goes_on_in_full(store, #[trigger] run[k], run[k + 1])) {
            assert(goes_on_in_full(store, run[i - 1], run[i - 1 + 1]));
        }
    }
}

/// Whether nothing that comes to wait is larger than the directory it lies in.
pub open spec fn shrinks(run: Seq<Drawing>) -> bool {
    forall|k: int, x: Work|
        0 <= k < run.len() - 1 && (#[trigger] run[k]).open is Some && #[trigger] run[k
            + 1].waiting.contains(x) ==> run[k].waiting.contains(x) || x.area <= (
        run[k].open->0).area
}

/// Whether directory `x` stays closed for want of room for more tiles.
pub open spec fn stays_closed(d: Drawing, x: Work) -> bool {
    d.open is None && d.tiles.len() >= MAX_RECTS && d.waiting.contains(x)
}

/// The room there is goes to the largest: over a whole run in which no item is larger
/// than the directory it lies in, whatever was opened is at least as large as whatever
/// is opened or still waits later on, and so as whatever stays closed for want of room.
pub proof fn largest_get_the_room(
    store: Store,
    root: u32,
    area: u64,
    run: Seq<Drawing>,
    i: int,
    j: int,
)
    requires
        is_run(store, root, area, run),
        shrinks(run),
        0 <= i <= j < run.len(),
        run[i].open is Some,
    ensures
        within(pending(run[j]), (run[i].open->0).area),
        forall|x: Work| #[trigger] stays_closed(run[j], x) ==> x.area <= (run[i].open->0).area,
        run[j].open is Some ==> (run[j].open->0).area <= (run[i].open->0).area,
    decreases j,
{
    let limit = (run[i].open->0).area;
    let e = run[j];
    let d = run[j - 1];
    assert(goes_on(store, run[j - 1], run[j - 1 + 1]));
    if j > i {
        largest_get_the_room(store, root, area, run, i, j - 1);
    }
    assert forall|x: Work| #[trigger] pending(e).contains(x) implies x.area <= limit by {
        assert(pending(e).count(x) > 0);
        if j == i {
            assert(takes_up(d, e));
            assert(x == e.open->0 || e.waiting.count(x) > 0);
            assert(d.waiting.contains(x));
        } else if takes_up(d, e) {
            assert(x == e.open->0 || e.waiting.count(x) > 0);
            assert(d.waiting.contains(x));
            assert(pending(d).contains(x));
        } else if rests(d, e) {
            assert(pending(d).contains(x));
        } else if d.open is Some {
            assert(pending(d).contains(d.open->0));
            assert(e.open is None);
            assert(run[j - 1 + 1].waiting.contains(x));
            if d.waiting.contains(x) {
                assert(pending(d).contains(x));
            }
        }
    }
}

/// While there are fewer than forty thousand tiles, the largest directory that waits is
/// taken up, as long as any waits. From then on nothing is taken up, and all that waits
/// gets a closed tile, each directory one.
pub proof fn map_opens_until_it_is_full(store: Store, d: Drawing, e: Drawing)
    requires
        goes_on(store, d, e),
        d.open is None,
    ensures
        d.tiles.len() < 40_000 && d.waiting.len() > 0 ==> e.open is Some && d.waiting.contains(
            e.open->0,
        ) && e.waiting == d.waiting.remove(e.open->0) && e.tiles == d.tiles && e.frames == d.frames
            && forall|x: Work| #[trigger] d.waiting.contains(x) ==> x.area <= (e.open->0).area,
        d.tiles.len() < 40_000 && d.waiting.len() == 0 ==> e == d,
        d.tiles.len() >= 40_000 ==> e.open is None && e.waiting.len() == 0 && e.frames == d.frames
            && e.tiles.len() == d.tiles.len() + d.waiting.len() && e.tiles.take(
            d.tiles.len() as int,
        ) == d.tiles && forall|x: Work| #[trigger]
            d.waiting.contains(x) ==> e.tiles.contains(
                TileView {
                    node: x.id,
                    spot: x.spot,
                    slot: 254,
                    kind: 1,
                    name: store.nodes@[x.id as int].name@,
                    bytes: store.nodes@[x.id as int].size,
                },
            ),
{
    if d.tiles.len() < 40_000 {
        if takes_up(d, e) {
            assert(d.waiting.count(e.open->0) > 0);
            assert(d.waiting.len() > 0) by {
                assert(d.waiting.remove(e.open->0).len() == d.waiting.len() - 1);
            }
        }
    } else {
        let order = choose|order: Seq<Work>|
            #![trigger works_off(d.waiting, order)]
            works_off(d.waiting, order) && e.tiles == d.tiles + closed_tiles(store, order);
        order.to_multiset_ensures();
        assert(e.tiles.take(d.tiles.len() as int) == d.tiles);
        assert forall|x: Work| #[trigger] d.waiting.contains(x) implies e.tiles.contains(
            TileView {
                node: x.id,
                spot: x.spot,
                slot: 254,
                kind: 1,
                name: store.nodes@[x.id as int].name@,
                bytes: store.nodes@[x.id as int].size,
            },
        ) by {
            assert(order.contains(x));
            let k = choose|k: int| 0 <= k < order.len() && order[k] == x;
            assert(e.tiles[d.tiles.len() + k] == closed_tile(store, x.id, x.spot));
        }
    }
}

/// A map begins with its root waiting at the first place, unless that is empty, and with
/// nothing drawn.
pub proof fn map_begins_with_its_root(store: Store, root: u32, area: u64, d: Drawing)
    requires
        begun(store, root, area, d),
    ensures
        d.tiles.len() == 0,
        d.frames.len() == 0,
        d.open is None,
        store.nodes@[root as int].size == 0 ==> d.waiting.len() == 0,
        store.nodes@[root as int].size > 0 ==> d.waiting.len() == 1 && d.waiting.contains(
            Work { area, id: root, spot: 0, depth: 0 },
        ),
{
}

/// As a directory is filled, every child of it that can be seen is drawn. A directory with
/// room in it is always opened less than 64 levels down: it has its frame, and waits one
/// level further down. Every other directory has a closed tile, and every file its own.
/// What was drawn before stays, and so does what waits.
pub proof fn filling_draws_every_visible_child(
    store: Store,
    d: Drawing,
    e: Drawing,
    items: Seq<Item>,
    fits: Seq<Fit>,
    base: int,
    i: int,
)
    requires
        fills(store, d, e, items, fits, base),
        0 <= i < items.len(),
        items[i] is One,
        fits[i].visible,
    ensures
        ({
            let id = items[i]->id;
            let k = store.nodes@[id as int];
            let depth = (d.open->0).depth;
            let spot = (base + i) as usize;
            &&& k.is_dir && fits[i].roomy && depth < 64 ==> e.frames.contains(
                FrameView { node: id, spot, depth, name: k.name@, bytes: k.size },
            ) && e.waiting.contains(
                Work { area: fits[i].area, id, spot, depth: (depth + 1) as u16 },
            )
            &&& k.is_dir && (!fits[i].roomy || depth >= 64) ==> e.tiles.contains(
                TileView { node: id, spot, slot: 254, kind: 1, name: k.name@, bytes: k.size },
            )
            &&& !k.is_dir ==> e.tiles.contains(
                TileView {
                    node: id,
                    spot,
                    slot: store.exts@[k.ext as int].slot,
                    kind: 0,
                    name: k.name@,
                    bytes: k.size,
                },
            )
        }),
        e.tiles.len() + e.frames.len() == d.tiles.len() + d.frames.len() + count_where(
            items.len() as int,
            |j: int| fits[j].visible,
        ),
        e.waiting.len() == d.waiting.len() + (e.frames.len() - d.frames.len()),
        d.tiles == e.tiles.take(d.tiles.len() as int),
        d.frames == e.frames.take(d.frames.len() as int),
{
    let w = d.open->0;
    let f = fates(store, w, items, fits, base);
    every_visible_child_is_drawn(store, w, items, fits, base, d.waiting, i);
    assert(d.tiles == e.tiles.take(d.tiles.len() as int));
    assert(d.frames == e.frames.take(d.frames.len() as int));
    assert forall|t: TileView| #[trigger] filled(f).contains(t) implies e.tiles.contains(t) by {
        let k = choose|k: int| 0 <= k < filled(f).len() && filled(f)[k] == t;
        assert(e.tiles[d.tiles.len() + k] == t);
    }
    assert forall|g: FrameView| #[trigger] opened(f).contains(g) implies e.frames.contains(g) by {
        let k = choose|k: int| 0 <= k < opened(f).len() && opened(f)[k] == g;
        assert(e.frames[d.frames.len() + k] == g);
    }
}

/// A map as it stands is what its layout holds.
pub proof fn drawing_is_what_is_laid_out(l: Layout, open: Option<Work>)
    ensures
        l.drawing(open).tiles == tile_views(l.tiles@),
        l.drawing(open).frames == frame_views(l.frames@),
        l.drawing(open).waiting == l.heap.waiting(),
        l.drawing(open).open == open,
{
}

/// A layout starts, goes on and fills its directories as a map does: with its root; with the
/// largest that waits, or none where nothing waits or there are tiles enough; and with what
/// becomes of each child.
pub proof fn layout_draws_the_map(
    store: Store,
    root: u32,
    area: u64,
    a: Layout,
    l: &mut Layout,
    r: Option<Work>,
    m: &mut Layout,
    w: Work,
    items: Vec<Item>,
    fits: Vec<Fit>,
)
    requires
        store.wf(),
        root < store.nodes@.len(),
        call_ensures(Layout::start, (&store, root, area), a),
        old(l).wf(store),
        call_ensures(Layout::next, (l, &store), r),
        old(m).wf(store),
        old(m).root_opened(),
        old(m).root <= w.id < store.nodes@.len(),
        items@.len() == fits@.len(),
        old(m).spots + items@.len() <= usize::MAX,
        forall|i: int|
            0 <= i < items@.len() ==> match #[trigger] items@[i] {
                Item::One { id } => is_child(store.nodes@, w.id as int, id as int),
                Item::Rest { count: _, bytes: _ } => true,
            },
        call_ensures(Layout::place, (m, &store, w, &items, &fits), ()),
    ensures
        begun(store, root, area, a.drawing(None)),
        a.spots == 1,
        goes_on(store, old(l).drawing(None), final(l).drawing(r)),
        final(l).spots == old(l).spots,
        fills(
            store,
            old(m).drawing(Some(w)),
            final(m).drawing(None),
            items@,
            fits@,
            old(m).spots as int,
        ),
        final(m).spots == old(m).spots + items@.len(),
{
}

} // verus!
