//! The treemap's order of work: which directories are opened, what each of their
//! children becomes, and when the map stops going deeper. Where on the screen
//! things lie is the caller's business; here a place is only a number, the `spot`.

use crate::drawn::{begun, closes_up, fills, goes_on, items_of};
use crate::heap::{Heap, Work};
use crate::kids::weight_of;
use crate::numbers::{decimal, push_decimal};
use crate::order::Ranked;
use crate::store::{is_child, Store};
use crate::sums::{count_where, lemma_sum_none, lemma_sum_same, lemma_sum_split, sum_where};
use crate::text::push_text;
use vstd::multiset::Multiset;
use vstd::prelude::*;

verus! {

/// The slot of a run of siblings too small to be drawn one by one.
pub const SLOT_SMALL: u8 = 253;

/// The slot of a directory that is not opened.
pub const SLOT_DIRAGG: u8 = 254;

/// How many tiles there may be before directories stay closed.
pub const MAX_RECTS: usize = 40_000;

/// How deep directories are opened.
pub const MAX_DEPTH: u16 = 64;

/// A filled tile. `kind` is 0 for a file, 1 for a closed directory, 2 for a run of
/// small items, whose `node` is the directory they lie in.
pub struct Tile {
    pub node: u32,
    pub spot: usize,
    pub slot: u8,
    pub kind: u8,
    pub name: String,
    pub bytes: u64,
}

/// What a tile says.
pub struct TileView {
    pub node: u32,
    pub spot: usize,
    pub slot: u8,
    pub kind: u8,
    pub name: Seq<char>,
    pub bytes: u64,
}

impl View for Tile {
    type V = TileView;

    open spec fn view(&self) -> TileView {
        TileView {
            node: self.node,
            spot: self.spot,
            slot: self.slot,
            kind: self.kind,
            name: self.name@,
            bytes: self.bytes,
        }
    }
}

/// The frame round an opened directory.
pub struct Frame {
    pub node: u32,
    pub spot: usize,
    pub depth: u16,
    pub name: String,
    pub bytes: u64,
}

/// What a frame says.
pub struct FrameView {
    pub node: u32,
    pub spot: usize,
    pub depth: u16,
    pub name: Seq<char>,
    pub bytes: u64,
}

impl View for Frame {
    type V = FrameView;

    open spec fn view(&self) -> FrameView {
        FrameView {
            node: self.node,
            spot: self.spot,
            depth: self.depth,
            name: self.name@,
            bytes: self.bytes,
        }
    }
}

/// A child drawn by itself, or a number of the lightest ones drawn as one, with what
/// they weigh together.
#[derive(Clone, Copy)]
pub enum Item {
    One { id: u32 },
    Rest { count: u32, bytes: u64 },
}

/// `n` in 64 bits, or the largest number there where it does not fit.
pub open spec fn capped(n: nat) -> u64 {
    if n <= u64::MAX {
        n as u64
    } else {
        u64::MAX
    }
}

/// Where the run of small children starts: at the first small one, unless it is
/// the last of all.
pub open spec fn tail_start(tiny: Seq<bool>, from: int) -> int
    decreases tiny.len() - from,
{
    if from >= tiny.len() - 1 {
        tiny.len() as int
    } else if tiny[from] {
        from
    } else {
        tail_start(tiny, from + 1)
    }
}

/// The children, heaviest first, with the run of small ones at the end drawn as
/// one.
pub open spec fn merged(kids: Seq<Ranked>, tiny: Seq<bool>) -> Seq<Item> {
    let at = tail_start(tiny, 0);
    let ones = Seq::new(at as nat, |i: int| Item::One { id: kids[i].id });
    if at < kids.len() {
        ones.push(
            Item::Rest { count: (kids.len() - at) as u32, bytes: capped(weight_of(kids.skip(at))) },
        )
    } else {
        ones
    }
}

pub proof fn lemma_tail_start(tiny: Seq<bool>, from: int)
    requires
        0 <= from <= tiny.len(),
    ensures
        from <= tail_start(tiny, from) <= tiny.len(),
        forall|i: int| from <= i < tail_start(tiny, from) && i < tiny.len() - 1 ==> !tiny[i],
        tail_start(tiny, from) < tiny.len() ==> tail_start(tiny, from) < tiny.len() - 1
            && tiny[tail_start(tiny, from)],
    decreases tiny.len() - from,
{
    if from < tiny.len() - 1 && !tiny[from] {
        lemma_tail_start(tiny, from + 1);
    }
}

/// What the children from `from` on weigh together.
fn tail_weight(kids: &Vec<Ranked>, from: usize) -> (sum: u64)
    requires
        from <= kids@.len(),
    ensures
        sum == capped(weight_of(kids@.skip(from as int))),
{
    let ghost tail = kids@.skip(from as int);
    let mut sum: u64 = 0;
    assert(tail.take(0) == Seq::<Ranked>::empty());
    for i in from..kids.len()
        invariant
            from <= kids@.len(),
            tail == kids@.skip(from as int),
            sum == capped(weight_of(tail.take(i - from))),
    {
        assert(tail.take(i - from + 1).drop_last() == tail.take(i - from));
        assert(tail.take(i - from + 1).last() == kids@[i as int]);
        sum = sum.saturating_add(kids[i].weight);
    }
    assert(tail.take(kids@.len() - from) == tail);
    sum
}

/// Draws the run of small children at the end as one, from which of the children
/// are too small to be drawn by themselves.
pub fn merge_tail(kids: &Vec<Ranked>, tiny: &Vec<bool>) -> (items: Vec<Item>)
    requires
        kids@.len() == tiny@.len() <= u32::MAX,
    ensures
        items@ == merged(kids@, tiny@),
{
    let mut items: Vec<Item> = Vec::new();
    let n = kids.len();
    let mut i: usize = 0;
    proof {
        lemma_tail_start(tiny@, 0);
    }
    while i < n
        invariant_except_break
            n == kids@.len() == tiny@.len() <= u32::MAX,
            i <= n,
            tail_start(tiny@, 0) == tail_start(tiny@, i as int),
            items@ == Seq::new(i as nat, |k: int| Item::One { id: kids@[k].id }),
        ensures
            items@ == merged(kids@, tiny@),
        decreases n - i,
    {
        if tiny[i] && i + 1 < n {
            items.push(Item::Rest { count: (n - i) as u32, bytes: tail_weight(kids, i) });
            break;
        }
        items.push(Item::One { id: kids[i].id });
        i = i + 1;
        assert(items@ == Seq::new(i as nat, |k: int| Item::One { id: kids@[k].id }));
    }
    items
}

/// How many children an item stands for.
pub open spec fn stands_for(item: Item) -> nat {
    match item {
        Item::One { id: _ } => 1,
        Item::Rest { count, bytes: _ } => count as nat,
    }
}

/// How many children the items stand for together.
pub open spec fn stand_for(items: Seq<Item>) -> nat
    decreases items.len(),
{
    if items.len() == 0 {
        0
    } else {
        stand_for(items.drop_last()) + stands_for(items.last())
    }
}

proof fn lemma_ones(kids: Seq<Ranked>, n: nat)
    ensures
        stand_for(Seq::new(n, |i: int| Item::One { id: kids[i].id })) == n,
    decreases n,
{
    let ones = Seq::new(n, |i: int| Item::One { id: kids[i].id });
    if n > 0 {
        lemma_ones(kids, (n - 1) as nat);
        assert(ones.drop_last() == Seq::new((n - 1) as nat, |i: int| Item::One { id: kids[i].id }));
    }
}

/// Merging loses no child: the items stand for all of them, and only a run of at
/// least two is drawn as one.
pub proof fn merging_loses_nothing(kids: Seq<Ranked>, tiny: Seq<bool>)
    requires
        kids.len() == tiny.len() <= u32::MAX,
    ensures
        stand_for(merged(kids, tiny)) == kids.len(),
        forall|i: int|
            0 <= i < merged(kids, tiny).len() ==> ((#[trigger] merged(kids, tiny)[i]) is Rest
                ==> stands_for(merged(kids, tiny)[i]) >= 2 && i == merged(kids, tiny).len() - 1),
{
    lemma_tail_start(tiny, 0);
    let at = tail_start(tiny, 0);
    lemma_ones(kids, at as nat);
    let all = merged(kids, tiny);
    if at < kids.len() {
        assert(all.drop_last() == Seq::new(at as nat, |i: int| Item::One { id: kids[i].id }));
    }
}

/// What the caller found of one item's place: whether it is large enough to be
/// seen, whether it is large enough to be opened, and its area.
#[derive(Clone, Copy)]
pub struct Fit {
    pub visible: bool,
    pub roomy: bool,
    pub area: u64,
}

/// What becomes of an item.
pub enum Fate {
    Nothing,
    Filled(TileView),
    Opened(FrameView, Work),
}

/// What becomes of one item of the directory `w`, at `spot`.
pub open spec fn fate(
    store: Store,
    w: Work,
    item: Item,
    fit: Fit,
    spot: usize,
) -> Fate {
    if !fit.visible {
        Fate::Nothing
    } else {
        match item {
            Item::Rest { count, bytes } => Fate::Filled(
                TileView {
                    node: w.id,
                    spot,
                    slot: SLOT_SMALL,
                    kind: 2,
                    name: decimal(count as nat) + " small items"@,
                    bytes,
                },
            ),
            Item::One { id } => {
                let k = store.nodes@[id as int];
                if !k.is_dir {
                    Fate::Filled(
                        TileView {
                            node: id,
                            spot,
                            slot: store.exts@[k.ext as int].slot,
                            kind: 0,
                            name: k.name@,
                            bytes: k.size,
                        },
                    )
                } else if fit.roomy && w.depth < MAX_DEPTH {
                    Fate::Opened(
                        FrameView { node: id, spot, depth: w.depth, name: k.name@, bytes: k.size },
                        Work { area: fit.area, id, spot, depth: (w.depth + 1) as u16 },
                    )
                } else {
                    Fate::Filled(closed_tile(store, id, spot))
                }
            },
        }
    }
}

/// The tile of a directory that is not opened.
pub open spec fn closed_tile(store: Store, id: u32, spot: usize) -> TileView {
    let k = store.nodes@[id as int];
    TileView { node: id, spot, slot: SLOT_DIRAGG, kind: 1, name: k.name@, bytes: k.size }
}

/// What has been drawn so far and what still waits.
pub struct Layout {
    pub root: u32,
    pub tiles: Vec<Tile>,
    pub frames: Vec<Frame>,
    pub spots: usize,
    pub heap: Heap,
}

/// The tiles as they stand.
pub open spec fn tile_views(v: Seq<Tile>) -> Seq<TileView> {
    v.map_values(|t: Tile| t@)
}

/// The frames as they stand.
pub open spec fn frame_views(v: Seq<Frame>) -> Seq<FrameView> {
    v.map_values(|f: Frame| f@)
}

/// The tiles that the fates fill.
pub open spec fn filled(fates: Seq<Fate>) -> Seq<TileView>
    decreases fates.len(),
{
    if fates.len() == 0 {
        Seq::empty()
    } else {
        match fates.last() {
            Fate::Filled(t) => filled(fates.drop_last()).push(t),
            _ => filled(fates.drop_last()),
        }
    }
}

/// The frames that the fates open.
pub open spec fn opened(fates: Seq<Fate>) -> Seq<FrameView>
    decreases fates.len(),
{
    if fates.len() == 0 {
        Seq::empty()
    } else {
        match fates.last() {
            Fate::Opened(f, _) => opened(fates.drop_last()).push(f),
            _ => opened(fates.drop_last()),
        }
    }
}

/// What waits once the fates have been dealt out to `m`.
pub open spec fn then_waiting(m: Multiset<Work>, fates: Seq<Fate>) -> Multiset<Work>
    decreases fates.len(),
{
    if fates.len() == 0 {
        m
    } else {
        match fates.last() {
            Fate::Opened(_, w) => then_waiting(m, fates.drop_last()).insert(w),
            _ => then_waiting(m, fates.drop_last()),
        }
    }
}

/// The fates of the items of `w`, whose places start at `base`.
pub open spec fn fates(
    store: Store,
    w: Work,
    items: Seq<Item>,
    fits: Seq<Fit>,
    base: int,
) -> Seq<Fate> {
    Seq::new(items.len(), |i: int| fate(store, w, items[i], fits[i], (base + i) as usize))
}

/// The largest of what waits.
pub open spec fn largest_of(m: Multiset<Work>, w: Work) -> bool {
    m.contains(w) && forall|x: Work| #[trigger] m.contains(x) ==> w.area >= x.area
}

/// The closed tiles of `order`.
pub open spec fn closed_tiles(store: Store, order: Seq<Work>) -> Seq<TileView> {
    order.map_values(|w: Work| closed_tile(store, w.id, w.spot))
}

/// The works of `order`, largest first.
pub open spec fn largest_first(order: Seq<Work>) -> bool {
    forall|i: int, j: int|
        0 <= i < j < order.len() ==> (#[trigger] order[i]).area >= (#[trigger] order[j]).area
}

/// `order` lists all that waits in `m`, largest first.
pub open spec fn works_off(m: Multiset<Work>, order: Seq<Work>) -> bool {
    order.to_multiset() == m && largest_first(order)
}

impl Layout {
    /// Everything that waits is a node of the arena below the root, or the root
    /// waits by itself and nothing has been drawn yet.
    pub open spec fn wf(&self, store: Store) -> bool {
        &&& self.heap.wf()
        &&& self.root < store.nodes@.len()
        &&& forall|w: Work| #[trigger]
            self.heap.waiting().contains(w) ==> self.root <= w.id < store.nodes@.len()
        &&& self.root_opened() || (self.tiles@.len() == 0 && self.heap.waiting().len() == 1)
    }

    /// Whether only nodes behind the root wait.
    pub open spec fn root_opened(&self) -> bool {
        forall|w: Work| #[trigger] self.heap.waiting().contains(w) ==> w.id > self.root
    }

    /// A map of `root`, whose area is `area` and whose place is spot 0. There is
    /// nothing to draw of an empty directory.
    pub fn start(store: &Store, root: u32, area: u64) -> (l: Layout)
        requires
            store.wf(),
            root < store.nodes@.len(),
        ensures
            l.wf(*store),
            l.root == root,
            l.tiles@.len() == 0,
            l.frames@.len() == 0,
            l.spots == 1,
            l.heap.waiting() == if store.nodes@[root as int].size == 0 {
                Multiset::<Work>::empty()
            } else {
                Multiset::<Work>::empty().insert(Work { area, id: root, spot: 0, depth: 0 })
            },
            begun(*store, root, area, l.drawing(None)),
    {
        let mut heap = Heap::new();
        if store.nodes[root as usize].size != 0 {
            heap.push(Work { area, id: root, spot: 0, depth: 0 });
        }
        Layout { root, tiles: Vec::new(), frames: Vec::new(), spots: 1, heap }
    }

    fn close(&mut self, store: &Store, w: Work)
        requires
            store.wf(),
            w.id < store.nodes@.len(),
        ensures
            tile_views(final(self).tiles@) == tile_views(old(self).tiles@).push(
                closed_tile(*store, w.id, w.spot),
            ),
            final(self).frames == old(self).frames,
            final(self).heap == old(self).heap,
            final(self).root == old(self).root,
            final(self).spots == old(self).spots,
    {
        let ghost before = self.tiles@;
        let k = &store.nodes[w.id as usize];
        self.tiles.push(
            Tile {
                node: w.id,
                spot: w.spot,
                slot: SLOT_DIRAGG,
                kind: 1,
                name: k.name.clone(),
                bytes: k.size,
            },
        );
        assert(tile_views(self.tiles@) == tile_views(before).push(
            closed_tile(*store, w.id, w.spot),
        ));
    }

    /// The next directory to open: the largest that waits. Once there are as many
    /// tiles as there may be, nothing is opened any more, and all that waits is
    /// filled as closed tiles, largest first.
    pub fn next(&mut self, store: &Store) -> (r: Option<Work>)
        requires
            store.wf(),
            old(self).wf(*store),
        ensures
            final(self).wf(*store),
            final(self).root == old(self).root,
            final(self).frames == old(self).frames,
            final(self).spots == old(self).spots,
            old(self).tiles@.len() < MAX_RECTS ==> final(self).tiles == old(self).tiles,
            old(self).tiles@.len() < MAX_RECTS ==> match r {
                Some(w) => largest_of(old(self).heap.waiting(), w) && final(self).heap.waiting()
                    == old(self).heap.waiting().remove(w),
                None => old(self).heap.waiting() == Multiset::<Work>::empty()
                    && final(self).heap.waiting() == Multiset::<Work>::empty(),
            },
            old(self).tiles@.len() >= MAX_RECTS ==> r is None && final(self).heap.waiting()
                == Multiset::<Work>::empty() && exists|order: Seq<Work>|
                #![trigger works_off(old(self).heap.waiting(), order)]
                works_off(old(self).heap.waiting(), order) && tile_views(final(self).tiles@)
                    == tile_views(old(self).tiles@) + closed_tiles(*store, order),
            r is Some ==> old(self).root <= (r->0).id < store.nodes@.len(),
            final(self).root_opened(),
            goes_on(*store, old(self).drawing(None), final(self).drawing(r)),
    {
        if self.tiles.len() < MAX_RECTS {
            let ghost m = self.heap.waiting();
            let r = self.heap.pop();
            proof {
                let left = self.heap.waiting();
                assert forall|x: Work| #[trigger] left.contains(x) implies m.contains(x) by {}
                if m.len() == 1 && r is Some {
                    assert(left.len() == 0);
                    assert forall|x: Work| !#[trigger] left.contains(x) by {
                        if left.contains(x) {
                            assert(left.remove(x).len() == left.len() - 1);
                        }
                    }
                }
            }
            return r;
        }
        let ghost m = self.heap.waiting();
        let ghost t0 = tile_views(self.tiles@);
        let ghost mut order: Seq<Work> = Seq::empty();
        proof {
            order.to_multiset_ensures();
            assert(order.to_multiset() =~= Multiset::<Work>::empty()) by {
                assert forall|w: Work| order.to_multiset().count(w) == 0 by {
                    assert(!order.contains(w));
                }
            }
            assert(t0 == t0 + closed_tiles(*store, order));
            assert(m =~= order.to_multiset().add(m));
        }
        let mut left: usize = self.heap.len();
        while left > 0
            invariant
                store.wf(),
                self.wf(*store),
                self.root_opened(),
                self.root == old(self).root,
                self.frames == old(self).frames,
                self.spots == old(self).spots,
                self.tiles@.len() >= MAX_RECTS,
                left == self.heap.waiting().len(),
                m == old(self).heap.waiting(),
                t0 == tile_views(old(self).tiles@),
                m == order.to_multiset().add(self.heap.waiting()),
                largest_first(order),
                forall|i: int, x: Work|
                    0 <= i < order.len() && #[trigger] self.heap.waiting().contains(x) ==> (
                    #[trigger] order[i]).area >= x.area,
                tile_views(self.tiles@) == t0 + closed_tiles(*store, order),
            decreases left,
        {
            let ghost h = self.heap.waiting();
            let ghost before = self.tiles@;
            let ghost done = order;
            match self.heap.pop() {
                Some(w) => {
                    self.close(store, w);
                    left = left - 1;
                    proof {
                        assert(self.tiles@.len() == tile_views(self.tiles@).len());
                        assert(tile_views(before).len() == before.len());
                        order = done.push(w);
                        done.to_multiset_ensures();
                        assert(order.to_multiset() =~= done.to_multiset().insert(w));
                        assert(h.count(w) > 0);
                        assert(m =~= order.to_multiset().add(self.heap.waiting()));
                        assert forall|x: Work| #[trigger]
                            self.heap.waiting().contains(x) implies h.contains(x) by {}
                        assert(closed_tiles(*store, order) == closed_tiles(*store, done).push(
                            closed_tile(*store, w.id, w.spot),
                        ));
                        assert(tile_views(self.tiles@) == t0 + closed_tiles(*store, order));
                    }
                },
                None => {
                    assert(false);
                },
            }
        }
        proof {
            let h = self.heap.waiting();
            assert(h =~= Multiset::<Work>::empty());
            assert(m =~= order.to_multiset());
            assert(works_off(m, order));
            let d = old(self).drawing(None);
            assert(works_off(d.waiting, order) && self.drawing(None).tiles == d.tiles
                + closed_tiles(*store, order));
            assert(closes_up(*store, old(self).drawing(None), self.drawing(None)));
        }
        None
    }

    fn settle(
        &mut self,
        store: &Store,
        w: Work,
        item: Item,
        fit: Fit,
        spot: usize,
    )
        requires
            store.wf(),
            old(self).heap.wf(),
            match item {
                Item::One { id } => is_child(store.nodes@, w.id as int, id as int),
                Item::Rest { count: _, bytes: _ } => true,
            },
            w.id < store.nodes@.len(),
        ensures
            final(self).root == old(self).root,
            final(self).spots == old(self).spots,
            final(self).heap.wf(),
            match fate(*store, w, item, fit, spot) {
                Fate::Nothing => final(self).tiles == old(self).tiles && final(self).frames == old(
                    self,
                ).frames && final(self).heap.waiting() == old(self).heap.waiting(),
                Fate::Filled(t) => tile_views(final(self).tiles@) == tile_views(
                    old(self).tiles@,
                ).push(t) && final(self).frames == old(self).frames && final(self).heap.waiting()
                    == old(self).heap.waiting(),
                Fate::Opened(f, o) => final(self).tiles == old(self).tiles && frame_views(
                    final(self).frames@,
                ) == frame_views(old(self).frames@).push(f) && final(self).heap.waiting() == old(
                    self,
                ).heap.waiting().insert(o),
            },
    {
        if !fit.visible {
            return ;
        }
        let ghost tiles = self.tiles@;
        let ghost frames = self.frames@;
        match item {
            Item::Rest { count, bytes } => {
                let mut name = String::new();
                push_decimal(&mut name, count as u128);
                push_text(&mut name, " small items");
                assert(name@ == decimal(count as nat) + " small items"@);
                self.tiles.push(
                    Tile {
                        node: w.id,
                        spot,
                        slot: SLOT_SMALL,
                        kind: 2,
                        name,
                        bytes,
                    },
                );
                assert(tile_views(self.tiles@) == tile_views(tiles).push(
                    self.tiles@[tiles.len() as int]@,
                ));
            },
            Item::One { id } => {
                let k = &store.nodes[id as usize];
                if !k.is_dir {
                    self.tiles.push(
                        Tile {
                            node: id,
                            spot,
                            slot: store.exts[k.ext as usize].slot,
                            kind: 0,
                            name: k.name.clone(),
                            bytes: k.size,
                        },
                    );
                    assert(tile_views(self.tiles@) == tile_views(tiles).push(
                        self.tiles@[tiles.len() as int]@,
                    ));
                } else if fit.roomy && w.depth < MAX_DEPTH {
                    self.frames.push(
                        Frame {
                            node: id,
                            spot,
                            depth: w.depth,
                            name: k.name.clone(),
                            bytes: k.size,
                        },
                    );
                    assert(frame_views(self.frames@) == frame_views(frames).push(
                        self.frames@[frames.len() as int]@,
                    ));
                    self.heap.push(Work { area: fit.area, id, spot, depth: w.depth + 1 });
                } else {
                    self.close(store, Work { area: fit.area, id, spot, depth: 0 });
                }
            },
        }
    }

    /// Deals with the children of the directory `w`, from what the caller found of
    /// their places. The places count on from the spots given out so far.
    pub fn place(
        &mut self,
        store: &Store,
        w: Work,
        items: &Vec<Item>,
        fits: &Vec<Fit>,
    )
        requires
            store.wf(),
            old(self).wf(*store),
            old(self).root_opened(),
            old(self).root <= w.id < store.nodes@.len(),
            items@.len() == fits@.len(),
            old(self).spots + items@.len() <= usize::MAX,
            forall|i: int|
                0 <= i < items@.len() ==> match #[trigger] items@[i] {
                    Item::One { id } => is_child(store.nodes@, w.id as int, id as int),
                    Item::Rest { count: _, bytes: _ } => true,
                },
        ensures
            final(self).wf(*store),
            final(self).root_opened(),
            final(self).root == old(self).root,
            final(self).spots == old(self).spots + items@.len(),
            ({
                let f = fates(*store, w, items@, fits@, old(self).spots as int);
                &&& tile_views(final(self).tiles@) == tile_views(old(self).tiles@) + filled(f)
                &&& frame_views(final(self).frames@) == frame_views(old(self).frames@) + opened(f)
                &&& final(self).heap.waiting() == then_waiting(old(self).heap.waiting(), f)
            }),
            items_of(store.nodes@, w.id as int, items@) ==> goes_on(
                *store,
                old(self).drawing(Some(w)),
                final(self).drawing(None),
            ),
    {
        let ghost all = fates(*store, w, items@, fits@, self.spots as int);
        let base = self.spots;
        assert(all.take(0) == Seq::<Fate>::empty());
        for i in 0..items.len()
            invariant
                store.wf(),
                self.heap.wf(),
                self.root == old(self).root,
                self.spots == base == old(self).spots,
                self.root <= w.id < store.nodes@.len(),
                forall|x: Work| #[trigger]
                    self.heap.waiting().contains(x) ==> self.root < x.id < store.nodes@.len(),
                items@.len() == fits@.len() == all.len(),
                base + items@.len() <= usize::MAX,
                all == fates(*store, w, items@, fits@, base as int),
                forall|i: int|
                    0 <= i < items@.len() ==> match #[trigger] items@[i] {
                        Item::One { id } => is_child(store.nodes@, w.id as int, id as int),
                        Item::Rest { count: _, bytes: _ } => true,
                    },
                tile_views(self.tiles@) == tile_views(old(self).tiles@) + filled(
                    all.take(i as int),
                ),
                frame_views(self.frames@) == frame_views(old(self).frames@) + opened(
                    all.take(i as int),
                ),
                self.heap.waiting() == then_waiting(old(self).heap.waiting(), all.take(i as int)),
        {
            proof {
                assert(all.take(i + 1).drop_last() == all.take(i as int));
                assert(all.take(i + 1).last() == all[i as int]);
            }
            let ghost before = self.heap.waiting();
            self.settle(store, w, items[i], fits[i], base + i);
            assert forall|x: Work| #[trigger] self.heap.waiting().contains(x) implies self.root
                < x.id < store.nodes@.len() by {
                if !before.contains(x) {
                    assert(before.count(x) == 0);
                    assert(store.nodes@[x.id as int].parent < x.id);
                }
            }
        }
        assert(all.take(all.len() as int) == all);
        self.spots = base + items.len();
        assert(fills(
            *store,
            old(self).drawing(Some(w)),
            self.drawing(None),
            items@,
            fits@,
            base as int,
        ));
    }
}

/// Whether nothing in `m` is larger than `area`.
pub open spec fn within(m: Multiset<Work>, area: u64) -> bool {
    forall|x: Work| #[trigger] m.contains(x) ==> x.area <= area
}

/// Directories are opened in order of size: where no child is larger than the
/// directory it lies in, nothing that waits once a directory has been opened is larger
/// than that directory.
pub proof fn larger_opened_first(m: Multiset<Work>, w: Work, f: Seq<Fate>)
    requires
        largest_of(m, w),
        forall|i: int|
            0 <= i < f.len() ==> match #[trigger] f[i] {
                Fate::Opened(_, o) => o.area <= w.area,
                _ => true,
            },
    ensures
        within(then_waiting(m.remove(w), f), w.area),
    decreases f.len(),
{
    if f.len() == 0 {
        assert forall|x: Work| #[trigger] m.remove(w).contains(x) implies x.area <= w.area by {
            assert(m.contains(x));
        }
    } else {
        let rest = f.drop_last();
        assert forall|i: int| 0 <= i < rest.len() implies match #[trigger] rest[i] {
            Fate::Opened(_, o) => o.area <= w.area,
            _ => true,
        } by {
            assert(rest[i] == f[i]);
        }
        larger_opened_first(m, w, rest);
        assert(f[f.len() - 1] == f.last());
        let before = then_waiting(m.remove(w), rest);
        assert forall|x: Work| #[trigger] then_waiting(m.remove(w), f).contains(x) implies x.area
            <= w.area by {
            if !before.contains(x) {
                assert(before.count(x) == 0);
            }
        }
    }
}

/// What becomes of a child of the directory `w`. One too small to be seen is not drawn.
/// A file gets a tile in the color of its type. A directory with room in it is opened
/// at any depth below 64: it gets a frame and waits one level further down. Every other
/// directory gets a closed tile.
pub proof fn what_becomes_of_a_child(store: Store, w: Work, id: u32, fit: Fit, spot: usize)
    ensures
        ({
            let k = store.nodes@[id as int];
            let f = fate(store, w, Item::One { id }, fit, spot);
            &&& !fit.visible ==> f == Fate::Nothing
            &&& fit.visible && !k.is_dir ==> f == Fate::Filled(
                TileView {
                    node: id,
                    spot,
                    slot: store.exts@[k.ext as int].slot,
                    kind: 0,
                    name: k.name@,
                    bytes: k.size,
                },
            )
            &&& fit.visible && k.is_dir && fit.roomy && w.depth < 64 ==> f == Fate::Opened(
                FrameView { node: id, spot, depth: w.depth, name: k.name@, bytes: k.size },
                Work { area: fit.area, id, spot, depth: (w.depth + 1) as u16 },
            )
            &&& fit.visible && k.is_dir && (!fit.roomy || w.depth >= 64) ==> f == Fate::Filled(
                TileView { node: id, spot, slot: 254, kind: 1, name: k.name@, bytes: k.size },
            )
        }),
{
}

/// What becomes of a run of small children: one tile of their directory, which says how
/// many they are and what they weigh.
pub proof fn what_becomes_of_small_children(
    store: Store,
    w: Work,
    count: u32,
    bytes: u64,
    fit: Fit,
    spot: usize,
)
    ensures
        ({
            let f = fate(store, w, Item::Rest { count, bytes }, fit, spot);
            &&& !fit.visible ==> f == Fate::Nothing
            &&& fit.visible ==> f == Fate::Filled(
                TileView {
                    node: w.id,
                    spot,
                    slot: 253,
                    kind: 2,
                    name: decimal(count as nat) + " small items"@,
                    bytes,
                },
            )
        }),
{
}

proof fn lemma_fates_dealt(m: Multiset<Work>, f: Seq<Fate>, i: int)
    requires
        0 <= i < f.len(),
    ensures
        f[i] is Filled ==> filled(f).contains(f[i]->Filled_0),
        f[i] is Opened ==> opened(f).contains(f[i]->Opened_0) && then_waiting(m, f).contains(
            f[i]->Opened_1,
        ),
    decreases f.len(),
{
    let r = f.drop_last();
    let last = f.last();
    if i == f.len() - 1 {
        match last {
            Fate::Filled(t) => {
                assert(filled(f)[filled(r).len() as int] == t);
            },
            Fate::Opened(g, w) => {
                assert(opened(f)[opened(r).len() as int] == g);
            },
            _ => {},
        }
    } else {
        assert(r[i] == f[i]);
        lemma_fates_dealt(m, r, i);
        if f[i] is Filled {
            let k = choose|k: int| 0 <= k < filled(r).len() && filled(r)[k] == f[i]->Filled_0;
            assert(filled(f)[k] == f[i]->Filled_0);
        }
        if f[i] is Opened {
            let k = choose|k: int| 0 <= k < opened(r).len() && opened(r)[k] == f[i]->Opened_0;
            assert(opened(f)[k] == f[i]->Opened_0);
            assert(then_waiting(m, r).count(f[i]->Opened_1) > 0);
        }
    }
}

proof fn lemma_fates_counted(m: Multiset<Work>, f: Seq<Fate>)
    ensures
        filled(f).len() == count_where(f.len() as int, |i: int| f[i] is Filled),
        opened(f).len() == count_where(f.len() as int, |i: int| f[i] is Opened),
        then_waiting(m, f).len() == m.len() + count_where(f.len() as int, |i: int| f[i] is Opened),
    decreases f.len(),
{
    if f.len() > 0 {
        let r = f.drop_last();
        lemma_fates_counted(m, r);
        let n = r.len() as int;
        lemma_sum_same(n, |i: int| f[i] is Filled, |i: int| r[i] is Filled, |i: int| 1nat, |i: int|
            1nat);
        lemma_sum_same(n, |i: int| f[i] is Opened, |i: int| r[i] is Opened, |i: int| 1nat, |i: int|
            1nat);
    }
}

/// Every child that can be seen is drawn: as the items of the directory `w` are dealt
/// with, each visible file gets its tile, each visible directory with room in it, less
/// than 64 levels down, gets its frame and joins what waits, and each other visible
/// directory gets a closed tile. There is nothing more than that.
pub proof fn every_visible_child_is_drawn(
    store: Store,
    w: Work,
    items: Seq<Item>,
    fits: Seq<Fit>,
    base: int,
    m: Multiset<Work>,
    i: int,
)
    requires
        0 <= i < items.len(),
        items[i] is One,
        fits[i].visible,
    ensures
        ({
            let f = fates(store, w, items, fits, base);
            let id = items[i]->id;
            let k = store.nodes@[id as int];
            let spot = (base + i) as usize;
            if k.is_dir && fits[i].roomy && w.depth < 64 {
                &&& opened(f).contains(
                    FrameView { node: id, spot, depth: w.depth, name: k.name@, bytes: k.size },
                )
                &&& then_waiting(m, f).contains(
                    Work { area: fits[i].area, id, spot, depth: (w.depth + 1) as u16 },
                )
            } else if k.is_dir {
                filled(f).contains(
                    TileView { node: id, spot, slot: 254, kind: 1, name: k.name@, bytes: k.size },
                )
            } else {
                filled(f).contains(
                    TileView {
                        node: id,
                        spot,
                        slot: store.exts@[k.ext as int].slot,
                        kind: 0,
                        name: k.name@,
                        bytes: k.size,
                    },
                )
            }
        }),
        filled(fates(store, w, items, fits, base)).len() + opened(
            fates(store, w, items, fits, base),
        ).len() == count_where(items.len() as int, |j: int| fits[j].visible),
        then_waiting(m, fates(store, w, items, fits, base)).len() == m.len() + opened(
            fates(store, w, items, fits, base),
        ).len(),
{
    let f = fates(store, w, items, fits, base);
    let n = items.len() as int;
    lemma_fates_dealt(m, f, i);
    lemma_fates_counted(m, f);
    assert(f[i] == fate(store, w, items[i], fits[i], (base + i) as usize));
    let seen = |j: int| fits[j].visible;
    let tile = |j: int| f[j] is Filled;
    let frame = |j: int| f[j] is Opened;
    assert forall|j: int| 0 <= j < n implies #[trigger] seen(j) == (tile(j) || frame(j)) && !(tile(
        j,
    ) && frame(j)) by {
        assert(f[j] == fate(store, w, items[j], fits[j], (base + j) as usize));
    }
    lemma_sum_split(n, seen, tile, frame, |j: int| 1nat);
}

/// Children are merged from the first small one on, unless that is the last of all:
/// every child before it is drawn by itself, in order, and the rest by their number and
/// weight.
pub proof fn small_children_are_merged(kids: Seq<Ranked>, tiny: Seq<bool>, at: int)
    requires
        kids.len() == tiny.len() <= u32::MAX,
        0 <= at <= kids.len(),
        forall|i: int| 0 <= i < at && i < kids.len() - 1 ==> !#[trigger] tiny[i],
        at < kids.len() ==> tiny[at] && at < kids.len() - 1,
    ensures
        merged(kids, tiny).len() == at + if at < kids.len() {
            1int
        } else {
            0
        },
        forall|i: int|
            0 <= i < at ==> (#[trigger] merged(kids, tiny)[i]) == (Item::One { id: kids[i].id }),
        at < kids.len() ==> ({
            let total = sum_where(
                kids.len() as int,
                |k: int| at <= k,
                |k: int| kids[k].weight as nat,
            );
            merged(kids, tiny)[at] == (Item::Rest {
                count: (kids.len() - at) as u32,
                bytes: if total <= u64::MAX {
                    total as u64
                } else {
                    u64::MAX
                },
            })
        }),
{
    lemma_tail_start(tiny, 0);
    let x = tail_start(tiny, 0);
    if x < at && x < tiny.len() {
        assert(tiny[x]);
    }
    if at < x && at < tiny.len() {
        assert(!tiny[at]);
    }
    assert(x == at);
    lemma_tail_by_index(kids, at);
}

proof fn lemma_tail_by_index(kids: Seq<Ranked>, at: int)
    requires
        0 <= at <= kids.len(),
    ensures
        weight_of(kids.skip(at)) == sum_where(
            kids.len() as int,
            |k: int| at <= k,
            |k: int| kids[k].weight as nat,
        ),
    decreases kids.len(),
{
    let n = kids.len() as int;
    let p = |k: int| at <= k;
    let w = |k: int| kids[k].weight as nat;
    if at == n {
        assert(kids.skip(at) == Seq::<Ranked>::empty());
        lemma_sum_none(n, p, w);
    } else {
        let r = kids.drop_last();
        lemma_tail_by_index(r, at);
        assert(kids.skip(at).drop_last() == r.skip(at));
        assert(kids.skip(at).last() == kids.last());
        lemma_sum_same(n - 1, p, p, w, |k: int| r[k].weight as nat);
    }
}

/// What tiles and frames say is all that they hold, one after the other.
pub proof fn tiles_say_what_they_hold(t: Tile, f: Frame, v: Seq<Tile>, w: Seq<Frame>, i: int)
    ensures
        t@.node == t.node && t@.spot == t.spot && t@.slot == t.slot && t@.kind == t.kind && t@.name
            == t.name@ && t@.bytes == t.bytes,
        f@.node == f.node && f@.spot == f.spot && f@.depth == f.depth && f@.name == f.name@
            && f@.bytes == f.bytes,
        tile_views(v).len() == v.len(),
        0 <= i < v.len() ==> tile_views(v)[i] == v[i]@,
        frame_views(w).len() == w.len(),
        0 <= i < w.len() ==> frame_views(w)[i] == w[i]@,
{
}

/// Children are merged as what is said of it.
pub proof fn children_are_merged(kids: Vec<Ranked>, tiny: Vec<bool>, items: Vec<Item>)
    requires
        kids@.len() == tiny@.len() <= u32::MAX,
        call_ensures(merge_tail, (&kids, &tiny), items),
    ensures
        items@ == merged(kids@, tiny@),
{
}

} // verus!
