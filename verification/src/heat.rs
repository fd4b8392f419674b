//! The heatmap grid and the explorer tree: which children they show, and where in the
//! grid each one stands.

use crate::kids::{by_weight, heaviest, heaviest_children_are_kept, keep_heaviest,
    kids_by_weight, left_out, listed, lists_every_child};
use crate::order::Ranked;
use crate::store::{is_child, Store};
use crate::sums::count_where;
use crate::treemap::{Frame, Tile};
use crate::web::{node_slot, slot_of};
use vstd::prelude::*;

verus! {

/// How many children the tree shows of one directory.
pub const TREE_ROWS: usize = 400;

/// How deep the tree goes.
pub const TREE_DEPTH: usize = 32;

/// Children to show, and how many are left out.
pub struct Shown {
    pub kids: Vec<Ranked>,
    pub more: u32,
}

/// The heaviest children of `id` up to `cap` of them.
pub open spec fn shows(s: Shown, store: Store, id: int, empty_too: bool, cap: int) -> bool {
    exists|kids: Seq<Ranked>|
        #![trigger by_weight(store.nodes@, id, empty_too, kids)]
        by_weight(store.nodes@, id, empty_too, kids) && s.kids@ == heaviest(kids, cap) && s.more
            == left_out(kids.len() as int, cap)
}

/// The rows of the explorer tree below `id`, `depth` levels down: all living children,
/// heaviest first, up to a limit. Nothing too far down.
pub fn tree_rows(store: &Store, id: u32, depth: usize) -> (s: Shown)
    requires
        store.wf(),
        id < store.nodes@.len(),
    ensures
        depth <= TREE_DEPTH ==> shows(s, *store, id as int, true, TREE_ROWS as int),
        depth > TREE_DEPTH ==> s.kids@.len() == 0 && s.more == 0,
        forall|k: int|
            0 <= k < s.kids@.len() ==> is_child(
                store.nodes@,
                id as int,
                (#[trigger] s.kids@[k]).id as int,
            ),
{
    if depth > TREE_DEPTH {
        return Shown { kids: Vec::new(), more: 0 };
    }
    let mut kids = kids_by_weight(store, id, true);
    let ghost all = kids@;
    let more = keep_heaviest(&mut kids, TREE_ROWS);
    assert(by_weight(store.nodes@, id as int, true, all));
    Shown { kids, more }
}

/// The items of the grid of `id`: every living child, heaviest first. None is left
/// out, an empty one neither.
pub fn heat_kids(store: &Store, id: u32) -> (s: Shown)
    requires
        store.wf(),
        id < store.nodes@.len(),
    ensures
        by_weight(store.nodes@, id as int, true, s.kids@),
        s.more == 0,
        forall|k: int|
            0 <= k < s.kids@.len() ==> is_child(
                store.nodes@,
                id as int,
                (#[trigger] s.kids@[k]).id as int,
            ),
{
    Shown { kids: kids_by_weight(store, id, true), more: 0 }
}

/// A cell of the grid.
pub struct HeatCell {
    pub id: u32,
    pub col: usize,
    pub row: usize,
    pub slot: u8,
    pub dir: bool,
    pub name: String,
    pub size: u64,
}

/// Cell number `i` of a grid with so many columns.
pub open spec fn is_cell(c: HeatCell, store: Store, id: u32, i: int, cols: int) -> bool {
    let n = store.nodes@[id as int];
    &&& c.id == id
    &&& c.col == i % cols
    &&& c.row == i / cols
    &&& c.slot == slot_of(store, id as int)
    &&& c.dir == n.is_dir
    &&& c.name@ == n.name@
    &&& c.size == n.size
}

/// The cells of the grid, row by row.
pub fn heat_cells(store: &Store, id: u32, kids: &Vec<Ranked>, cols: usize) -> (cells: Vec<HeatCell>)
    requires
        store.wf(),
        id < store.nodes@.len(),
        cols > 0,
        forall|k: int|
            0 <= k < kids@.len() ==> is_child(
                store.nodes@,
                id as int,
                (#[trigger] kids@[k]).id as int,
            ),
    ensures
        cells@.len() == kids@.len(),
        forall|k: int|
            0 <= k < kids@.len() ==> is_cell(
                #[trigger] cells@[k],
                *store,
                kids@[k].id,
                k,
                cols as int,
            ),
{
    let mut cells: Vec<HeatCell> = Vec::new();
    for i in 0..kids.len()
        invariant
            store.wf(),
            id < store.nodes@.len(),
            cols > 0,
            forall|k: int|
                0 <= k < kids@.len() ==> is_child(
                    store.nodes@,
                    id as int,
                    (#[trigger] kids@[k]).id as int,
                ),
            cells@.len() == i,
            forall|k: int|
                0 <= k < i ==> is_cell(#[trigger] cells@[k], *store, kids@[k].id, k, cols as int),
    {
        let c = kids[i].id;
        assert(is_child(store.nodes@, id as int, c as int));
        let n = &store.nodes[c as usize];
        cells.push(
            HeatCell {
                id: c,
                col: i % cols,
                row: i / cols,
                slot: node_slot(store, c),
                dir: n.is_dir,
                name: n.name.clone(),
                size: n.size,
            },
        );
    }
    cells
}

/// Every item gets a cell of its own: each living child of `id` stands in exactly one
/// cell of the grid, whatever it weighs, and nothing else has a cell.
pub proof fn one_cell_per_item(
    store: Store,
    id: int,
    kids: Seq<Ranked>,
    cells: Seq<HeatCell>,
    cols: int,
)
    requires
        store.wf(),
        0 <= id < store.nodes@.len(),
        by_weight(store.nodes@, id, true, kids),
        cells.len() == kids.len(),
        forall|k: int|
            0 <= k < kids.len() ==> is_cell(#[trigger] cells[k], store, kids[k].id, k, cols),
    ensures
        forall|c: int|
            is_child(store.nodes@, id, c) && (#[trigger] store.nodes@[c]).alive ==> exists|k: int|
                0 <= k < cells.len() && (#[trigger] cells[k]).id == c,
        forall|k: int|
            0 <= k < cells.len() ==> is_child(store.nodes@, id, (#[trigger] cells[k]).id as int)
                && store.nodes@[cells[k].id as int].alive,
        forall|a: int, b: int|
            0 <= a < b < cells.len() ==> (#[trigger] cells[a]).id != (#[trigger] cells[b]).id,
{
    let nodes = store.nodes@;
    lists_every_child(nodes, id, true, kids);
    assert forall|c: int| is_child(nodes, id, c) && (#[trigger] nodes[c]).alive implies exists|
        k: int,
    |
        0 <= k < cells.len() && (#[trigger] cells[k]).id == c by {
        assert(listed(nodes[c], true));
        let x = Ranked { weight: nodes[c].size, id: c as u32 };
        assert(kids.contains(x));
        let k = choose|k: int| 0 <= k < kids.len() && kids[k] == x;
        assert(nodes[id].first_child + nodes[id].child_count <= nodes.len());
        assert(cells[k].id == c);
    }
    assert forall|k: int| 0 <= k < cells.len() implies is_child(
        nodes,
        id,
        (#[trigger] cells[k]).id as int,
    ) && nodes[cells[k].id as int].alive by {
        assert(kids[k].id == cells[k].id);
        assert(listed(nodes[kids[k].id as int], true));
    }
    assert forall|a: int, b: int| 0 <= a < b < cells.len() implies (#[trigger] cells[a]).id != (
    #[trigger] cells[b]).id by {
        assert(kids[a].id != kids[b].id);
    }
}

/// No two cells of a grid stand in the same place.
pub proof fn cells_do_not_overlap(i: int, j: int, cols: int)
    requires
        0 <= i,
        0 <= j,
        0 < cols,
        i % cols == j % cols,
        i / cols == j / cols,
    ensures
        i == j,
{
    vstd::arithmetic::div_mod::lemma_fundamental_div_mod(i, cols);
    vstd::arithmetic::div_mod::lemma_fundamental_div_mod(j, cols);
}

/// The first tile of node `sel` from `i` on; only a file's, where asked for.
pub open spec fn tile_of(tiles: Seq<Tile>, sel: u32, files_only: bool, i: int) -> Option<usize>
    decreases tiles.len() - i,
{
    if i >= tiles.len() {
        None
    } else if tiles[i].node == sel && (!files_only || tiles[i].kind == 0) {
        Some(tiles[i].spot)
    } else {
        tile_of(tiles, sel, files_only, i + 1)
    }
}

/// The first frame of node `sel` from `i` on.
pub open spec fn frame_of(frames: Seq<Frame>, sel: u32, i: int) -> Option<usize>
    decreases frames.len() - i,
{
    if i >= frames.len() {
        None
    } else if frames[i].node == sel {
        Some(frames[i].spot)
    } else {
        frame_of(frames, sel, i + 1)
    }
}

/// The place that is marked for a selected node: its tile as a file, else any tile of
/// its, else its frame.
pub open spec fn marked(tiles: Seq<Tile>, frames: Seq<Frame>, sel: u32) -> Option<usize> {
    match tile_of(tiles, sel, true, 0) {
        Some(s) => Some(s),
        None => match tile_of(tiles, sel, false, 0) {
            Some(s) => Some(s),
            None => frame_of(frames, sel, 0),
        },
    }
}

fn find_tile(tiles: &Vec<Tile>, sel: u32, files_only: bool) -> (r: Option<usize>)
    ensures
        r == tile_of(tiles@, sel, files_only, 0),
{
    for i in 0..tiles.len()
        invariant
            tile_of(tiles@, sel, files_only, 0) == tile_of(tiles@, sel, files_only, i as int),
    {
        if tiles[i].node == sel && (!files_only || tiles[i].kind == 0) {
            return Some(tiles[i].spot);
        }
    }
    None
}

/// The place that is marked for a selected node.
pub fn marked_spot(tiles: &Vec<Tile>, frames: &Vec<Frame>, sel: u32) -> (r: Option<usize>)
    ensures
        r == marked(tiles@, frames@, sel),
{
    match find_tile(tiles, sel, true) {
        Some(s) => {
            return Some(s);
        },
        None => {},
    }
    match find_tile(tiles, sel, false) {
        Some(s) => {
            return Some(s);
        },
        None => {},
    }
    for i in 0..frames.len()
        invariant
            frame_of(frames@, sel, 0) == frame_of(frames@, sel, i as int),
            tile_of(tiles@, sel, true, 0) is None,
            tile_of(tiles@, sel, false, 0) is None,
    {
        if frames[i].node == sel {
            return Some(frames[i].spot);
        }
    }
    None
}

/// The tree goes 32 levels down and no further. In each it shows the living children of a
/// directory, heaviest first, up to 400 of them, and says how many more there are.
pub proof fn tree_shows_the_heaviest(s: Shown, store: Store, id: int, depth: usize)
    requires
        store.wf(),
        0 <= id < store.nodes@.len(),
        shows(s, store, id, true, TREE_ROWS as int),
    ensures
        depth <= TREE_DEPTH <==> depth <= 32,
        s.kids@.len() <= 400,
        s.more > 0 ==> s.kids@.len() == 400,
        s.kids@.len() + s.more == count_where(
            store.nodes@.len() as int,
            |c: int|
                store.nodes@[id].first_child <= c < store.nodes@[id].first_child
                    + store.nodes@[id].child_count && store.nodes@[c].alive,
        ),
        forall|k: int|
            0 <= k < s.kids@.len() ==> store.nodes@[id].first_child <= (#[trigger] s.kids@[k]).id
                < store.nodes@[id].first_child + store.nodes@[id].child_count
                && store.nodes@[s.kids@[k].id as int].alive && s.kids@[k].weight
                == store.nodes@[s.kids@[k].id as int].size,
        forall|i: int, j: int|
            0 <= i < j < s.kids@.len() ==> (#[trigger] s.kids@[i]).weight >= (
            #[trigger] s.kids@[j]).weight && s.kids@[i].id != s.kids@[j].id,
        forall|c: int, k: int|
            store.nodes@[id].first_child <= c < store.nodes@[id].first_child
                + store.nodes@[id].child_count && store.nodes@[c].alive && 0 <= k < s.kids@.len()
                && (#[trigger] s.kids@[k]).weight < (#[trigger] store.nodes@[c]).size ==> exists|
                j: int,
            |
                0 <= j < k && (#[trigger] s.kids@[j]).id == c,
{
    let nodes = store.nodes@;
    let kids = choose|kids: Seq<Ranked>|
        #![trigger by_weight(nodes, id, true, kids)]
        by_weight(nodes, id, true, kids) && s.kids@ == heaviest(kids, TREE_ROWS as int) && s.more
            == left_out(kids.len() as int, TREE_ROWS as int);
    heaviest_children_are_kept(nodes, id, kids, TREE_ROWS as int);
}

/// The cells of a grid follow each other along its rows, and each says of its item what
/// the scan holds of it.
pub proof fn cells_follow_each_other(c: HeatCell, store: Store, id: u32, i: int, cols: int)
    requires
        is_cell(c, store, id, i, cols),
        0 <= i,
        0 < cols,
    ensures
        c.row * cols + c.col == i,
        c.col < cols,
        c.id == id,
        c.name@ == store.nodes@[id as int].name@,
        c.size == store.nodes@[id as int].size,
        c.dir == store.nodes@[id as int].is_dir,
        c.dir ==> c.slot == 254,
        !c.dir ==> c.slot == store.exts@[store.nodes@[id as int].ext as int].slot,
{
    vstd::arithmetic::div_mod::lemma_fundamental_div_mod(i, cols);
    vstd::arithmetic::div_mod::lemma_mod_bound(i, cols);
    assert(c.row * cols == cols * (i / cols)) by (nonlinear_arith)
        requires
            c.row == i / cols,
    ;
}

proof fn lemma_tile_of(tiles: Seq<Tile>, sel: u32, files_only: bool, i: int)
    requires
        0 <= i <= tiles.len(),
    ensures
        tile_of(tiles, sel, files_only, i) is None <==> forall|k: int|
            i <= k < tiles.len() ==> !((#[trigger] tiles[k]).node == sel && (!files_only
                || tiles[k].kind == 0)),
        tile_of(tiles, sel, files_only, i) is Some ==> exists|k: int|
            i <= k < tiles.len() && (#[trigger] tiles[k]).node == sel && (!files_only
                || tiles[k].kind == 0) && tile_of(tiles, sel, files_only, i) == Some(tiles[k].spot)
                && forall|j: int|
                i <= j < k ==> !((#[trigger] tiles[j]).node == sel && (!files_only || tiles[j].kind
                    == 0)),
    decreases tiles.len() - i,
{
    if i < tiles.len() {
        if tiles[i].node == sel && (!files_only || tiles[i].kind == 0) {
            assert(tile_of(tiles, sel, files_only, i) == Some(tiles[i].spot));
        } else {
            lemma_tile_of(tiles, sel, files_only, i + 1);
        }
    }
}

proof fn lemma_frame_of(frames: Seq<Frame>, sel: u32, i: int)
    requires
        0 <= i <= frames.len(),
    ensures
        frame_of(frames, sel, i) is None <==> forall|k: int|
            i <= k < frames.len() ==> (#[trigger] frames[k]).node != sel,
        frame_of(frames, sel, i) is Some ==> exists|k: int|
            i <= k < frames.len() && (#[trigger] frames[k]).node == sel && frame_of(frames, sel, i)
                == Some(frames[k].spot) && forall|j: int|
                i <= j < k ==> (#[trigger] frames[j]).node != sel,
    decreases frames.len() - i,
{
    if i < frames.len() {
        if frames[i].node == sel {
            assert(frame_of(frames, sel, i) == Some(frames[i].spot));
        } else {
            lemma_frame_of(frames, sel, i + 1);
        }
    }
}

/// What is selected is marked wherever it is drawn: the first tile that shows it as a file
/// is marked; without one, its first tile of any sort; without any, its first frame. What
/// is nowhere drawn is not marked.
pub proof fn selected_is_marked(tiles: Seq<Tile>, frames: Seq<Frame>, sel: u32)
    ensures
        marked(tiles, frames, sel) is None <==> (forall|k: int|
            0 <= k < tiles.len() ==> (#[trigger] tiles[k]).node != sel) && (forall|k: int|
            0 <= k < frames.len() ==> (#[trigger] frames[k]).node != sel),
        forall|k: int|
            0 <= k < tiles.len() && (#[trigger] tiles[k]).node == sel && tiles[k].kind == 0 && (
            forall|j: int|
                0 <= j < k ==> !((#[trigger] tiles[j]).node == sel && tiles[j].kind == 0))
                ==> marked(tiles, frames, sel) == Some(tiles[k].spot),
        forall|k: int|
            0 <= k < tiles.len() && (#[trigger] tiles[k]).node == sel && (forall|j: int|
                0 <= j < k ==> (#[trigger] tiles[j]).node != sel) && (forall|j: int|
                0 <= j < tiles.len() && (#[trigger] tiles[j]).node == sel ==> tiles[j].kind != 0)
                ==> marked(tiles, frames, sel) == Some(tiles[k].spot),
        forall|k: int|
            0 <= k < frames.len() && (#[trigger] frames[k]).node == sel && (forall|j: int|
                0 <= j < k ==> (#[trigger] frames[j]).node != sel) && (forall|j: int|
                0 <= j < tiles.len() ==> (#[trigger] tiles[j]).node != sel) ==> marked(
                tiles,
                frames,
                sel,
            ) == Some(frames[k].spot),
{
    lemma_tile_of(tiles, sel, true, 0);
    lemma_tile_of(tiles, sel, false, 0);
    lemma_frame_of(frames, sel, 0);
}

/// The tree shows children 32 levels down and none below that; the grid shows every living
/// child, the empty ones too, each in a cell of its own; what is selected is marked.
pub proof fn tree_and_grid_show_the_children(
    store: Store,
    id: u32,
    depth: usize,
    rows: Shown,
    all: Shown,
    cols: usize,
    cells: Vec<HeatCell>,
    tiles: Vec<Tile>,
    frames: Vec<Frame>,
    sel: u32,
    spot: Option<usize>,
)
    requires
        store.wf(),
        id < store.nodes@.len(),
        cols > 0,
        call_ensures(tree_rows, (&store, id, depth), rows),
        call_ensures(heat_kids, (&store, id), all),
        call_ensures(heat_cells, (&store, id, &all.kids, cols), cells),
        call_ensures(marked_spot, (&tiles, &frames, sel), spot),
    ensures
        depth > 32 ==> rows.kids@.len() == 0 && rows.more == 0,
        depth <= 32 ==> shows(rows, store, id as int, true, 400),
        by_weight(store.nodes@, id as int, true, all.kids@),
        all.more == 0,
        cells@.len() == count_where(
            store.nodes@.len() as int,
            |c: int|
                store.nodes@[id as int].first_child <= c < store.nodes@[id as int].first_child
                    + store.nodes@[id as int].child_count && store.nodes@[c].alive,
        ),
        forall|k: int|
            0 <= k < cells@.len() ==> is_cell(
                #[trigger] cells@[k],
                store,
                all.kids@[k].id,
                k,
                cols as int,
            ),
        spot == marked(tiles@, frames@, sel),
{
    heaviest_children_are_kept(store.nodes@, id as int, all.kids@, all.kids@.len() as int);
    assert(heaviest(all.kids@, all.kids@.len() as int) == all.kids@);
}

} // verus!
