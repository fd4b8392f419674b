use diskhoji::flatten::flatten;
use diskhoji::heap::{Heap, Work};
use diskhoji::heat::{heat_cells, heat_kids, marked_spot, tree_rows};
use diskhoji::kids::{keep_heaviest, kids_by_weight};
use diskhoji::order::Ranked;
use diskhoji::prune::remove_subtree;
use diskhoji::scan::finish_dir;
use diskhoji::store::Store;
use diskhoji::tree::LocalNode;
use diskhoji::treemap::{merge_tail, Fit, Item, Layout, MAX_DEPTH, MAX_RECTS, SLOT_DIRAGG, SLOT_SMALL};

fn file(name: &str, size: u64) -> LocalNode {
    LocalNode { name: name.to_string(), size, files: 1, is_dir: false, children: Vec::new() }
}

fn dir(name: &str, children: Vec<LocalNode>) -> LocalNode {
    finish_dir(false, name.to_string(), children, Vec::new()).unwrap()
}

fn store(root: LocalNode) -> Store {
    flatten(root, "/r".to_string(), 0, 1, 0)
}

fn work(area: u64, id: u32) -> Work {
    Work { area, id, spot: 0, depth: 0 }
}

#[test]
fn the_heap_hands_out_the_largest_first() {
    let mut h = Heap::new();
    let mut seed = 12345u64;
    let mut areas = Vec::new();
    for i in 0..3000u32 {
        seed = seed.wrapping_mul(6364136223846793005).wrapping_add(1442695040888963407);
        let a = (seed >> 33) % 500;
        areas.push(a);
        h.push(work(a, i));
    }
    assert_eq!(h.len(), 3000);
    areas.sort_unstable_by(|a, b| b.cmp(a));
    let mut seen = vec![false; 3000];
    for a in areas {
        let w = h.pop().unwrap();
        assert_eq!(w.area, a);
        assert!(!seen[w.id as usize]);
        seen[w.id as usize] = true;
    }
    assert!(h.pop().is_none());
}

#[test]
fn the_tail_of_small_children_is_merged() {
    let kids: Vec<Ranked> = (0..5).map(|i| Ranked { weight: 10 - i as u64, id: 20 + i }).collect();
    let show = |tiny: [bool; 5]| -> Vec<(bool, u32)> {
        merge_tail(&kids, &tiny.to_vec())
            .iter()
            .map(|i| match i {
                Item::One { id } => (true, *id),
                Item::Rest { count, .. } => (false, *count),
            })
            .collect()
    };
    assert_eq!(
        show([false; 5]),
        [(true, 20), (true, 21), (true, 22), (true, 23), (true, 24)]
    );
    assert_eq!(show([false, false, true, true, true]), [(true, 20), (true, 21), (false, 3)]);
    assert_eq!(
        show([false, false, false, false, true]),
        [(true, 20), (true, 21), (true, 22), (true, 23), (true, 24)]
    );
    assert_eq!(show([true; 5]), [(false, 5)]);
    let rest = |tiny: [bool; 5]| -> u64 {
        match merge_tail(&kids, &tiny.to_vec()).pop() {
            Some(Item::Rest { bytes, .. }) => bytes,
            _ => 0,
        }
    };
    assert_eq!(rest([false, false, true, true, true]), 8 + 7 + 6);
    assert_eq!(rest([true; 5]), 40);
    let huge = vec![Ranked { weight: u64::MAX, id: 1 }, Ranked { weight: 1, id: 2 }];
    assert!(matches!(
        merge_tail(&huge, &vec![true, true])[0],
        Item::Rest { count: 2, bytes: u64::MAX }
    ));
    assert!(merge_tail(&Vec::new(), &Vec::new()).is_empty());
}

#[test]
fn children_by_weight() {
    let mut s = store(dir("r", vec![file("a", 3), file("b", 0), file("c", 9), dir("d", vec![file("e", 5)])]));
    let names = |s: &Store, v: &Vec<Ranked>| -> Vec<String> {
        v.iter().map(|k| s.nodes[k.id as usize].name.clone()).collect()
    };
    let all = kids_by_weight(&s, 0, true);
    assert_eq!(names(&s, &all), ["c", "d", "a", "b"]);
    let drawn = kids_by_weight(&s, 0, false);
    assert_eq!(names(&s, &drawn), ["c", "d", "a"]);
    let c = all[0].id;
    remove_subtree(&mut s, c);
    assert_eq!(names(&s, &kids_by_weight(&s, 0, true)), ["d", "a", "b"]);
    let mut some = kids_by_weight(&s, 0, true);
    assert_eq!(keep_heaviest(&mut some, 2), 1);
    assert_eq!(names(&s, &some), ["d", "a"]);
    assert_eq!(keep_heaviest(&mut some, 2), 0);
}

fn roomy(n: usize, area: u64) -> Vec<Fit> {
    vec![Fit { visible: true, roomy: true, area }; n]
}

fn items_of(s: &Store, id: u32) -> Vec<Item> {
    let kids = kids_by_weight(s, id, false);
    let tiny = vec![false; kids.len()];
    merge_tail(&kids, &tiny)
}

#[test]
fn a_map_is_laid_out() {
    let s = store(dir(
        "r",
        vec![file("a.txt", 50), dir("d", vec![file("e.bin", 30), file("f.bin", 20)]), dir("g", vec![file("h", 10)])],
    ));
    let mut l = Layout::start(&s, 0, 1000);
    assert_eq!(l.spots, 1);
    let w = l.next(&s).unwrap();
    assert_eq!((w.id, w.area, w.spot, w.depth), (0, 1000, 0, 0));
    let items = items_of(&s, 0);
    assert_eq!(items.len(), 3);
    let small = Fit { visible: true, roomy: false, area: 90 };
    let fits: Vec<Fit> = items
        .iter()
        .map(|i| match i {
            Item::One { id } if s.nodes[*id as usize].name == "g" => small,
            _ => Fit { visible: true, roomy: true, area: 400 },
        })
        .collect();
    l.place(&s, w, &items, &fits);
    assert_eq!(l.spots, 4);
    let mut tiles: Vec<(&str, u8, u8)> =
        l.tiles.iter().map(|t| (t.name.as_str(), t.slot, t.kind)).collect();
    tiles.sort();
    assert_eq!(tiles, [("a.txt", s.exts[s.nodes.iter().find(|n| n.name == "a.txt").unwrap().ext as usize].slot, 0), ("g", SLOT_DIRAGG, 1)]);
    assert_eq!(l.frames.len(), 1);
    assert_eq!((l.frames[0].name.as_str(), l.frames[0].depth, l.frames[0].bytes), ("d", 0, 50));
    let w = l.next(&s).unwrap();
    assert_eq!(s.nodes[w.id as usize].name, "d");
    assert_eq!((w.depth, w.area, w.spot), (1, 400, l.frames[0].spot));
    let items = items_of(&s, w.id);
    let mut fits = roomy(2, 5);
    fits[1].visible = false;
    l.place(&s, w, &items, &fits);
    assert_eq!(l.tiles.len(), 3);
    assert_eq!(l.tiles[2].name, "e.bin");
    assert_eq!(l.tiles[2].bytes, 30);
    assert!(l.next(&s).is_none());
    let g = s.nodes.iter().position(|n| n.name == "g").unwrap() as u32;
    let d = w.id;
    let g_tile = l.tiles.iter().find(|t| t.node == g).unwrap().spot;
    assert_eq!(marked_spot(&l.tiles, &l.frames, g), Some(g_tile));
    assert_eq!(marked_spot(&l.tiles, &l.frames, d), Some(l.frames[0].spot));
    assert_eq!(marked_spot(&l.tiles, &l.frames, 0), None);
}

#[test]
fn a_merged_run_is_one_tile() {
    let s = store(dir("r", (0..4).map(|i| file(&format!("f{}", i), 10)).collect()));
    let mut l = Layout::start(&s, 0, 100);
    let w = l.next(&s).unwrap();
    let kids = kids_by_weight(&s, 0, false);
    let items = merge_tail(&kids, &vec![false, true, true, true]);
    l.place(&s, w, &items, &roomy(2, 1));
    assert_eq!(l.tiles.len(), 2);
    let t = &l.tiles[1];
    assert_eq!((t.node, t.spot, t.slot, t.kind, t.bytes), (0, 2, SLOT_SMALL, 2, 30));
    assert_eq!(t.name, "3 small items");
}

#[test]
fn an_empty_root_has_no_map() {
    let s = store(dir("r", vec![file("z", 0)]));
    let mut l = Layout::start(&s, 0, 100);
    assert!(l.next(&s).is_none());
    assert!(l.tiles.is_empty());
}

#[test]
fn beyond_the_budget_directories_stay_closed() {
    let dirs: Vec<LocalNode> = (0..3).map(|i| dir(&format!("d{}", i), vec![file("x", 10 + i)])).collect();
    let s = store(dir("r", dirs));
    let mut l = Layout::start(&s, 0, 100);
    let w = l.next(&s).unwrap();
    let items = items_of(&s, 0);
    let fits: Vec<Fit> =
        (0..3).map(|i| Fit { visible: true, roomy: true, area: [20, 40, 30][i] }).collect();
    l.place(&s, w, &items, &fits);
    for _ in 0..MAX_RECTS {
        l.tiles.push(diskhoji::treemap::Tile {
            node: 1,
            spot: 0,
            slot: 0,
            kind: 0,
            name: String::new(),
            bytes: 0,
        });
    }
    assert!(l.next(&s).is_none());
    assert_eq!(l.tiles.len(), MAX_RECTS + 3);
    let order: Vec<usize> = l.tiles[MAX_RECTS..].iter().map(|t| t.spot).collect();
    assert_eq!(order, [2, 3, 1]);
    assert!(l.tiles[MAX_RECTS..].iter().all(|t| t.kind == 1 && t.slot == SLOT_DIRAGG));
    assert!(l.next(&s).is_none());
}

#[test]
fn directories_are_opened_only_so_deep() {
    let s = store(dir("r", vec![dir("d", vec![file("x", 1)])]));
    let mut l = Layout::start(&s, 0, 100);
    let mut w = l.next(&s).unwrap();
    w.depth = MAX_DEPTH;
    l.place(&s, w, &items_of(&s, 0), &roomy(1, 50));
    assert!(l.frames.is_empty());
    assert_eq!((l.tiles.len(), l.tiles[0].kind), (1, 1));
}

#[test]
fn the_grid_shows_every_item_and_the_tree_the_heaviest() {
    let mut kids: Vec<LocalNode> = (0..2100u64).map(|i| file(&format!("f{}", i), 1 + i)).collect();
    kids.push(dir("sub", vec![file("y", 5000)]));
    kids.push(file("zero", 0));
    let s = store(dir("r", kids));
    let shown = heat_kids(&s, 0);
    assert_eq!(shown.kids.len(), 2102);
    assert_eq!(shown.more, 0);
    let cells = heat_cells(&s, 0, &shown.kids, 7);
    assert_eq!(cells.len(), 2102);
    assert_eq!((cells[2101].name.as_str(), cells[2101].size), ("zero", 0));
    assert_eq!((cells[2101].col, cells[2101].row), (1, 300));
    let mut ids: Vec<u32> = cells.iter().map(|c| c.id).collect();
    ids.sort_unstable();
    assert_eq!(ids, (1..=2102).collect::<Vec<u32>>());
    assert_eq!((cells[0].name.as_str(), cells[0].dir, cells[0].slot, cells[0].col, cells[0].row), ("sub", true, SLOT_DIRAGG, 0, 0));
    assert_eq!((cells[15].col, cells[15].row, cells[15].size), (1, 2, 2086));
    for w in cells.windows(2) {
        assert!((w[0].row, w[0].col) < (w[1].row, w[1].col));
    }
    let rows = tree_rows(&s, 0, 0);
    assert_eq!((rows.kids.len(), rows.more), (400, 1702));
    assert_eq!(s.nodes[rows.kids[0].id as usize].name, "sub");
    assert_eq!(tree_rows(&s, 0, 32).kids.len(), 400);
    assert_eq!(tree_rows(&s, 0, 33).kids.len(), 0);
}

#[test]
fn a_deleted_item_leaves_the_grid() {
    let mut s = store(dir("r", vec![file("a", 3), file("b", 2), file("c", 0)]));
    let b = s.nodes.iter().position(|n| n.name == "b").unwrap() as u32;
    remove_subtree(&mut s, b);
    let shown = heat_kids(&s, 0);
    let names: Vec<String> =
        heat_cells(&s, 0, &shown.kids, 2).into_iter().map(|c| c.name).collect();
    assert_eq!(names, ["a", "c"]);
}

/// A tree of directories and files, so deep.
fn branching(depth: u32) -> LocalNode {
    let mut kids: Vec<LocalNode> = (0..4).map(|i| file(&format!("f{}", i), 1 + i)).collect();
    if depth > 0 {
        for _ in 0..3 {
            kids.push(branching(depth - 1));
        }
    }
    dir("d", kids)
}

fn lies_inside(s: &Store, a: u32, n: u32) -> bool {
    let mut cur = n;
    while cur != 0 {
        cur = s.nodes[cur as usize].parent;
        if cur == a {
            return true;
        }
    }
    false
}

#[test]
fn no_node_is_drawn_twice() {
    let mut s = store(branching(5));
    let gone = s.nodes[0].first_child + 1;
    remove_subtree(&mut s, gone);
    let mut seed = 7u64;
    let mut next = |n: u64| {
        seed = seed.wrapping_mul(6364136223846793005).wrapping_add(1442695040888963407);
        (seed >> 33) % n
    };
    let mut l = Layout::start(&s, 0, 1000);
    while let Some(w) = l.next(&s) {
        let kids = kids_by_weight(&s, w.id, false);
        let tiny: Vec<bool> = kids.iter().map(|_| next(25) == 0).collect();
        let items = merge_tail(&kids, &tiny);
        let fits: Vec<Fit> = items
            .iter()
            .map(|_| Fit { visible: next(20) > 0, roomy: next(6) > 0, area: next(w.area + 1) })
            .collect();
        l.place(&s, w, &items, &fits);
    }
    assert!(l.tiles.iter().map(|t| t.bytes).sum::<u64>() <= s.nodes[0].size);
    for t in l.tiles.iter().filter(|t| t.kind != 2) {
        assert_eq!(t.bytes, s.nodes[t.node as usize].size);
    }
    let own: Vec<u32> = l.tiles.iter().filter(|t| t.kind != 2).map(|t| t.node).collect();
    assert!(own.len() > 20);
    for (i, a) in own.iter().enumerate() {
        assert!(s.nodes[*a as usize].alive && lies_inside(&s, 0, *a));
        for (j, b) in own.iter().enumerate() {
            assert!(i == j || (a != b && !lies_inside(&s, *a, *b)));
        }
        for f in &l.frames {
            assert!(!lies_inside(&s, *a, f.node));
        }
    }
    let mut framed: Vec<u32> = l.frames.iter().map(|f| f.node).collect();
    framed.sort_unstable();
    framed.dedup();
    assert_eq!(framed.len(), l.frames.len());
    let rests: Vec<u32> = l.tiles.iter().filter(|t| t.kind == 2).map(|t| t.node).collect();
    for (i, r) in rests.iter().enumerate() {
        assert!(rests[..i].iter().all(|q| q != r));
        assert!(own.iter().all(|a| a != r && !lies_inside(&s, *a, *r)));
    }
}

#[test]
fn the_bytes_on_the_tiles_add_up() {
    let mut s = store(branching(4));
    let gone = s.nodes[0].first_child;
    remove_subtree(&mut s, gone);
    let root = s.nodes.iter().position(|n| n.alive && n.is_dir && n.parent == 0 && n.size > 0).unwrap();
    for root in [0, root as u32] {
        let mut l = Layout::start(&s, root, 1000);
        while let Some(w) = l.next(&s) {
            let kids = kids_by_weight(&s, w.id, false);
            let tiny: Vec<bool> = kids.iter().map(|k| k.weight < 3).collect();
            let items = merge_tail(&kids, &tiny);
            let fits = roomy(items.len(), w.area / 2);
            l.place(&s, w, &items, &fits);
        }
        assert!(l.tiles.iter().any(|t| t.kind == 2 && t.bytes == 3));
        let drawn: u64 = l.tiles.iter().map(|t| t.bytes).sum();
        assert_eq!(drawn, s.nodes[root as usize].size);
    }
}

#[test]
fn the_room_goes_to_the_largest() {
    let s = store(branching(5));
    let mut l = Layout::start(&s, 0, 1 << 40);
    let mut opened: Vec<u64> = Vec::new();
    while let Some(w) = l.next(&s) {
        opened.push(w.area);
        let items = items_of(&s, w.id);
        let fits: Vec<Fit> = (0..items.len() as u64)
            .map(|i| Fit { visible: true, roomy: true, area: w.area / (2 + i) })
            .collect();
        l.place(&s, w, &items, &fits);
    }
    assert!(opened.len() > 100);
    assert!(opened.windows(2).all(|p| p[0] >= p[1]));
}
