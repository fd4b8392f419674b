use diskhoji::engine::{can_lay_out, finish_scan, put_in_place};
use diskhoji::flatten::{count_dirs, flatten};
use diskhoji::largest::refill;
use diskhoji::paths::{ancestors_of, path_of, path_with};
use diskhoji::prune::remove_subtree;
use diskhoji::scan::{can_scan, finish_dir, scan_root, sums_fit, Entry, Progress};
use diskhoji::store::{Store, EXT_DIR, SLOT_OTHER};
use diskhoji::summary::{big_files, summarize, top_types, BigRow};
use diskhoji::tree::LocalNode;

fn file(name: &str, size: u64) -> LocalNode {
    LocalNode { name: name.to_string(), size, files: 1, is_dir: false, children: Vec::new() }
}

fn dir(name: &str, children: Vec<LocalNode>) -> LocalNode {
    finish_dir(false, name.to_string(), children, Vec::new()).unwrap()
}

/// root: b.bin 500, a (y.txt 300, sub (z.txt 40)), x.txt 100, empty
fn sample() -> Store {
    let sub = dir("sub", vec![file("z.txt", 40)]);
    let a = dir("a", vec![file("y.txt", 300), sub]);
    let root = dir(
        "/data",
        vec![file("x.txt", 100), a, file("b.bin", 500), dir("empty", Vec::new())],
    );
    assert!(can_lay_out(&root));
    flatten(root, "/data".to_string(), 12, 3, 0)
}

fn id_of(s: &Store, name: &str) -> u32 {
    s.nodes.iter().position(|n| n.name == name).unwrap() as u32
}

/// Every total of the arena, added up again from its files.
fn assert_adds_up(s: &Store) {
    let live = |i: usize| s.nodes[i].alive;
    for p in 0..s.nodes.len() {
        let n = &s.nodes[p];
        if !live(p) || !n.is_dir {
            continue;
        }
        let kids: Vec<usize> = (n.first_child as usize..(n.first_child + n.child_count) as usize)
            .filter(|c| live(*c))
            .collect();
        assert_eq!(n.size, kids.iter().map(|c| s.nodes[*c].size).sum::<u64>());
        assert_eq!(n.files, kids.iter().map(|c| s.nodes[*c].files).sum::<u32>());
    }
    for e in 0..s.exts.len() {
        let of: Vec<usize> = (0..s.nodes.len())
            .filter(|k| live(*k) && !s.nodes[*k].is_dir && s.nodes[*k].ext as usize == e)
            .collect();
        assert_eq!(s.exts[e].bytes, of.iter().map(|k| s.nodes[*k].size).sum::<u64>());
        assert_eq!(s.exts[e].files, of.len() as u64);
    }
    let dirs = (0..s.nodes.len()).filter(|k| live(*k) && s.nodes[*k].is_dir).count() as u64;
    assert_eq!(s.dirs, dirs);
    assert_eq!(s.nodes[0].size, s.exts.iter().map(|e| e.bytes).sum::<u64>());
}

#[test]
fn laid_out_level_by_level() {
    let s = sample();
    let names: Vec<&str> = s.nodes.iter().map(|n| n.name.as_str()).collect();
    assert_eq!(names, ["/data", "b.bin", "a", "x.txt", "empty", "y.txt", "sub", "z.txt"]);
    let parents: Vec<u32> = s.nodes.iter().map(|n| n.parent).collect();
    assert_eq!(parents, [0, 0, 0, 0, 0, 2, 2, 6]);
    let firsts: Vec<u32> = s.nodes.iter().map(|n| n.first_child).collect();
    assert_eq!(firsts, [1, 0, 5, 0, 0, 0, 7, 0]);
    let counts: Vec<u32> = s.nodes.iter().map(|n| n.child_count).collect();
    assert_eq!(counts, [4, 0, 2, 0, 0, 0, 1, 0]);
    let sizes: Vec<u64> = s.nodes.iter().map(|n| n.size).collect();
    assert_eq!(sizes, [940, 500, 340, 100, 0, 300, 40, 40]);
    let files: Vec<u32> = s.nodes.iter().map(|n| n.files).collect();
    assert_eq!(files, [4, 1, 2, 1, 0, 1, 1, 1]);
    assert_eq!(s.nodes[0].ext, EXT_DIR);
    assert_eq!(s.nodes[1].ext, 0);
    assert_eq!(s.nodes[3].ext, 1);
    assert!(s.nodes.iter().all(|n| n.alive));
    assert_eq!(s.dirs, 4);
    assert_eq!((s.elapsed_ms, s.generation, s.errors), (12, 3, 0));
    assert_eq!(s.root_path, "/data");
    assert_adds_up(&s);
}

#[test]
fn types_by_first_appearance_and_slots_by_weight() {
    let s = sample();
    let exts: Vec<(&str, u64, u64, u8)> =
        s.exts.iter().map(|e| (e.name.as_str(), e.bytes, e.files, e.slot)).collect();
    assert_eq!(exts, [("bin", 500, 1, 0), ("txt", 440, 3, 1)]);
    let many: Vec<LocalNode> = (0..12).map(|i| file(&format!("f.t{}", i), 1000 - i)).collect();
    let s = flatten(dir("/", many), "/".to_string(), 0, 1, 0);
    let slots: Vec<u8> = s.exts.iter().map(|e| e.slot).collect();
    assert_eq!(slots[..8], [0, 1, 2, 3, 4, 5, 6, 7]);
    assert!(slots[8..].iter().all(|s| *s == SLOT_OTHER));
}

#[test]
fn an_empty_directory_is_one_node() {
    let s = flatten(dir("/e", Vec::new()), "/e".to_string(), 0, 1, 7);
    assert_eq!(s.nodes.len(), 1);
    assert_eq!(s.nodes[0].first_child, 1);
    assert_eq!(s.nodes[0].child_count, 0);
    assert!(s.nodes[0].is_dir);
    assert_eq!(s.dirs, 1);
    assert_eq!(s.errors, 7);
    assert!(s.largest.is_empty());
    assert!(s.exts.is_empty());
}

#[test]
fn largest_files_are_the_largest() {
    let sizes = [5, 9, 1, 7, 7, 3, 20, 8, 2, 6, 4, 11, 15, 13, 12, 10, 14, 19, 18, 17, 16, 0, 7];
    let kids: Vec<LocalNode> =
        sizes.iter().enumerate().map(|(i, z)| file(&format!("f{}", i), *z)).collect();
    let s = flatten(dir("/", vec![dir("d", kids), file("top", 100)]), "/".to_string(), 0, 1, 0);
    assert_eq!(s.largest.len(), 15);
    let got: Vec<u64> = s.largest.iter().map(|id| s.nodes[*id as usize].size).collect();
    assert_eq!(got, [100, 20, 19, 18, 17, 16, 15, 14, 13, 12, 11, 10, 9, 8, 7]);
    for i in 0..s.largest.len() {
        for j in 0..i {
            assert_ne!(s.largest[i], s.largest[j]);
        }
    }
}

#[test]
fn of_equal_files_the_later_comes_first() {
    let kids: Vec<LocalNode> = (0..4).map(|i| file(&format!("f{}", i), 5)).collect();
    let s = flatten(dir("/", kids), "/".to_string(), 0, 1, 0);
    assert_eq!(s.largest, [4, 3, 2, 1]);
}

#[test]
fn directories_counted() {
    let d = dir("r", vec![dir("a", vec![dir("b", Vec::new())]), file("f", 1), dir("c", Vec::new())]);
    assert_eq!(count_dirs(&d), 4);
}

#[test]
fn removing_a_file() {
    let mut s = sample();
    let z = id_of(&s, "z.txt");
    assert_eq!(remove_subtree(&mut s, z), (40, 1));
    assert!(!s.nodes[z as usize].alive);
    assert_eq!(s.nodes[0].size, 900);
    assert_eq!(s.nodes[id_of(&s, "sub") as usize].size, 0);
    assert_eq!(s.nodes[id_of(&s, "a") as usize].files, 1);
    assert_eq!(s.exts[1].bytes, 400);
    assert_adds_up(&s);
}

#[test]
fn removing_a_directory_keeps_every_total() {
    let mut s = sample();
    let a = id_of(&s, "a");
    assert_eq!(remove_subtree(&mut s, a), (340, 2));
    for name in ["a", "y.txt", "sub", "z.txt"] {
        assert!(!s.nodes[id_of(&s, name) as usize].alive, "{}", name);
    }
    for name in ["/data", "b.bin", "x.txt", "empty"] {
        assert!(s.nodes[id_of(&s, name) as usize].alive, "{}", name);
    }
    assert_eq!(s.nodes[0].size, 600);
    assert_eq!(s.nodes[0].files, 2);
    assert_eq!(s.dirs, 2);
    assert_adds_up(&s);
    let mut t = sample();
    let (y, sub, a) = (id_of(&t, "y.txt"), id_of(&t, "sub"), id_of(&t, "a"));
    remove_subtree(&mut t, y);
    assert_adds_up(&t);
    remove_subtree(&mut t, sub);
    assert_adds_up(&t);
    assert_eq!(remove_subtree(&mut t, a), (0, 0));
    assert_adds_up(&t);
    assert_eq!(t.nodes[0].size, s.nodes[0].size);
}

#[test]
fn paths_from_the_root_down() {
    let s = sample();
    assert_eq!(path_with(&s, id_of(&s, "z.txt"), '/'), "/data/a/sub/z.txt");
    assert_eq!(path_with(&s, id_of(&s, "z.txt"), '\\'), "/data\\a\\sub\\z.txt");
    assert_eq!(path_with(&s, 0, '/'), "/data");
    let sep = std::path::MAIN_SEPARATOR;
    assert_eq!(path_of(&s, 3), format!("/data{}x.txt", sep));
    let r = flatten(dir("/", vec![file("f", 1)]), "/".to_string(), 0, 1, 0);
    assert_eq!(path_with(&r, 0, '/'), "/");
    assert_eq!(path_with(&r, 1, '/'), "/f");
    let e = flatten(dir("", Vec::new()), "".to_string(), 0, 1, 0);
    assert_eq!(path_with(&e, 0, '/'), "/");
}

#[test]
fn ancestors_from_the_root_down() {
    let s = sample();
    let z = id_of(&s, "z.txt");
    assert_eq!(ancestors_of(&s, z), [0, id_of(&s, "a"), id_of(&s, "sub")]);
    assert_eq!(ancestors_of(&s, 1), [0]);
    assert!(ancestors_of(&s, 0).is_empty());
}

#[test]
fn summary_of_a_scan() {
    let mut s = sample();
    let m = summarize(&s, (1000, 250), '/');
    assert_eq!((m.bytes, m.files, m.dirs, m.errors), (940, 4, 4, 0));
    assert_eq!((m.disk_total, m.disk_free, m.generation, m.elapsed_ms), (1000, 250, 3, 12));
    assert_eq!(m.root, "/data");
    let exts: Vec<(&str, u64)> = m.exts.iter().map(|e| (e.name.as_str(), e.bytes)).collect();
    assert_eq!(exts, [("bin", 500), ("txt", 440)]);
    let big: Vec<(&str, &str, u8)> =
        m.largest.iter().map(|b| (b.name.as_str(), b.path.as_str(), b.slot)).collect();
    assert_eq!(
        big,
        [
            ("b.bin", "/data/b.bin", 0),
            ("y.txt", "/data/a/y.txt", 1),
            ("x.txt", "/data/x.txt", 1),
            ("z.txt", "/data/a/sub/z.txt", 1)
        ]
    );
    let b = id_of(&s, "b.bin");
    remove_subtree(&mut s, b);
    let left: Vec<String> = big_files(&s, '/').into_iter().map(|b| b.name).collect();
    assert_eq!(left, ["y.txt", "x.txt", "z.txt"]);
    let types: Vec<String> = top_types(&s.exts).into_iter().map(|e| e.name).collect();
    assert_eq!(types, ["txt"]);
}

#[test]
fn no_more_types_than_are_shown() {
    let many: Vec<LocalNode> = (0..20).map(|i| file(&format!("f.t{}", i), 1 + i)).collect();
    let s = flatten(dir("/", many), "/".to_string(), 0, 1, 0);
    let rows = top_types(&s.exts);
    assert_eq!(rows.len(), 14);
    assert!(rows.windows(2).all(|w| w[0].bytes >= w[1].bytes));
    assert_eq!(rows[0].name, "t19");
    assert_eq!(rows[13].name, "t6");
}

#[test]
fn a_listing_is_sorted_out() {
    let mut p = Progress::new();
    let entries = vec![
        Entry::Leaf { name: "a".to_string(), size: Some(10) },
        Entry::Directory { path: "/r/same".to_string(), dev: Some(7) },
        Entry::Directory { path: "/r/mount".to_string(), dev: Some(8) },
        Entry::Directory { path: "/r/gone".to_string(), dev: None },
        Entry::Untyped { path: "/r/odd".to_string() },
        Entry::Unread,
        Entry::Leaf { name: "b".to_string(), size: None },
        Entry::Directory { path: "/r/more".to_string(), dev: Some(7) },
    ];
    let l = p.list("/r", 7, entries);
    let files: Vec<(&str, u64, u32, bool)> =
        l.files.iter().map(|f| (f.name.as_str(), f.size, f.files, f.is_dir)).collect();
    assert_eq!(files, [("a", 10, 1, false), ("b", 0, 1, false)]);
    assert_eq!(l.descend, [1, 7]);
    assert_eq!((p.files, p.bytes, p.errors), (2, 10, 3));
    assert_eq!(p.err_paths, ["/r/gone", "/r/odd", "/r"]);
}

#[test]
fn progress_of_a_scan() {
    let mut p = Progress::new();
    p.begin();
    assert!(p.scanning);
    assert!(p.enter("/a", 0));
    assert_eq!(p.current, "/a");
    assert!(p.enter("/a/b/c/d/e", 4));
    assert_eq!(p.current, "/a/b/c/d/e");
    assert!(p.enter("/deep", 5));
    assert_eq!(p.current, "/a/b/c/d/e");
    p.dirs = 512;
    assert!(p.enter("/shown", 9));
    assert_eq!(p.current, "/shown");
    assert_eq!(p.dirs, 513);
    for i in 0..60 {
        p.note_err(&format!("/e{}", i));
    }
    assert_eq!(p.errors, 60);
    assert_eq!(p.err_paths.len(), 50);
    assert_eq!(p.err_paths[49], "/e49");
    p.give_up();
    assert!(p.cancel && p.scanning);
    assert!(!p.enter("/no", 0));
    assert_eq!(p.dirs, 513);
    p.reset();
    assert!(!p.cancel && p.scanning);
    assert_eq!((p.files, p.dirs, p.bytes, p.errors), (0, 0, 0, 0));
    assert!(p.err_paths.is_empty() && p.current.is_empty());
    let n = p.unlisted("/x/y", "y".to_string());
    assert!(n.is_dir && n.children.is_empty() && n.size == 0 && n.files == 0);
    assert_eq!(p.err_paths, ["/x/y"]);
}

/// A directory to be scanned: its leaves, those below it, and whether it can be read.
struct Found {
    name: String,
    leaves: Vec<Option<u64>>,
    below: Vec<Found>,
    readable: bool,
}

fn found(seed: &mut u64, depth: u32) -> Found {
    let mut next = |n: u64| {
        *seed = seed.wrapping_mul(6364136223846793005).wrapping_add(1442695040888963407);
        (*seed >> 33) % n
    };
    let readable = depth == 4 || next(7) > 0;
    let leaves = (0..next(5)).map(|_| if next(6) == 0 { None } else { Some(next(500)) }).collect();
    let dirs = if depth > 0 && readable { 1 + next(3) } else { 0 };
    let below = (0..dirs).map(|_| found(seed, depth - 1)).collect();
    Found { name: format!("d{}", depth), leaves, below, readable }
}

fn visit(f: &Found, p: &mut Progress, depth: u32) -> LocalNode {
    assert!(p.enter(&f.name, depth));
    if !f.readable {
        return p.unlisted(&f.name, f.name.clone());
    }
    let mut entries: Vec<Entry> = f
        .leaves
        .iter()
        .map(|size| Entry::Leaf { name: "f".to_string(), size: *size })
        .collect();
    entries.push(Entry::Unread);
    for b in &f.below {
        entries.push(Entry::Directory { path: b.name.clone(), dev: Some(3) });
        entries.push(Entry::Directory { path: b.name.clone(), dev: Some(4) });
    }
    let listing = p.list(&f.name, 3, entries);
    assert_eq!(listing.descend.len(), f.below.len());
    // the last one first: the order of the visits makes no difference
    let mut scanned: Vec<LocalNode> =
        f.below.iter().rev().map(|b| visit(b, p, depth + 1)).collect();
    scanned.reverse();
    finish_dir(false, f.name.clone(), listing.files, scanned).unwrap()
}

#[test]
fn a_whole_scan_is_counted() {
    let mut seed = 11;
    for _ in 0..10 {
        let tree = found(&mut seed, 4);
        let mut p = Progress::new();
        p.begin();
        let root = visit(&tree, &mut p, 0);
        assert_eq!((p.files, p.bytes), (root.files as u64, root.size));
        let dirs = count_dirs(&root);
        assert_eq!(p.dirs, dirs as u64);
        let before = (p.errors, p.err_paths.clone(), p.current.clone());
        p.end();
        assert!(!p.scanning);
        assert_eq!((p.files, p.bytes), (root.files as u64, root.size));
        assert_eq!((p.errors, p.err_paths.clone(), p.current.clone()), before);
    }
}

#[test]
fn the_old_scan_stays_where_a_new_one_comes_to_nothing() {
    let mut at_hand = Some(sample());
    put_in_place(&mut at_hand, None);
    assert_eq!(at_hand.as_ref().unwrap().nodes[0].size, 940);
    let other = flatten(dir("/o", vec![file("f", 3)]), "/o".to_string(), 0, 4, 0);
    put_in_place(&mut at_hand, Some(other));
    assert_eq!(at_hand.as_ref().unwrap().root_path, "/o");
    let mut none = None;
    put_in_place(&mut none, None);
    assert!(none.is_none());
}

#[test]
fn a_directory_is_put_together() {
    let files = vec![file("s", 1), file("l", 9)];
    let scanned = vec![dir("d", vec![file("m", 5)])];
    assert!(sums_fit(&files, &scanned));
    let d = finish_dir(false, "r".to_string(), files, scanned).unwrap();
    let names: Vec<&str> = d.children.iter().map(|c| c.name.as_str()).collect();
    assert_eq!(names, ["l", "d", "s"]);
    assert_eq!((d.size, d.files), (15, 3));
    assert!(finish_dir(true, "r".to_string(), vec![file("s", 1)], Vec::new()).is_none());
    assert!(!sums_fit(&vec![file("a", u64::MAX)], &vec![file("b", 1)]));
    assert!(sums_fit(&vec![file("a", u64::MAX)], &vec![file("b", 0)]));
}

#[test]
fn root_of_a_scan() {
    assert!(can_scan(Some(true)));
    assert!(!can_scan(Some(false)));
    assert!(!can_scan(None));
    let r = scan_root("/full/path", Some(true), Some(dir("path", Vec::new()))).unwrap();
    assert_eq!(r.name, "/full/path");
    assert!(scan_root("/p", Some(true), None).is_none());
    assert!(scan_root("/p", Some(false), Some(dir("p", Vec::new()))).is_none());
    assert!(scan_root("/p", None, Some(dir("p", Vec::new()))).is_none());
}

#[test]
fn a_finished_scan_gets_the_next_number() {
    let mut generation = 4;
    let s = finish_scan(Some(dir("/r", vec![file("f", 3)])), "/r".to_string(), 5, 1, &mut generation);
    assert_eq!(generation, 5);
    let s = s.unwrap();
    assert_eq!((s.generation, s.elapsed_ms, s.errors), (5, 5, 1));
    assert_adds_up(&s);
    assert!(finish_scan(None, "/r".to_string(), 5, 1, &mut generation).is_none());
    assert_eq!(generation, 5);
}

#[test]
fn what_cannot_be_laid_out() {
    let big = LocalNode {
        name: "r".to_string(),
        size: 0,
        files: 2,
        is_dir: true,
        children: vec![file("a", u64::MAX), file("b", 1)],
    };
    assert!(!can_lay_out(&big));
    assert!(!can_lay_out(&file("f", 1)));
    assert!(can_lay_out(&dir("d", vec![file("a", u64::MAX)])));
}

/// A tree of directories and files, grown from a seed.
fn grow(seed: &mut u64, depth: u32) -> LocalNode {
    let mut next = |n: u64| {
        *seed = seed.wrapping_mul(6364136223846793005).wrapping_add(1442695040888963407);
        (*seed >> 33) % n
    };
    let files = next(6);
    let dirs = if depth > 0 { next(4) } else { 0 };
    let mut kids: Vec<LocalNode> = (0..files)
        .map(|i| {
            let ext = ["rs", "TXT", "", "png", "tar.gz"][next(5) as usize];
            file(&format!("f{}.{}", i, ext), next(1000))
        })
        .collect();
    for _ in 0..dirs {
        kids.push(grow(seed, depth - 1));
    }
    dir("d", kids)
}

/// The rows are those of the largest living files: nothing larger is left out.
fn assert_lists_the_largest(s: &Store, rows: &Vec<BigRow>) {
    let mut living: Vec<(u64, u32)> = (0..s.nodes.len())
        .filter(|k| s.nodes[*k].alive && !s.nodes[*k].is_dir)
        .map(|k| (s.nodes[k].size, k as u32))
        .collect();
    living.sort_unstable_by(|a, b| b.cmp(a));
    assert_eq!(rows.len(), living.len().min(15));
    for (k, row) in rows.iter().enumerate() {
        let n = &s.nodes[row.id as usize];
        assert!(n.alive && !n.is_dir);
        assert_eq!((row.size, &row.name), (n.size, &n.name));
        assert_eq!(row.size, living[k].0);
        if k > 0 {
            assert!((rows[k - 1].size, rows[k - 1].id) > (row.size, row.id));
        }
    }
    if let Some(least) = rows.last() {
        for (size, id) in living {
            assert!(size <= least.size || rows.iter().any(|r| r.id == id));
        }
    }
}

#[test]
fn deleted_files_make_room_in_the_list() {
    let mut kids: Vec<LocalNode> = (0..20).map(|i| file(&format!("f{}", i), 100 - i)).collect();
    kids.push(dir("d", (0..15).map(|i| file(&format!("g{}", i), 1000 + i)).collect()));
    let mut s = flatten(dir("/", kids), "/".to_string(), 0, 1, 0);
    assert_lists_the_largest(&s, &big_files(&s, '/'));
    assert_eq!(big_files(&s, '/')[0].size, 1014);
    let d = id_of(&s, "d");
    remove_subtree(&mut s, d);
    let rows = big_files(&s, '/');
    let sizes: Vec<u64> = rows.iter().map(|r| r.size).collect();
    assert_eq!(sizes, (86..=100).rev().collect::<Vec<u64>>());
    assert_lists_the_largest(&s, &rows);
    assert_eq!(s.largest, rows.iter().map(|r| r.id).collect::<Vec<u32>>());
    assert_eq!(refill(&s.nodes, &s.largest), s.largest);
    assert_eq!(refill(&s.nodes, &Vec::new()), s.largest);
    remove_subtree(&mut s, 0);
    assert!(big_files(&s, '/').is_empty());
}

#[test]
fn what_is_listed_stays_listed() {
    let mut kids: Vec<LocalNode> = (0..16).map(|i| file(&format!("e{:02}", i), 50)).collect();
    kids.push(dir("d", vec![file("big", 1000)]));
    let mut s = flatten(dir("/", kids), "/".to_string(), 0, 1, 0);
    let first = s.largest.clone();
    assert_eq!(first.len(), 15);
    let unlisted: Vec<u32> = (0..s.nodes.len() as u32)
        .filter(|k| !s.nodes[*k as usize].is_dir && !first.contains(k))
        .collect();
    assert_eq!(unlisted.len(), 2);
    remove_subtree(&mut s, unlisted[0]);
    assert_eq!(s.largest, first);
    remove_subtree(&mut s, first[7]);
    assert_eq!(s.largest.len(), 15);
    assert!(s.largest.contains(&unlisted[1]));
    assert!(first.iter().all(|k| *k == first[7] || s.largest.contains(k)));
    assert_lists_the_largest(&s, &big_files(&s, '/'));
    remove_subtree(&mut s, unlisted[1]);
    let left: Vec<u32> = first.iter().copied().filter(|k| *k != first[7]).collect();
    assert_eq!(s.largest, left);
}

#[test]
fn nothing_is_subtracted_twice() {
    for below in ["y.txt", "sub", "z.txt"] {
        let mut twice = sample();
        let (c, a) = (id_of(&twice, below), id_of(&twice, "a"));
        let first = remove_subtree(&mut twice, c);
        let second = remove_subtree(&mut twice, a);
        let mut once = sample();
        let whole = remove_subtree(&mut once, a);
        assert_eq!((first.0 + second.0, first.1 + second.1), whole);
        assert_eq!(whole, (340, 2));
        let nodes = |s: &Store| -> Vec<(bool, u64, u32)> {
            s.nodes
                .iter()
                .map(|n| if n.alive { (true, n.size, n.files) } else { (false, 0, 0) })
                .collect()
        };
        assert_eq!(nodes(&twice), nodes(&once));
        let exts = |s: &Store| -> Vec<(u64, u64, u8)> {
            s.exts.iter().map(|e| (e.bytes, e.files, e.slot)).collect()
        };
        assert_eq!(exts(&twice), exts(&once));
        assert_eq!(twice.dirs, once.dirs);
        let sizes = |s: &Store| -> Vec<u64> {
            s.largest.iter().map(|k| s.nodes[*k as usize].size).collect()
        };
        assert_eq!(sizes(&twice), sizes(&once));
        assert_eq!(once.nodes[0].size, 600);
    }
}

#[test]
fn totals_hold_through_many_deletions() {
    let mut seed = 42;
    for _ in 0..20 {
        let root = grow(&mut seed, 5);
        let total = root.size;
        let mut s = flatten(root, "/g".to_string(), 0, 1, 0);
        assert_eq!(s.nodes[0].size, total);
        assert_adds_up(&s);
        for _ in 0..30 {
            if s.nodes.len() < 2 {
                break;
            }
            seed = seed.wrapping_mul(6364136223846793005).wrapping_add(1442695040888963407);
            let id = 1 + ((seed >> 33) % (s.nodes.len() as u64 - 1)) as u32;
            if !s.nodes[id as usize].alive {
                continue;
            }
            let before = s.nodes[0].size;
            let (freed, _) = remove_subtree(&mut s, id);
            assert_eq!(s.nodes[0].size, before - freed);
            assert_adds_up(&s);
            let m = summarize(&s, (0, 0), '/');
            assert_eq!(m.bytes, s.nodes[0].size);
            assert_lists_the_largest(&s, &m.largest);
        }
    }
}
