use diskhoji::config::ThemeKind;
use diskhoji::flatten::flatten;
use diskhoji::scan::finish_dir;
use diskhoji::session::{double_click, path_for, Act, Effect, Reading, Screen, Session};
use diskhoji::store::Store;
use diskhoji::summary::summarize;
use diskhoji::tree::LocalNode;
use diskhoji::voyage::{Lcg, Pressed, Voyage};
use diskhoji::wording::{
    ext_title, files_line, heat_caption, more_line, place_card, progress_line, rank_text, stat_tiles,
    status_line, target_line, tip_line, tip_note, totals_line,
};

fn file(name: &str, size: u64) -> LocalNode {
    LocalNode { name: name.to_string(), size, files: 1, is_dir: false, children: Vec::new() }
}

fn dir(name: &str, children: Vec<LocalNode>) -> LocalNode {
    finish_dir(false, name.to_string(), children, Vec::new()).unwrap()
}

/// 0 /r, 1 d, 2 a.txt, 3 e, 4 b.bin
fn store() -> Store {
    let d = dir("d", vec![dir("e", vec![file("b.bin", 2048)])]);
    flatten(dir("/r", vec![file("a.txt", 10), d]), "/r".to_string(), 2000, 5, 1)
}

fn fresh() -> (Session, Option<Store>) {
    let mut s = Session::new(ThemeKind::Dark, &Some("/home".to_string()));
    let st = Some(store());
    assert!(s.refresh(false, &st, (100, 40), '/'));
    (s, st)
}

fn toast(s: &Session) -> Option<(&str, bool)> {
    s.toast.as_ref().map(|t| (t.text.as_str(), t.bad))
}

#[test]
fn a_window_before_its_first_scan() {
    let s = Session::new(ThemeKind::Light, &None);
    assert_eq!(s.path_input, "/");
    assert!(s.theme_kind == ThemeKind::Light);
    assert!(s.screen(false) == Screen::Landing);
    assert!(s.screen(true) == Screen::Scanning);
    assert_eq!(Session::new(ThemeKind::Dark, &Some("/home".to_string())).path_input, "/home");
}

#[test]
fn a_new_scan_is_taken_in_once() {
    let mut s = Session::new(ThemeKind::Dark, &None);
    let st = Some(store());
    assert!(!s.refresh(true, &st, (1, 1), '/'));
    assert!(!s.refresh(false, &None, (1, 1), '/'));
    assert!(s.refresh(false, &st, (100, 40), '/'));
    assert!(!s.refresh(false, &st, (100, 40), '/'));
    assert!(s.screen(false) == Screen::Dashboard);
    assert_eq!(s.gen_seen, 5);
    assert_eq!(s.crumbs, [(0, "/r".to_string())]);
    assert_eq!(s.snap.as_ref().unwrap().bytes, 2058);
    s.retarget();
    assert!(s.screen(false) == Screen::Landing);
    assert!(s.refresh(false, &st, (100, 40), '/'));
}

#[test]
fn zooming_and_the_way_back() {
    let (mut s, st) = fresh();
    let st = st.unwrap();
    assert!(!s.crumbs_stale());
    let some = Some(st);
    assert!(matches!(s.apply(Act::Zoom(3), &some, '/'), Effect::Nothing));
    assert_eq!(s.look.zoom, 3);
    assert!(s.crumbs.is_empty() && s.crumbs_stale());
    s.rebuild_crumbs(some.as_ref().unwrap());
    assert_eq!(
        s.crumbs,
        [(0, "/r".to_string()), (1, "d".to_string()), (3, "e".to_string())]
    );
    let acts = s.keys(true, false, false);
    assert_eq!(acts.len(), 1);
    assert!(matches!(acts[0], Act::Zoom(1)));
    let st = some.unwrap();
    assert_eq!(double_click(&st, 3, 1), Some(3));
    assert_eq!(double_click(&st, 1, 2), Some(1));
    assert_eq!(double_click(&st, 4, 0), Some(3));
    assert_eq!(double_click(&st, 0, 0), None);
}

#[test]
fn the_map_is_drawn_anew_when_needed() {
    let (mut s, _) = fresh();
    assert!(s.relayout(5, 100, 80));
    assert!(!s.relayout(5, 100, 80));
    assert!(s.relayout(5, 101, 80));
    s.show(Reading::Treemap);
    assert!(!s.relayout(5, 101, 80));
    s.show(Reading::Heat);
    assert!(s.relayout(5, 101, 80));
    assert!(s.relayout(6, 101, 80));
    s.invalidate_map();
    assert!(s.relayout(6, 101, 80));
}

#[test]
fn gestures() {
    let (mut s, st) = fresh();
    s.apply(Act::Select(4), &st, '/');
    assert_eq!(s.look.sel, Some(4));
    s.apply(Act::ToggleExt(2), &st, '/');
    assert_eq!(s.look.ext_sel, Some(2));
    s.apply(Act::ToggleExt(3), &st, '/');
    assert_eq!(s.look.ext_sel, Some(3));
    s.apply(Act::ToggleExt(3), &st, '/');
    assert_eq!(s.look.ext_sel, None);
    match s.apply(Act::Reveal(4), &st, '/') {
        Effect::Reveal(p) => assert_eq!(p, "/r/d/e/b.bin"),
        _ => panic!("nothing to reveal"),
    }
    match s.apply(Act::Open(2), &st, '/') {
        Effect::Open(p) => assert_eq!(p, "/r/a.txt"),
        _ => panic!("nothing to open"),
    }
    assert!(matches!(s.apply(Act::Open(99), &st, '/'), Effect::Nothing));
    assert!(matches!(s.apply(Act::Reveal(0), &None, '/'), Effect::Nothing));
    s.apply(Act::CopyPath(2), &st, '/');
    assert_eq!(s.take_copy(), Some("/r/a.txt".to_string()));
    assert_eq!(toast(&s), Some(("Path copied", false)));
    assert_eq!(s.take_copy(), None);
    assert_eq!(path_for(&st, 99, '/'), None);
}

#[test]
fn asking_before_deleting() {
    let (mut s, st) = fresh();
    s.apply(Act::AskDelete(0), &st, '/');
    assert!(s.delete_target.is_none());
    s.apply(Act::AskDelete(99), &st, '/');
    assert!(s.delete_target.is_none());
    s.apply(Act::AskDelete(1), &st, '/');
    let t = s.delete_target.as_ref().unwrap();
    assert_eq!((t.id, t.name.as_str(), t.path.as_str(), t.size, t.dir, t.files), (1, "d", "/r/d", 2048, true, 1));
    s.look.sel = Some(2);
    assert!(s.keys(true, true, false).is_empty());
    assert!(s.delete_target.is_some());
    s.keys(false, false, true);
    assert!(s.delete_target.is_none());
    let acts = s.keys(false, true, true);
    assert!(matches!(acts[0], Act::AskDelete(2)));
    s.look.sel = Some(0);
    assert!(s.keys(false, true, false).is_empty());
    s.look.sel = None;
    assert!(s.keys(true, true, false).is_empty());
}

#[test]
fn deleting_updates_everything() {
    let (mut s, st) = fresh();
    let mut st = st.unwrap();
    assert!(s.check_delete(&st, 0, '/').is_none());
    assert_eq!(toast(&s), Some(("refusing: bad delete target", true)));
    assert!(s.check_delete(&st, 99, '/').is_none());
    assert_eq!(s.check_delete(&st, 4, '/'), Some(("/r/d/e/b.bin".to_string(), false)));
    assert_eq!(s.check_delete(&st, 1, '/'), Some(("/r/d".to_string(), true)));
    s.delete_failed("busy");
    assert_eq!(toast(&s), Some(("delete failed: busy", true)));
    s.look.zoom = 3;
    s.look.sel = Some(4);
    s.deleted(&mut st, 1, (100, 50), '/');
    assert_eq!(toast(&s), Some(("Deleted d — 2.00 KiB freed", false)));
    assert_eq!(s.look.zoom, 0);
    assert_eq!(s.look.sel, None);
    assert!(s.crumbs.is_empty());
    assert_eq!(s.snap.as_ref().unwrap().bytes, 10);
    assert!(s.check_delete(&st, 1, '/').is_none());
}

#[test]
fn starting_a_scan_from_the_window() {
    let mut s = Session::new(ThemeKind::Dark, &None);
    assert!(!s.begin_scan("/f".to_string(), false));
    assert_eq!(toast(&s), Some(("not a directory: /f", true)));
    assert_eq!(s.path_input, "/");
    assert!(s.begin_scan("/d".to_string(), true));
    assert_eq!(s.path_input, "/d");
}

#[test]
fn the_five_tiles() {
    let st = store();
    let m = summarize(&st, (10_000, 5_884), '/');
    let v: Vec<(String, String, String)> =
        stat_tiles(&m).into_iter().map(|t| (t.label, t.value, t.note)).collect();
    let t = |a: &str, b: &str, c: &str| (a.to_string(), b.to_string(), c.to_string());
    assert_eq!(
        v,
        [
            t("SCANNED", "2.01 KiB", "50% of used disk"),
            t("FILES", "2", "1 unreadable"),
            t("FOLDERS", "3", "one filesystem"),
            t("LARGEST FILE", "2.00 KiB", "b.bin"),
            t("SCAN TIME", "2.0 s", "1 files/s"),
        ]
    );
    let e = flatten(dir("/e", Vec::new()), "/e".to_string(), 0, 1, 0);
    let v = stat_tiles(&summarize(&e, (0, 0), '/'));
    assert_eq!(v[0].note, "0.0% of used disk");
    assert_eq!(v[1].note, "all readable");
    assert_eq!((v[3].value.as_str(), v[3].note.as_str()), ("—", ""));
    assert_eq!(v[4].note, "0 files/s");
}

#[test]
fn the_texts_of_the_window() {
    let st = Some(store());
    assert_eq!(status_line(&st, None, '/'), "ready · dbl-click to zoom · right-click for actions");
    assert_eq!(status_line(&st, Some(99), '/'), "ready");
    assert_eq!(status_line(&None, Some(0), '/'), "ready");
    assert_eq!(status_line(&st, Some(2), '/'), "/r/a.txt · 10 B · 0.5% of total");
    let m = summarize(st.as_ref().unwrap(), (100, 2048), '/');
    assert_eq!(totals_line(&m), "2 files · 3 folders · 2.0 s · 2.00 KiB free");
    let m = summarize(st.as_ref().unwrap(), (0, 0), '/');
    assert_eq!(totals_line(&m), "2 files · 3 folders · 2.0 s");
    assert_eq!(ext_title(""), "no extension");
    assert_eq!(ext_title("rs"), ".rs");
    assert_eq!(files_line(1234), "1,234 files");
    assert_eq!(rank_text(3), format!("{:>2}", 3));
    assert_eq!(rank_text(15), format!("{:>2}", 15));
    assert_eq!(
        heat_caption(2000, 7),
        "2,000 items · one cell each · ring = folder · color = size (log) · 7 smaller not shown"
    );
    assert_eq!(heat_caption(3, 0), "3 items · one cell each · ring = folder · color = size (log)");
    assert_eq!(more_line(1200), "… 1,200 smaller items not shown");
    assert_eq!(target_line(1024, true, 5), "1.00 KiB · 5 files");
    assert_eq!(target_line(1024, false, 1), "1.00 KiB");
    assert_eq!(tip_line(512, 1024), "512 B · 50% of this view");
    assert_eq!(tip_line(0, 0), "0 B · 0.0% of this view");
    assert_eq!(tip_note(0), "");
    assert_eq!(tip_note(1), "folder · double-click to zoom");
    assert_eq!(tip_note(2), "many small items · double-click to zoom");
    assert_eq!(place_card("Home", "/h", 1024, 2048), "Home\n/h\n1.00 KiB free of 2.00 KiB");
    assert_eq!(progress_line(1000, 20, "1.5"), "1,000 files   ·   20 folders   ·   1.5 s");
}

#[test]
fn the_generator_of_the_sea() {
    let mut r = Lcg::new(108);
    let mut s: u32 = 108;
    for _ in 0..1000 {
        s = s.wrapping_mul(1_664_525).wrapping_add(1_013_904_223);
        assert_eq!(r.next(), s);
    }
}

#[test]
fn a_voyage() {
    let mut v = Voyage::new(50);
    assert_eq!(v.overlay.title, "The Seeker's Voyage");
    assert!(!v.jump());
    assert!(v.press(true) == Pressed::SetSail);
    assert!(v.running);
    assert!(v.start(false) == Pressed::Nothing);
    assert!(v.press(false) == Pressed::Leap);
    assert!(v.press(false) == Pressed::Nothing);
    assert!(!v.end_jump(true));
    v.fly(true, false);
    assert!(v.end_jump(true));
    assert!(!v.end_jump(false));
    assert!(v.set_speed_drop());
    assert!(v.speed_drop);
    v.release_drop();
    assert!(!v.speed_drop);
    v.fly(false, true);
    assert!(!v.jumping && v.reached_min);
    assert!(!v.set_speed_drop());
    v.collect();
    v.collect();
    assert_eq!(v.bytes, 16);
    v.anchor();
    assert!(!v.running && !v.over);
    assert_eq!((v.overlay.title.as_str(), v.overlay.button.as_str()), ("At anchor", "Resume — sail on"));
    assert!(v.press(false) == Pressed::SailOn);
    assert_eq!(v.bytes, 16);
    assert!(v.wreck(51));
    assert_eq!(v.best, 51);
    assert_eq!(v.overlay.title, "Wrecked at 51 fathoms");
    assert_eq!(v.overlay.subtitle, "With 16 amber bytes aboard. The sea keeps honest ledgers.");
    v.anchor();
    assert_eq!(v.overlay.button, "Sail again");
    assert!(v.press(false) == Pressed::SetSail);
    assert_eq!(v.bytes, 0);
    assert!(!v.wreck(51));
    assert_eq!(v.best, 51);
    assert_eq!(v.overlay.subtitle, "The sea keeps honest ledgers.");
}
