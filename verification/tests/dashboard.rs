use diskhoji::flatten::flatten;
use diskhoji::json::{deleted_body, error_body, ok_body};
use diskhoji::scan::{finish_dir, Progress};
use diskhoji::store::Store;
use diskhoji::token::{gen_token, seeded_bytes, token_ok, token_text};
use diskhoji::tree::LocalNode;
use diskhoji::web::{
    bad_json, cannot_stat, check_delete, check_scan, commit_delete, delete_as_dir, delete_failed, locate,
    node, node_resp, page, path_of_url, query_u64, route, status, summary, treemap_request, Deletion, Method, Outcome, Refusal,
    Route,
};

fn file(name: &str, size: u64) -> LocalNode {
    LocalNode { name: name.to_string(), size, files: 1, is_dir: false, children: Vec::new() }
}

fn dir(name: &str, children: Vec<LocalNode>) -> LocalNode {
    finish_dir(false, name.to_string(), children, Vec::new()).unwrap()
}

/// 0 /r, 1 d, 2 a.txt, 3 b.bin
fn store() -> Option<Store> {
    let root = dir("/r", vec![file("a.txt", 10), dir("d", vec![file("b.bin", 30)])]);
    Some(flatten(root, "/r".to_string(), 8, 5, 2))
}

fn refused<T>(r: Result<T, Refusal>) -> (u16, String) {
    match r {
        Ok(_) => panic!("not refused"),
        Err(e) => (e.code, e.message),
    }
}

fn why(code: u16, message: &str) -> (u16, String) {
    (code, message.to_string())
}

#[test]
fn requests_find_their_way() {
    let none: Vec<(String, String)> = Vec::new();
    let sent = vec![
        ("Host".to_string(), "x".to_string()),
        ("x-DISKHOJI-token".to_string(), "s3".to_string()),
    ];
    let to = |m, p: &str, h| route(m, p, h, "s3");
    assert!(matches!(to(Method::Get, "/", &none), Ok(Route::Page)));
    assert!(matches!(to(Method::Get, "/api/status", &none), Ok(Route::Status)));
    assert!(matches!(to(Method::Get, "/api/roots", &none), Ok(Route::Roots)));
    assert!(matches!(to(Method::Get, "/api/summary", &none), Ok(Route::Summary)));
    assert!(matches!(to(Method::Get, "/api/node/12", &none), Ok(Route::Node)));
    assert!(matches!(to(Method::Get, "/api/node/", &none), Ok(Route::Node)));
    assert!(matches!(to(Method::Get, "/api/treemap", &none), Ok(Route::Treemap)));
    assert!(matches!(to(Method::Post, "/api/scan", &sent), Ok(Route::Scan)));
    assert!(matches!(to(Method::Post, "/api/cancel", &sent), Ok(Route::Cancel)));
    assert!(matches!(to(Method::Post, "/api/delete", &sent), Ok(Route::Delete)));
    assert!(matches!(to(Method::Post, "/api/reveal", &sent), Ok(Route::Reveal)));
    assert!(matches!(to(Method::Post, "/api/open", &sent), Ok(Route::Open)));
    assert_eq!(refused(to(Method::Get, "/api/delete", &sent)), why(404, "not found"));
    assert_eq!(refused(to(Method::Post, "/api/status", &sent)), why(404, "not found"));
    assert_eq!(refused(to(Method::Other, "/", &sent)), why(404, "not found"));
    assert_eq!(path_of_url("/api/treemap?id=1?2"), "/api/treemap");
    assert_eq!(path_of_url("/api"), "/api");
}

#[test]
fn no_change_without_the_token() {
    let wrong = vec![("X-Diskhoji-Token".to_string(), "no".to_string())];
    let elsewhere = vec![("X-Other".to_string(), "s3".to_string())];
    for path in ["/api/scan", "/api/cancel", "/api/delete", "/api/reveal", "/api/open", "/x"] {
        for h in [&Vec::new(), &wrong, &elsewhere] {
            assert_eq!(
                refused(route(Method::Post, path, h, "s3")),
                why(403, "missing or bad X-Diskhoji-Token")
            );
        }
    }
    assert!(!token_ok(&wrong, "s3"));
    assert!(token_ok(&wrong, "no"));
}

#[test]
fn tokens() {
    let bytes: Vec<u8> = vec![0, 1, 15, 16, 171, 255];
    assert_eq!(token_text(&bytes), "00010f10abff");
    assert_eq!(gen_token(Some(bytes), 1, 2), "00010f10abff");
    let seed: u64 = 1234567 ^ (99u64 << 32);
    let expect: Vec<u8> = (0..16u64)
        .map(|i| {
            (seed
                .wrapping_mul(6364136223846793005)
                .wrapping_add(i.wrapping_mul(1442695040888963407))
                >> ((i % 8) * 8)) as u8
        })
        .collect();
    assert_eq!(seeded_bytes(1234567, 99), expect);
    let t = gen_token(None, 1234567, 99);
    assert_eq!(t, token_text(&expect));
    assert_eq!(t.len(), 32);
    assert_ne!(t, gen_token(None, 1234568, 99));
}

#[test]
fn numbers_in_an_address() {
    assert_eq!(query_u64("/t?id=7&w=800", "id"), Some(7));
    assert_eq!(query_u64("/t?id=7&w=800", "w"), Some(800));
    assert_eq!(query_u64("/t?id=7&w=800", "h"), None);
    assert_eq!(query_u64("/t?id=x&id=7", "id"), None);
    assert_eq!(query_u64("/t?id&id=7", "id"), Some(7));
    assert_eq!(query_u64("/t?id=7=8", "id"), None);
    assert_eq!(query_u64("/t", "id"), None);
    assert_eq!(query_u64("/t?", "id"), None);
    assert_eq!(query_u64("/t?id=+9", "id"), Some(9));
    assert_eq!(query_u64("/t?id=18446744073709551616", "id"), None);
    assert_eq!(query_u64("/t?a=1?id=2", "id"), None);
}

#[test]
fn the_page_carries_the_token() {
    assert_eq!(page("<a __DK_TOKEN__><b __DK_TOKEN__>", "xy"), "<a xy><b xy>");
    assert_eq!(page("none", "xy"), "none");
}

#[test]
fn where_things_stand() {
    let mut p = Progress::new();
    let s = status(&None, &p);
    assert_eq!((s.state.as_str(), s.generation, s.root), ("idle", 0, None));
    p.scanning = true;
    p.files = 3;
    p.dirs = 2;
    p.bytes = 9;
    p.errors = 1;
    p.current = "/c".to_string();
    let s = status(&store(), &p);
    assert_eq!((s.state.as_str(), s.files, s.dirs, s.bytes, s.errors), ("scanning", 3, 2, 9, 1));
    assert_eq!((s.current.as_str(), s.generation, s.root), ("/c", 5, Some("/r".to_string())));
    p.scanning = false;
    assert_eq!(status(&store(), &p).state, "ready");
}

#[test]
fn scans_that_are_not_started() {
    assert!(check_scan("/d", true, false).is_ok());
    assert_eq!(refused(check_scan("/f", false, false)), why(400, "not a directory: /f"));
    assert_eq!(refused(check_scan("/f", false, true)), why(400, "not a directory: /f"));
    assert_eq!(refused(check_scan("/d", true, true)), why(409, "scan already running"));
    let e = bad_json();
    assert_eq!((e.code, e.message), why(400, "bad json"));
}

#[test]
fn the_summary_needs_a_scan() {
    assert_eq!(refused(summary(&None, (0, 0), '/')), why(404, "no scan yet"));
    let s = summary(&store(), (9, 4), '/').ok().unwrap();
    assert_eq!((s.bytes, s.files, s.dirs, s.errors, s.disk_total, s.disk_free), (40, 2, 2, 2, 9, 4));
}

#[test]
fn a_node_and_its_children() {
    let s = store();
    let d = node(&s, "/api/node/0", '/').ok().unwrap();
    assert_eq!((d.id, d.name.as_str(), d.path.as_str(), d.size, d.files), (0, "/r", "/r", 40, 2));
    assert_eq!((d.dir, d.total, d.generation, d.more), (true, 40, 5, 0));
    assert!(d.ancestors.is_empty() && d.ancestor_names.is_empty());
    let kids: Vec<(u32, &str, u64, bool, u8)> =
        d.children.iter().map(|c| (c.id, c.name.as_str(), c.size, c.dir, c.slot)).collect();
    assert_eq!(kids, [(1, "d", 30, true, 254), (2, "a.txt", 10, false, 1)]);
    let b = node(&s, "/api/node/3", '/').ok().unwrap();
    assert_eq!((b.path.as_str(), b.ancestors, b.ancestor_names), ("/r/d/b.bin", vec![0, 1], vec!["/r".to_string(), "d".to_string()]));
    assert_eq!(refused(node(&s, "/api/node/4", '/')), why(404, "no such node"));
    assert_eq!(refused(node(&s, "/api/node/x", '/')), why(400, "bad id"));
    assert_eq!(refused(node(&s, "/api/node/", '/')), why(400, "bad id"));
    assert_eq!(refused(node(&s, "/api/node/4294967296", '/')), why(400, "bad id"));
    assert_eq!(refused(node(&None, "/api/node/0", '/')), why(404, "no scan yet"));
    assert_eq!(refused(node(&None, "/api/node/x", '/')), why(400, "bad id"));
}

#[test]
fn an_answer_lists_so_many_children() {
    let many: Vec<LocalNode> = (0..1600).map(|i| file(&format!("f{}", i), i)).collect();
    let s = flatten(dir("/m", many), "/m".to_string(), 0, 1, 0);
    let d = node_resp(&s, 0, '/');
    assert_eq!((d.children.len(), d.more), (1500, 100));
    assert_eq!(d.children[0].size, 1599);
    assert_eq!(d.children[1499].size, 100);
}

#[test]
fn the_map_that_is_asked_for() {
    let s = store();
    let ask = |u: &str| treemap_request(&store(), u).ok().map(|m| (m.id, m.w, m.h));
    assert_eq!(ask("/api/treemap"), Some((0, 800, 600)));
    assert_eq!(ask("/api/treemap?id=1&w=5&h=20000"), Some((1, 10, 10_000)));
    assert_eq!(ask("/api/treemap?w=1024&h=768"), Some((0, 1024, 768)));
    assert_eq!(ask("/api/treemap?id=4294967297"), Some((1, 800, 600)));
    assert_eq!(refused(treemap_request(&s, "/t?id=9")), why(404, "no such node"));
    assert_eq!(refused(treemap_request(&None, "/t?id=9")), why(404, "no scan yet"));
}

#[test]
fn deletions_that_are_refused() {
    let s = store();
    let root = why(400, "refusing to delete the scan root");
    assert_eq!(refused(check_delete(&s, 0, Some(5), '/')), root);
    assert_eq!(refused(check_delete(&s, 0, None, '/')), root);
    assert_eq!(refused(check_delete(&None, 0, Some(5), '/')), root);
    assert_eq!(refused(check_delete(&None, 1, Some(5), '/')), why(404, "no scan yet"));
    assert_eq!(refused(check_delete(&s, 4, Some(5), '/')), why(404, "no such node"));
    assert_eq!(
        refused(check_delete(&s, 1, Some(4), '/')),
        why(409, "scan changed — refresh before deleting")
    );
    assert_eq!(refused(check_delete(&s, 1, None, '/')), why(400, "generation required"));
    let t = check_delete(&s, 3, Some(5), '/').ok().unwrap();
    assert_eq!((t.path.as_str(), t.is_dir, t.generation), ("/r/d/b.bin", false, 5));
    assert!(check_delete(&s, 1, Some(5), '/').ok().unwrap().is_dir);
    assert_eq!(delete_as_dir(true, true).ok(), Some(true));
    assert_eq!(delete_as_dir(false, false).ok(), Some(false));
    let changed = why(409, "path changed type on disk — refusing");
    assert_eq!(refused(delete_as_dir(true, false)), changed);
    assert_eq!(refused(delete_as_dir(false, true)), changed);
    let e = cannot_stat("/p", "gone");
    assert_eq!((e.code, e.message), why(500, "cannot stat /p: gone"));
    let e = delete_failed("denied");
    assert_eq!((e.code, e.message), why(500, "delete failed: denied"));
}

#[test]
fn a_deletion_goes_step_by_step() {
    let target = || check_delete(&store(), 1, Some(5), '/').ok().unwrap();
    let look = || Deletion::Look { target: target() };
    let remove = || look().next(Outcome::Looked { is_dir: true }).ok().unwrap();
    match remove() {
        Deletion::Remove { target, whole } => assert_eq!((target.path.as_str(), whole), ("/r/d", true)),
        _ => panic!("not to be removed"),
    }
    assert_eq!(
        refused(look().next(Outcome::Looked { is_dir: false })),
        why(409, "path changed type on disk — refusing")
    );
    let gone = || Outcome::Failed { error: "gone".to_string() };
    assert_eq!(refused(look().next(gone())), why(500, "cannot stat /r/d: gone"));
    assert_eq!(refused(remove().next(gone())), why(500, "delete failed: gone"));
    assert!(matches!(look().next(Outcome::Removed), Ok(Deletion::Look { .. })));
    assert!(matches!(
        remove().next(Outcome::Looked { is_dir: true }),
        Ok(Deletion::Remove { .. })
    ));
    match remove().next(Outcome::Removed) {
        Ok(Deletion::Commit { target }) => assert_eq!(target.generation, 5),
        _ => panic!("not to be committed"),
    }
    assert!(matches!(
        remove().next(Outcome::Removed).ok().unwrap().next(gone()),
        Ok(Deletion::Commit { .. })
    ));
}

#[test]
fn what_is_deleted_is_gone() {
    let mut s = store();
    assert_eq!(commit_delete(&mut s, 1, 4), (0, 0));
    assert_eq!(s.as_ref().unwrap().nodes[0].size, 40);
    assert_eq!(commit_delete(&mut s, 1, 5), (30, 1));
    assert_eq!(s.as_ref().unwrap().nodes[0].size, 10);
    assert_eq!(commit_delete(&mut s, 1, 5), (0, 0));
    assert_eq!(commit_delete(&mut s, 99, 5), (0, 0));
    assert_eq!(commit_delete(&mut None, 1, 5), (0, 0));
    for id in [1, 3] {
        assert_eq!(refused(check_delete(&s, id, Some(5), '/')), why(404, "no such node"));
        assert_eq!(refused(node(&s, &format!("/api/node/{}", id), '/')), why(404, "no such node"));
    }
    assert_eq!(locate(&s, 3, '/').ok(), Some("/r/d/b.bin".to_string()));
    assert_eq!(refused(locate(&s, 4, '/')), why(404, "no such node"));
    assert_eq!(refused(locate(&None, 0, '/')), why(404, "no scan yet"));
}

#[test]
fn a_document_ends_where_it_should() {
    let body = error_body("a\"}\n\u{1}b");
    assert!(body.chars().all(|c| c >= ' '));
    assert_eq!(body, "{\"error\":\"a\\\"}\\n\\u0001b\"}");
}

fn text(v: serde_json::Value) -> String {
    serde_json::to_string(&v).unwrap()
}

#[test]
fn documents_as_serde_writes_them() {
    for msg in ["", "plain", "a \"b\" \\ c", "\u{8}\u{c}\n\r\t\u{0}\u{1f}\u{7f}", "ä — 😀 </script>"] {
        let mut m = serde_json::Map::new();
        m.insert("error".to_string(), serde_json::Value::from(msg));
        assert_eq!(error_body(msg), text(serde_json::Value::Object(m)));
        let mut m = serde_json::Map::new();
        m.insert("ok".to_string(), serde_json::Value::from(true));
        m.insert("freed".to_string(), serde_json::Value::from(u64::MAX));
        m.insert("files".to_string(), serde_json::Value::from(3u64));
        m.insert("path".to_string(), serde_json::Value::from(msg));
        assert_eq!(deleted_body(u64::MAX, 3, msg), text(serde_json::Value::Object(m)));
    }
    let mut m = serde_json::Map::new();
    m.insert("ok".to_string(), serde_json::Value::from(true));
    assert_eq!(ok_body(), text(serde_json::Value::Object(m)));
}
