//! The localhost dashboard: which request asks for what, what is refused and why,
//! and what is answered.

use crate::kids::{by_weight, heaviest, keep_heaviest, kids_by_weight, left_out};
use crate::numbers::{parse_up_to, parsed};
use crate::order::Ranked;
use crate::paths::{ancestors, ancestors_of, path_text, path_with};
use crate::prune::{pruned, remove_subtree};
use crate::scan::Progress;
use crate::split::{begins, cut_at, find_from, first_index, pieces, replace, replaced, split,
    starts_with};
use crate::store::{is_child, Store};
use crate::summary::{summarize, sums_up, Summary};
use crate::text::{chars_of, join, same_text, text_between};
use crate::token::{carries_token, token_ok};
use crate::treemap::SLOT_DIRAGG;
use vstd::prelude::*;

verus! {

/// How many children one answer lists.
pub const KIDS_ANSWERED: usize = 1500;

/// What a request is refused with.
pub struct Refusal {
    pub code: u16,
    pub message: String,
}

/// The refusal says this.
pub open spec fn says(r: Refusal, why: (u16, Seq<char>)) -> bool {
    r.code == why.0 && r.message@ == why.1
}

/// A refusal.
pub fn refuse(code: u16, message: &str) -> (r: Refusal)
    ensures
        says(r, (code, message@)),
{
    Refusal { code, message: message.to_owned() }
}

/// How a request is made.
#[derive(Clone, Copy)]
pub enum Method {
    Get,
    Post,
    Other,
}

/// What a request asks for.
#[derive(Clone, Copy)]
pub enum Route {
    Page,
    Status,
    Roots,
    Scan,
    Cancel,
    Summary,
    Node,
    Treemap,
    Delete,
    Reveal,
    Open,
}

/// The path of an address, without what follows the question mark.
pub open spec fn path_part(url: Seq<char>) -> Seq<char> {
    url.take(first_index(url, '?'))
}

/// The path of an address, without what follows the question mark.
pub fn path_of_url(url: &str) -> (r: String)
    ensures
        r@ == path_part(url@),
{
    let v = chars_of(url);
    assert(v@.skip(0) == v@);
    let n = find_from(&v, 0, '?');
    let r = text_between(&v, 0, n);
    assert(r@ == url@.take(n as int));
    r
}

/// What a method and a path ask for, if anything.
pub open spec fn route_for(method: Method, path: Seq<char>) -> Option<Route> {
    match method {
        Method::Get => if path == "/"@ {
            Some(Route::Page)
        } else if path == "/api/status"@ {
            Some(Route::Status)
        } else if path == "/api/roots"@ {
            Some(Route::Roots)
        } else if path == "/api/summary"@ {
            Some(Route::Summary)
        } else if begins(path, "/api/node/"@) {
            Some(Route::Node)
        } else if path == "/api/treemap"@ {
            Some(Route::Treemap)
        } else {
            None
        },
        Method::Post => if path == "/api/scan"@ {
            Some(Route::Scan)
        } else if path == "/api/cancel"@ {
            Some(Route::Cancel)
        } else if path == "/api/delete"@ {
            Some(Route::Delete)
        } else if path == "/api/reveal"@ {
            Some(Route::Reveal)
        } else if path == "/api/open"@ {
            Some(Route::Open)
        } else {
            None
        },
        Method::Other => None,
    }
}

/// Why a request is turned away before anything is done, if it is: one that would
/// change anything has to carry the token, and it has to ask for something.
pub open spec fn why_not_admitted(
    method: Method,
    path: Seq<char>,
    headers: Seq<(String, String)>,
    token: Seq<char>,
) -> Option<(u16, Seq<char>)> {
    if method is Post && !carries_token(headers, token) {
        Some((403u16, "missing or bad X-Diskhoji-Token"@))
    } else if route_for(method, path) is None {
        Some((404u16, "not found"@))
    } else {
        None
    }
}

/// What a request asks for, or why it is turned away.
pub fn route(
    method: Method,
    path: &str,
    headers: &Vec<(String, String)>,
    token: &str,
) -> (r: Result<Route, Refusal>)
    ensures
        match r {
            Ok(to) => why_not_admitted(method, path@, headers@, token@) is None && route_for(
                method,
                path@,
            ) == Some(to),
            Err(e) => why_not_admitted(method, path@, headers@, token@) is Some && says(
                e,
                why_not_admitted(method, path@, headers@, token@)->0,
            ),
        },
{
    match method {
        Method::Post => {
            if !token_ok(headers, token) {
                return Err(refuse(403, "missing or bad X-Diskhoji-Token"));
            }
            if same_text(path, "/api/scan") {
                return Ok(Route::Scan);
            }
            if same_text(path, "/api/cancel") {
                return Ok(Route::Cancel);
            }
            if same_text(path, "/api/delete") {
                return Ok(Route::Delete);
            }
            if same_text(path, "/api/reveal") {
                return Ok(Route::Reveal);
            }
            if same_text(path, "/api/open") {
                return Ok(Route::Open);
            }
        },
        Method::Get => {
            if same_text(path, "/") {
                return Ok(Route::Page);
            }
            if same_text(path, "/api/status") {
                return Ok(Route::Status);
            }
            if same_text(path, "/api/roots") {
                return Ok(Route::Roots);
            }
            if same_text(path, "/api/summary") {
                return Ok(Route::Summary);
            }
            if starts_with(path, "/api/node/") {
                return Ok(Route::Node);
            }
            if same_text(path, "/api/treemap") {
                return Ok(Route::Treemap);
            }
        },
        Method::Other => {},
    }
    Err(refuse(404, "not found"))
}

/// The value of the first `key` among the pairs from `i` on, where there is one and
/// it is a number.
pub open spec fn query_value(pairs: Seq<Seq<char>>, key: Seq<char>, i: int) -> Option<nat>
    decreases pairs.len() - i,
{
    if i >= pairs.len() {
        None
    } else {
        match cut_at(pairs[i], '=') {
            Some((k, v)) => if k == key {
                parsed(v, u64::MAX as nat)
            } else {
                query_value(pairs, key, i + 1)
            },
            None => query_value(pairs, key, i + 1),
        }
    }
}

/// The number that the query of an address gives for `key`.
pub open spec fn query_number(url: Seq<char>, key: Seq<char>) -> Option<nat> {
    match cut_at(url, '?') {
        Some((_, q)) => query_value(pieces(q, '&'), key, 0),
        None => None,
    }
}

/// What a pair of a query says for `key`: nothing, where it is another key's or no pair
/// at all, or else the number it gives, where it gives one.
fn pair_value(pair: &str, key: &str) -> (r: Option<Option<u64>>)
    ensures
        match r {
            Some(n) => cut_at(pair@, '=') is Some && (cut_at(pair@, '=')->0).0 == key@ && parsed(
                (cut_at(pair@, '=')->0).1,
                u64::MAX as nat,
            ) == match n {
                Some(n) => Some(n as nat),
                None => None::<nat>,
            },
            None => cut_at(pair@, '=') is None || (cut_at(pair@, '=')->0).0 != key@,
        },
{
    let v = chars_of(pair);
    let end = v.len();
    assert(v@.skip(0) == v@);
    let eq = find_from(&v, 0, '=');
    if eq == end {
        return None;
    }
    let k = text_between(&v, 0, eq);
    assert(k@ == pair@.take(eq as int));
    if !same_text(k.as_str(), key) {
        return None;
    }
    let val = text_between(&v, eq + 1, end);
    assert(val@ == pair@.skip(eq + 1));
    Some(parse_up_to(val.as_str(), u64::MAX))
}

/// The number that the query of an address gives for `key`.
pub fn query_u64(url: &str, key: &str) -> (r: Option<u64>)
    ensures
        match r {
            Some(n) => query_number(url@, key@) == Some(n as nat),
            None => query_number(url@, key@) is None,
        },
{
    let v = chars_of(url);
    let len = v.len();
    assert(v@.skip(0) == v@);
    let at = find_from(&v, 0, '?');
    if at == len {
        return None;
    }
    let q = text_between(&v, at + 1, len);
    assert(q@ == url@.skip(at + 1));
    let pairs = split(q.as_str(), '&');
    let ghost all = pieces(q@, '&');
    assert(pairs@.map_values(|p: String| p@).len() == pairs@.len());
    for i in 0..pairs.len()
        invariant
            pairs@.map_values(|p: String| p@) == all,
            pairs@.len() == all.len(),
            query_number(url@, key@) == query_value(all, key@, i as int),
    {
        assert(pairs@[i as int]@ == all[i as int]);
        match pair_value(pairs[i].as_str(), key) {
            Some(n) => {
                return n;
            },
            None => {},
        }
    }
    None
}

/// Whether a scan holds a living node `id`.
pub open spec fn present(s: Store, id: int) -> bool {
    0 <= id < s.nodes@.len() && s.nodes@[id].alive
}

fn is_present(s: &Store, id: u32) -> (r: bool)
    ensures
        r == present(*s, id as int),
{
    (id as usize) < s.nodes.len() && s.nodes[id as usize].alive
}

/// Why nothing can be said of node `id`, if it cannot.
pub open spec fn why_not_found(store: Option<Store>, id: int) -> Option<(u16, Seq<char>)> {
    match store {
        Some(s) => if present(s, id) {
            None
        } else {
            Some((404u16, "no such node"@))
        },
        None => Some((404u16, "no scan yet"@)),
    }
}

/// The page with the token in it.
pub fn page(template: &str, token: &str) -> (r: String)
    ensures
        r@ == replaced(template@, "__DK_TOKEN__"@, token@),
{
    proof {
        reveal_strlit("__DK_TOKEN__");
    }
    replace(template, "__DK_TOKEN__", token)
}

/// Where things stand.
pub struct Status {
    pub state: String,
    pub files: u64,
    pub dirs: u64,
    pub bytes: u64,
    pub errors: u64,
    pub current: String,
    pub generation: u64,
    pub root: Option<String>,
}

/// What a status says.
pub open spec fn tells_status(st: Status, store: Option<Store>, prog: Progress) -> bool {
    &&& st.state@ == if prog.scanning {
        "scanning"@
    } else if store is Some {
        "ready"@
    } else {
        "idle"@
    }
    &&& st.files == prog.files
    &&& st.dirs == prog.dirs
    &&& st.bytes == prog.bytes
    &&& st.errors == prog.errors
    &&& st.current@ == prog.current@
    &&& match store {
        Some(s) => st.generation == s.generation && st.root is Some && st.root->0@
            == s.root_path@,
        None => st.generation == 0 && st.root is None,
    }
}

/// Where things stand.
pub fn status(store: &Option<Store>, prog: &Progress) -> (st: Status)
    ensures
        tells_status(st, *store, *prog),
{
    let (ready, generation, root): (bool, u64, Option<String>) = match store {
        Some(s) => (true, s.generation, Some(s.root_path.clone())),
        None => (false, 0, None),
    };
    let state = if prog.scanning {
        "scanning"
    } else if ready {
        "ready"
    } else {
        "idle"
    };
    Status {
        state: state.to_owned(),
        files: prog.files,
        dirs: prog.dirs,
        bytes: prog.bytes,
        errors: prog.errors,
        current: prog.current.clone(),
        generation,
        root,
    }
}

/// The refusal of a body that cannot be read.
pub fn bad_json() -> (r: Refusal)
    ensures
        says(r, (400u16, "bad json"@)),
{
    refuse(400, "bad json")
}

/// Why a scan cannot be started, if it cannot.
pub open spec fn why_not_scan(path: Seq<char>, is_dir: bool, scanning: bool) -> Option<
    (u16, Seq<char>),
> {
    if !is_dir {
        Some((400u16, "not a directory: "@ + path))
    } else if scanning {
        Some((409u16, "scan already running"@))
    } else {
        None
    }
}

/// Whether a scan of `path` can be started.
pub fn check_scan(path: &str, is_dir: bool, scanning: bool) -> (r: Result<(), Refusal>)
    ensures
        match r {
            Ok(_) => why_not_scan(path@, is_dir, scanning) is None,
            Err(e) => why_not_scan(path@, is_dir, scanning) is Some && says(
                e,
                why_not_scan(path@, is_dir, scanning)->0,
            ),
        },
{
    if !is_dir {
        return Err(Refusal { code: 400, message: join("not a directory: ", path) });
    }
    if scanning {
        return Err(refuse(409, "scan already running"));
    }
    Ok(())
}

/// The scan at a glance.
pub fn summary(store: &Option<Store>, disk: (u64, u64), sep: char) -> (r: Result<Summary, Refusal>)
    requires
        in_order(*store),
    ensures
        match r {
            Ok(s) => store is Some && sums_up(s, store->0, disk, sep),
            Err(e) => store is None && says(e, (404u16, "no scan yet"@)),
        },
{
    match store {
        Some(s) => Ok(summarize(s, disk, sep)),
        None => Err(refuse(404, "no scan yet")),
    }
}

/// A child of a node.
pub struct Child {
    pub id: u32,
    pub name: String,
    pub size: u64,
    pub files: u32,
    pub dir: bool,
    pub slot: u8,
}

/// A node with its children.
pub struct NodeDetail {
    pub id: u32,
    pub name: String,
    pub path: String,
    pub size: u64,
    pub files: u32,
    pub dir: bool,
    pub total: u64,
    pub generation: u64,
    pub ancestors: Vec<u32>,
    pub ancestor_names: Vec<String>,
    pub children: Vec<Child>,
    pub more: u32,
}

/// The slot that node `id` is shown in.
pub open spec fn slot_of(s: Store, id: int) -> u8 {
    let n = s.nodes@[id];
    if n.is_dir {
        SLOT_DIRAGG
    } else {
        s.exts@[n.ext as int].slot
    }
}

/// The slot that node `id` is shown in.
pub fn node_slot(s: &Store, id: u32) -> (r: u8)
    requires
        s.wf(),
        id < s.nodes@.len(),
    ensures
        r == slot_of(*s, id as int),
{
    let n = &s.nodes[id as usize];
    if n.is_dir {
        SLOT_DIRAGG
    } else {
        s.exts[n.ext as usize].slot
    }
}

/// A child says of node `id` what the arena says.
pub open spec fn is_child_of_store(c: Child, s: Store, id: u32) -> bool {
    let n = s.nodes@[id as int];
    &&& c.id == id
    &&& c.name@ == n.name@
    &&& c.size == n.size
    &&& c.files == n.files
    &&& c.dir == n.is_dir
    &&& c.slot == slot_of(s, id as int)
}

/// The children are those of `kids`.
pub open spec fn are_children(v: Seq<Child>, s: Store, kids: Seq<Ranked>) -> bool {
    &&& v.len() == kids.len()
    &&& forall|k: int| 0 <= k < kids.len() ==> is_child_of_store(#[trigger] v[k], s, kids[k].id)
}

/// The living children of `id`, heaviest first, no more than one answer lists, and
/// how many are left out.
pub open spec fn lists_children(v: Seq<Child>, more: u32, s: Store, id: int) -> bool {
    exists|kids: Seq<Ranked>|
        #![trigger by_weight(s.nodes@, id, true, kids)]
        by_weight(s.nodes@, id, true, kids) && are_children(
            v,
            s,
            heaviest(kids, KIDS_ANSWERED as int),
        ) && more == left_out(kids.len() as int, KIDS_ANSWERED as int)
}

/// What the answer about node `id` says.
pub open spec fn tells_node(d: NodeDetail, s: Store, id: u32, sep: char) -> bool {
    let n = s.nodes@[id as int];
    let up = ancestors(s.nodes@, id as int);
    &&& d.id == id
    &&& d.name@ == n.name@
    &&& d.path@ == path_text(s, id as int, sep)
    &&& d.size == n.size
    &&& d.files == n.files
    &&& d.dir == n.is_dir
    &&& d.total == s.nodes@[0].size
    &&& d.generation == s.generation
    &&& d.ancestors@.map_values(|a: u32| a as int) == up
    &&& d.ancestor_names@.len() == up.len()
    &&& forall|k: int|
        0 <= k < up.len() ==> (#[trigger] d.ancestor_names@[k])@ == s.nodes@[up[k]].name@
    &&& lists_children(d.children@, d.more, s, id as int)
}

/// All there is to say about node `id`.
pub fn node_resp(store: &Store, id: u32, sep: char) -> (d: NodeDetail)
    requires
        store.wf(),
        id < store.nodes@.len(),
    ensures
        tells_node(d, *store, id, sep),
{
    let mut kids = kids_by_weight(store, id, true);
    let ghost all = kids@;
    let more = keep_heaviest(&mut kids, KIDS_ANSWERED);
    let mut children: Vec<Child> = Vec::new();
    for i in 0..kids.len()
        invariant
            store.wf(),
            id < store.nodes@.len(),
            forall|k: int|
                0 <= k < kids@.len() ==> is_child(
                    store.nodes@,
                    id as int,
                    (#[trigger] kids@[k]).id as int,
                ),
            children@.len() == i,
            forall|k: int|
                0 <= k < i ==> is_child_of_store(#[trigger] children@[k], *store, kids@[k].id),
    {
        let c = kids[i].id;
        assert(is_child(store.nodes@, id as int, c as int));
        let k = &store.nodes[c as usize];
        children.push(
            Child {
                id: c,
                name: k.name.clone(),
                size: k.size,
                files: k.files,
                dir: k.is_dir,
                slot: node_slot(store, c),
            },
        );
    }
    let up = ancestors_of(store, id);
    let ghost ups = ancestors(store.nodes@, id as int);
    proof {
        crate::paths::ancestors_lie_above(store.nodes@, id as int);
        assert(up@.map_values(|a: u32| a as int).len() == up@.len());
        assert forall|k: int| 0 <= k < up@.len() implies (#[trigger] up@[k]) == ups[k] && up@[k]
            < store.nodes@.len() by {
            assert(up@.map_values(|a: u32| a as int)[k] == up@[k] as int);
        }
    }
    let mut names: Vec<String> = Vec::new();
    for i in 0..up.len()
        invariant
            up@.len() == ups.len(),
            forall|k: int|
                0 <= k < up@.len() ==> (#[trigger] up@[k]) == ups[k] && up@[k] < store.nodes@.len(),
            names@.len() == i,
            forall|k: int| 0 <= k < i ==> (#[trigger] names@[k])@ == store.nodes@[ups[k]].name@,
    {
        names.push(store.nodes[up[i] as usize].name.clone());
    }
    let n = &store.nodes[id as usize];
    proof {
        assert(by_weight(store.nodes@, id as int, true, all));
        assert(are_children(children@, *store, heaviest(all, KIDS_ANSWERED as int)));
    }
    NodeDetail {
        id,
        name: n.name.clone(),
        path: path_with(store, id, sep),
        size: n.size,
        files: n.files,
        dir: n.is_dir,
        total: store.nodes[0].size,
        generation: store.generation,
        ancestors: up,
        ancestor_names: names,
        children,
        more,
    }
}

/// The number of the node that a path asks about.
pub open spec fn node_asked(path: Seq<char>) -> Option<nat> {
    parsed(path.skip(10), u32::MAX as nat)
}

/// Why a question about a node is refused, if it is.
pub open spec fn why_not_node(store: Option<Store>, path: Seq<char>) -> Option<(u16, Seq<char>)> {
    match node_asked(path) {
        Some(id) => why_not_found(store, id as int),
        None => Some((400u16, "bad id"@)),
    }
}

/// All there is to say about the node that the path asks about.
pub fn node(store: &Option<Store>, path: &str, sep: char) -> (r: Result<NodeDetail, Refusal>)
    requires
        in_order(*store),
        begins(path@, "/api/node/"@),
    ensures
        match r {
            Ok(d) => why_not_node(*store, path@) is None && node_asked(path@) == Some(
                d.id as nat,
            ) && tells_node(d, store->0, d.id, sep),
            Err(e) => why_not_node(*store, path@) is Some && says(
                e,
                why_not_node(*store, path@)->0,
            ),
        },
{
    proof {
        reveal_strlit("/api/node/");
    }
    let v = chars_of(path);
    let id_text = text_between(&v, 10, v.len());
    assert(id_text@ == path@.skip(10));
    match parse_up_to(id_text.as_str(), u32::MAX as u64) {
        Some(n) => {
            let id: u32 = n as u32;
            match store {
                Some(s) => {
                    if !is_present(s, id) {
                        return Err(refuse(404, "no such node"));
                    }
                    Ok(node_resp(s, id, sep))
                },
                None => Err(refuse(404, "no scan yet")),
            }
        },
        None => Err(refuse(400, "bad id")),
    }
}

/// The map that an address asks for: of which node, how wide and how high.
#[derive(Clone, Copy)]
pub struct MapRequest {
    pub id: u32,
    pub w: u64,
    pub h: u64,
}

/// A side of the map, kept within what can be drawn.
pub open spec fn kept_side(n: nat) -> nat {
    if n < 10 {
        10
    } else if n > 10_000 {
        10_000
    } else {
        n
    }
}

/// `n` or, where there is none, `other`.
pub open spec fn or_else(n: Option<nat>, other: nat) -> nat {
    match n {
        Some(x) => x,
        None => other,
    }
}

/// The map that an address asks for. A node number beyond 32 bits loses what is
/// above them.
pub open spec fn map_asked(url: Seq<char>) -> (nat, nat, nat) {
    (
        or_else(query_number(url, "id"@), 0) % 0x1_0000_0000,
        kept_side(or_else(query_number(url, "w"@), 800)),
        kept_side(or_else(query_number(url, "h"@), 600)),
    )
}

fn keep_side(n: u64) -> (r: u64)
    ensures
        r == kept_side(n as nat),
{
    if n < 10 {
        10
    } else if n > 10_000 {
        10_000
    } else {
        n
    }
}

/// The map that an address asks for.
pub fn treemap_request(store: &Option<Store>, url: &str) -> (r: Result<MapRequest, Refusal>)
    ensures
        match r {
            Ok(m) => why_not_found(*store, map_asked(url@).0 as int) is None && map_asked(url@) == (
                m.id as nat,
                m.w as nat,
                m.h as nat,
            ),
            Err(e) => why_not_found(*store, map_asked(url@).0 as int) is Some && says(
                e,
                why_not_found(*store, map_asked(url@).0 as int)->0,
            ),
        },
{
    let asked: u64 = match query_u64(url, "id") {
        Some(n) => n,
        None => 0,
    };
    assert(asked as u32 == asked % 0x1_0000_0000) by (bit_vector);
    let id: u32 = asked as u32;
    let w: u64 = match query_u64(url, "w") {
        Some(n) => n,
        None => 800,
    };
    let h: u64 = match query_u64(url, "h") {
        Some(n) => n,
        None => 600,
    };
    match store {
        Some(s) => {
            if !is_present(s, id) {
                return Err(refuse(404, "no such node"));
            }
            Ok(MapRequest { id, w: keep_side(w), h: keep_side(h) })
        },
        None => Err(refuse(404, "no scan yet")),
    }
}

/// What is to be deleted: where it lies, whether it is a directory, and in which
/// scan it was found.
pub struct Target {
    pub path: String,
    pub is_dir: bool,
    pub generation: u64,
}

/// Why a deletion is refused, if it is: the root never goes, the node has to be
/// there, and the request has to be about the scan at hand.
pub open spec fn why_not_delete(store: Option<Store>, id: u32, generation: Option<u64>) -> Option<
    (u16, Seq<char>),
> {
    if id == 0 {
        Some((400u16, "refusing to delete the scan root"@))
    } else if why_not_found(store, id as int) is Some {
        why_not_found(store, id as int)
    } else {
        match generation {
            Some(g) => if g != store->0.generation {
                Some((409u16, "scan changed \u{2014} refresh before deleting"@))
            } else {
                None
            },
            None => Some((400u16, "generation required"@)),
        }
    }
}

/// What is to be deleted, or why it is not.
pub fn check_delete(store: &Option<Store>, id: u32, generation: Option<u64>, sep: char) -> (r: Result<
    Target,
    Refusal,
>)
    requires
        in_order(*store),
    ensures
        match r {
            Ok(t) => why_not_delete(*store, id, generation) is None && t.path@ == path_text(
                store->0,
                id as int,
                sep,
            ) && t.is_dir == store->0.nodes@[id as int].is_dir && t.generation
                == store->0.generation,
            Err(e) => why_not_delete(*store, id, generation) is Some && says(
                e,
                why_not_delete(*store, id, generation)->0,
            ),
        },
{
    if id == 0 {
        return Err(refuse(400, "refusing to delete the scan root"));
    }
    match store {
        Some(s) => {
            if !is_present(s, id) {
                return Err(refuse(404, "no such node"));
            }
            match generation {
                Some(g) => {
                    if g != s.generation {
                        return Err(refuse(409, "scan changed \u{2014} refresh before deleting"));
                    }
                },
                None => {
                    return Err(refuse(400, "generation required"));
                },
            }
            Ok(
                Target {
                    path: path_with(s, id, sep),
                    is_dir: s.nodes[id as usize].is_dir,
                    generation: s.generation,
                },
            )
        },
        None => Err(refuse(404, "no scan yet")),
    }
}

/// The refusal where the target cannot be looked at.
pub fn cannot_stat(path: &str, error: &str) -> (r: Refusal)
    ensures
        says(r, (500u16, "cannot stat "@ + path@ + ": "@ + error@)),
{
    let mut message = join("cannot stat ", path);
    crate::text::push_text(&mut message, ": ");
    crate::text::push_text(&mut message, error);
    Refusal { code: 500, message }
}

/// The refusal where the target cannot be deleted.
pub fn delete_failed(error: &str) -> (r: Refusal)
    ensures
        says(r, (500u16, "delete failed: "@ + error@)),
{
    Refusal { code: 500, message: join("delete failed: ", error) }
}

/// Whether to delete a whole directory or a single file: what was scanned and what
/// is on disk now have to be of the same sort.
pub fn delete_as_dir(is_dir: bool, is_dir_now: bool) -> (r: Result<bool, Refusal>)
    ensures
        match r {
            Ok(whole) => is_dir == is_dir_now && whole == is_dir,
            Err(e) => is_dir != is_dir_now && says(
                e,
                (409u16, "path changed type on disk \u{2014} refusing"@),
            ),
        },
{
    if is_dir == is_dir_now {
        Ok(is_dir)
    } else {
        Err(refuse(409, "path changed type on disk \u{2014} refusing"))
    }
}

/// How far a deletion has come: the target is to be looked at, to be removed, whole
/// where it is a directory, or it is gone and the scan is to be told.
pub enum Deletion {
    Look { target: Target },
    Remove { target: Target, whole: bool },
    Commit { target: Target },
}

/// What came of the last step of a deletion.
pub enum Outcome {
    Looked { is_dir: bool },
    Removed,
    Failed { error: String },
}

/// What follows in a deletion: what was looked at has to be of the sort that was
/// scanned before it is removed, only what was removed is taken out of the scan, and a
/// step that fails ends it. What came of another step changes nothing.
pub open spec fn follows(d: Deletion, o: Outcome, r: Result<Deletion, Refusal>) -> bool {
    match d {
        Deletion::Look { target } => match o {
            Outcome::Looked { is_dir } => if target.is_dir == is_dir {
                r == Ok::<Deletion, Refusal>(Deletion::Remove { target, whole: is_dir })
            } else {
                r is Err && says(r->Err_0, (409u16, "path changed type on disk \u{2014} refusing"@))
            },
            Outcome::Failed { error } => r is Err && says(
                r->Err_0,
                (500u16, "cannot stat "@ + target.path@ + ": "@ + error@),
            ),
            Outcome::Removed => r == Ok::<Deletion, Refusal>(d),
        },
        Deletion::Remove { target, whole: _ } => match o {
            Outcome::Removed => r == Ok::<Deletion, Refusal>(Deletion::Commit { target }),
            Outcome::Failed { error } => r is Err && says(
                r->Err_0,
                (500u16, "delete failed: "@ + error@),
            ),
            Outcome::Looked { is_dir: _ } => r == Ok::<Deletion, Refusal>(d),
        },
        Deletion::Commit { target: _ } => r == Ok::<Deletion, Refusal>(d),
    }
}

impl Deletion {
    /// The next step of a deletion, or why there is none.
    pub fn next(self, o: Outcome) -> (r: Result<Deletion, Refusal>)
        ensures
            follows(self, o, r),
    {
        match self {
            Deletion::Look { target } => match o {
                Outcome::Looked { is_dir } => match delete_as_dir(target.is_dir, is_dir) {
                    Ok(whole) => Ok(Deletion::Remove { target, whole }),
                    Err(e) => Err(e),
                },
                Outcome::Failed { error } => Err(cannot_stat(target.path.as_str(), error.as_str())),
                Outcome::Removed => Ok(Deletion::Look { target }),
            },
            Deletion::Remove { target, whole } => match o {
                Outcome::Removed => Ok(Deletion::Commit { target }),
                Outcome::Failed { error } => Err(delete_failed(error.as_str())),
                Outcome::Looked { is_dir: _ } => Ok(Deletion::Remove { target, whole }),
            },
            Deletion::Commit { target } => Ok(Deletion::Commit { target }),
        }
    }
}

/// The scan is told of a deletion only once the target has been looked at, found to be
/// of the sort that was scanned, and removed.
pub proof fn committed_only_after_removal(
    target: Target,
    looked: Outcome,
    d: Deletion,
    removed: Outcome,
    e: Deletion,
)
    requires
        follows(Deletion::Look { target }, looked, Ok(d)),
        follows(d, removed, Ok(e)),
        e is Commit,
    ensures
        looked == (Outcome::Looked { is_dir: target.is_dir }),
        d == (Deletion::Remove { target, whole: target.is_dir }),
        removed is Removed,
        e == (Deletion::Commit { target }),
{
}

/// Whether the store at hand is still the one that node `id` was deleted from.
pub open spec fn still_current(store: Option<Store>, id: u32, generation: u64) -> bool {
    store is Some && store->0.generation == generation && present(store->0, id as int)
}

/// A scan, where there is one, is in order.
pub open spec fn in_order(store: Option<Store>) -> bool {
    store is Some ==> store->0.wf()
}

/// What taking a deleted node out of the scan at hand does, and the bytes and files
/// that went with it: nothing, where that is no longer the same scan.
pub open spec fn committed(
    before: Option<Store>,
    id: u32,
    generation: u64,
    after: Option<Store>,
    r: (u64, u64),
) -> bool {
    if still_current(before, id, generation) {
        &&& after is Some
        &&& pruned(before->0, id as int, after->0)
        &&& r.0 == before->0.nodes@[id as int].size
        &&& r.1 == before->0.nodes@[id as int].files
    } else {
        after == before && r == (0u64, 0u64)
    }
}

/// Takes a deleted node out of the scan at hand, where that is still the same one.
/// Returns the bytes and files that went with it.
pub fn commit_delete(store: &mut Option<Store>, id: u32, generation: u64) -> (r: (u64, u64))
    requires
        in_order(*old(store)),
    ensures
        committed(*old(store), id, generation, *final(store), r),
        in_order(*final(store)),
{
    match store {
        Some(s) => {
            if s.generation == generation && is_present(s, id) {
                remove_subtree(s, id)
            } else {
                (0, 0)
            }
        },
        None => (0, 0),
    }
}

/// Why a node cannot be located, if it cannot. A deleted one still can.
pub open spec fn why_not_located(store: Option<Store>, id: u32) -> Option<(u16, Seq<char>)> {
    match store {
        Some(s) => if id < s.nodes@.len() {
            None
        } else {
            Some((404u16, "no such node"@))
        },
        None => Some((404u16, "no scan yet"@)),
    }
}

/// Where node `id` lies, to be revealed or opened.
pub fn locate(store: &Option<Store>, id: u32, sep: char) -> (r: Result<String, Refusal>)
    requires
        in_order(*store),
    ensures
        match r {
            Ok(p) => why_not_located(*store, id) is None && p@ == path_text(
                store->0,
                id as int,
                sep,
            ),
            Err(e) => why_not_located(*store, id) is Some && says(
                e,
                why_not_located(*store, id)->0,
            ),
        },
{
    match store {
        Some(s) => {
            if id as usize >= s.nodes.len() {
                return Err(refuse(404, "no such node"));
            }
            Ok(path_with(s, id, sep))
        },
        None => Err(refuse(404, "no scan yet")),
    }
}

/// A deletion of the scan root is always refused, whatever else the request says.
pub proof fn root_is_never_deleted(store: Option<Store>, generation: Option<u64>)
    ensures
        why_not_delete(store, 0, generation) == Some(
            (400u16, "refusing to delete the scan root"@),
        ),
{
}

/// A deletion is only ever about the scan at hand: what is not refused names its
/// number and one of its living nodes, and never the root.
pub proof fn deletion_is_about_this_scan(store: Option<Store>, id: u32, generation: Option<u64>)
    requires
        why_not_delete(store, id, generation) is None,
    ensures
        id != 0,
        store is Some,
        present(store->0, id as int),
        generation == Some(store->0.generation),
{
}

/// What has been deleted is gone: it can be neither asked about nor deleted again.
pub proof fn deleted_is_gone(s: Store, id: u32, t: Store, generation: Option<u64>)
    requires
        s.wf(),
        present(s, id as int),
        id != 0,
        pruned(s, id as int, t),
    ensures
        why_not_found(Some(t), id as int) == Some((404u16, "no such node"@)),
        why_not_delete(Some(t), id, generation) == Some((404u16, "no such node"@)),
{
    assert(crate::prune::doomed(s.nodes@, id as int, id as int));
    assert(!t.nodes@[id as int].alive);
}

/// A request that changes anything and does not carry the token is turned away,
/// whatever it asks for.
pub proof fn no_change_without_token(
    path: Seq<char>,
    headers: Seq<(String, String)>,
    token: Seq<char>,
)
    requires
        !carries_token(headers, token),
    ensures
        why_not_admitted(Method::Post, path, headers, token) == Some(
            (403u16, "missing or bad X-Diskhoji-Token"@),
        ),
        forall|m: Method| #[trigger]
            why_not_admitted(m, path, headers, token) is None ==> !(route_for(m, path)->0 is Scan
                || route_for(m, path)->0 is Cancel || route_for(m, path)->0 is Delete || route_for(
                m,
                path,
            )->0 is Reveal || route_for(m, path)->0 is Open),
{
}

} // verus!
