//! What the dashboard promises of its answers.

use crate::kids::{by_weight, heaviest, heaviest_children_are_kept, left_out};
use crate::numbers::parsed;
use crate::order::Ranked;
use crate::paths::{ancestors, path_text};
use crate::prune::{doomed, pruned, same_place};
use crate::scan::Progress;
use crate::split::{begins, beginnings_are_what_comes_first, cut_at, cutting_undoes_joining,
    first_place_is_the_first, pieces, replaced, splitting_undoes_joining};
use crate::store::Store;
use crate::summary::{sums_up, Summary};
use crate::sums::count_where;
use crate::text::{lower, lower_char};
use crate::token::carries_token;
use crate::web::{are_children, bad_json, cannot_stat, check_delete, check_scan, commit_delete,
    committed, delete_as_dir, delete_failed, follows, in_order, is_child_of_store, lists_children,
    locate, map_asked, node, node_asked, node_resp, node_slot, page, path_of_url, path_part,
    query_number, query_u64, query_value, refuse, route, route_for, says, status, summary,
    tells_node, tells_status, treemap_request, why_not_admitted, why_not_delete, why_not_found,
    why_not_located, why_not_node, why_not_scan, Child, Deletion, MapRequest, Method, NodeDetail,
    Outcome, Refusal, Route, Status, Target, KIDS_ANSWERED};
use vstd::prelude::*;

verus! {

/// A deleted node goes at once: whatever living node of the scan at hand is committed, a
/// file or a directory, is dead afterwards, and what is reported as freed is what it
/// weighed and the files it held. What neither is it nor lies below it stays.
pub proof fn committed_node_is_dead(
    s: Store,
    id: u32,
    after: Option<Store>,
    freed: (u64, u64),
)
    requires
        s.wf(),
        id < s.nodes@.len(),
        s.nodes@[id as int].alive,
        committed(Some(s), id, s.generation, after, freed),
    ensures
        after is Some,
        !after->0.nodes@[id as int].alive,
        freed.0 == s.nodes@[id as int].size,
        freed.1 == s.nodes@[id as int].files,
        after->0.nodes@.len() == s.nodes@.len(),
        after->0.generation == s.generation,
        forall|i: int|
            0 < i < s.nodes@.len() && i != id && s.nodes@[i].alive
                && after->0.nodes@[s.nodes@[i].parent as int].alive ==> (
            #[trigger] after->0.nodes@[i]).alive,
        forall|i: int|
            0 <= i < s.nodes@.len() && (#[trigger] after->0.nodes@[i]).alive ==> s.nodes@[i].alive,
        id > 0 && s.nodes@[0].alive ==> after->0.nodes@[0].alive,
        pruned(s, id as int, after->0),
{
    let t = after->0;
    assert(doomed(s.nodes@, id as int, id as int));
    assert(!t.nodes@[id as int].alive);
    assert(id > 0 ==> !doomed(s.nodes@, id as int, 0));
    assert(same_place(s.nodes@[0], t.nodes@[0]));
    assert forall|i: int|
        0 < i < s.nodes@.len() && i != id && s.nodes@[i].alive
            && t.nodes@[s.nodes@[i].parent as int].alive implies (#[trigger] t.nodes@[i]).alive by {
        let p = s.nodes@[i].parent as int;
        assert(same_place(s.nodes@[i], t.nodes@[i]));
        assert(same_place(s.nodes@[p], t.nodes@[p]));
    }
    assert forall|i: int| 0 <= i < s.nodes@.len() && (
    #[trigger] t.nodes@[i]).alive implies s.nodes@[i].alive by {
        assert(same_place(s.nodes@[i], t.nodes@[i]));
    }
}

/// Where there is no scan, another scan, or no such living node, committing a deletion
/// changes nothing and frees nothing.
pub proof fn nothing_else_is_committed(
    before: Option<Store>,
    id: u32,
    generation: u64,
    after: Option<Store>,
    freed: (u64, u64),
)
    requires
        committed(before, id, generation, after, freed),
        before is None || before->0.generation != generation || id >= before->0.nodes@.len()
            || !before->0.nodes@[id as int].alive,
    ensures
        after == before,
        freed == (0u64, 0u64),
{
}

/// A deletion is let through just where it names a living node of the scan at hand, other
/// than the root, and that scan's number. What keeps it back is told in this order: the
/// root, no scan, no such node, no number, another scan's number.
pub proof fn what_may_be_deleted(store: Option<Store>, id: u32, generation: Option<u64>)
    ensures
        why_not_delete(store, id, generation) is None <==> id != 0 && store is Some && id
            < store->0.nodes@.len() && store->0.nodes@[id as int].alive && generation == Some(
            store->0.generation,
        ),
        id == 0 ==> why_not_delete(store, id, generation) == Some(
            (400u16, "refusing to delete the scan root"@),
        ),
        id != 0 && store is None ==> why_not_delete(store, id, generation) == Some(
            (404u16, "no scan yet"@),
        ),
        id != 0 && store is Some && !(id < store->0.nodes@.len()
            && store->0.nodes@[id as int].alive) ==> why_not_delete(store, id, generation) == Some(
            (404u16, "no such node"@),
        ),
        id != 0 && store is Some && id < store->0.nodes@.len() && store->0.nodes@[id as int].alive
            && generation is None ==> why_not_delete(store, id, generation) == Some(
            (400u16, "generation required"@),
        ),
        id != 0 && store is Some && id < store->0.nodes@.len() && store->0.nodes@[id as int].alive
            && generation is Some && generation->0 != store->0.generation ==> why_not_delete(
            store,
            id,
            generation,
        ) == Some((409u16, "scan changed \u{2014} refresh before deleting"@)),
{
}

/// What is let through takes effect: as long as the scan has not changed, the node is gone
/// afterwards, and what it weighed is reported as freed.
pub proof fn accepted_deletion_takes_effect(
    store: Option<Store>,
    id: u32,
    generation: Option<u64>,
    after: Option<Store>,
    freed: (u64, u64),
)
    requires
        store is Some ==> store->0.wf(),
        why_not_delete(store, id, generation) is None,
        committed(store, id, generation->0, after, freed),
    ensures
        after is Some,
        pruned(store->0, id as int, after->0),
        !after->0.nodes@[id as int].alive,
        freed.0 == store->0.nodes@[id as int].size,
        freed.1 == store->0.nodes@[id as int].files,
        why_not_delete(after, id, generation) == Some((404u16, "no such node"@)),
        why_not_found(after, id as int) == Some((404u16, "no such node"@)),
{
    committed_node_is_dead(store->0, id, after, freed);
}

/// A deletion goes on as long as its steps succeed, and each failure has its answer: a
/// target that is still what was scanned is to be removed, and a removed one is to be
/// committed; one that has changed its sort, cannot be looked at or cannot be removed ends
/// the deletion.
pub proof fn deletion_goes_step_by_step(
    target: Target,
    is_dir: bool,
    whole: bool,
    error: String,
    r: Result<Deletion, Refusal>,
)
    ensures
        follows(Deletion::Look { target }, Outcome::Looked { is_dir }, r) && is_dir == target.is_dir
            ==> r == Ok::<Deletion, Refusal>(Deletion::Remove { target, whole: target.is_dir }),
        follows(Deletion::Look { target }, Outcome::Looked { is_dir }, r) && is_dir != target.is_dir
            ==> r is Err && r->Err_0.code == 409 && r->Err_0.message@
            == "path changed type on disk \u{2014} refusing"@,
        follows(Deletion::Look { target }, Outcome::Failed { error }, r) ==> r is Err
            && r->Err_0.code == 500 && r->Err_0.message@ == "cannot stat "@ + target.path@ + ": "@
            + error@,
        follows(Deletion::Look { target }, Outcome::Removed, r) ==> r == Ok::<Deletion, Refusal>(
            Deletion::Look { target },
        ),
        follows(Deletion::Remove { target, whole }, Outcome::Removed, r) ==> r == Ok::<
            Deletion,
            Refusal,
        >(Deletion::Commit { target }),
        follows(Deletion::Remove { target, whole }, Outcome::Failed { error }, r) ==> r is Err
            && r->Err_0.code == 500 && r->Err_0.message@ == "delete failed: "@ + error@,
        follows(Deletion::Remove { target, whole }, Outcome::Looked { is_dir }, r) ==> r == Ok::<
            Deletion,
            Refusal,
        >(Deletion::Remove { target, whole }),
        forall|o: Outcome| #[trigger]
            follows(Deletion::Commit { target }, o, r) ==> r == Ok::<Deletion, Refusal>(
                Deletion::Commit { target },
            ),
{
}

/// A node can be asked about just where it is a living one of the scan at hand, and it can
/// be located as long as the scan ever held it.
pub proof fn what_can_be_asked_about(store: Option<Store>, id: u32)
    ensures
        why_not_found(store, id as int) is None <==> store is Some && id < store->0.nodes@.len()
            && store->0.nodes@[id as int].alive,
        store is None ==> why_not_found(store, id as int) == Some((404u16, "no scan yet"@))
            && why_not_located(store, id) == Some((404u16, "no scan yet"@)),
        store is Some && why_not_found(store, id as int) is Some ==> why_not_found(store, id as int)
            == Some((404u16, "no such node"@)),
        why_not_located(store, id) is None <==> store is Some && id < store->0.nodes@.len(),
        store is Some && id >= store->0.nodes@.len() ==> why_not_located(store, id) == Some(
            (404u16, "no such node"@),
        ),
{
}

/// The path `/api/node/` and a number ask about the node of that number; anything but a
/// number of 32 bits there is refused.
pub proof fn node_is_asked_for_by_number(store: Option<Store>, n: Seq<char>)
    ensures
        parsed(n, 0xFFFF_FFFF) is None ==> why_not_node(store, "/api/node/"@ + n) == Some(
            (400u16, "bad id"@),
        ),
        parsed(n, 0xFFFF_FFFF) is Some ==> why_not_node(store, "/api/node/"@ + n) == why_not_found(
            store,
            parsed(n, 0xFFFF_FFFF)->0 as int,
        ) && node_asked("/api/node/"@ + n) == parsed(n, 0xFFFF_FFFF),
{
    reveal_strlit("/api/node/");
    assert(("/api/node/"@ + n).skip(10) == n);
}

/// A scan is refused where its target is no directory or another scan is running, the
/// former before the latter, and for no other reason.
pub proof fn what_may_be_scanned(path: Seq<char>, is_dir: bool, scanning: bool)
    ensures
        why_not_scan(path, is_dir, scanning) is None <==> is_dir && !scanning,
        !is_dir ==> why_not_scan(path, is_dir, scanning) == Some(
            (400u16, "not a directory: "@ + path),
        ),
        is_dir && scanning ==> why_not_scan(path, is_dir, scanning) == Some(
            (409u16, "scan already running"@),
        ),
{
}

/// Every address leads to one thing at most: these are all the addresses there are, each
/// with the method it takes.
pub proof fn every_address_leads_to_one_thing(m: Method, path: Seq<char>)
    ensures
        route_for(m, path) == Some(Route::Page) <==> m is Get && path == "/"@,
        route_for(m, path) == Some(Route::Status) <==> m is Get && path == "/api/status"@,
        route_for(m, path) == Some(Route::Roots) <==> m is Get && path == "/api/roots"@,
        route_for(m, path) == Some(Route::Summary) <==> m is Get && path == "/api/summary"@,
        route_for(m, path) == Some(Route::Node) <==> m is Get && exists|n: Seq<char>|
            path == #[trigger] ("/api/node/"@ + n),
        route_for(m, path) == Some(Route::Treemap) <==> m is Get && path == "/api/treemap"@,
        route_for(m, path) == Some(Route::Scan) <==> m is Post && path == "/api/scan"@,
        route_for(m, path) == Some(Route::Cancel) <==> m is Post && path == "/api/cancel"@,
        route_for(m, path) == Some(Route::Delete) <==> m is Post && path == "/api/delete"@,
        route_for(m, path) == Some(Route::Reveal) <==> m is Post && path == "/api/reveal"@,
        route_for(m, path) == Some(Route::Open) <==> m is Post && path == "/api/open"@,
{
    reveal_strlit("/");
    reveal_strlit("/api/status");
    reveal_strlit("/api/roots");
    reveal_strlit("/api/summary");
    reveal_strlit("/api/node/");
    reveal_strlit("/api/treemap");
    reveal_strlit("/api/scan");
    reveal_strlit("/api/cancel");
    reveal_strlit("/api/delete");
    reveal_strlit("/api/reveal");
    reveal_strlit("/api/open");
    assert("/api/summary"@[5] == 's');
    assert("/api/treemap"@[5] == 't');
    assert("/api/scan"@[5] == 's');
    assert("/api/open"@[5] == 'o');
    assert("/api/cancel"@[5] == 'c');
    assert("/api/delete"@[5] == 'd');
    assert("/api/reveal"@[5] == 'r');
    let node = "/api/node/"@;
    if begins(path, node) {
        beginnings_are_what_comes_first(node, path);
        assert(path == node + path.skip(node.len() as int));
        assert(path[5] == node[5] && path[5] == 'n');
    }
    if exists|n: Seq<char>| path == #[trigger] (node + n) {
        let n = choose|n: Seq<char>| path == #[trigger] (node + n);
        beginnings_are_what_comes_first(node, n);
        assert(path[5] == node[5] && path[5] == 'n');
    }
}

/// Who may ask for what: everything that is asked for with a `GET` is let through, and
/// what is asked for with a `POST` is let through just where it carries the token. What
/// is not there is not found.
pub proof fn who_is_let_through(
    m: Method,
    path: Seq<char>,
    headers: Seq<(String, String)>,
    token: Seq<char>,
)
    ensures
        why_not_admitted(m, path, headers, token) is None <==> route_for(m, path) is Some && (
        m is Post ==> carries_token(headers, token)),
        m is Post && !carries_token(headers, token) ==> why_not_admitted(m, path, headers, token)
            == Some((403u16, "missing or bad X-Diskhoji-Token"@)),
        !(m is Post && !carries_token(headers, token)) && route_for(m, path) is None
            ==> why_not_admitted(m, path, headers, token) == Some((404u16, "not found"@)),
{
}

/// The token is carried by a header of the right name, in whatever case, with the very
/// token for its value. One header that does is enough, and one with another name or
/// another value does not count.
pub proof fn one_right_header_is_enough(
    before: Seq<(String, String)>,
    field: (String, String),
    after: Seq<(String, String)>,
    token: Seq<char>,
)
    ensures
        lower(field.0@) == "x-diskhoji-token"@ && field.1@ == token ==> carries_token(
            before + seq![field] + after,
            token,
        ),
        !(lower(field.0@) == "x-diskhoji-token"@ && field.1@ == token) ==> carries_token(
            before + seq![field] + after,
            token,
        ) == carries_token(before + after, token),
        !carries_token(Seq::empty(), token),
{
    reveal_strlit("x-diskhoji-token");
    reveal_strlit("X-Diskhoji-Token");
    let name = "X-Diskhoji-Token"@;
    let small = "x-diskhoji-token"@;
    assert(lower(name) == small) by {
        assert(lower(name).len() == small.len());
        assert forall|i: int| 0 <= i < small.len() implies lower(name)[i] == small[i] by {
            assert(lower(name)[i] == lower_char(name[i]));
        }
    }
    let all = before + seq![field] + after;
    let rest = before + after;
    let at = before.len() as int;
    assert(all[at] == field);
    if !(lower(field.0@) == small && field.1@ == token) {
        if carries_token(all, token) {
            let i = choose|i: int|
                0 <= i < all.len() && crate::token::is_token_header((#[trigger] all[i]).0@)
                    && all[i].1@ == token;
            if i < at {
                assert(rest[i] == all[i]);
            } else {
                assert(i != at);
                assert(rest[i - 1] == all[i]);
            }
        }
        if carries_token(rest, token) {
            let i = choose|i: int|
                0 <= i < rest.len() && crate::token::is_token_header((#[trigger] rest[i]).0@)
                    && rest[i].1@ == token;
            if i < at {
                assert(all[i] == rest[i]);
            } else {
                assert(all[i + 1] == rest[i]);
            }
        }
    }
}

/// The path of an address ends at the first question mark.
pub proof fn path_ends_at_the_question_mark(base: Seq<char>, query: Seq<char>)
    requires
        forall|i: int| 0 <= i < base.len() ==> #[trigger] base[i] != '?',
    ensures
        path_part(base) == base,
        path_part(base + seq!['?'] + query) == base,
{
    first_place_is_the_first(base, '?', query);
    assert(base.take(base.len() as int) == base);
    assert((base + seq!['?'] + query).take(base.len() as int) == base);
}

/// Where the pairs begin, only those from there on count.
proof fn lemma_query_value_moves(pair: Seq<char>, rest: Seq<Seq<char>>, key: Seq<char>, i: int)
    requires
        0 <= i <= rest.len(),
    ensures
        query_value(seq![pair] + rest, key, i + 1) == query_value(rest, key, i),
    decreases rest.len() - i,
{
    if i < rest.len() {
        assert((seq![pair] + rest)[i + 1] == rest[i]);
        lemma_query_value_moves(pair, rest, key, i + 1);
    }
}

/// What the query of an address says for a key: the first pair of that key gives its
/// number, whatever follows it; a pair of another key, or something that is no pair, is
/// passed over; an address without a query says nothing.
pub proof fn first_pair_of_a_key_counts(
    base: Seq<char>,
    key: Seq<char>,
    value: Seq<char>,
    pair: Seq<char>,
    rest: Seq<char>,
)
    requires
        forall|i: int| 0 <= i < base.len() ==> #[trigger] base[i] != '?',
        forall|i: int| 0 <= i < key.len() ==> #[trigger] key[i] != '=',
        forall|i: int| 0 <= i < key.len() ==> #[trigger] key[i] != '&',
        forall|i: int| 0 <= i < value.len() ==> #[trigger] value[i] != '&',
        forall|i: int| 0 <= i < pair.len() ==> #[trigger] pair[i] != '&',
        !begins(pair, key + seq!['=']),
    ensures
        query_number(base, key) is None,
        query_number(base + seq!['?'] + (key + seq!['='] + value), key) == parsed(
            value,
            0xFFFF_FFFF_FFFF_FFFF,
        ),
        query_number(base + seq!['?'] + (key + seq!['='] + value + seq!['&'] + rest), key)
            == parsed(value, 0xFFFF_FFFF_FFFF_FFFF),
        query_number(base + seq!['?'] + pair, key) is None,
        query_number(base + seq!['?'] + (pair + seq!['&'] + rest), key) == query_number(
            base + seq!['?'] + rest,
            key,
        ),
{
    let own = key + seq!['='] + value;
    assert forall|i: int| 0 <= i < own.len() implies #[trigger] own[i] != '&' by {
        if i < key.len() {
            assert(own[i] == key[i]);
        } else if i > key.len() {
            assert(own[i] == value[i - key.len() - 1]);
        }
    }
    cutting_undoes_joining(base, '?', own);
    cutting_undoes_joining(base, '?', own + seq!['&'] + rest);
    cutting_undoes_joining(base, '?', pair);
    cutting_undoes_joining(base, '?', pair + seq!['&'] + rest);
    cutting_undoes_joining(base, '?', rest);
    cutting_undoes_joining(key, '=', value);
    splitting_undoes_joining(own, '&', rest);
    splitting_undoes_joining(pair, '&', rest);
    assert(seq![own][0] == own);
    assert((seq![own] + pieces(rest, '&'))[0] == own);
    assert(seq![pair][0] == pair);
    assert((seq![pair] + pieces(rest, '&'))[0] == pair);
    lemma_query_value_moves(pair, pieces(rest, '&'), key, 0);
    assert(cut_at(pair, '=') is Some ==> (cut_at(pair, '=')->0).0 != key) by {
        match cut_at(pair, '=') {
            Some((k, v)) => {
                if k == key {
                    lemma_cut_joins(pair, '=');
                    assert(pair.take(key.len() as int + 1) == key + seq!['=']);
                }
            },
            None => {},
        }
    }
    reveal_with_fuel(query_value, 2);
}

/// What a cut takes apart, put together again, is what was cut.
proof fn lemma_cut_joins(s: Seq<char>, c: char)
    requires
        cut_at(s, c) is Some,
    ensures
        s == (cut_at(s, c)->0).0 + seq![c] + (cut_at(s, c)->0).1,
{
    crate::split::first_place_holds_it(s, c);
}

/// What map is drawn: of the node that is asked for, or of the root; 800 wide and 600 high
/// unless other sides are asked for, but no side shorter than 10 or longer than 10000.
pub proof fn map_is_drawn_as_asked(url: Seq<char>)
    ensures
        query_number(url, "id"@) is None ==> map_asked(url).0 == 0,
        query_number(url, "id"@) is Some ==> map_asked(url).0 == query_number(url, "id"@)->0
            % 0x1_0000_0000,
        10 <= map_asked(url).1 <= 10_000,
        10 <= map_asked(url).2 <= 10_000,
        query_number(url, "w"@) is None ==> map_asked(url).1 == 800,
        query_number(url, "h"@) is None ==> map_asked(url).2 == 600,
        query_number(url, "w"@) is Some && 10 <= query_number(url, "w"@)->0 <= 10_000 ==> Some(
            map_asked(url).1,
        ) == query_number(url, "w"@),
        query_number(url, "h"@) is Some && 10 <= query_number(url, "h"@)->0 <= 10_000 ==> Some(
            map_asked(url).2,
        ) == query_number(url, "h"@),
        query_number(url, "w"@) is Some && query_number(url, "w"@)->0 < 10 ==> map_asked(url).1
            == 10,
        query_number(url, "h"@) is Some && query_number(url, "h"@)->0 < 10 ==> map_asked(url).2
            == 10,
        query_number(url, "w"@) is Some && query_number(url, "w"@)->0 > 10_000 ==> map_asked(url).1
            == 10_000,
        query_number(url, "h"@) is Some && query_number(url, "h"@)->0 > 10_000 ==> map_asked(url).2
            == 10_000,
{
}

/// The status hands on what the scan has counted so far. It says that a scan is running as
/// long as one is, and otherwise whether there is one to look at.
pub proof fn status_hands_on_the_counts(st: Status, store: Option<Store>, prog: Progress)
    requires
        tells_status(st, store, prog),
    ensures
        st.files == prog.files,
        st.dirs == prog.dirs,
        st.bytes == prog.bytes,
        st.errors == prog.errors,
        st.current@ == prog.current@,
        prog.scanning ==> st.state@ == "scanning"@,
        !prog.scanning && store is Some ==> st.state@ == "ready"@,
        !prog.scanning && store is None ==> st.state@ == "idle"@,
        store is Some ==> st.generation == store->0.generation && st.root is Some && st.root->0@
            == store->0.root_path@,
        store is None ==> st.generation == 0 && st.root is None,
{
}

/// What is told of a node is what the scan holds of it.
pub proof fn node_is_told_as_scanned(d: NodeDetail, s: Store, id: u32, sep: char)
    requires
        tells_node(d, s, id, sep),
    ensures
        d.id == id,
        d.name@ == s.nodes@[id as int].name@,
        d.path@ == path_text(s, id as int, sep),
        d.size == s.nodes@[id as int].size,
        d.files == s.nodes@[id as int].files,
        d.dir == s.nodes@[id as int].is_dir,
        d.total == s.nodes@[0].size,
        d.generation == s.generation,
        lists_children(d.children@, d.more, s, id as int),
        d.ancestors@.len() == ancestors(s.nodes@, id as int).len(),
        d.ancestor_names@.len() == d.ancestors@.len(),
        forall|k: int|
            0 <= k < d.ancestors@.len() ==> (#[trigger] d.ancestors@[k]) as int == ancestors(
                s.nodes@,
                id as int,
            )[k] && d.ancestor_names@[k]@ == s.nodes@[d.ancestors@[k] as int].name@,
{
    let up = ancestors(s.nodes@, id as int);
    let m = d.ancestors@.map_values(|a: u32| a as int);
    assert(m.len() == d.ancestors@.len());
    assert forall|k: int| 0 <= k < d.ancestors@.len() implies (#[trigger] d.ancestors@[k]) as int
        == up[k] && d.ancestor_names@[k]@ == s.nodes@[d.ancestors@[k] as int].name@ by {
        assert(m[k] == d.ancestors@[k] as int);
        assert(d.ancestor_names@[k]@ == s.nodes@[up[k]].name@);
    }
}

/// The children that are told of a node are its living ones, in falling order of size and
/// none of them twice. Up to 1500 are told; how many more there are is told too, and none
/// larger than one that is told is left out.
pub proof fn children_are_told_heaviest_first(v: Seq<Child>, more: u32, s: Store, id: u32)
    requires
        s.wf(),
        id < s.nodes@.len(),
        lists_children(v, more, s, id as int),
    ensures
        v.len() <= 1500,
        more > 0 ==> v.len() == 1500,
        v.len() + more == count_where(
            s.nodes@.len() as int,
            |c: int|
                s.nodes@[id as int].first_child <= c < s.nodes@[id as int].first_child
                    + s.nodes@[id as int].child_count && s.nodes@[c].alive,
        ),
        forall|k: int|
            0 <= k < v.len() ==> ({
                let c = #[trigger] v[k];
                let n = s.nodes@[c.id as int];
                &&& s.nodes@[id as int].first_child <= c.id < s.nodes@[id as int].first_child
                    + s.nodes@[id as int].child_count
                &&& n.alive
                &&& c.name@ == n.name@
                &&& c.size == n.size
                &&& c.files == n.files
                &&& c.dir == n.is_dir
                &&& n.is_dir ==> c.slot == 254
                &&& !n.is_dir ==> c.slot == s.exts@[n.ext as int].slot
            }),
        forall|i: int, j: int|
            0 <= i < j < v.len() ==> (#[trigger] v[i]).size >= (#[trigger] v[j]).size && v[i].id
                != v[j].id,
        forall|c: int, k: int|
            s.nodes@[id as int].first_child <= c < s.nodes@[id as int].first_child
                + s.nodes@[id as int].child_count && s.nodes@[c].alive && 0 <= k < v.len() && (
            #[trigger] v[k]).size < (#[trigger] s.nodes@[c]).size ==> exists|j: int|
                0 <= j < k && (#[trigger] v[j]).id == c,
{
    let kids = choose|kids: Seq<Ranked>|
        #![trigger by_weight(s.nodes@, id as int, true, kids)]
        by_weight(s.nodes@, id as int, true, kids) && are_children(
            v,
            s,
            heaviest(kids, KIDS_ANSWERED as int),
        ) && more == left_out(kids.len() as int, KIDS_ANSWERED as int);
    lemma_told(v, more, s, id, kids);
}

proof fn lemma_told(v: Seq<Child>, more: u32, s: Store, id: u32, kids: Seq<Ranked>)
    requires
        s.wf(),
        id < s.nodes@.len(),
        by_weight(s.nodes@, id as int, true, kids),
        are_children(v, s, heaviest(kids, 1500)),
        more == left_out(kids.len() as int, 1500),
    ensures
        v.len() <= 1500,
        more > 0 ==> v.len() == 1500,
        v.len() + more == count_where(
            s.nodes@.len() as int,
            |c: int|
                s.nodes@[id as int].first_child <= c < s.nodes@[id as int].first_child
                    + s.nodes@[id as int].child_count && s.nodes@[c].alive,
        ),
        forall|k: int|
            0 <= k < v.len() ==> ({
                let c = #[trigger] v[k];
                let n = s.nodes@[c.id as int];
                &&& s.nodes@[id as int].first_child <= c.id < s.nodes@[id as int].first_child
                    + s.nodes@[id as int].child_count
                &&& n.alive
                &&& c.name@ == n.name@
                &&& c.size == n.size
                &&& c.files == n.files
                &&& c.dir == n.is_dir
                &&& n.is_dir ==> c.slot == 254
                &&& !n.is_dir ==> c.slot == s.exts@[n.ext as int].slot
            }),
        forall|i: int, j: int|
            0 <= i < j < v.len() ==> (#[trigger] v[i]).size >= (#[trigger] v[j]).size && v[i].id
                != v[j].id,
        forall|c: int, k: int|
            s.nodes@[id as int].first_child <= c < s.nodes@[id as int].first_child
                + s.nodes@[id as int].child_count && s.nodes@[c].alive && 0 <= k < v.len() && (
            #[trigger] v[k]).size < (#[trigger] s.nodes@[c]).size ==> exists|j: int|
                0 <= j < k && (#[trigger] v[j]).id == c,
{
    heaviest_children_are_kept(s.nodes@, id as int, kids, 1500);
    let kept = heaviest(kids, 1500);
    assert forall|k: int| 0 <= k < v.len() implies is_child_of_store(
        #[trigger] v[k],
        s,
        kept[k].id,
    ) by {
    }
    assert forall|c: int, k: int|
        s.nodes@[id as int].first_child <= c < s.nodes@[id as int].first_child
            + s.nodes@[id as int].child_count && s.nodes@[c].alive && 0 <= k < v.len() && (
        #[trigger] v[k]).size < (#[trigger] s.nodes@[c]).size implies exists|j: int|
        0 <= j < k && (#[trigger] v[j]).id == c by {
        assert(kept[k].weight < s.nodes@[c].size);
        let j = choose|j: int| 0 <= j < k && (#[trigger] kept[j]).id == c;
        assert(v[j].id == c);
    }
}

/// A refusal says its code and its message, and a scan is in order where there is none or
/// its arena is.
pub proof fn refusals_say_why(r: Refusal, code: u16, message: Seq<char>, store: Option<Store>)
    ensures
        says(r, (code, message)) <==> r.code == code && r.message@ == message,
        in_order(None),
        store is Some ==> (in_order(store) <==> store->0.wf()),
{
}

/// Whatever living node is committed is gone: a file or a directory of the scan at hand,
/// whose number the request carried. Its weight and its files are what is reported.
pub proof fn committing_takes_the_node_out(
    store: &mut Option<Store>,
    id: u32,
    generation: u64,
    freed: (u64, u64),
)
    requires
        in_order(*old(store)),
        call_ensures(commit_delete, (store, id, generation), freed),
    ensures
        ({
            let there = *old(store) is Some && (*old(store))->0.generation == generation && id
                < (*old(store))->0.nodes@.len() && (*old(store))->0.nodes@[id as int].alive;
            &&& there ==> *final(store) is Some && !(*final(store))->0.nodes@[id as int].alive
                && freed.0 == (*old(store))->0.nodes@[id as int].size && freed.1
                == (*old(store))->0.nodes@[id as int].files && pruned(
                (*old(store))->0,
                id as int,
                (*final(store))->0,
            )
            &&& !there ==> *final(store) == *old(store) && freed == (0u64, 0u64)
        }),
        in_order(*final(store)),
{
    if *old(store) is Some && (*old(store))->0.generation == generation && id
        < (*old(store))->0.nodes@.len() && (*old(store))->0.nodes@[id as int].alive {
        committed_node_is_dead((*old(store))->0, id, *final(store), freed);
    }
}

/// A deletion that is let through hands out where the node lies, what sort it is of and the
/// number of the scan; one that is not hands out why.
pub proof fn deletion_is_checked(
    store: Option<Store>,
    id: u32,
    generation: Option<u64>,
    sep: char,
    r: Result<Target, Refusal>,
)
    requires
        in_order(store),
        call_ensures(check_delete, (&store, id, generation, sep), r),
    ensures
        r is Ok <==> id != 0 && store is Some && id < store->0.nodes@.len()
            && store->0.nodes@[id as int].alive && generation == Some(store->0.generation),
        r is Ok ==> r->Ok_0.path@ == path_text(store->0, id as int, sep) && r->Ok_0.is_dir
            == store->0.nodes@[id as int].is_dir && r->Ok_0.generation == store->0.generation,
        r is Err ==> why_not_delete(store, id, generation) == Some(
            (r->Err_0.code, r->Err_0.message@),
        ),
{
}

/// What is on disk is removed as what it was scanned as, or not at all.
pub proof fn removed_as_it_was_scanned(
    is_dir: bool,
    is_dir_now: bool,
    r: Result<bool, Refusal>,
    d: Deletion,
    o: Outcome,
    next: Result<Deletion, Refusal>,
)
    requires
        call_ensures(delete_as_dir, (is_dir, is_dir_now), r),
        call_ensures(Deletion::next, (d, o), next),
    ensures
        r is Ok <==> is_dir == is_dir_now,
        r is Ok ==> r->Ok_0 == is_dir,
        r is Err ==> r->Err_0.code == 409 && r->Err_0.message@
            == "path changed type on disk \u{2014} refusing"@,
        follows(d, o, next),
{
}

/// Refusals carry the code and the message they are made with.
pub proof fn refusals_carry_their_message(
    code: u16,
    message: &str,
    a: Refusal,
    path: &str,
    error: &str,
    b: Refusal,
    c: Refusal,
    d: Refusal,
)
    requires
        call_ensures(refuse, (code, message), a),
        call_ensures(cannot_stat, (path, error), b),
        call_ensures(delete_failed, (error,), c),
        call_ensures(bad_json, (), d),
    ensures
        a.code == code && a.message@ == message@,
        b.code == 500 && b.message@ == "cannot stat "@ + path@ + ": "@ + error@,
        c.code == 500 && c.message@ == "delete failed: "@ + error@,
        d.code == 400 && d.message@ == "bad json"@,
{
}

/// Whatever is asked for is answered with what there is, or with why it is not: the route,
/// the node, its place on disk, the summary and the map.
pub proof fn requests_are_answered(
    method: Method,
    path: &str,
    headers: Vec<(String, String)>,
    token: &str,
    way: Result<Route, Refusal>,
    store: Option<Store>,
    sep: char,
    id: u32,
    place: Result<String, Refusal>,
    disk: (u64, u64),
    sum: Result<Summary, Refusal>,
)
    requires
        in_order(store),
        call_ensures(route, (method, path, &headers, token), way),
        call_ensures(locate, (&store, id, sep), place),
        call_ensures(summary, (&store, disk, sep), sum),
    ensures
        way is Ok <==> route_for(method, path@) is Some && (method is Post ==> carries_token(
            headers@,
            token@,
        )),
        way is Ok ==> route_for(method, path@) == Some(way->Ok_0),
        way is Err ==> why_not_admitted(method, path@, headers@, token@) == Some(
            (way->Err_0.code, way->Err_0.message@),
        ),
        place is Ok <==> store is Some && id < store->0.nodes@.len(),
        place is Ok ==> place->Ok_0@ == path_text(store->0, id as int, sep),
        place is Err ==> why_not_located(store, id) == Some(
            (place->Err_0.code, place->Err_0.message@),
        ),
        sum is Ok <==> store is Some,
        sum is Ok ==> sums_up(sum->Ok_0, store->0, disk, sep),
        sum is Err ==> sum->Err_0.code == 404 && sum->Err_0.message@ == "no scan yet"@,
{
}

/// A node is told of where it is asked for by its number and lives; a map of it is drawn on
/// the same terms.
pub proof fn nodes_are_answered(
    store: Option<Store>,
    path: &str,
    sep: char,
    r: Result<NodeDetail, Refusal>,
    url: &str,
    m: Result<MapRequest, Refusal>,
)
    requires
        in_order(store),
        begins(path@, "/api/node/"@),
        call_ensures(node, (&store, path, sep), r),
        call_ensures(treemap_request, (&store, url), m),
    ensures
        r is Ok <==> why_not_node(store, path@) is None,
        r is Ok ==> Some(r->Ok_0.id as nat) == node_asked(path@) && tells_node(
            r->Ok_0,
            store->0,
            r->Ok_0.id,
            sep,
        ),
        r is Err ==> why_not_node(store, path@) == Some((r->Err_0.code, r->Err_0.message@)),
        m is Ok <==> why_not_found(store, map_asked(url@).0 as int) is None,
        m is Ok ==> m->Ok_0.id == map_asked(url@).0 && m->Ok_0.w == map_asked(url@).1 && m->Ok_0.h
            == map_asked(url@).2,
        m is Err ==> why_not_found(store, map_asked(url@).0 as int) == Some(
            (m->Err_0.code, m->Err_0.message@),
        ),
{
}

/// The smaller questions are answered as what is said of them: the path and the numbers of
/// an address, the page with its token, the status, and whether a scan can start.
pub proof fn small_questions_are_answered(
    url: &str,
    key: &str,
    p: String,
    n: Option<u64>,
    template: &str,
    token: &str,
    page_text: String,
    store: Option<Store>,
    prog: Progress,
    st: Status,
    path: &str,
    is_dir: bool,
    scanning: bool,
    go: Result<(), Refusal>,
)
    requires
        call_ensures(path_of_url, (url,), p),
        call_ensures(query_u64, (url, key), n),
        call_ensures(page, (template, token), page_text),
        call_ensures(status, (&store, &prog), st),
        call_ensures(check_scan, (path, is_dir, scanning), go),
    ensures
        p@ == path_part(url@),
        n is Some <==> query_number(url@, key@) is Some,
        n is Some ==> query_number(url@, key@) == Some(n->0 as nat),
        page_text@ == replaced(template@, "__DK_TOKEN__"@, token@),
        tells_status(st, store, prog),
        go is Ok <==> is_dir && !scanning,
        go is Err ==> why_not_scan(path@, is_dir, scanning) == Some(
            (go->Err_0.code, go->Err_0.message@),
        ),
{
}

/// A directory is shown in the slot of closed directories, a file in that of its type.
pub proof fn nodes_are_shown_in_their_slot(s: Store, id: u32, slot: u8, d: NodeDetail, sep: char)
    requires
        s.wf(),
        id < s.nodes@.len(),
        call_ensures(node_slot, (&s, id), slot),
        call_ensures(node_resp, (&s, id, sep), d),
    ensures
        s.nodes@[id as int].is_dir ==> slot == 254,
        !s.nodes@[id as int].is_dir ==> slot == s.exts@[s.nodes@[id as int].ext as int].slot,
        tells_node(d, s, id, sep),
{
}

} // verus!
