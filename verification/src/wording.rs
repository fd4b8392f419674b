//! The texts of the window.

use crate::labels::{bytes_label, count_label, fmt_bytes, fmt_n, fmt_pct, fmt_time, percent_label,
    time_label};
use crate::numbers::{decimal, push_decimal};
use crate::paths::{path_text, path_with};
use crate::store::Store;
use crate::summary::Summary;
use crate::text::{join, push_text};
use crate::web::{in_order, present};
use vstd::prelude::*;

verus! {

/// A number with its label above and a note below.
pub struct StatTile {
    pub label: String,
    pub value: String,
    pub note: String,
}

/// What a tile says.
pub open spec fn tile_says(t: StatTile, label: Seq<char>, value: Seq<char>, note: Seq<char>) -> bool {
    t.label@ == label && t.value@ == value && t.note@ == note
}

fn stat(label: &str, value: String, note: String) -> (t: StatTile)
    ensures
        tile_says(t, label@, value@, note@),
{
    StatTile { label: label.to_owned(), value, note }
}

/// How much of the used part of the disk was scanned.
pub open spec fn used_share(s: Summary) -> Seq<char> {
    if s.disk_total > s.disk_free {
        percent_label(s.bytes as nat, (s.disk_total - s.disk_free) as nat)
    } else {
        percent_label(0, 1)
    }
}

/// How many files a second.
pub open spec fn files_a_second(s: Summary) -> nat {
    if s.elapsed_ms > 0 {
        (s.files * 1000) as nat / s.elapsed_ms as nat
    } else {
        0
    }
}

/// The five tiles of the dashboard.
pub open spec fn tells_stats(v: Seq<StatTile>, s: Summary) -> bool {
    &&& v.len() == 5
    &&& tile_says(v[0], "SCANNED"@, bytes_label(s.bytes as nat), used_share(s) + " of used disk"@)
    &&& tile_says(
        v[1],
        "FILES"@,
        count_label(s.files as nat),
        if s.errors > 0 {
            count_label(s.errors as nat) + " unreadable"@
        } else {
            "all readable"@
        },
    )
    &&& tile_says(v[2], "FOLDERS"@, count_label(s.dirs as nat), "one filesystem"@)
    &&& if s.largest@.len() > 0 {
        tile_says(
            v[3],
            "LARGEST FILE"@,
            bytes_label(s.largest@[0].size as nat),
            s.largest@[0].name@,
        )
    } else {
        tile_says(v[3], "LARGEST FILE"@, "\u{2014}"@, ""@)
    }
    &&& tile_says(
        v[4],
        "SCAN TIME"@,
        time_label(s.elapsed_ms as nat),
        count_label(files_a_second(s)) + " files/s"@,
    )
}

/// The five tiles of the dashboard.
pub fn stat_tiles(s: &Summary) -> (v: Vec<StatTile>)
    requires
        s.files * 1000 <= u64::MAX,
    ensures
        tells_stats(v@, *s),
{
    let mut v: Vec<StatTile> = Vec::new();
    let share = if s.disk_total > s.disk_free {
        fmt_pct(s.bytes, s.disk_total - s.disk_free)
    } else {
        fmt_pct(0, 1)
    };
    v.push(stat("SCANNED", fmt_bytes(s.bytes), join(share.as_str(), " of used disk")));
    let unread = if s.errors > 0 {
        join(fmt_n(s.errors).as_str(), " unreadable")
    } else {
        "all readable".to_owned()
    };
    v.push(stat("FILES", fmt_n(s.files), unread));
    v.push(stat("FOLDERS", fmt_n(s.dirs), "one filesystem".to_owned()));
    if s.largest.len() > 0 {
        v.push(stat("LARGEST FILE", fmt_bytes(s.largest[0].size), s.largest[0].name.clone()));
    } else {
        v.push(stat("LARGEST FILE", "\u{2014}".to_owned(), "".to_owned()));
    }
    let rate: u64 = if s.elapsed_ms > 0 {
        s.files * 1000 / s.elapsed_ms
    } else {
        0
    };
    v.push(stat("SCAN TIME", fmt_time(s.elapsed_ms), join(fmt_n(rate).as_str(), " files/s")));
    v
}

/// `n` or, where it is zero, one.
pub open spec fn at_least_one(n: nat) -> nat {
    if n > 0 {
        n
    } else {
        1
    }
}

/// What the status bar says of the selection.
pub open spec fn status_text(store: Option<Store>, sel: Option<u32>, sep: char) -> Seq<char> {
    match sel {
        Some(id) => if store is Some && present(store->0, id as int) {
            let s = store->0;
            let n = s.nodes@[id as int];
            path_text(s, id as int, sep) + " \u{b7} "@ + bytes_label(n.size as nat) + " \u{b7} "@
                + percent_label(n.size as nat, at_least_one(s.nodes@[0].size as nat))
                + " of total"@
        } else {
            "ready"@
        },
        None => "ready \u{b7} dbl-click to zoom \u{b7} right-click for actions"@,
    }
}

/// What the status bar says of the selection.
pub fn status_line(store: &Option<Store>, sel: Option<u32>, sep: char) -> (r: String)
    requires
        in_order(*store),
    ensures
        r@ == status_text(*store, sel, sep),
{
    match sel {
        Some(id) => {
            match store {
                Some(s) => {
                    if (id as usize) < s.nodes.len() && s.nodes[id as usize].alive {
                        let n = &s.nodes[id as usize];
                        let total: u64 = if s.nodes[0].size > 0 {
                            s.nodes[0].size
                        } else {
                            1
                        };
                        let mut r = path_with(s, id, sep);
                        push_text(&mut r, " \u{b7} ");
                        push_text(&mut r, fmt_bytes(n.size).as_str());
                        push_text(&mut r, " \u{b7} ");
                        push_text(&mut r, fmt_pct(n.size, total).as_str());
                        push_text(&mut r, " of total");
                        return r;
                    }
                },
                None => {},
            }
            "ready".to_owned()
        },
        None => "ready \u{b7} dbl-click to zoom \u{b7} right-click for actions".to_owned(),
    }
}

/// What the status bar says of the scan.
pub open spec fn totals_text(s: Summary) -> Seq<char> {
    count_label(s.files as nat) + " files \u{b7} "@ + count_label(s.dirs as nat)
        + " folders \u{b7} "@ + time_label(s.elapsed_ms as nat) + if s.disk_total > 0 {
        " \u{b7} "@ + bytes_label(s.disk_free as nat) + " free"@
    } else {
        ""@
    }
}

/// What the status bar says of the scan.
pub fn totals_line(s: &Summary) -> (r: String)
    ensures
        r@ == totals_text(*s),
{
    let mut r = fmt_n(s.files);
    push_text(&mut r, " files \u{b7} ");
    push_text(&mut r, fmt_n(s.dirs).as_str());
    push_text(&mut r, " folders \u{b7} ");
    push_text(&mut r, fmt_time(s.elapsed_ms).as_str());
    let free = if s.disk_total > 0 {
        let mut f = join(" \u{b7} ", fmt_bytes(s.disk_free).as_str());
        push_text(&mut f, " free");
        f
    } else {
        "".to_owned()
    };
    push_text(&mut r, free.as_str());
    r
}

/// What a file type is called.
pub open spec fn type_label(name: Seq<char>) -> Seq<char> {
    if name.len() == 0 {
        "no extension"@
    } else {
        "."@ + name
    }
}

/// What a file type is called.
pub fn ext_title(name: &str) -> (r: String)
    ensures
        r@ == type_label(name@),
{
    if name.is_empty() {
        "no extension".to_owned()
    } else {
        join(".", name)
    }
}

/// A number of files.
pub fn files_line(n: u64) -> (r: String)
    ensures
        r@ == count_label(n as nat) + " files"@,
{
    join(fmt_n(n).as_str(), " files")
}

/// A place in a list, to the right of two columns.
pub open spec fn rank_label(n: nat) -> Seq<char> {
    if n < 10 {
        " "@ + decimal(n)
    } else {
        decimal(n)
    }
}

/// A place in a list, to the right of two columns.
pub fn rank_text(n: u64) -> (r: String)
    ensures
        r@ == rank_label(n as nat),
{
    let mut r = if n < 10 {
        " ".to_owned()
    } else {
        "".to_owned()
    };
    proof {
        reveal_strlit("");
        assert(""@ + decimal(n as nat) == decimal(n as nat));
    }
    push_decimal(&mut r, n as u128);
    r
}

/// What stands under the grid.
pub open spec fn heat_text(cells: nat, more: nat) -> Seq<char> {
    count_label(cells) + " items \u{b7} one cell each \u{b7} ring = folder \u{b7} color = size (log)"@
        + if more > 0 {
        " \u{b7} "@ + count_label(more) + " smaller not shown"@
    } else {
        ""@
    }
}

/// What stands under the grid.
pub fn heat_caption(cells: u64, more: u32) -> (r: String)
    ensures
        r@ == heat_text(cells as nat, more as nat),
{
    let mut r = join(
        fmt_n(cells).as_str(),
        " items \u{b7} one cell each \u{b7} ring = folder \u{b7} color = size (log)",
    );
    let rest = if more > 0 {
        let mut s = join(" \u{b7} ", fmt_n(more as u64).as_str());
        push_text(&mut s, " smaller not shown");
        s
    } else {
        "".to_owned()
    };
    push_text(&mut r, rest.as_str());
    r
}

/// What stands below the children that the tree shows.
pub fn more_line(more: u32) -> (r: String)
    ensures
        r@ == "\u{2026} "@ + count_label(more as nat) + " smaller items not shown"@,
{
    let mut r = join("\u{2026} ", fmt_n(more as u64).as_str());
    push_text(&mut r, " smaller items not shown");
    r
}

/// What is about to be deleted.
pub open spec fn target_text(size: nat, dir: bool, files: nat) -> Seq<char> {
    bytes_label(size) + if dir {
        " \u{b7} "@ + (count_label(files) + " files"@)
    } else {
        ""@
    }
}

/// What is about to be deleted.
pub fn target_line(size: u64, dir: bool, files: u32) -> (r: String)
    ensures
        r@ == target_text(size as nat, dir, files as nat),
{
    let mut r = fmt_bytes(size);
    let rest = if dir {
        join(" \u{b7} ", files_line(files as u64).as_str())
    } else {
        "".to_owned()
    };
    push_text(&mut r, rest.as_str());
    r
}

/// What a tile under the pointer weighs, and of what.
pub fn tip_line(size: u64, view_size: u64) -> (r: String)
    ensures
        r@ == bytes_label(size as nat) + " \u{b7} "@ + percent_label(
            size as nat,
            at_least_one(view_size as nat),
        ) + " of this view"@,
{
    let whole: u64 = if view_size > 0 {
        view_size
    } else {
        1
    };
    let mut r = fmt_bytes(size);
    push_text(&mut r, " \u{b7} ");
    push_text(&mut r, fmt_pct(size, whole).as_str());
    push_text(&mut r, " of this view");
    r
}

/// What can be done with a tile under the pointer.
pub open spec fn tip_note_text(kind: u8) -> Seq<char> {
    if kind == 1 {
        "folder \u{b7} double-click to zoom"@
    } else if kind == 2 {
        "many small items \u{b7} double-click to zoom"@
    } else {
        ""@
    }
}

/// What can be done with a tile under the pointer.
pub fn tip_note(kind: u8) -> (r: &'static str)
    ensures
        r@ == tip_note_text(kind),
{
    if kind == 1 {
        "folder \u{b7} double-click to zoom"
    } else if kind == 2 {
        "many small items \u{b7} double-click to zoom"
    } else {
        ""
    }
}

/// A place to start from.
pub fn place_card(label: &str, path: &str, free: u64, total: u64) -> (r: String)
    ensures
        r@ == label@ + "\n"@ + path@ + "\n"@ + bytes_label(free as nat) + " free of "@
            + bytes_label(total as nat),
{
    let mut r = join(label, "\n");
    push_text(&mut r, path);
    push_text(&mut r, "\n");
    push_text(&mut r, fmt_bytes(free).as_str());
    push_text(&mut r, " free of ");
    push_text(&mut r, fmt_bytes(total).as_str());
    r
}

/// How far a scan is, with the time it has taken so far.
pub fn progress_line(files: u64, dirs: u64, seconds: &str) -> (r: String)
    ensures
        r@ == count_label(files as nat) + " files   \u{b7}   "@ + count_label(dirs as nat)
            + " folders   \u{b7}   "@ + seconds@ + " s"@,
{
    let mut r = join(fmt_n(files).as_str(), " files   \u{b7}   ");
    push_text(&mut r, fmt_n(dirs).as_str());
    push_text(&mut r, " folders   \u{b7}   ");
    push_text(&mut r, seconds);
    push_text(&mut r, " s");
    r
}

/// The tiles tell of the scan what the summary holds: its bytes, its files and folders, the
/// first of its largest files, and its time.
pub proof fn tiles_tell_the_summary(v: Seq<StatTile>, s: Summary)
    requires
        tells_stats(v, s),
    ensures
        v.len() == 5,
        v[0].label@ == "SCANNED"@,
        v[0].value@ == bytes_label(s.bytes as nat),
        s.disk_total > s.disk_free ==> v[0].note@ == percent_label(
            s.bytes as nat,
            (s.disk_total - s.disk_free) as nat,
        ) + " of used disk"@,
        s.disk_total <= s.disk_free ==> v[0].note@ == percent_label(0, 1) + " of used disk"@,
        v[1].label@ == "FILES"@,
        v[1].value@ == count_label(s.files as nat),
        s.errors == 0 ==> v[1].note@ == "all readable"@,
        s.errors > 0 ==> v[1].note@ == count_label(s.errors as nat) + " unreadable"@,
        v[2].label@ == "FOLDERS"@,
        v[2].value@ == count_label(s.dirs as nat),
        v[2].note@ == "one filesystem"@,
        v[3].label@ == "LARGEST FILE"@,
        s.largest@.len() > 0 ==> v[3].value@ == bytes_label(s.largest@[0].size as nat)
            && v[3].note@ == s.largest@[0].name@,
        s.largest@.len() == 0 ==> v[3].value@ == "\u{2014}"@ && v[3].note@ == ""@,
        v[4].label@ == "SCAN TIME"@,
        v[4].value@ == time_label(s.elapsed_ms as nat),
        s.elapsed_ms == 0 ==> v[4].note@ == count_label(0) + " files/s"@,
        forall|rate: nat|
            s.elapsed_ms > 0 && rate * s.elapsed_ms <= s.files * 1000 < (rate + 1) * s.elapsed_ms
                ==> v[4].note@ == #[trigger] count_label(rate) + " files/s"@,
{
    assert forall|rate: nat|
        s.elapsed_ms > 0 && rate * s.elapsed_ms <= s.files * 1000 < (rate + 1)
            * s.elapsed_ms implies v[4].note@ == #[trigger] count_label(rate) + " files/s"@ by {
        let n = s.files * 1000;
        let d = s.elapsed_ms as int;
        vstd::arithmetic::div_mod::lemma_fundamental_div_mod(n, d);
        vstd::arithmetic::div_mod::lemma_mod_bound(n, d);
        let q = n / d;
        assert(q == rate) by (nonlinear_arith)
            requires
                d > 0,
                n == d * q + n % d,
                0 <= n % d < d,
                rate * d <= n < (rate + 1) * d,
        ;
    }
}

/// The status bar tells of a selected node that is there where it lies, what it weighs, and
/// its share of all that was scanned. What is not there, it does not tell of.
pub proof fn status_tells_the_selection(store: Option<Store>, id: u32, sep: char)
    ensures
        status_text(store, None, sep)
            == "ready \u{b7} dbl-click to zoom \u{b7} right-click for actions"@,
        store is None ==> status_text(store, Some(id), sep) == "ready"@,
        store is Some && !(id < store->0.nodes@.len() && store->0.nodes@[id as int].alive)
            ==> status_text(store, Some(id), sep) == "ready"@,
        store is Some && id < store->0.nodes@.len() && store->0.nodes@[id as int].alive
            && store->0.nodes@[0].size > 0 ==> status_text(store, Some(id), sep) == path_text(
            store->0,
            id as int,
            sep,
        ) + " \u{b7} "@ + bytes_label(store->0.nodes@[id as int].size as nat) + " \u{b7} "@
            + percent_label(
            store->0.nodes@[id as int].size as nat,
            store->0.nodes@[0].size as nat,
        ) + " of total"@,
        store is Some && id < store->0.nodes@.len() && store->0.nodes@[id as int].alive
            && store->0.nodes@[0].size == 0 ==> status_text(store, Some(id), sep) == path_text(
            store->0,
            id as int,
            sep,
        ) + " \u{b7} "@ + bytes_label(store->0.nodes@[id as int].size as nat) + " \u{b7} "@
            + percent_label(store->0.nodes@[id as int].size as nat, 1) + " of total"@,
{
}

/// The totals tell how many files and folders there are and how long it took, and how much
/// is free where the size of the disk is known.
pub proof fn totals_tell_the_summary(s: Summary)
    ensures
        s.disk_total > 0 ==> totals_text(s) == count_label(s.files as nat) + " files \u{b7} "@
            + count_label(s.dirs as nat) + " folders \u{b7} "@ + time_label(s.elapsed_ms as nat) + (
        " \u{b7} "@ + bytes_label(s.disk_free as nat) + " free"@),
        s.disk_total == 0 ==> totals_text(s) == count_label(s.files as nat) + " files \u{b7} "@
            + count_label(s.dirs as nat) + " folders \u{b7} "@ + time_label(s.elapsed_ms as nat),
{
    reveal_strlit("");
    let t = count_label(s.files as nat) + " files \u{b7} "@ + count_label(s.dirs as nat)
        + " folders \u{b7} "@ + time_label(s.elapsed_ms as nat);
    assert(t + ""@ == t);
}

/// How things are called in lists, tips and captions, with one thing more said where there
/// is something to say.
pub proof fn lists_call_things_by_name(
    name: Seq<char>,
    n: nat,
    m: nat,
    dir: bool,
    kind: u8,
)
    ensures
        type_label(Seq::empty()) == "no extension"@,
        name.len() > 0 ==> type_label(name) == "."@ + name,
        n < 10 ==> rank_label(n) == " "@ + decimal(n),
        n >= 10 ==> rank_label(n) == decimal(n),
        m == 0 ==> heat_text(n, m) == count_label(n)
            + " items \u{b7} one cell each \u{b7} ring = folder \u{b7} color = size (log)"@,
        m > 0 ==> heat_text(n, m) == count_label(n)
            + " items \u{b7} one cell each \u{b7} ring = folder \u{b7} color = size (log)"@ + (
        " \u{b7} "@ + count_label(m) + " smaller not shown"@),
        dir ==> target_text(n, dir, m) == bytes_label(n) + (" \u{b7} "@ + (count_label(m)
            + " files"@)),
        !dir ==> target_text(n, dir, m) == bytes_label(n),
        kind == 1 ==> tip_note_text(kind) == "folder \u{b7} double-click to zoom"@,
        kind == 2 ==> tip_note_text(kind) == "many small items \u{b7} double-click to zoom"@,
        kind != 1 && kind != 2 ==> tip_note_text(kind) == ""@,
        at_least_one(n) >= 1,
        n > 0 ==> at_least_one(n) == n,
        n == 0 ==> at_least_one(n) == 1,
{
    reveal_strlit("");
    let h = count_label(n)
        + " items \u{b7} one cell each \u{b7} ring = folder \u{b7} color = size (log)"@;
    assert(h + ""@ == h);
    assert(bytes_label(n) + ""@ == bytes_label(n));
}

/// What the lines of the window say: counts, sizes and shares, each with what it counts.
pub proof fn lines_say_what_they_count(
    n: u64,
    a: String,
    more: u32,
    b: String,
    size: u64,
    view_size: u64,
    c: String,
    label: &str,
    path: &str,
    free: u64,
    total: u64,
    d: String,
    files: u64,
    dirs: u64,
    seconds: &str,
    e: String,
)
    requires
        call_ensures(files_line, (n,), a),
        call_ensures(more_line, (more,), b),
        call_ensures(tip_line, (size, view_size), c),
        call_ensures(place_card, (label, path, free, total), d),
        call_ensures(progress_line, (files, dirs, seconds), e),
    ensures
        a@ == count_label(n as nat) + " files"@,
        b@ == "\u{2026} "@ + count_label(more as nat) + " smaller items not shown"@,
        view_size > 0 ==> c@ == bytes_label(size as nat) + " \u{b7} "@ + percent_label(
            size as nat,
            view_size as nat,
        ) + " of this view"@,
        view_size == 0 ==> c@ == bytes_label(size as nat) + " \u{b7} "@ + percent_label(
            size as nat,
            1,
        ) + " of this view"@,
        d@ == label@ + "\n"@ + path@ + "\n"@ + bytes_label(free as nat) + " free of "@
            + bytes_label(total as nat),
        e@ == count_label(files as nat) + " files   \u{b7}   "@ + count_label(dirs as nat)
            + " folders   \u{b7}   "@ + seconds@ + " s"@,
{
}

/// What the other texts of the window say is what is said of them.
pub proof fn texts_say_what_is_meant(
    s: Summary,
    v: Vec<StatTile>,
    t: String,
    store: Option<Store>,
    sel: Option<u32>,
    sep: char,
    l: String,
    name: &str,
    x: String,
    n: u64,
    k: String,
    more: u32,
    h: String,
    dir: bool,
    g: String,
    kind: u8,
    note: &'static str,
)
    requires
        s.files * 1000 <= u64::MAX,
        in_order(store),
        call_ensures(stat_tiles, (&s,), v),
        call_ensures(totals_line, (&s,), t),
        call_ensures(status_line, (&store, sel, sep), l),
        call_ensures(ext_title, (name,), x),
        call_ensures(rank_text, (n,), k),
        call_ensures(heat_caption, (n, more), h),
        call_ensures(target_line, (n, dir, more), g),
        call_ensures(tip_note, (kind,), note),
    ensures
        tells_stats(v@, s),
        t@ == totals_text(s),
        l@ == status_text(store, sel, sep),
        x@ == type_label(name@),
        k@ == rank_label(n as nat),
        h@ == heat_text(n as nat, more as nat),
        g@ == target_text(n as nat, dir, more as nat),
        note@ == tip_note_text(kind),
{
}

} // verus!
