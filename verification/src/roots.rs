//! The places that a scan can start from.

use crate::split::{begins, pieces, replace, replaced, split, split_words, starts_with, words};
use crate::text::{chars_of, join, last_index, last_place_is_the_last, rfind, same_text,
    text_between};
use vstd::prelude::*;

verus! {

/// A place to start from, and what it is called.
pub struct Place {
    pub path: String,
    pub label: String,
}

/// What a place says.
pub struct PlaceView {
    pub path: Seq<char>,
    pub label: Seq<char>,
}

impl View for Place {
    type V = PlaceView;

    open spec fn view(&self) -> PlaceView {
        PlaceView { path: self.path@, label: self.label@ }
    }
}

/// The places as they stand.
pub open spec fn place_views(v: Seq<Place>) -> Seq<PlaceView> {
    v.map_values(|p: Place| p@)
}

/// Whether one of the places is `path`.
pub open spec fn known(places: Seq<PlaceView>, path: Seq<char>) -> bool {
    exists|i: int| 0 <= i < places.len() && (#[trigger] places[i]).path == path
}

/// The places with one more, unless its path is there already.
pub open spec fn with_place(places: Seq<PlaceView>, p: PlaceView) -> Seq<PlaceView> {
    if known(places, p.path) {
        places
    } else {
        places.push(p)
    }
}

/// The home directory comes first, where there is one.
pub open spec fn home_places(home: Option<String>) -> Seq<PlaceView> {
    match home {
        Some(h) => seq![PlaceView { path: h@, label: "Home"@ }],
        None => Seq::empty(),
    }
}

/// The file systems whose mounts are offered.
pub open spec fn offered(fstype: Seq<char>) -> bool {
    ||| fstype == "ext4"@
    ||| fstype == "ext3"@
    ||| fstype == "ext2"@
    ||| fstype == "btrfs"@
    ||| fstype == "xfs"@
    ||| fstype == "zfs"@
    ||| fstype == "f2fs"@
    ||| fstype == "jfs"@
    ||| fstype == "reiserfs"@
    ||| fstype == "vfat"@
    ||| fstype == "exfat"@
    ||| fstype == "ntfs"@
    ||| fstype == "ntfs3"@
    ||| fstype == "fuseblk"@
}

/// Mount points that are never offered.
pub open spec fn hidden(path: Seq<char>) -> bool {
    begins(path, "/snap"@) || begins(path, "/boot/efi"@) || begins(path, "/var/snap"@)
}

/// What a mount point is called: the last part of its path, or the system.
pub open spec fn mount_label(path: Seq<char>) -> Seq<char> {
    if path == "/"@ {
        "System /"@
    } else {
        path.skip(last_index(path, '/') + 1)
    }
}

/// The path of the mount point in a line of the mount table, where a space is
/// written as its octal code.
pub open spec fn mount_path(field: Seq<char>) -> Seq<char> {
    replaced(field, "\\040"@, " "@)
}

/// The place that a line of the mount table offers: the device, the mount point
/// and the file system come first, in this order.
pub open spec fn mount_place(line: Seq<char>) -> Option<PlaceView> {
    let w = words(line);
    let path = mount_path(w[1]);
    if w.len() >= 3 && offered(w[2]) && !hidden(path) {
        Some(PlaceView { path, label: mount_label(path) })
    } else {
        None
    }
}

/// The places from the first `i` lines of the mount table.
pub open spec fn mounted(start: Seq<PlaceView>, lines: Seq<Seq<char>>, i: int) -> Seq<PlaceView>
    decreases i,
{
    if i <= 0 {
        start
    } else {
        match mount_place(lines[i - 1]) {
            Some(p) => with_place(mounted(start, lines, i - 1), p),
            None => mounted(start, lines, i - 1),
        }
    }
}

fn is_offered(fstype: &str) -> (r: bool)
    ensures
        r == offered(fstype@),
{
    same_text(fstype, "ext4") || same_text(fstype, "ext3") || same_text(fstype, "ext2")
        || same_text(fstype, "btrfs") || same_text(fstype, "xfs") || same_text(fstype, "zfs")
        || same_text(fstype, "f2fs") || same_text(fstype, "jfs") || same_text(fstype, "reiserfs")
        || same_text(fstype, "vfat") || same_text(fstype, "exfat") || same_text(fstype, "ntfs")
        || same_text(fstype, "ntfs3") || same_text(fstype, "fuseblk")
}

fn is_hidden(path: &str) -> (r: bool)
    ensures
        r == hidden(path@),
{
    starts_with(path, "/snap") || starts_with(path, "/boot/efi") || starts_with(path, "/var/snap")
}

fn label_of(path: &str) -> (r: String)
    ensures
        r@ == mount_label(path@),
{
    if same_text(path, "/") {
        return "System /".to_owned();
    }
    let v = chars_of(path);
    let n = v.len();
    match rfind(&v, '/') {
        Some(at) => {
            let r = text_between(&v, at + 1, n);
            assert(r@ == path@.skip(at + 1));
            r
        },
        None => {
            assert(path@.skip(0) == path@);
            path.to_owned()
        },
    }
}

/// Whether one of the places is `path`.
fn is_known(places: &Vec<Place>, path: &str) -> (r: bool)
    ensures
        r == known(place_views(places@), path@),
{
    for i in 0..places.len()
        invariant
            forall|k: int| 0 <= k < i ==> (#[trigger] place_views(places@)[k]).path != path@,
    {
        if same_text(places[i].path.as_str(), path) {
            assert(place_views(places@)[i as int].path == path@);
            return true;
        }
    }
    false
}

/// Takes one more place in, unless its path is there already.
fn add_place(places: &mut Vec<Place>, p: Place)
    ensures
        place_views(final(places)@) == with_place(place_views(old(places)@), p@),
{
    if !is_known(places, p.path.as_str()) {
        let ghost before = places@;
        places.push(p);
        assert(place_views(places@) == place_views(before).push(p@));
    }
}

fn start_places(home: Option<String>) -> (r: Vec<Place>)
    ensures
        place_views(r@) == home_places(home),
{
    let mut r: Vec<Place> = Vec::new();
    match home {
        Some(h) => {
            let ghost hv = h@;
            r.push(Place { path: h, label: "Home".to_owned() });
            assert(place_views(r@) == seq![PlaceView { path: hv, label: "Home"@ }]);
        },
        None => {
            assert(place_views(r@) == Seq::<PlaceView>::empty());
        },
    }
    r
}

/// The places to start from on Linux: the home directory, then every mount of a
/// local file system, from the text of the mount table where it could be read.
pub fn mount_roots(home: Option<String>, mounts: Option<String>) -> (r: Vec<Place>)
    ensures
        place_views(r@) == match mounts {
            Some(m) => mounted(
                home_places(home),
                pieces(m@, '\n'),
                pieces(m@, '\n').len() as int,
            ),
            None => home_places(home),
        },
{
    let ghost start = home_places(home);
    let mut r = start_places(home);
    match mounts {
        Some(m) => {
            let ghost all = pieces(m@, '\n');
            let lines = split(m.as_str(), '\n');
            assert(lines@.map_values(|p: String| p@).len() == lines@.len());
            for i in 0..lines.len()
                invariant
                    lines@.map_values(|p: String| p@) == all,
                    lines@.len() == all.len(),
                    place_views(r@) == mounted(start, all, i as int),
            {
                assert(lines@[i as int]@ == all[i as int]);
                let w = split_words(lines[i].as_str());
                let ghost ws = words(all[i as int]);
                assert(w@.map_values(|p: String| p@).len() == w@.len());
                if w.len() >= 3 {
                    assert(w@[1]@ == ws[1] && w@[2]@ == ws[2]);
                    proof {
                        reveal_strlit("\\040");
                    }
                    let path = replace(w[1].as_str(), "\\040", " ");
                    if is_offered(w[2].as_str()) && !is_hidden(path.as_str()) {
                        let label = label_of(path.as_str());
                        add_place(&mut r, Place { path, label });
                    }
                }
            }
        },
        None => {},
    }
    r
}

/// A mounted volume: its path and its name.
pub open spec fn volume_views(v: Seq<(String, String)>) -> Seq<PlaceView> {
    v.map_values(|p: (String, String)| PlaceView { path: p.0@, label: p.1@ })
}

/// The places with the first `i` of `more`, as far as their paths are new.
pub open spec fn with_places(start: Seq<PlaceView>, more: Seq<PlaceView>, i: int) -> Seq<PlaceView>
    decreases i,
{
    if i <= 0 {
        start
    } else {
        with_place(with_places(start, more, i - 1), more[i - 1])
    }
}

/// The places to start from on macOS: the home directory, the system, and the
/// volumes that lie elsewhere.
pub fn volume_roots(home: Option<String>, volumes: &Vec<(String, String)>) -> (r: Vec<Place>)
    ensures
        place_views(r@) == with_places(
            home_places(home).push(PlaceView { path: "/"@, label: "System /"@ }),
            volume_views(volumes@),
            volumes@.len() as int,
        ),
{
    let ghost start = home_places(home).push(PlaceView { path: "/"@, label: "System /"@ });
    let ghost more = volume_views(volumes@);
    let mut r = start_places(home);
    let ghost before = r@;
    r.push(Place { path: "/".to_owned(), label: "System /".to_owned() });
    assert(place_views(r@) == start);
    for i in 0..volumes.len()
        invariant
            more == volume_views(volumes@),
            place_views(r@) == with_places(start, more, i as int),
    {
        let p = Place { path: volumes[i].0.clone(), label: volumes[i].1.clone() };
        assert(p@ == more[i as int]);
        add_place(&mut r, p);
    }
    r
}

/// The drive with the given letter.
pub open spec fn drive_view(letter: char) -> PlaceView {
    PlaceView { path: seq![letter] + ":\\"@, label: seq![letter] + ": drive"@ }
}

/// The drive with the given letter.
pub fn drive_place(letter: char) -> (p: Place)
    ensures
        p@ == drive_view(letter),
{
    let mut l = String::new();
    l.push(letter);
    assert(l@ == seq![letter]);
    Place { path: join(l.as_str(), ":\\"), label: join(l.as_str(), ": drive") }
}

/// The drives that have any room at all.
pub open spec fn drives_used(drives: Seq<(char, u64)>, i: int) -> Seq<PlaceView>
    decreases i,
{
    if i <= 0 {
        Seq::empty()
    } else if drives[i - 1].1 > 0 {
        drives_used(drives, i - 1).push(drive_view(drives[i - 1].0))
    } else {
        drives_used(drives, i - 1)
    }
}

/// The places to start from on Windows: the home directory, and each drive that is
/// there and has a size, from the letters and sizes of those that are there.
pub fn drive_roots(home: Option<String>, drives: &Vec<(char, u64)>) -> (r: Vec<Place>)
    ensures
        place_views(r@) == home_places(home) + drives_used(drives@, drives@.len() as int),
{
    let ghost start = home_places(home);
    let mut r = start_places(home);
    assert(start + drives_used(drives@, 0) == start);
    for i in 0..drives.len()
        invariant
            place_views(r@) == start + drives_used(drives@, i as int),
    {
        if drives[i].1 > 0 {
            let ghost before = r@;
            r.push(drive_place(drives[i].0));
            proof {
                assert(place_views(r@) == place_views(before).push(drive_view(drives@[i as int].0)));
                assert(start + drives_used(drives@, i + 1) == (start + drives_used(
                    drives@,
                    i as int,
                )).push(drive_view(drives@[i as int].0)));
            }
        }
    }
    r
}

/// The size of a file system and the room left on it, from the number of its
/// blocks, of those free to use, and the size of each. Nothing where it could not
/// be asked.
pub fn disk_usage(stat: Option<(u64, u64, u64)>) -> (r: (u64, u64))
    requires
        match stat {
            Some((blocks, free, size)) => blocks * size <= u64::MAX && free * size <= u64::MAX,
            None => true,
        },
    ensures
        match stat {
            Some((blocks, free, size)) => r.0 == blocks * size && r.1 == free * size,
            None => r == (0u64, 0u64),
        },
{
    match stat {
        Some((blocks, free, size)) => (blocks * size, free * size),
        None => (0, 0),
    }
}

/// No two places have the same path.
pub open spec fn distinct(places: Seq<PlaceView>) -> bool {
    forall|i: int, j: int|
        0 <= i < j < places.len() ==> (#[trigger] places[i]).path != (#[trigger] places[j]).path
}

proof fn lemma_with_place_distinct(places: Seq<PlaceView>, p: PlaceView)
    requires
        distinct(places),
    ensures
        distinct(with_place(places, p)),
{
    if !known(places, p.path) {
        let all = places.push(p);
        assert forall|i: int, j: int| 0 <= i < j < all.len() implies (#[trigger] all[i]).path != (
        #[trigger] all[j]).path by {
            assert(places[i].path == all[i].path);
        }
    }
}

/// On Linux no path is offered twice, and the home directory comes first.
pub proof fn mounts_offered_once(home: Option<String>, lines: Seq<Seq<char>>, i: int)
    requires
        0 <= i <= lines.len(),
    ensures
        distinct(mounted(home_places(home), lines, i)),
        home is Some ==> mounted(home_places(home), lines, i).len() > 0 && mounted(
            home_places(home),
            lines,
            i,
        )[0] == (PlaceView { path: home->0@, label: "Home"@ }),
    decreases i,
{
    if i > 0 {
        mounts_offered_once(home, lines, i - 1);
        match mount_place(lines[i - 1]) {
            Some(p) => {
                lemma_with_place_distinct(mounted(home_places(home), lines, i - 1), p);
            },
            None => {},
        }
    }
}

/// The file systems whose mounts are offered are those of local disks.
pub proof fn local_disks_are_offered(fstype: Seq<char>)
    ensures
        offered(fstype) <==> seq![
            "btrfs"@,
            "exfat"@,
            "ext2"@,
            "ext3"@,
            "ext4"@,
            "f2fs"@,
            "fuseblk"@,
            "jfs"@,
            "ntfs"@,
            "ntfs3"@,
            "reiserfs"@,
            "vfat"@,
            "xfs"@,
            "zfs"@,
        ].contains(fstype),
{
    let all = seq![
        "btrfs"@,
        "exfat"@,
        "ext2"@,
        "ext3"@,
        "ext4"@,
        "f2fs"@,
        "fuseblk"@,
        "jfs"@,
        "ntfs"@,
        "ntfs3"@,
        "reiserfs"@,
        "vfat"@,
        "xfs"@,
        "zfs"@,
    ];
    if offered(fstype) {
        assert(all[0] == "btrfs"@ && all[1] == "exfat"@ && all[2] == "ext2"@ && all[3] == "ext3"@
            && all[4] == "ext4"@ && all[5] == "f2fs"@ && all[6] == "fuseblk"@ && all[7] == "jfs"@
            && all[8] == "ntfs"@ && all[9] == "ntfs3"@ && all[10] == "reiserfs"@ && all[11]
            == "vfat"@ && all[12] == "xfs"@ && all[13] == "zfs"@);
    }
}

/// A line of the mount table offers its mount point where its third word names a file
/// system that is offered and the path does not begin as those of snaps and of the boot
/// partition do. The second word is the path, with the spaces put back; the part behind
/// its last slash is what it is called.
pub proof fn mount_line_offers_its_path(
    line: Seq<char>,
    dir: Seq<char>,
    name: Seq<char>,
)
    requires
        words(line).len() >= 3,
        replaced(words(line)[1], "\\040"@, " "@) == dir + seq!['/'] + name,
        forall|i: int| 0 <= i < name.len() ==> #[trigger] name[i] != '/',
        dir.len() + name.len() > 0,
    ensures
        ({
            let path = dir + seq!['/'] + name;
            mount_place(line) == if offered(words(line)[2]) && !begins(path, "/snap"@) && !begins(
                path,
                "/var/snap"@,
            ) && !begins(path, "/boot/efi"@) {
                Some(PlaceView { path, label: name })
            } else {
                None
            }
        }),
{
    let path = dir + seq!['/'] + name;
    reveal_strlit("/");
    assert(path.len() > 1);
    last_place_is_the_last(path, '/');
    let at = dir.len() as int;
    assert(path[at] == '/');
    let last = last_index(path, '/');
    if last > at {
        assert(path[last] == name[last - at - 1]);
    }
    assert(last == at);
    assert(path.skip(at + 1) == name);
}

/// The topmost directory is called the system, and a line with fewer than three words
/// offers nothing.
pub proof fn mount_line_of_the_system(line: Seq<char>)
    ensures
        words(line).len() < 3 ==> mount_place(line) is None,
        words(line).len() >= 3 && offered(words(line)[2]) && replaced(
            words(line)[1],
            "\\040"@,
            " "@,
        ) == "/"@ ==> mount_place(line) == Some(PlaceView { path: "/"@, label: "System /"@ }),
{
    reveal_strlit("/");
    reveal_strlit("/snap");
    reveal_strlit("/boot/efi");
    reveal_strlit("/var/snap");
}

/// Every mount that a line offers is among the places, none is there that neither the home
/// directory nor a line accounts for, and what the first lines offered stays in front.
pub proof fn every_offered_mount_is_there(home: Option<String>, lines: Seq<Seq<char>>, i: int)
    requires
        0 <= i <= lines.len(),
    ensures
        forall|j: int|
            0 <= j < i && (#[trigger] mount_place(lines[j])) is Some ==> exists|k: int|
                0 <= k < mounted(home_places(home), lines, i).len() && (#[trigger] mounted(
                    home_places(home),
                    lines,
                    i,
                )[k]).path == (mount_place(lines[j])->0).path,
        forall|k: int|
            0 <= k < mounted(home_places(home), lines, i).len() ==> (home is Some
                && #[trigger] mounted(home_places(home), lines, i)[k] == (PlaceView {
                path: home->0@,
                label: "Home"@,
            })) || exists|j: int|
                0 <= j < i && #[trigger] mount_place(lines[j]) == Some(
                    mounted(home_places(home), lines, i)[k],
                ),
        i > 0 ==> mounted(home_places(home), lines, i - 1) == mounted(
            home_places(home),
            lines,
            i,
        ).take(mounted(home_places(home), lines, i - 1).len() as int),
        i > 0 ==> mounted(home_places(home), lines, i).len() <= mounted(
            home_places(home),
            lines,
            i - 1,
        ).len() + 1,
    decreases i,
{
    if i > 0 {
        every_offered_mount_is_there(home, lines, i - 1);
        let before = mounted(home_places(home), lines, i - 1);
        let all = mounted(home_places(home), lines, i);
        assert(before == all.take(before.len() as int));
        let own = mount_place(lines[i - 1]);
        if own is Some && !known(before, (own->0).path) {
            assert(all[before.len() as int] == own->0);
        }
        assert forall|j: int| 0 <= j < i && (
        #[trigger] mount_place(lines[j])) is Some implies exists|k: int|
            0 <= k < all.len() && (#[trigger] all[k]).path == (mount_place(lines[j])->0).path by {
            if j < i - 1 {
                let k = choose|k: int|
                    0 <= k < before.len() && (#[trigger] before[k]).path == (mount_place(
                        lines[j],
                    )->0).path;
                assert(all[k] == before[k]);
            } else if known(before, (own->0).path) {
                let k = choose|k: int|
                    0 <= k < before.len() && (#[trigger] before[k]).path == (own->0).path;
                assert(all[k] == before[k]);
            }
        }
        assert forall|k: int| 0 <= k < all.len() implies (home is Some && #[trigger] all[k] == (
        PlaceView { path: home->0@, label: "Home"@ })) || exists|j: int|
            0 <= j < i && #[trigger] mount_place(lines[j]) == Some(all[k]) by {
            if k < before.len() {
                assert(all[k] == before[k]);
                if !(home is Some && before[k] == (PlaceView { path: home->0@, label: "Home"@ })) {
                    let j = choose|j: int|
                        0 <= j < i - 1 && #[trigger] mount_place(lines[j]) == Some(before[k]);
                    assert(mount_place(lines[j]) == Some(all[k]));
                }
            } else {
                assert(mount_place(lines[i - 1]) == Some(all[k]));
            }
        }
    }
}

/// A place joins the others behind them, unless one of them has its path already.
pub proof fn place_joins_once(places: Seq<PlaceView>, more: Seq<PlaceView>, p: PlaceView)
    ensures
        (exists|k: int| 0 <= k < places.len() && (#[trigger] places[k]).path == p.path)
            ==> with_place(places, p) == places,
        (forall|k: int| 0 <= k < places.len() ==> (#[trigger] places[k]).path != p.path)
            ==> with_place(places, p) == places.push(p),
        with_places(places, more, 0) == places,
        with_places(places, more.push(p), more.len() as int + 1) == with_place(
            with_places(places, more, more.len() as int),
            p,
        ),
{
    lemma_with_places_local(places, more, p, more.len() as int);
}

proof fn lemma_with_places_local(
    places: Seq<PlaceView>,
    more: Seq<PlaceView>,
    p: PlaceView,
    i: int,
)
    requires
        0 <= i <= more.len(),
    ensures
        with_places(places, more.push(p), i) == with_places(places, more, i),
    decreases i,
{
    if i > 0 {
        lemma_with_places_local(places, more, p, i - 1);
        assert(more.push(p)[i - 1] == more[i - 1]);
    }
}

proof fn lemma_drives_local(drives: Seq<(char, u64)>, d: (char, u64), i: int)
    requires
        0 <= i <= drives.len(),
    ensures
        drives_used(drives.push(d), i) == drives_used(drives, i),
    decreases i,
{
    if i > 0 {
        lemma_drives_local(drives, d, i - 1);
        assert(drives.push(d)[i - 1] == drives[i - 1]);
    }
}

/// One drive more is one place more, behind the others, where it has a size, and none
/// where it has not. It goes by its letter.
pub proof fn drive_with_a_size_is_a_place(drives: Seq<(char, u64)>, letter: char, size: u64)
    ensures
        drives_used(drives, 0) == Seq::<PlaceView>::empty(),
        size > 0 ==> drives_used(drives.push((letter, size)), drives.len() as int + 1)
            == drives_used(drives, drives.len() as int).push(
            PlaceView { path: seq![letter] + ":\\"@, label: seq![letter] + ": drive"@ },
        ),
        size == 0 ==> drives_used(drives.push((letter, size)), drives.len() as int + 1)
            == drives_used(drives, drives.len() as int),
{
    lemma_drives_local(drives, (letter, size), drives.len() as int);
}

/// What places say is their paths and labels, one after the other; a volume says the same
/// as a place.
pub proof fn places_say_what_they_hold(
    p: Place,
    v: Seq<Place>,
    volumes: Seq<(String, String)>,
    i: int,
)
    ensures
        p@.path == p.path@ && p@.label == p.label@,
        place_views(v).len() == v.len(),
        0 <= i < v.len() ==> place_views(v)[i] == v[i]@,
        volume_views(volumes).len() == volumes.len(),
        0 <= i < volumes.len() ==> volume_views(volumes)[i].path == volumes[i].0@ && volume_views(
            volumes,
        )[i].label == volumes[i].1@,
{
}

/// The home directory, where there is one, is the first place and goes by that name.
pub proof fn home_is_called_home(home: Option<String>)
    ensures
        home is None ==> home_places(home).len() == 0,
        home is Some ==> home_places(home).len() == 1 && home_places(home)[0].path == home->0@
            && home_places(home)[0].label == "Home"@,
{
}

/// A mount point whose path holds no slash is called by its whole path.
pub proof fn mount_without_a_slash(line: Seq<char>)
    requires
        words(line).len() >= 3,
        offered(words(line)[2]),
        !replaced(words(line)[1], "\\040"@, " "@).contains('/'),
    ensures
        mount_place(line) == Some(
            PlaceView {
                path: replaced(words(line)[1], "\\040"@, " "@),
                label: replaced(words(line)[1], "\\040"@, " "@),
            },
        ),
{
    let path = replaced(words(line)[1], "\\040"@, " "@);
    reveal_strlit("/");
    reveal_strlit("/snap");
    reveal_strlit("/boot/efi");
    reveal_strlit("/var/snap");
    last_place_is_the_last(path, '/');
    if last_index(path, '/') >= 0 {
        assert(path.contains(path[last_index(path, '/')]));
    }
    assert(path.skip(0) == path);
    assert(path != "/"@) by {
        if path == "/"@ {
            assert(path.contains(path[0]));
        }
    }
    assert forall|p: Seq<char>| p.len() > 0 && p[0] == '/' implies !#[trigger] begins(path, p) by {
        if begins(path, p) {
            assert(path.take(p.len() as int)[0] == path[0]);
            assert(path.contains(path[0]));
        }
    }
}

/// The places to start from, on each system: the home directory first; then the mounts that
/// the table offers, the system and the volumes, or the drives. The size of a disk and the
/// room on it are its blocks.
pub proof fn places_to_start_from(
    home: Option<String>,
    mounts: Option<String>,
    a: Vec<Place>,
    volumes: Vec<(String, String)>,
    b: Vec<Place>,
    drives: Vec<(char, u64)>,
    c: Vec<Place>,
    blocks: u64,
    free: u64,
    size: u64,
    usage: (u64, u64),
    unknown: (u64, u64),
)
    requires
        blocks * size <= u64::MAX,
        free * size <= u64::MAX,
        call_ensures(mount_roots, (home, mounts), a),
        call_ensures(volume_roots, (home, &volumes), b),
        call_ensures(drive_roots, (home, &drives), c),
        call_ensures(disk_usage, (Some((blocks, free, size)),), usage),
        call_ensures(disk_usage, (None,), unknown),
    ensures
        mounts is None ==> place_views(a@) == home_places(home),
        mounts is Some ==> place_views(a@) == mounted(
            home_places(home),
            pieces(mounts->0@, '\n'),
            pieces(mounts->0@, '\n').len() as int,
        ),
        place_views(b@) == with_places(
            home_places(home).push(PlaceView { path: "/"@, label: "System /"@ }),
            volume_views(volumes@),
            volumes@.len() as int,
        ),
        place_views(c@) == home_places(home) + drives_used(drives@, drives@.len() as int),
        usage.0 == blocks * size,
        usage.1 == free * size,
        unknown == (0u64, 0u64),
{
}

/// A drive goes by its letter.
pub proof fn drive_goes_by_its_letter(letter: char, p: Place)
    requires
        call_ensures(drive_place, (letter,), p),
    ensures
        p.path@ == seq![letter] + ":\\"@,
        p.label@ == seq![letter] + ": drive"@,
{
}

} // verus!
