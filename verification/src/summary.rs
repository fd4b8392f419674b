//! The scan at a glance: its totals, the heaviest file types and the largest files.

use crate::balance::living_files;
use crate::largest::{ahead, is_living_file, largest_are_the_largest, on_list, TOP_N};
use crate::order::{heaviest_first, lemma_rearranged, sort_heaviest_first, Placed, Weighted};
use crate::paths::{path_text, path_with};
use crate::store::{ExtStat, Store};
use crate::sums::{count_where, lemma_sum_same};
use vstd::prelude::*;

verus! {

/// How many file types are listed.
pub const TYPES_SHOWN: usize = 14;

/// A file type.
pub struct ExtRow {
    pub name: String,
    pub bytes: u64,
    pub files: u64,
    pub slot: u8,
}

/// A large file.
pub struct BigRow {
    pub id: u32,
    pub name: String,
    pub path: String,
    pub size: u64,
    pub slot: u8,
}

/// The scan at a glance.
pub struct Summary {
    pub root: String,
    pub bytes: u64,
    pub files: u64,
    pub dirs: u64,
    pub errors: u64,
    pub elapsed_ms: u64,
    pub generation: u64,
    pub disk_total: u64,
    pub disk_free: u64,
    pub exts: Vec<ExtRow>,
    pub largest: Vec<BigRow>,
}

/// The types among the first `i` that hold any bytes.
pub open spec fn types_in_use(exts: Seq<ExtStat>, i: int) -> Seq<Placed>
    decreases i,
{
    if i <= 0 {
        Seq::empty()
    } else if exts[i - 1].bytes > 0 {
        types_in_use(exts, i - 1).push(
            Placed { weight: exts[i - 1].bytes, at: (i - 1) as usize },
        )
    } else {
        types_in_use(exts, i - 1)
    }
}

/// `order` lists the types in use, heaviest first.
pub open spec fn types_by_weight(exts: Seq<ExtStat>, order: Seq<Placed>) -> bool {
    &&& order.to_multiset() == types_in_use(exts, exts.len() as int).to_multiset()
    &&& heaviest_first(order)
}

/// The first few of `order`.
pub open spec fn shown(order: Seq<Placed>) -> Seq<Placed> {
    if order.len() > TYPES_SHOWN {
        order.take(TYPES_SHOWN as int)
    } else {
        order
    }
}

/// A row says of a type what the table says.
pub open spec fn is_row_of(row: ExtRow, e: ExtStat) -> bool {
    &&& row.name@ == e.name@
    &&& row.bytes == e.bytes
    &&& row.files == e.files
    &&& row.slot == e.slot
}

/// The rows are those of the types `order`.
pub open spec fn are_rows_of(rows: Seq<ExtRow>, exts: Seq<ExtStat>, order: Seq<Placed>) -> bool {
    &&& rows.len() == order.len()
    &&& forall|k: int|
        0 <= k < rows.len() ==> order[k].at < exts.len() && is_row_of(
            #[trigger] rows[k],
            exts[order[k].at as int],
        )
}

/// The rows list the heaviest types in use, heaviest first.
pub open spec fn heaviest_types(rows: Seq<ExtRow>, exts: Seq<ExtStat>) -> bool {
    exists|order: Seq<Placed>|
        #![trigger types_by_weight(exts, order)]
        types_by_weight(exts, order) && are_rows_of(rows, exts, shown(order))
}

proof fn lemma_types_in_use(exts: Seq<ExtStat>, i: int)
    requires
        0 <= i <= exts.len(),
        exts.len() <= usize::MAX,
    ensures
        forall|k: int|
            0 <= k < types_in_use(exts, i).len() ==> (#[trigger] types_in_use(exts, i)[k]).at < i
                && types_in_use(exts, i)[k].weight == exts[types_in_use(exts, i)[k].at as int].bytes,
    decreases i,
{
    if i > 0 {
        lemma_types_in_use(exts, i - 1);
        let rest = types_in_use(exts, i - 1);
        let all = types_in_use(exts, i);
        assert forall|k: int| 0 <= k < all.len() implies (#[trigger] all[k]).at < i
            && all[k].weight == exts[all[k].at as int].bytes by {
            if k < rest.len() {
                assert(all[k] == rest[k]);
            }
        }
    }
}

/// The heaviest file types in use, heaviest first.
pub fn top_types(exts: &Vec<ExtStat>) -> (rows: Vec<ExtRow>)
    ensures
        heaviest_types(rows@, exts@),
{
    let n = exts.len();
    let mut order: Vec<Placed> = Vec::new();
    for i in 0..n
        invariant
            n == exts@.len(),
            order@ == types_in_use(exts@, i as int),
    {
        if exts[i].bytes > 0 {
            order.push(Placed { weight: exts[i].bytes, at: i });
        }
    }
    let ghost all = order@;
    sort_heaviest_first(&mut order);
    let ghost sorted = order@;
    proof {
        lemma_types_in_use(exts@, n as int);
        lemma_rearranged(all, sorted);
        assert forall|k: int| 0 <= k < sorted.len() implies (#[trigger] sorted[k]).at < n by {
            assert(sorted.contains(sorted[k]));
            assert(all.contains(sorted[k]));
            let j = choose|j: int| 0 <= j < all.len() && all[j] == sorted[k];
            assert(all[j] == sorted[k]);
        }
    }
    if order.len() > TYPES_SHOWN {
        order.truncate(TYPES_SHOWN);
    }
    let mut rows: Vec<ExtRow> = Vec::new();
    for i in 0..order.len()
        invariant
            n == exts@.len(),
            order@ == shown(sorted),
            forall|k: int| 0 <= k < order@.len() ==> (#[trigger] order@[k]).at < n,
            rows@.len() == i,
            forall|k: int|
                0 <= k < i ==> is_row_of(#[trigger] rows@[k], exts@[order@[k].at as int]),
    {
        let e = &exts[order[i].at];
        rows.push(
            ExtRow { name: e.name.clone(), bytes: e.bytes, files: e.files, slot: e.slot },
        );
    }
    assert(types_by_weight(exts@, sorted));
    assert(are_rows_of(rows@, exts@, shown(sorted)));
    rows
}

/// A row says of a file what the arena says.
pub open spec fn is_big_row(row: BigRow, store: Store, id: u32, sep: char) -> bool {
    let n = store.nodes@[id as int];
    &&& row.id == id
    &&& row.name@ == n.name@
    &&& row.path@ == path_text(store, id as int, sep)
    &&& row.size == n.size
    &&& row.slot == store.exts@[n.ext as int].slot
}

/// The rows are those of the files `ids`.
pub open spec fn are_big_rows(rows: Seq<BigRow>, store: Store, ids: Seq<u32>, sep: char) -> bool {
    &&& rows.len() == ids.len()
    &&& forall|k: int| 0 <= k < ids.len() ==> is_big_row(#[trigger] rows[k], store, ids[k], sep)
}

/// Whether node `j` has a row.
pub open spec fn has_row(rows: Seq<BigRow>, j: int) -> bool {
    exists|k: int| 0 <= k < rows.len() && (#[trigger] rows[k]).id == j
}

/// The rows list the largest files that are still there: as many as there are, up to
/// the limit; living files, each ahead of the next by size and then by place; and no
/// living file without a row is larger than one that has a row.
pub open spec fn lists_largest(rows: Seq<BigRow>, store: Store, sep: char) -> bool {
    let nodes = store.nodes@;
    &&& rows.len() == if living_files(nodes) < TOP_N {
        living_files(nodes)
    } else {
        TOP_N as nat
    }
    &&& forall|k: int|
        0 <= k < rows.len() ==> (#[trigger] rows[k]).id < nodes.len() && is_living_file(
            nodes,
            rows[k].id as int,
        ) && is_big_row(rows[k], store, rows[k].id, sep)
    &&& forall|a: int, b: int|
        0 <= a < b < rows.len() ==> ahead(
            ((#[trigger] rows[a]).size, rows[a].id),
            ((#[trigger] rows[b]).size, rows[b].id),
        )
    &&& forall|j: int, k: int|
        0 <= j < nodes.len() && is_living_file(nodes, j) && !(#[trigger] has_row(rows, j)) && 0 <= k
            < rows.len() ==> nodes[j].size <= (#[trigger] rows[k]).size
}

/// The largest files that are still there.
pub fn big_files(store: &Store, sep: char) -> (rows: Vec<BigRow>)
    requires
        store.wf(),
    ensures
        lists_largest(rows@, *store, sep),
        are_big_rows(rows@, *store, store.largest@, sep),
{
    proof {
        largest_are_the_largest(*store);
    }
    let ghost ids = store.largest@;
    let mut rows: Vec<BigRow> = Vec::new();
    for i in 0..store.largest.len()
        invariant
            store.wf(),
            ids == store.largest@,
            forall|k: int|
                0 <= k < ids.len() ==> (#[trigger] ids[k]) < store.nodes@.len() && is_living_file(
                    store.nodes@,
                    ids[k] as int,
                ),
            rows@.len() == i,
            forall|k: int| 0 <= k < i ==> is_big_row(#[trigger] rows@[k], *store, ids[k], sep),
    {
        let id = store.largest[i];
        assert(ids[i as int] < store.nodes@.len());
        let n = &store.nodes[id as usize];
        rows.push(
            BigRow {
                id,
                name: n.name.clone(),
                path: path_with(store, id, sep),
                size: n.size,
                slot: store.exts[n.ext as usize].slot,
            },
        );
    }
    proof {
        assert forall|k: int| 0 <= k < rows@.len() implies (#[trigger] rows@[k]).id == ids[k]
            && rows@[k].size == store.nodes@[ids[k] as int].size by {}
        assert forall|a: int, b: int| 0 <= a < b < rows@.len() implies ahead(
            ((#[trigger] rows@[a]).size, rows@[a].id),
            ((#[trigger] rows@[b]).size, rows@[b].id),
        ) by {
            assert(store.largest@[a] == rows@[a].id && store.largest@[b] == rows@[b].id);
        }
        assert forall|j: int, k: int|
            0 <= j < store.nodes@.len() && is_living_file(store.nodes@, j) && !(#[trigger] has_row(
                rows@,
                j,
            )) && 0 <= k < rows@.len() implies store.nodes@[j].size <= (
        #[trigger] rows@[k]).size by {
            if on_list(*store, j) {
                let x = choose|x: int|
                    0 <= x < store.largest@.len() && (#[trigger] store.largest@[x]) == j;
                assert(rows@[x].id == j);
            }
            assert(store.largest@[k] == rows@[k].id);
        }
    }
    rows
}

/// What a summary says of a scan on a disk of this size and room.
pub open spec fn sums_up(s: Summary, store: Store, disk: (u64, u64), sep: char) -> bool {
    &&& s.root@ == store.root_path@
    &&& s.bytes == store.nodes@[0].size
    &&& s.files == store.nodes@[0].files
    &&& s.dirs == store.dirs
    &&& s.errors == store.errors
    &&& s.elapsed_ms == store.elapsed_ms
    &&& s.generation == store.generation
    &&& s.disk_total == disk.0
    &&& s.disk_free == disk.1
    &&& heaviest_types(s.exts@, store.exts@)
    &&& lists_largest(s.largest@, store, sep)
    &&& are_big_rows(s.largest@, store, store.largest@, sep)
}

/// The scan at a glance.
pub fn summarize(store: &Store, disk: (u64, u64), sep: char) -> (s: Summary)
    requires
        store.wf(),
    ensures
        sums_up(s, *store, disk, sep),
{
    Summary {
        root: store.root_path.clone(),
        bytes: store.nodes[0].size,
        files: store.nodes[0].files as u64,
        dirs: store.dirs,
        errors: store.errors,
        elapsed_ms: store.elapsed_ms,
        generation: store.generation,
        disk_total: disk.0,
        disk_free: disk.1,
        exts: top_types(&store.exts),
        largest: big_files(store, sep),
    }
}

/// The rows stand for the types at `places`, each with all that the table says of it.
pub open spec fn rows_stand_for(rows: Seq<ExtRow>, exts: Seq<ExtStat>, places: Seq<int>) -> bool {
    &&& places.len() == rows.len()
    &&& forall|k: int|
        0 <= k < rows.len() ==> 0 <= #[trigger] places[k] < exts.len() && rows[k].name@
            == exts[places[k]].name@ && rows[k].bytes == exts[places[k]].bytes && rows[k].files
            == exts[places[k]].files && rows[k].slot == exts[places[k]].slot
    &&& forall|a: int, b: int|
        0 <= a < b < places.len() ==> #[trigger] places[a] != #[trigger] places[b]
}

proof fn lemma_every_type_in_use(exts: Seq<ExtStat>, i: int)
    requires
        0 <= i <= exts.len() <= usize::MAX,
    ensures
        types_in_use(exts, i).len() == count_where(i, |e: int| exts[e].bytes > 0),
        forall|e: int|
            0 <= e < i && (#[trigger] exts[e]).bytes > 0 ==> types_in_use(exts, i).contains(
                Placed { weight: exts[e].bytes, at: e as usize },
            ),
        forall|k: int|
            0 <= k < types_in_use(exts, i).len() ==> (#[trigger] types_in_use(exts, i)[k]).at < i
                && types_in_use(exts, i)[k].weight > 0 && types_in_use(exts, i)[k].weight
                == exts[types_in_use(exts, i)[k].at as int].bytes,
        types_in_use(exts, i).no_duplicates(),
    decreases i,
{
    if i > 0 {
        lemma_every_type_in_use(exts, i - 1);
        let rest = types_in_use(exts, i - 1);
        let all = types_in_use(exts, i);
        assert forall|k: int| 0 <= k < all.len() implies (#[trigger] all[k]).at < i && all[k].weight
            > 0 && all[k].weight == exts[all[k].at as int].bytes by {
            if k < rest.len() {
                assert(all[k] == rest[k]);
            }
        }
        assert forall|e: int| 0 <= e < i && (#[trigger] exts[e]).bytes > 0 implies all.contains(
            Placed { weight: exts[e].bytes, at: e as usize },
        ) by {
            let x = Placed { weight: exts[e].bytes, at: e as usize };
            if e == i - 1 {
                assert(all[all.len() - 1] == x);
            } else {
                assert(rest.contains(x));
                let k = choose|k: int| 0 <= k < rest.len() && rest[k] == x;
                assert(all[k] == x);
            }
        }
    }
}

/// The list of types leaves out nothing that should be in it: fourteen rows or, where
/// fewer types hold any bytes, one for each that does, whatever it is called; each row
/// another type with all that the table says of it, a heavier one never behind a
/// lighter one, and no type without a row heavier than one that has one.
pub proof fn no_heavier_type_is_left_out(rows: Seq<ExtRow>, exts: Seq<ExtStat>)
    requires
        heaviest_types(rows, exts),
        exts.len() <= usize::MAX,
    ensures
        rows.len() == if count_where(exts.len() as int, |e: int| exts[e].bytes > 0) < 14 {
            count_where(exts.len() as int, |e: int| exts[e].bytes > 0)
        } else {
            14
        },
        forall|k: int| 0 <= k < rows.len() ==> (#[trigger] rows[k]).bytes > 0,
        forall|a: int, b: int|
            0 <= a < b < rows.len() ==> (#[trigger] rows[a]).bytes >= (#[trigger] rows[b]).bytes,
        exists|places: Seq<int>| #[trigger]
            rows_stand_for(rows, exts, places) && forall|e: int, k: int|
                0 <= e < exts.len() && (#[trigger] exts[e]).bytes > 0 && !places.contains(e) && 0 <= k
                    < rows.len() ==> exts[e].bytes <= (#[trigger] rows[k]).bytes,
        rows.len() < 14 ==> forall|e: int|
            0 <= e < exts.len() && (#[trigger] exts[e]).bytes > 0 ==> exists|k: int|
                0 <= k < rows.len() && (#[trigger] rows[k]).name@ == exts[e].name@ && rows[k].bytes
                    == exts[e].bytes && rows[k].files == exts[e].files && rows[k].slot
                    == exts[e].slot,
{
    let order = choose|order: Seq<Placed>|
        #![trigger types_by_weight(exts, order)]
        types_by_weight(exts, order) && are_rows_of(rows, exts, shown(order));
    let all = types_in_use(exts, exts.len() as int);
    lemma_every_type_in_use(exts, exts.len() as int);
    lemma_rearranged(all, order);
    let few = shown(order);
    let places = Seq::new(rows.len(), |k: int| few[k].at as int);
    assert forall|k: int| 0 <= k < order.len() implies (#[trigger] order[k]).at < exts.len()
        && order[k].weight > 0 && order[k].weight == exts[order[k].at as int].bytes by {
        assert(order.contains(order[k]));
        assert(all.contains(order[k]));
        let j = choose|j: int| 0 <= j < all.len() && all[j] == order[k];
        assert(all[j] == order[k]);
    }
    assert forall|k: int| 0 <= k < rows.len() implies 0 <= #[trigger] places[k] < exts.len()
        && rows[k].name@ == exts[places[k]].name@ && rows[k].bytes == exts[places[k]].bytes
        && rows[k].files == exts[places[k]].files && rows[k].slot == exts[places[k]].slot
        && rows[k].bytes == order[k].weight by {
        assert(is_row_of(rows[k], exts[few[k].at as int]));
        assert(few[k] == order[k]);
    }
    assert forall|k: int| 0 <= k < rows.len() implies (#[trigger] rows[k]).bytes
        == order[k].weight by {
        assert(places[k] == few[k].at as int);
    }
    assert forall|a: int, b: int| 0 <= a < b < places.len() implies #[trigger] places[a]
        != #[trigger] places[b] by {
        assert(few[a] == order[a] && few[b] == order[b]);
        assert(order[a] != order[b]);
        assert(order[a].weight == exts[order[a].at as int].bytes);
        assert(order[b].weight == exts[order[b].at as int].bytes);
    }
    assert forall|a: int, b: int| 0 <= a < b < rows.len() implies (#[trigger] rows[a]).bytes >= (
    #[trigger] rows[b]).bytes by {
        assert(order[a].heft() >= order[b].heft());
    }
    assert forall|e: int| 0 <= e < exts.len() && (#[trigger] exts[e]).bytes > 0 implies exists|x: int|
        0 <= x < order.len() && (#[trigger] order[x]).at == e && order[x].weight == exts[e].bytes by {
        let y = Placed { weight: exts[e].bytes, at: e as usize };
        assert(order.contains(y));
        let x = choose|x: int| 0 <= x < order.len() && order[x] == y;
        assert(order[x].at == e);
    }
    assert forall|e: int, k: int|
        0 <= e < exts.len() && (#[trigger] exts[e]).bytes > 0 && !places.contains(e) && 0 <= k
            < rows.len() implies exts[e].bytes <= (#[trigger] rows[k]).bytes by {
        let x = choose|x: int|
            0 <= x < order.len() && (#[trigger] order[x]).at == e && order[x].weight
                == exts[e].bytes;
        if x < rows.len() {
            assert(places[x] == e);
        }
        assert(order[k].heft() >= order[x].heft());
    }
    assert(rows_stand_for(rows, exts, places));
    if rows.len() < 14 {
        assert(few == order);
        assert forall|e: int| 0 <= e < exts.len() && (#[trigger] exts[e]).bytes > 0 implies exists|
            k: int,
        |
            0 <= k < rows.len() && (#[trigger] rows[k]).name@ == exts[e].name@ && rows[k].bytes
                == exts[e].bytes && rows[k].files == exts[e].files && rows[k].slot
                == exts[e].slot by {
            let x = choose|x: int|
                0 <= x < order.len() && (#[trigger] order[x]).at == e && order[x].weight
                    == exts[e].bytes;
            assert(places[x] == e);
            assert(rows[x].bytes == exts[e].bytes);
        }
    }
}

/// The summary hands on what the scan and the disk come to.
pub proof fn summary_hands_on_the_totals(
    s: Summary,
    store: Store,
    disk: (u64, u64),
    sep: char,
)
    requires
        sums_up(s, store, disk, sep),
    ensures
        s.root@ == store.root_path@,
        s.bytes == store.nodes@[0].size,
        s.files == store.nodes@[0].files,
        s.dirs == store.dirs,
        s.errors == store.errors,
        s.elapsed_ms == store.elapsed_ms,
        s.generation == store.generation,
        s.disk_total == disk.0,
        s.disk_free == disk.1,
        heaviest_types(s.exts@, store.exts@),
        lists_largest(s.largest@, store, sep),
        s.largest@.len() == store.largest@.len(),
        forall|k: int|
            0 <= k < s.largest@.len() ==> (#[trigger] s.largest@[k]).id == store.largest@[k],
{
}

/// The files in the list are the largest there are: up to fifteen living files, in falling
/// order of size, each with its name, its path, its size and the slot of its type, and no
/// larger living file is left out.
pub proof fn no_larger_file_is_left_out(rows: Seq<BigRow>, store: Store, sep: char)
    requires
        lists_largest(rows, store, sep),
    ensures
        rows.len() == if count_where(
            store.nodes@.len() as int,
            |k: int| store.nodes@[k].alive && !store.nodes@[k].is_dir,
        ) < 15 {
            count_where(
                store.nodes@.len() as int,
                |k: int| store.nodes@[k].alive && !store.nodes@[k].is_dir,
            )
        } else {
            15
        },
        forall|k: int|
            0 <= k < rows.len() ==> ({
                let row = #[trigger] rows[k];
                let n = store.nodes@[row.id as int];
                &&& row.id < store.nodes@.len()
                &&& n.alive
                &&& !n.is_dir
                &&& row.name@ == n.name@
                &&& row.path@ == path_text(store, row.id as int, sep)
                &&& row.size == n.size
                &&& row.slot == store.exts@[n.ext as int].slot
            }),
        forall|a: int, b: int|
            0 <= a < b < rows.len() ==> (#[trigger] rows[a]).size >= (#[trigger] rows[b]).size
                && rows[a].id != rows[b].id && (rows[a].size == rows[b].size ==> rows[a].id
                > rows[b].id),
        forall|j: int, k: int|
            0 <= j < store.nodes@.len() && store.nodes@[j].alive && !store.nodes@[j].is_dir && 0
                <= k < rows.len() && (#[trigger] rows[k]).size < (#[trigger] store.nodes@[j]).size
                ==> exists|i: int| 0 <= i < rows.len() && (#[trigger] rows[i]).id == j,
{
    let nodes = store.nodes@;
    lemma_sum_same(
        nodes.len() as int,
        |k: int| is_living_file(nodes, k),
        |k: int| nodes[k].alive && !nodes[k].is_dir,
        |k: int| 1nat,
        |k: int| 1nat,
    );
    assert forall|j: int, k: int|
        0 <= j < nodes.len() && nodes[j].alive && !nodes[j].is_dir && 0 <= k < rows.len() && (
        #[trigger] rows[k]).size < (#[trigger] nodes[j]).size implies exists|i: int|
        0 <= i < rows.len() && (#[trigger] rows[i]).id == j by {
        assert(is_living_file(nodes, j));
        assert(has_row(rows, j));
    }
    assert forall|k: int| 0 <= k < rows.len() implies is_big_row(
        #[trigger] rows[k],
        store,
        rows[k].id,
        sep,
    ) && is_living_file(nodes, rows[k].id as int) by {
    }
    assert forall|a: int, b: int| 0 <= a < b < rows.len() implies (#[trigger] rows[a]).size >= (
    #[trigger] rows[b]).size && rows[a].id != rows[b].id && (rows[a].size == rows[b].size
        ==> rows[a].id > rows[b].id) by {
        assert(ahead((rows[a].size, rows[a].id), (rows[b].size, rows[b].id)));
    }
}

/// The heaviest types, the largest files and the summary are what is said of them.
pub proof fn scan_is_summed_up(
    exts: Vec<ExtStat>,
    rows: Vec<ExtRow>,
    store: Store,
    sep: char,
    big: Vec<BigRow>,
    disk: (u64, u64),
    s: Summary,
)
    requires
        store.wf(),
        call_ensures(top_types, (&exts,), rows),
        call_ensures(big_files, (&store, sep), big),
        call_ensures(summarize, (&store, disk, sep), s),
    ensures
        heaviest_types(rows@, exts@),
        lists_largest(big@, store, sep),
        big@.len() == store.largest@.len(),
        sums_up(s, store, disk, sep),
{
}

} // verus!
