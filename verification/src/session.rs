//! The native window's state of mind: what is shown, zoomed, selected and asked, and
//! how each gesture changes it.

use crate::config::ThemeKind;
use crate::labels::{bytes_label, fmt_bytes};
use crate::paths::{ancestors, ancestors_of, path_text, path_with};
use crate::prune::{doomed, pruned, remove_subtree};
use crate::store::{linked, Node, Store};
use crate::summary::{summarize, sums_up, Summary};
use crate::text::{join, push_text};
use crate::web::{in_order, present};
use vstd::prelude::*;

verus! {

/// The two readings of a disk.
#[derive(Clone, Copy, PartialEq, Eq, Structural)]
pub enum Reading {
    Treemap,
    Heat,
}

/// What a gesture asks for.
#[derive(Clone, Copy)]
pub enum Act {
    Zoom(u32),
    Select(u32),
    AskDelete(u32),
    Reveal(u32),
    Open(u32),
    CopyPath(u32),
    ToggleExt(u8),
}

/// What the drawn map was drawn for.
#[derive(Clone, Copy, PartialEq, Eq, Structural)]
pub struct MapKey {
    pub generation: u64,
    pub zoom: u32,
    pub w: u32,
    pub h: u32,
    pub heat: bool,
}

/// What stands for no map at all.
pub open spec fn no_map() -> MapKey {
    MapKey { generation: u64::MAX, zoom: 0, w: 0, h: 0, heat: false }
}

/// What is looked at.
#[derive(Clone, Copy, PartialEq, Eq, Structural)]
pub struct Look {
    pub view: Reading,
    pub zoom: u32,
    pub sel: Option<u32>,
    pub ext_sel: Option<u8>,
    pub map_key: MapKey,
}

/// A node that is about to be deleted.
pub struct DeleteTarget {
    pub id: u32,
    pub name: String,
    pub path: String,
    pub size: u64,
    pub dir: bool,
    pub files: u32,
}

/// A passing message.
pub struct Toast {
    pub text: String,
    pub bad: bool,
}

/// The state of the window.
pub struct Session {
    pub theme_kind: ThemeKind,
    pub look: Look,
    pub snap: Option<Summary>,
    pub gen_seen: u64,
    pub crumbs: Vec<(u32, String)>,
    pub delete_target: Option<DeleteTarget>,
    pub toast: Option<Toast>,
    pub pending_copy: Option<String>,
    pub path_input: String,
}

/// What is left to do outside once a gesture has been taken in.
pub enum Effect {
    Nothing,
    Reveal(String),
    Open(String),
}

/// The message says this.
pub open spec fn toasts(t: Option<Toast>, text: Seq<char>, bad: bool) -> bool {
    t is Some && t->0.text@ == text && t->0.bad == bad
}

/// Nothing but what is looked at, the way there and the message differs.
pub open spec fn same_base(a: Session, b: Session) -> bool {
    &&& a.theme_kind == b.theme_kind
    &&& a.snap == b.snap
    &&& a.gen_seen == b.gen_seen
    &&& a.path_input == b.path_input
}

/// Nothing that is asked or said differs.
pub open spec fn same_talk(a: Session, b: Session) -> bool {
    &&& a.delete_target == b.delete_target
    &&& a.toast == b.toast
    &&& a.pending_copy == b.pending_copy
}

/// What a crumb is called: the root by its path, everything else by its name.
pub open spec fn crumb_name(store: Store, id: int) -> Seq<char> {
    if id == 0 {
        store.root_path@
    } else {
        store.nodes@[id].name@
    }
}

/// The crumbs lead from the root down to node `zoom`.
pub open spec fn leads_to(crumbs: Seq<(u32, String)>, store: Store, zoom: int) -> bool {
    let way = ancestors(store.nodes@, zoom).push(zoom);
    &&& crumbs.len() == way.len()
    &&& forall|k: int|
        0 <= k < way.len() ==> (#[trigger] crumbs[k]).0 == way[k] && crumbs[k].1@ == crumb_name(
            store,
            way[k],
        )
}

/// The node itself if it lives, else the nearest living one above it, or the root.
pub open spec fn nearest_living(nodes: Seq<Node>, id: int) -> int
    decreases id,
{
    if id <= 0 || nodes[id].alive || nodes[id].parent >= id {
        id
    } else {
        nearest_living(nodes, nodes[id].parent as int)
    }
}

/// Whether a node may be deleted: the root never goes, and the node has to be there.
pub open spec fn may_delete(store: Store, id: u32) -> bool {
    id != 0 && present(store, id as int)
}

fn name_of_crumb(store: &Store, id: u32) -> (r: String)
    requires
        id < store.nodes@.len(),
    ensures
        r@ == crumb_name(*store, id as int),
{
    if id == 0 {
        store.root_path.clone()
    } else {
        store.nodes[id as usize].name.clone()
    }
}

impl Session {
    /// A window before its first scan, offering the first place there is.
    pub fn new(theme_kind: ThemeKind, first_place: &Option<String>) -> (s: Session)
        ensures
            s.theme_kind == theme_kind,
            s.look == (Look {
                view: Reading::Treemap,
                zoom: 0,
                sel: None,
                ext_sel: None,
                map_key: no_map(),
            }),
            s.snap is None,
            s.gen_seen == 0,
            s.crumbs@.len() == 0,
            s.delete_target is None,
            s.toast is None,
            s.pending_copy is None,
            s.path_input@ == match *first_place {
                Some(p) => p@,
                None => "/"@,
            },
    {
        let path_input = match first_place {
            Some(p) => p.clone(),
            None => "/".to_owned(),
        };
        Session {
            theme_kind,
            look: Look {
                view: Reading::Treemap,
                zoom: 0,
                sel: None,
                ext_sel: None,
                map_key: MapKey { generation: u64::MAX, zoom: 0, w: 0, h: 0, heat: false },
            },
            snap: None,
            gen_seen: 0,
            crumbs: Vec::new(),
            delete_target: None,
            toast: None,
            pending_copy: None,
            path_input,
        }
    }

    /// Says something in passing.
    pub fn say(&mut self, text: String, bad: bool)
        ensures
            same_base(*old(self), *final(self)),
            final(self).look == old(self).look,
            final(self).crumbs == old(self).crumbs,
            final(self).delete_target == old(self).delete_target,
            final(self).pending_copy == old(self).pending_copy,
            toasts(final(self).toast, text@, bad),
    {
        self.toast = Some(Toast { text, bad });
    }

    /// Has the map drawn anew.
    pub fn invalidate_map(&mut self)
        ensures
            same_base(*old(self), *final(self)),
            same_talk(*old(self), *final(self)),
            final(self).crumbs == old(self).crumbs,
            final(self).look == (Look { map_key: no_map(), ..old(self).look }),
    {
        self.look.map_key = MapKey { generation: u64::MAX, zoom: 0, w: 0, h: 0, heat: false };
    }

    /// Takes in the scan at hand, where there is one.
    pub fn snapshot(&mut self, store: &Option<Store>, disk: (u64, u64), sep: char)
        requires
            in_order(*store),
        ensures
            same_talk(*old(self), *final(self)),
            final(self).look == old(self).look,
            final(self).crumbs == old(self).crumbs,
            final(self).theme_kind == old(self).theme_kind,
            final(self).path_input == old(self).path_input,
            match *store {
                Some(s) => final(self).snap is Some && sums_up(final(self).snap->0, s, disk, sep)
                    && final(self).gen_seen == s.generation,
                None => final(self).snap == old(self).snap && final(self).gen_seen == old(self).gen_seen,
            },
    {
        match store {
            Some(s) => {
                self.snap = Some(summarize(s, disk, sep));
                self.gen_seen = s.generation;
            },
            None => {},
        }
    }

    /// Looks at the whole of a new scan.
    pub fn reset_view_state(&mut self, root: String)
        ensures
            same_base(*old(self), *final(self)),
            same_talk(*old(self), *final(self)),
            final(self).look == (Look {
                view: old(self).look.view,
                zoom: 0,
                sel: None,
                ext_sel: None,
                map_key: no_map(),
            }),
            final(self).crumbs@.len() == 1,
            final(self).crumbs@[0].0 == 0,
            final(self).crumbs@[0].1 == root,
    {
        self.look.zoom = 0;
        self.look.sel = None;
        self.look.ext_sel = None;
        self.crumbs = Vec::new();
        self.crumbs.push((0, root));
        self.invalidate_map();
    }

    /// Takes in a scan that has not been seen yet, once nothing is running: from then
    /// on the window shows the whole of it. Says whether it did.
    pub fn refresh(&mut self, scanning: bool, store: &Option<Store>, disk: (u64, u64), sep: char)
        -> (fresh: bool)
        requires
            in_order(*store),
        ensures
            fresh == (!scanning && store is Some && store->0.generation != old(self).gen_seen
                && store->0.generation > 0),
            !fresh ==> *final(self) == *old(self),
            fresh ==> final(self).snap is Some && sums_up(
                final(self).snap->0,
                store->0,
                disk,
                sep,
            ) && final(self).gen_seen == store->0.generation && final(self).look == (Look {
                view: old(self).look.view,
                zoom: 0,
                sel: None,
                ext_sel: None,
                map_key: no_map(),
            }) && final(self).crumbs@.len() == 1 && final(self).crumbs@[0].0 == 0 && final(self).crumbs@[0].1@ == store->0.root_path@ && same_talk(*old(self), *final(self))
                && final(self).theme_kind == old(self).theme_kind && final(self).path_input == old(self).path_input,
    {
        if scanning {
            return false;
        }
        match store {
            Some(s) => {
                if s.generation == self.gen_seen || s.generation == 0 {
                    return false;
                }
                self.snapshot(store, disk, sep);
                self.reset_view_state(s.root_path.clone());
                true
            },
            None => false,
        }
    }

    /// Spells out the way from the root to what is zoomed.
    pub fn rebuild_crumbs(&mut self, store: &Store)
        requires
            store.wf(),
            old(self).look.zoom < store.nodes@.len(),
        ensures
            same_base(*old(self), *final(self)),
            same_talk(*old(self), *final(self)),
            final(self).look == old(self).look,
            leads_to(final(self).crumbs@, *store, old(self).look.zoom as int),
    {
        let zoom = self.look.zoom;
        let up = ancestors_of(store, zoom);
        let ghost ups = ancestors(store.nodes@, zoom as int);
        proof {
            crate::paths::ancestors_lie_above(store.nodes@, zoom as int);
            assert(up@.map_values(|a: u32| a as int).len() == up@.len());
            assert forall|k: int| 0 <= k < up@.len() implies (#[trigger] up@[k]) == ups[k] && up@[k]
                < store.nodes@.len() by {
                assert(up@.map_values(|a: u32| a as int)[k] == up@[k] as int);
            }
        }
        let mut crumbs: Vec<(u32, String)> = Vec::new();
        for i in 0..up.len()
            invariant
                up@.len() == ups.len(),
                forall|k: int|
                    0 <= k < up@.len() ==> (#[trigger] up@[k]) == ups[k] && up@[k]
                        < store.nodes@.len(),
                crumbs@.len() == i,
                forall|k: int|
                    0 <= k < i ==> (#[trigger] crumbs@[k]).0 == ups[k] && crumbs@[k].1@
                        == crumb_name(*store, ups[k]),
        {
            crumbs.push((up[i], name_of_crumb(store, up[i])));
        }
        crumbs.push((zoom, name_of_crumb(store, zoom)));
        self.crumbs = crumbs;
    }

    /// Whether the crumbs at hand lead to something else than what is zoomed.
    pub fn crumbs_stale(&self) -> (r: bool)
        ensures
            r == (self.crumbs@.len() == 0 || self.crumbs@.last().0 != self.look.zoom),
    {
        let n = self.crumbs.len();
        n == 0 || self.crumbs[n - 1].0 != self.look.zoom
    }

    /// Whether the map has to be drawn anew for a scan and a size, which it is then
    /// taken to be.
    pub fn relayout(&mut self, generation: u64, w: u32, h: u32) -> (anew: bool)
        ensures
            ({
                let key = MapKey {
                    generation,
                    zoom: old(self).look.zoom,
                    w,
                    h,
                    heat: old(self).look.view == Reading::Heat,
                };
                &&& anew == (key != old(self).look.map_key)
                &&& final(self).look == (Look { map_key: key, ..old(self).look })
            }),
            same_base(*old(self), *final(self)),
            same_talk(*old(self), *final(self)),
            final(self).crumbs == old(self).crumbs,
    {
        let key = MapKey {
            generation,
            zoom: self.look.zoom,
            w,
            h,
            heat: self.look.view == Reading::Heat,
        };
        if key == self.look.map_key {
            return false;
        }
        self.look.map_key = key;
        true
    }

    /// Gets ready for a scan of `path`, or says why there will be none.
    pub fn begin_scan(&mut self, path: String, is_dir: bool) -> (go: bool)
        ensures
            go == is_dir,
            final(self).theme_kind == old(self).theme_kind,
            final(self).look == old(self).look,
            final(self).snap == old(self).snap,
            final(self).gen_seen == old(self).gen_seen,
            final(self).crumbs == old(self).crumbs,
            final(self).delete_target == old(self).delete_target,
            final(self).pending_copy == old(self).pending_copy,
            go ==> final(self).path_input == path && final(self).toast == old(self).toast,
            !go ==> final(self).path_input == old(self).path_input && toasts(
                final(self).toast,
                "not a directory: "@ + path@,
                true,
            ),
    {
        if !is_dir {
            self.say(join("not a directory: ", path.as_str()), true);
            return false;
        }
        self.path_input = path;
        true
    }

    /// Takes a gesture in.
    pub fn apply(&mut self, a: Act, store: &Option<Store>, sep: char) -> (e: Effect)
        requires
            in_order(*store),
        ensures
            same_base(*old(self), *final(self)),
            final(self).toast == old(self).toast,
            applied(*old(self), a, *store, sep, *final(self), e),
    {
        match a {
            Act::Zoom(id) => {
                self.look.zoom = id;
                self.invalidate_map();
                self.crumbs = Vec::new();
                Effect::Nothing
            },
            Act::Select(id) => {
                self.look.sel = Some(id);
                Effect::Nothing
            },
            Act::ToggleExt(s) => {
                self.look.ext_sel = match self.look.ext_sel {
                    Some(x) => if x == s {
                        None
                    } else {
                        Some(s)
                    },
                    None => Some(s),
                };
                Effect::Nothing
            },
            Act::AskDelete(id) => {
                match store {
                    Some(s) => {
                        if (id as usize) < s.nodes.len() && s.nodes[id as usize].alive && id != 0 {
                            let n = &s.nodes[id as usize];
                            self.delete_target = Some(
                                DeleteTarget {
                                    id,
                                    name: n.name.clone(),
                                    path: path_with(s, id, sep),
                                    size: n.size,
                                    dir: n.is_dir,
                                    files: n.files,
                                },
                            );
                        }
                    },
                    None => {},
                }
                Effect::Nothing
            },
            Act::Reveal(id) => match path_for(store, id, sep) {
                Some(p) => Effect::Reveal(p),
                None => Effect::Nothing,
            },
            Act::Open(id) => match path_for(store, id, sep) {
                Some(p) => Effect::Open(p),
                None => Effect::Nothing,
            },
            Act::CopyPath(id) => {
                self.pending_copy = path_for(store, id, sep);
                Effect::Nothing
            },
        }
    }

    /// Where the node to be deleted lies and whether it is a directory, or a message
    /// that it will not be deleted.
    pub fn check_delete(&mut self, store: &Store, id: u32, sep: char) -> (r: Option<(String, bool)>)
        requires
            store.wf(),
        ensures
            match r {
                Some((p, dir)) => may_delete(*store, id) && p@ == path_text(
                    *store,
                    id as int,
                    sep,
                ) && dir == store.nodes@[id as int].is_dir && *final(self) == *old(self),
                None => !may_delete(*store, id) && same_base(*old(self), *final(self)) && final(self).look == old(self).look && final(self).crumbs == old(self).crumbs && final(self).delete_target == old(self).delete_target && final(self).pending_copy == old(self).pending_copy && toasts(
                    final(self).toast,
                    "refusing: bad delete target"@,
                    true,
                ),
            },
    {
        if id == 0 || id as usize >= store.nodes.len() || !store.nodes[id as usize].alive {
            self.say("refusing: bad delete target".to_owned(), true);
            return None;
        }
        Some((path_with(store, id, sep), store.nodes[id as usize].is_dir))
    }

    /// Says that something could not be deleted.
    pub fn delete_failed(&mut self, error: &str)
        ensures
            same_base(*old(self), *final(self)),
            final(self).look == old(self).look,
            final(self).crumbs == old(self).crumbs,
            final(self).delete_target == old(self).delete_target,
            final(self).pending_copy == old(self).pending_copy,
            toasts(final(self).toast, "delete failed: "@ + error@, true),
    {
        self.say(join("delete failed: ", error), true);
    }

    /// Takes a deleted node out of the scan: the zoom climbs to the nearest directory
    /// that is still there, nothing is selected any more, and everything is shown
    /// anew.
    pub fn deleted(&mut self, store: &mut Store, id: u32, disk: (u64, u64), sep: char)
        requires
            old(store).wf(),
            may_delete(*old(store), id),
            old(self).look.zoom < old(store).nodes@.len(),
        ensures
            final(store).wf(),
            pruned(*old(store), id as int, *final(store)),
            final(self).theme_kind == old(self).theme_kind,
            final(self).path_input == old(self).path_input,
            final(self).delete_target == old(self).delete_target,
            final(self).pending_copy == old(self).pending_copy,
            final(self).snap is Some,
            sums_up(final(self).snap->0, *final(store), disk, sep),
            final(self).gen_seen == final(store).generation,
            final(self).look == (Look {
                zoom: nearest_living(final(store).nodes@, old(self).look.zoom as int) as u32,
                sel: None,
                map_key: no_map(),
                ..old(self).look
            }),
            final(self).crumbs@.len() == 0,
            toasts(
                final(self).toast,
                "Deleted "@ + old(store).nodes@[id as int].name@ + " \u{2014} "@ + bytes_label(
                    old(store).nodes@[id as int].size as nat,
                ) + " freed"@,
                false,
            ),
    {
        let mut text = join("Deleted ", store.nodes[id as usize].name.as_str());
        let (freed, _) = remove_subtree(store, id);
        let ghost nodes = store.nodes@;
        let ghost start = self.look.zoom as int;
        let mut zoom: u32 = self.look.zoom;
        while zoom != 0 && !store.nodes[zoom as usize].alive
            invariant
                nodes == store.nodes@,
                linked(nodes),
                zoom < nodes.len(),
                nearest_living(nodes, start) == nearest_living(nodes, zoom as int),
            decreases zoom,
        {
            assert(nodes[zoom as int].parent < zoom);
            zoom = store.nodes[zoom as usize].parent;
        }
        self.look.zoom = zoom;
        self.look.sel = None;
        self.snap = Some(summarize(store, disk, sep));
        self.gen_seen = store.generation;
        self.invalidate_map();
        self.crumbs = Vec::new();
        push_text(&mut text, " \u{2014} ");
        push_text(&mut text, fmt_bytes(freed).as_str());
        push_text(&mut text, " freed");
        self.say(text, false);
    }

    /// Hands out the path to be copied, once, and says so.
    pub fn take_copy(&mut self) -> (p: Option<String>)
        ensures
            p == old(self).pending_copy,
            final(self).pending_copy is None,
            same_base(*old(self), *final(self)),
            final(self).look == old(self).look,
            final(self).crumbs == old(self).crumbs,
            final(self).delete_target == old(self).delete_target,
            p is Some ==> toasts(final(self).toast, "Path copied"@, false),
            p is None ==> final(self).toast == old(self).toast,
    {
        let mut p: Option<String> = None;
        std::mem::swap(&mut p, &mut self.pending_copy);
        match &p {
            Some(_) => {
                self.say("Path copied".to_owned(), false);
            },
            None => {},
        }
        p
    }

    /// Goes back to choosing what to scan.
    pub fn retarget(&mut self)
        ensures
            final(self).snap is None,
            final(self).gen_seen == 0,
            final(self).theme_kind == old(self).theme_kind,
            final(self).path_input == old(self).path_input,
            final(self).look == old(self).look,
            final(self).crumbs == old(self).crumbs,
            same_talk(*old(self), *final(self)),
    {
        self.snap = None;
        self.gen_seen = 0;
    }

    /// Shows the other reading of the disk, where it is not shown already.
    pub fn show(&mut self, view: Reading)
        ensures
            same_base(*old(self), *final(self)),
            same_talk(*old(self), *final(self)),
            final(self).crumbs == old(self).crumbs,
            final(self).look == if old(self).look.view == view {
                old(self).look
            } else {
                Look { view, map_key: no_map(), ..old(self).look }
            },
    {
        if self.look.view != view {
            self.look.view = view;
            self.invalidate_map();
        }
    }
}

/// What taking a gesture in does.
pub open spec fn applied(
    before: Session,
    a: Act,
    store: Option<Store>,
    sep: char,
    after: Session,
    e: Effect,
) -> bool {
    match a {
        Act::Zoom(id) => {
            &&& after.look == (Look { zoom: id, map_key: no_map(), ..before.look })
            &&& after.crumbs@.len() == 0
            &&& after.delete_target == before.delete_target
            &&& after.pending_copy == before.pending_copy
            &&& e is Nothing
        },
        Act::Select(id) => {
            &&& after.look == (Look { sel: Some(id), ..before.look })
            &&& after.crumbs == before.crumbs
            &&& after.delete_target == before.delete_target
            &&& after.pending_copy == before.pending_copy
            &&& e is Nothing
        },
        Act::ToggleExt(s) => {
            &&& after.look == (Look {
                ext_sel: if before.look.ext_sel == Some(s) {
                    None
                } else {
                    Some(s)
                },
                ..before.look
            })
            &&& after.crumbs == before.crumbs
            &&& after.delete_target == before.delete_target
            &&& after.pending_copy == before.pending_copy
            &&& e is Nothing
        },
        Act::AskDelete(id) => {
            &&& after.look == before.look
            &&& after.crumbs == before.crumbs
            &&& after.pending_copy == before.pending_copy
            &&& e is Nothing
            &&& if store is Some && may_delete(store->0, id) {
                after.delete_target is Some && targets(after.delete_target->0, store->0, id, sep)
            } else {
                after.delete_target == before.delete_target
            }
        },
        Act::Reveal(id) => {
            &&& after == before
            &&& match e {
                Effect::Reveal(p) => located(store, id, sep) == Some(p@),
                Effect::Nothing => located(store, id, sep) is None,
                _ => false,
            }
        },
        Act::Open(id) => {
            &&& after == before
            &&& match e {
                Effect::Open(p) => located(store, id, sep) == Some(p@),
                Effect::Nothing => located(store, id, sep) is None,
                _ => false,
            }
        },
        Act::CopyPath(id) => {
            &&& after.look == before.look
            &&& after.crumbs == before.crumbs
            &&& after.delete_target == before.delete_target
            &&& e is Nothing
            &&& match after.pending_copy {
                Some(p) => located(store, id, sep) == Some(p@),
                None => located(store, id, sep) is None,
            }
        },
    }
}

/// The target is node `id` as the scan has it.
pub open spec fn targets(t: DeleteTarget, store: Store, id: u32, sep: char) -> bool {
    let n = store.nodes@[id as int];
    &&& t.id == id
    &&& t.name@ == n.name@
    &&& t.path@ == path_text(store, id as int, sep)
    &&& t.size == n.size
    &&& t.dir == n.is_dir
    &&& t.files == n.files
}

/// Where a node lies, if the scan at hand has it.
pub open spec fn located(store: Option<Store>, id: u32, sep: char) -> Option<Seq<char>> {
    match store {
        Some(s) => if id < s.nodes@.len() {
            Some(path_text(s, id as int, sep))
        } else {
            None
        },
        None => None,
    }
}

/// Where a node lies, if the scan at hand has it.
pub fn path_for(store: &Option<Store>, id: u32, sep: char) -> (r: Option<String>)
    requires
        in_order(*store),
    ensures
        match r {
            Some(p) => located(*store, id, sep) == Some(p@),
            None => located(*store, id, sep) is None,
        },
{
    match store {
        Some(s) => {
            if (id as usize) < s.nodes.len() {
                Some(path_with(s, id, sep))
            } else {
                None
            }
        },
        None => None,
    }
}

/// Which of the three screens is shown.
#[derive(Clone, Copy, PartialEq, Eq, Structural)]
pub enum Screen {
    Scanning,
    Landing,
    Dashboard,
}

impl Session {
    /// Which of the three screens is shown.
    pub fn screen(&self, scanning: bool) -> (r: Screen)
        ensures
            r == if scanning {
                Screen::Scanning
            } else if self.snap is None {
                Screen::Landing
            } else {
                Screen::Dashboard
            },
    {
        if scanning {
            return Screen::Scanning;
        }
        match &self.snap {
            Some(_) => Screen::Dashboard,
            None => Screen::Landing,
        }
    }

    /// What the keys ask for: backspace zooms out, delete asks about the selection,
    /// and escape takes the question back. While the question stands, nothing but
    /// escape does anything.
    pub fn keys(&mut self, backspace: bool, delete: bool, escape: bool) -> (acts: Vec<Act>)
        ensures
            same_base(*old(self), *final(self)),
            final(self).look == old(self).look,
            final(self).crumbs == old(self).crumbs,
            final(self).toast == old(self).toast,
            final(self).pending_copy == old(self).pending_copy,
            final(self).delete_target == if escape {
                None::<DeleteTarget>
            } else {
                old(self).delete_target
            },
            acts@ == keyed(*old(self), backspace, delete),
    {
        let mut acts: Vec<Act> = Vec::new();
        match &self.delete_target {
            Some(_) => {
                if escape {
                    self.delete_target = None;
                }
            },
            None => {
                let n = self.crumbs.len();
                if backspace && n > 1 {
                    acts.push(Act::Zoom(self.crumbs[n - 2].0));
                }
                if delete {
                    match self.look.sel {
                        Some(sel) => {
                            if sel != 0 {
                                acts.push(Act::AskDelete(sel));
                            }
                        },
                        None => {},
                    }
                }
            },
        }
        assert(acts@ == keyed(*old(self), backspace, delete));
        acts
    }
}

/// What backspace and delete ask for.
pub open spec fn keyed(s: Session, backspace: bool, delete: bool) -> Seq<Act> {
    let up = if s.delete_target is None && backspace && s.crumbs@.len() > 1 {
        seq![Act::Zoom(s.crumbs@[s.crumbs@.len() - 2].0)]
    } else {
        Seq::empty()
    };
    let gone = if s.delete_target is None && delete && s.look.sel is Some && s.look.sel->0 != 0 {
        seq![Act::AskDelete(s.look.sel->0)]
    } else {
        Seq::empty()
    };
    up + gone
}

/// What a double click on a tile zooms to: a directory or a run of small items to the
/// directory, a file to the one it lies in.
pub open spec fn zoom_target(store: Store, id: int, kind: u8) -> Option<int> {
    if kind == 1 || kind == 2 {
        Some(id)
    } else if id > 0 {
        Some(store.nodes@[id].parent as int)
    } else {
        None
    }
}

/// What a double click on a tile zooms to.
pub fn double_click(store: &Store, id: u32, kind: u8) -> (r: Option<u32>)
    requires
        store.wf(),
        id < store.nodes@.len(),
    ensures
        match r {
            Some(to) => zoom_target(*store, id as int, kind) == Some(to as int),
            None => zoom_target(*store, id as int, kind) is None,
        },
{
    if kind == 1 || kind == 2 {
        Some(id)
    } else if id > 0 {
        Some(store.nodes[id as usize].parent)
    } else {
        None
    }
}

proof fn lemma_nearest_living(nodes: Seq<Node>, id: int)
    requires
        linked(nodes),
        0 <= id < nodes.len(),
    ensures
        0 <= nearest_living(nodes, id) <= id,
        nodes[nearest_living(nodes, id)].alive || nearest_living(nodes, id) == 0,
    decreases id,
{
    if id > 0 && !nodes[id].alive {
        lemma_nearest_living(nodes, nodes[id].parent as int);
    }
}

/// After a deletion what is zoomed is there: alive, or at least the root.
pub proof fn zoom_survives_deletion(s: Store, id: int, t: Store, zoom: int)
    requires
        s.wf(),
        0 < id < s.nodes@.len(),
        pruned(s, id, t),
        t.wf(),
        s.nodes@[0].alive,
        0 <= zoom < s.nodes@.len(),
    ensures
        0 <= nearest_living(t.nodes@, zoom) <= zoom,
        present(t, nearest_living(t.nodes@, zoom)),
{
    lemma_nearest_living(t.nodes@, zoom);
    assert(!doomed(s.nodes@, id, 0));
    assert(t.nodes@[0].alive);
}

/// The zoom climbs no further than it has to: it stays on what lives, leaves what does not
/// for its parent, and ends at the root.
pub proof fn zoom_climbs_to_what_lives(nodes: Seq<Node>, id: int)
    requires
        linked(nodes),
        0 <= id < nodes.len(),
    ensures
        nodes[id].alive ==> nearest_living(nodes, id) == id,
        id > 0 && !nodes[id].alive ==> nearest_living(nodes, id) == nearest_living(
            nodes,
            nodes[id].parent as int,
        ),
        nearest_living(nodes, 0) == 0,
{
}

proof fn lemma_way_goes_by_parents(nodes: Seq<Node>, id: int, k: int)
    requires
        linked(nodes),
        0 <= id < nodes.len(),
        0 <= k < ancestors(nodes, id).len(),
    ensures
        ancestors(nodes, id)[0] == 0,
        nodes[ancestors(nodes, id).push(id)[k + 1]].parent == ancestors(nodes, id)[k],
    decreases id,
{
    let p = nodes[id].parent as int;
    let up = ancestors(nodes, p);
    assert(p < id);
    assert(ancestors(nodes, id) == up.push(p));
    if up.len() > 0 {
        lemma_way_goes_by_parents(nodes, p, if k < up.len() {
            k
        } else {
            0
        });
    } else {
        crate::paths::ancestors_lie_above(nodes, p);
    }
}

/// The crumbs lead down from the root, each to a child of the one before, and end at what is
/// zoomed. The first is called by the path that was scanned, each other by its name.
pub proof fn crumbs_lead_down(crumbs: Seq<(u32, String)>, store: Store, zoom: int)
    requires
        store.wf(),
        0 <= zoom < store.nodes@.len(),
        leads_to(crumbs, store, zoom),
    ensures
        crumbs.len() > 0,
        crumbs[0].0 == 0,
        crumbs[0].1@ == store.root_path@,
        crumbs.last().0 == zoom,
        forall|k: int|
            0 < k < crumbs.len() ==> store.nodes@[(#[trigger] crumbs[k]).0 as int].parent
                == crumbs[k - 1].0 && crumbs[k].1@ == store.nodes@[crumbs[k].0 as int].name@
                && crumbs[k].0 > 0,
{
    let nodes = store.nodes@;
    let up = ancestors(nodes, zoom);
    let way = up.push(zoom);
    crate::paths::ancestors_lie_above(nodes, zoom);
    assert(crumbs.last().0 == way[way.len() - 1]);
    assert(crumbs[0].0 == way[0]);
    assert forall|k: int| 0 < k < crumbs.len() implies nodes[(
    #[trigger] crumbs[k]).0 as int].parent == crumbs[k - 1].0 && crumbs[k].1@
        == nodes[crumbs[k].0 as int].name@ && crumbs[k].0 > 0 by {
        lemma_way_goes_by_parents(nodes, zoom, k - 1);
        assert(crumbs[k].0 == way[k]);
        assert(crumbs[k - 1].0 == way[k - 1]);
        assert(way[k - 1] == up[k - 1]);
        if k < up.len() {
            assert(way[k] == up[k]);
            assert(up[0] < up[k]);
        }
    }
}

/// What may be deleted from the window is any living node but the root, and nothing else;
/// where a node lies can be told of every node the scan ever held.
pub proof fn window_deletes_what_lives(store: Option<Store>, s: Store, id: u32, sep: char)
    ensures
        may_delete(s, id) <==> id != 0 && id < s.nodes@.len() && s.nodes@[id as int].alive,
        store is None ==> located(store, id, sep) is None,
        store is Some && id < store->0.nodes@.len() ==> located(store, id, sep) == Some(
            path_text(store->0, id as int, sep),
        ),
        store is Some && id >= store->0.nodes@.len() ==> located(store, id, sep) is None,
{
}

/// What is asked about before a deletion is the node as the scan has it.
pub proof fn question_is_about_the_node(t: DeleteTarget, store: Store, id: u32, sep: char)
    requires
        targets(t, store, id, sep),
    ensures
        t.id == id,
        t.name@ == store.nodes@[id as int].name@,
        t.path@ == path_text(store, id as int, sep),
        t.size == store.nodes@[id as int].size,
        t.dir == store.nodes@[id as int].is_dir,
        t.files == store.nodes@[id as int].files,
{
}

/// What each gesture does, and that it does nothing else. Zooming has the map and the crumbs
/// made anew; selecting only selects; choosing a type twice lets go of it; asking about a
/// node leaves everything in place; a path is handed on or kept to be copied where there is
/// one.
pub proof fn gestures_do_one_thing(
    before: Session,
    id: u32,
    slot: u8,
    store: Option<Store>,
    sep: char,
    after: Session,
    e: Effect,
)
    ensures
        applied(before, Act::Zoom(id), store, sep, after, e) ==> after.look.zoom == id
            && after.look.sel == before.look.sel && after.look.view == before.look.view
            && after.look.ext_sel == before.look.ext_sel && after.look.map_key == (MapKey {
            generation: 0xFFFF_FFFF_FFFF_FFFF,
            zoom: 0,
            w: 0,
            h: 0,
            heat: false,
        }) && after.crumbs@.len() == 0 && after.delete_target == before.delete_target
            && after.pending_copy == before.pending_copy && e is Nothing,
        applied(before, Act::Select(id), store, sep, after, e) ==> after.look.sel == Some(id)
            && after.look.zoom == before.look.zoom && after.look.view == before.look.view
            && after.look.ext_sel == before.look.ext_sel && after.look.map_key
            == before.look.map_key && after.crumbs == before.crumbs && after.delete_target
            == before.delete_target && after.pending_copy == before.pending_copy && e is Nothing,
        applied(before, Act::ToggleExt(slot), store, sep, after, e) ==> (before.look.ext_sel
            == Some(slot) ==> after.look.ext_sel is None) && (before.look.ext_sel != Some(slot)
            ==> after.look.ext_sel == Some(slot)) && after.look.zoom == before.look.zoom
            && after.look.sel == before.look.sel && after.look.view == before.look.view
            && after.look.map_key == before.look.map_key && after.crumbs == before.crumbs
            && after.delete_target == before.delete_target && after.pending_copy
            == before.pending_copy && e is Nothing,
        applied(before, Act::AskDelete(id), store, sep, after, e) ==> after.look == before.look
            && after.crumbs == before.crumbs && after.pending_copy == before.pending_copy
            && e is Nothing && if store is Some && id != 0 && id < store->0.nodes@.len()
            && store->0.nodes@[id as int].alive {
            after.delete_target is Some && targets(after.delete_target->0, store->0, id, sep)
        } else {
            after.delete_target == before.delete_target
        },
        applied(before, Act::Reveal(id), store, sep, after, e) ==> after == before && if store
            is Some && id < store->0.nodes@.len() {
            e is Reveal && e->Reveal_0@ == path_text(store->0, id as int, sep)
        } else {
            e is Nothing
        },
        applied(before, Act::Open(id), store, sep, after, e) ==> after == before && if store is Some
            && id < store->0.nodes@.len() {
            e is Open && e->Open_0@ == path_text(store->0, id as int, sep)
        } else {
            e is Nothing
        },
        applied(before, Act::CopyPath(id), store, sep, after, e) ==> after.look == before.look
            && after.crumbs == before.crumbs && after.delete_target == before.delete_target
            && e is Nothing && if store is Some && id < store->0.nodes@.len() {
            after.pending_copy is Some && after.pending_copy->0@ == path_text(
                store->0,
                id as int,
                sep,
            )
        } else {
            after.pending_copy is None
        },
{
}

/// While a question stands, the keys do nothing but take it back. Otherwise backspace goes
/// one crumb up, where there is one, and delete asks about the selection, unless that is
/// the root.
pub proof fn keys_wait_for_the_answer(s: Session, backspace: bool, delete: bool)
    ensures
        s.delete_target is Some ==> keyed(s, backspace, delete) == Seq::<Act>::empty(),
        !backspace && !delete ==> keyed(s, backspace, delete) == Seq::<Act>::empty(),
        s.delete_target is None && s.crumbs@.len() > 1 ==> keyed(s, true, false) == seq![
            Act::Zoom(s.crumbs@[s.crumbs@.len() - 2].0),
        ],
        s.crumbs@.len() <= 1 ==> keyed(s, true, false) == Seq::<Act>::empty(),
        s.delete_target is None && s.look.sel is Some && s.look.sel->0 != 0 ==> keyed(
            s,
            false,
            true,
        ) == seq![Act::AskDelete(s.look.sel->0)],
        s.look.sel is None || s.look.sel->0 == 0 ==> keyed(s, false, true) == Seq::<Act>::empty(),
        keyed(s, true, true) == keyed(s, true, false) + keyed(s, false, true),
{
    let none = Seq::<Act>::empty();
    assert(keyed(s, false, true) =~= none + keyed(s, false, true));
    assert(keyed(s, true, false) =~= keyed(s, true, false) + none);
    assert(keyed(s, false, false) =~= none);
    assert(keyed(s, true, true) =~= keyed(s, true, false) + keyed(s, false, true));
    if s.delete_target is None && s.crumbs@.len() > 1 {
        assert(keyed(s, true, false) =~= seq![Act::Zoom(s.crumbs@[s.crumbs@.len() - 2].0)]);
    }
    if s.delete_target is None && s.look.sel is Some && s.look.sel->0 != 0 {
        assert(keyed(s, false, true) =~= seq![Act::AskDelete(s.look.sel->0)]);
    }
    if s.delete_target is Some {
        assert(keyed(s, backspace, delete) =~= none);
    }
    if s.crumbs@.len() <= 1 {
        assert(keyed(s, true, false) =~= none);
    }
    if s.look.sel is None || s.look.sel->0 == 0 {
        assert(keyed(s, false, true) =~= none);
    }
}

/// A double click zooms to what it is on, where that is a directory or a run of small items,
/// and to the directory of a file.
pub proof fn double_click_zooms_to_a_directory(store: Store, id: int, kind: u8)
    ensures
        kind == 1 || kind == 2 ==> zoom_target(store, id, kind) == Some(id),
        kind != 1 && kind != 2 && id > 0 ==> zoom_target(store, id, kind) == Some(
            store.nodes@[id].parent as int,
        ),
        kind != 1 && kind != 2 && id == 0 ==> zoom_target(store, id, kind) is None,
{
}

/// What it is to say the same, to look at the same and to have no map: nothing that a
/// window shows is left out.
pub proof fn windows_agree_in_full(a: Session, b: Session, text: Seq<char>, bad: bool)
    ensures
        same_base(a, b) && same_talk(a, b) && a.look == b.look && a.crumbs == b.crumbs <==> a == b,
        toasts(a.toast, text, bad) <==> a.toast is Some && a.toast->0.text@ == text
            && a.toast->0.bad == bad,
        no_map() == (MapKey {
            generation: 0xFFFF_FFFF_FFFF_FFFF,
            zoom: 0,
            w: 0,
            h: 0,
            heat: false,
        }),
{
}

/// A window starts with the map of nothing, offering the first place there is to scan, or
/// the topmost directory.
pub proof fn window_starts_empty(kind: ThemeKind, first_place: Option<String>, s: Session)
    requires
        call_ensures(Session::new, (kind, &first_place), s),
    ensures
        s.theme_kind == kind,
        s.look.view == Reading::Treemap,
        s.look.zoom == 0,
        s.look.sel is None,
        s.look.ext_sel is None,
        s.look.map_key == no_map(),
        s.snap is None,
        s.gen_seen == 0,
        s.crumbs@.len() == 0,
        s.delete_target is None,
        s.toast is None,
        s.pending_copy is None,
        first_place is Some ==> s.path_input@ == first_place->0@,
        first_place is None ==> s.path_input@ == "/"@,
{
}

/// What is said in passing is shown, and nothing else changes; a map that is to be drawn
/// anew is forgotten, and nothing else is.
pub proof fn saying_changes_nothing_else(s: &mut Session, text: String, bad: bool, t: &mut Session)
    requires
        call_ensures(Session::say, (s, text, bad), ()),
        call_ensures(Session::invalidate_map, (t,), ()),
    ensures
        final(s).toast is Some && final(s).toast->0.text@ == text@ && final(s).toast->0.bad == bad,
        *final(s) == (Session { toast: final(s).toast, ..*old(s) }),
        final(t).look.map_key == no_map(),
        final(t).look.view == old(t).look.view && final(t).look.zoom == old(t).look.zoom
            && final(t).look.sel == old(t).look.sel && final(t).look.ext_sel == old(t).look.ext_sel,
        *final(t) == (Session { look: final(t).look, ..*old(t) }),
{
}

/// A scan is taken in once: where nothing runs, and its number is neither zero nor the one
/// seen last. Then the window shows the whole of it, and its summary; otherwise nothing
/// changes.
pub proof fn scan_is_taken_in_once(
    s: &mut Session,
    scanning: bool,
    store: Option<Store>,
    disk: (u64, u64),
    sep: char,
    fresh: bool,
)
    requires
        in_order(store),
        call_ensures(Session::refresh, (s, scanning, &store, disk, sep), fresh),
    ensures
        fresh <==> !scanning && store is Some && store->0.generation != old(s).gen_seen
            && store->0.generation != 0,
        !fresh ==> *final(s) == *old(s),
        fresh ==> final(s).gen_seen == store->0.generation && final(s).snap is Some && sums_up(
            final(s).snap->0,
            store->0,
            disk,
            sep,
        ) && final(s).look.zoom == 0 && final(s).look.sel is None && final(s).look.ext_sel is None
            && final(s).look.map_key == no_map() && final(s).look.view == old(s).look.view
            && final(s).crumbs@.len() == 1 && final(s).crumbs@[0].0 == 0
            && final(s).crumbs@[0].1@ == store->0.root_path@,
        final(s).theme_kind == old(s).theme_kind,
        final(s).path_input == old(s).path_input,
        final(s).delete_target == old(s).delete_target,
        final(s).toast == old(s).toast,
        final(s).pending_copy == old(s).pending_copy,
{
}

/// A summary is taken of the scan at hand where there is one; the view is reset to the
/// whole of a scan with nothing selected.
pub proof fn whole_scan_is_looked_at(
    s: &mut Session,
    store: Option<Store>,
    disk: (u64, u64),
    sep: char,
    t: &mut Session,
    root: String,
)
    requires
        in_order(store),
        call_ensures(Session::snapshot, (s, &store, disk, sep), ()),
        call_ensures(Session::reset_view_state, (t, root), ()),
    ensures
        store is Some ==> final(s).snap is Some && sums_up(final(s).snap->0, store->0, disk, sep)
            && final(s).gen_seen == store->0.generation,
        store is None ==> *final(s) == *old(s),
        *final(s) == (Session { snap: final(s).snap, gen_seen: final(s).gen_seen, ..*old(s) }),
        final(t).look.zoom == 0 && final(t).look.sel is None && final(t).look.ext_sel is None
            && final(t).look.map_key == no_map() && final(t).look.view == old(t).look.view,
        final(t).crumbs@.len() == 1 && final(t).crumbs@[0].0 == 0 && final(t).crumbs@[0].1 == root,
        *final(t) == (Session { look: final(t).look, crumbs: final(t).crumbs, ..*old(t) }),
{
}

/// Crumbs are stale where they do not end at what is zoomed, and rebuilding them makes them
/// lead there.
pub proof fn rebuilt_crumbs_are_fresh(
    a: Session,
    stale: bool,
    s: &mut Session,
    store: Store,
    b: Session,
    again: bool,
)
    requires
        call_ensures(Session::crumbs_stale, (&a,), stale),
        store.wf(),
        old(s).look.zoom < store.nodes@.len(),
        call_ensures(Session::rebuild_crumbs, (s, &store), ()),
        b == *final(s),
        call_ensures(Session::crumbs_stale, (&b,), again),
    ensures
        stale <==> a.crumbs@.len() == 0 || a.crumbs@.last().0 != a.look.zoom,
        leads_to(b.crumbs@, store, old(s).look.zoom as int),
        !again,
        b == (Session { crumbs: b.crumbs, ..*old(s) }),
{
    crumbs_lead_down(b.crumbs@, store, old(s).look.zoom as int);
}

/// A map is drawn anew where anything it was drawn for has changed: the scan, the zoom, the
/// size or the reading. Once drawn, it is not drawn again for the same.
pub proof fn map_is_drawn_once(s: &mut Session, generation: u64, w: u32, h: u32, anew: bool)
    requires
        call_ensures(Session::relayout, (s, generation, w, h), anew),
    ensures
        !anew <==> old(s).look.map_key.generation == generation && old(s).look.map_key.zoom
            == old(s).look.zoom && old(s).look.map_key.w == w && old(s).look.map_key.h == h
            && old(s).look.map_key.heat == (old(s).look.view == Reading::Heat),
        final(s).look.map_key.generation == generation,
        final(s).look.map_key.zoom == old(s).look.zoom,
        final(s).look.map_key.w == w,
        final(s).look.map_key.h == h,
        final(s).look.map_key.heat == (old(s).look.view == Reading::Heat),
        final(s).look == (Look { map_key: final(s).look.map_key, ..old(s).look }),
        *final(s) == (Session { look: final(s).look, ..*old(s) }),
{
}

/// A scan begins where its target is a directory, whose path is kept then; otherwise that is
/// said, and nothing else changes.
pub proof fn scan_begins_in_a_directory(s: &mut Session, path: String, is_dir: bool, go: bool)
    requires
        call_ensures(Session::begin_scan, (s, path, is_dir), go),
    ensures
        go <==> is_dir,
        go ==> *final(s) == (Session { path_input: path, ..*old(s) }),
        !go ==> final(s).toast is Some && final(s).toast->0.bad && final(s).toast->0.text@
            == "not a directory: "@ + path@ && *final(s) == (Session {
            toast: final(s).toast,
            ..*old(s)
        }),
{
}

/// A gesture leaves the theme, the summary, the path and the message alone, and is taken in
/// as it is.
pub proof fn gesture_is_taken_in(
    s: &mut Session,
    a: Act,
    store: Option<Store>,
    sep: char,
    e: Effect,
)
    requires
        in_order(store),
        call_ensures(Session::apply, (s, a, &store, sep), e),
    ensures
        applied(*old(s), a, store, sep, *final(s), e),
        final(s).theme_kind == old(s).theme_kind,
        final(s).snap == old(s).snap,
        final(s).gen_seen == old(s).gen_seen,
        final(s).path_input == old(s).path_input,
        final(s).toast == old(s).toast,
{
}

/// Deleting from the window is let through for a living node other than the root, whose path
/// and sort are handed out; otherwise that is said, and nothing else changes. A deletion
/// that failed is said, too.
pub proof fn window_checks_before_it_deletes(
    s: &mut Session,
    store: Store,
    id: u32,
    sep: char,
    r: Option<(String, bool)>,
    t: &mut Session,
    error: &str,
)
    requires
        store.wf(),
        call_ensures(Session::check_delete, (s, &store, id, sep), r),
        call_ensures(Session::delete_failed, (t, error), ()),
    ensures
        r is Some <==> id != 0 && id < store.nodes@.len() && store.nodes@[id as int].alive,
        r is Some ==> (r->0).0@ == path_text(store, id as int, sep) && (r->0).1
            == store.nodes@[id as int].is_dir && *final(s) == *old(s),
        r is None ==> final(s).toast is Some && final(s).toast->0.bad && final(s).toast->0.text@
            == "refusing: bad delete target"@ && *final(s) == (Session {
            toast: final(s).toast,
            ..*old(s)
        }),
        final(t).toast is Some && final(t).toast->0.bad && final(t).toast->0.text@
            == "delete failed: "@ + error@,
        *final(t) == (Session { toast: final(t).toast, ..*old(t) }),
{
}

/// Once a node has been deleted, the scan is without it, the summary is that of what is left,
/// the zoom is on something that lives, nothing is selected, and what was freed is said.
pub proof fn deletion_is_shown_in_the_window(
    s: &mut Session,
    store: &mut Store,
    id: u32,
    disk: (u64, u64),
    sep: char,
)
    requires
        old(store).wf(),
        id != 0,
        id < old(store).nodes@.len(),
        old(store).nodes@[id as int].alive,
        old(s).look.zoom < old(store).nodes@.len(),
        call_ensures(Session::deleted, (s, store, id, disk, sep), ()),
    ensures
        pruned(*old(store), id as int, *final(store)),
        final(store).wf(),
        !final(store).nodes@[id as int].alive,
        final(s).snap is Some,
        sums_up(final(s).snap->0, *final(store), disk, sep),
        final(s).gen_seen == old(store).generation,
        final(s).look.zoom == nearest_living(final(store).nodes@, old(s).look.zoom as int),
        final(s).look.sel is None,
        final(s).look.map_key == no_map(),
        final(s).look.view == old(s).look.view,
        final(s).look.ext_sel == old(s).look.ext_sel,
        final(s).crumbs@.len() == 0,
        final(s).toast is Some && !final(s).toast->0.bad && final(s).toast->0.text@ == "Deleted "@
            + old(store).nodes@[id as int].name@ + " \u{2014} "@ + bytes_label(
            old(store).nodes@[id as int].size as nat,
        ) + " freed"@,
        final(s).theme_kind == old(s).theme_kind,
        final(s).path_input == old(s).path_input,
        final(s).delete_target == old(s).delete_target,
        final(s).pending_copy == old(s).pending_copy,
{
    assert(doomed(old(store).nodes@, id as int, id as int));
    lemma_nearest_living(final(store).nodes@, old(s).look.zoom as int);
}

/// A path to be copied is handed out once, and that is said; going back to choosing forgets
/// the summary alone; the other reading has the map drawn anew, the same one nothing.
pub proof fn small_gestures_do_one_thing(
    s: &mut Session,
    p: Option<String>,
    t: &mut Session,
    u: &mut Session,
    view: Reading,
)
    requires
        call_ensures(Session::take_copy, (s,), p),
        call_ensures(Session::retarget, (t,), ()),
        call_ensures(Session::show, (u, view), ()),
    ensures
        p == old(s).pending_copy,
        final(s).pending_copy is None,
        p is Some ==> final(s).toast is Some && !final(s).toast->0.bad && final(s).toast->0.text@
            == "Path copied"@,
        p is None ==> final(s).toast == old(s).toast,
        *final(s) == (Session {
            pending_copy: final(s).pending_copy,
            toast: final(s).toast,
            ..*old(s)
        }),
        final(t).snap is None && final(t).gen_seen == 0,
        *final(t) == (Session { snap: final(t).snap, gen_seen: final(t).gen_seen, ..*old(t) }),
        final(u).look.view == view,
        old(u).look.view == view ==> *final(u) == *old(u),
        old(u).look.view != view ==> final(u).look == (Look {
            view,
            map_key: no_map(),
            ..old(u).look
        }) && *final(u) == (Session { look: final(u).look, ..*old(u) }),
{
}

/// One of three screens is shown: the running scan before anything else, then the choice of
/// what to scan, and the dashboard once there is a summary. The keys take a standing
/// question back with escape alone.
pub proof fn one_screen_is_shown(
    s: Session,
    scanning: bool,
    r: Screen,
    t: &mut Session,
    backspace: bool,
    delete: bool,
    escape: bool,
    acts: Vec<Act>,
)
    requires
        call_ensures(Session::screen, (&s, scanning), r),
        call_ensures(Session::keys, (t, backspace, delete, escape), acts),
    ensures
        r == Screen::Scanning <==> scanning,
        r == Screen::Landing <==> !scanning && s.snap is None,
        r == Screen::Dashboard <==> !scanning && s.snap is Some,
        escape ==> final(t).delete_target is None,
        !escape ==> final(t).delete_target == old(t).delete_target,
        *final(t) == (Session { delete_target: final(t).delete_target, ..*old(t) }),
        acts@ == keyed(*old(t), backspace, delete),
{
}

} // verus!
