//! The scanned tree as an arena: the nodes in level order, the statistics per
//! file type, and the largest files.

use crate::largest::names_largest;
use vstd::prelude::*;

verus! {

/// The type index that stands for "a directory".
pub const EXT_DIR: u16 = 0xFFFF;

/// The slot of a file type without a color of its own.
pub const SLOT_OTHER: u8 = 255;

/// One entry of the arena. Its children are the `child_count` nodes from
/// `first_child` on.
pub struct Node {
    pub name: String,
    pub size: u64,
    pub parent: u32,
    pub first_child: u32,
    pub child_count: u32,
    pub files: u32,
    pub ext: u16,
    pub is_dir: bool,
    pub alive: bool,
}

/// What the files of one type add up to, and the color slot they wear.
pub struct ExtStat {
    pub name: String,
    pub bytes: u64,
    pub files: u64,
    pub slot: u8,
}

/// A finished scan.
pub struct Store {
    pub nodes: Vec<Node>,
    pub exts: Vec<ExtStat>,
    pub root_path: String,
    pub elapsed_ms: u64,
    pub generation: u64,
    pub largest: Vec<u32>,
    pub dirs: u64,
    pub errors: u64,
}

/// Whether `c` lies in the run of children of `p`.
pub open spec fn is_child(nodes: Seq<Node>, p: int, c: int) -> bool {
    nodes[p].first_child <= c < nodes[p].first_child + nodes[p].child_count
}

/// The arena is one tree: node 0 is its root, a directory; every other node
/// comes after its parent and lies among that parent's children, and among no
/// others; every file has a type.
pub open spec fn linked(nodes: Seq<Node>) -> bool {
    &&& 1 <= nodes.len() <= u32::MAX
    &&& nodes[0].parent == 0
    &&& nodes[0].is_dir
    &&& forall|c: int|
        0 < c < nodes.len() ==> (#[trigger] nodes[c]).parent < c && is_child(
            nodes,
            nodes[c].parent as int,
            c,
        )
    &&& forall|p: int|
        0 <= p < nodes.len() ==> (#[trigger] nodes[p]).first_child + nodes[p].child_count
            <= nodes.len()
    &&& forall|p: int, c: int|
        0 <= p < nodes.len() && #[trigger] is_child(nodes, p, c) ==> 0 < c && nodes[c].parent == p
}

impl Store {
    /// The arena is one tree, every file's type is in the table, and the largest
    /// files listed are the largest that are still there.
    pub open spec fn wf(&self) -> bool {
        &&& linked(self.nodes@)
        &&& forall|i: int|
            0 <= i < self.nodes@.len() && !(#[trigger] self.nodes@[i]).is_dir
                ==> self.nodes@[i].ext < self.exts@.len()
        &&& names_largest(self.nodes@, self.largest@)
    }
}

} // verus!
