//! In-memory nodes of the temporal version index `VersionKey -> RowLocation`.
use vstd::prelude::*;
use crate::ids::{version_key_lt, PageId, RowLocation, VersionKey};

verus! {

/// Maximum number of entries of a version leaf.
pub const MAX_VERSION_LEAF_ENTRIES: usize = 72;
/// Maximum number of separator keys of a version internal node.
pub const MAX_VERSION_INTERNAL_KEYS: usize = 72;

/// A version-index node.
#[derive(Debug, Clone)]
pub enum VersionNode {
    Leaf(VersionLeafNode),
    Internal(VersionInternalNode),
}

/// A version leaf: sorted keys, their row locations and the next leaf.
#[derive(Debug, Clone)]
pub struct VersionLeafNode {
    pub keys: Vec<VersionKey>,
    pub values: Vec<RowLocation>,
    pub next: Option<PageId>,
}

/// A version internal node: sorted separators and one more child than keys.
#[derive(Debug, Clone)]
pub struct VersionInternalNode {
    pub keys: Vec<VersionKey>,
    pub children: Vec<PageId>,
}

/// The mathematical content of a version node.
pub enum VersionNodeView {
    Leaf { keys: Seq<VersionKey>, values: Seq<RowLocation>, next: Option<PageId> },
    Internal { keys: Seq<VersionKey>, children: Seq<PageId> },
}

impl View for VersionNode {
    type V = VersionNodeView;

    open spec fn view(&self) -> VersionNodeView {
        match self {
            VersionNode::Leaf(l) => VersionNodeView::Leaf { keys: l.keys@, values: l.values@, next: l.next },
            VersionNode::Internal(i) => VersionNodeView::Internal { keys: i.keys@, children: i.children@ },
        }
    }
}

/// Version keys increase strictly from left to right.
pub open spec fn version_keys_sorted(k: Seq<VersionKey>) -> bool {
    forall|i: int, j: int| 0 <= i < j < k.len() ==> version_key_lt(#[trigger] k[i], #[trigger] k[j])
}

/// Shape, fanout and key order that every persisted version node satisfies.
pub open spec fn version_node_valid(n: VersionNodeView) -> bool {
    match n {
        VersionNodeView::Leaf { keys, values, next } => {
            &&& keys.len() == values.len()
            &&& keys.len() <= MAX_VERSION_LEAF_ENTRIES
            &&& version_keys_sorted(keys)
        },
        VersionNodeView::Internal { keys, children } => {
            &&& keys.len() <= MAX_VERSION_INTERNAL_KEYS
            &&& children.len() == keys.len() + 1
            &&& version_keys_sorted(keys)
        },
    }
}

impl VersionLeafNode {
    /// An empty version leaf with no right sibling.
    pub fn empty() -> (r: Self)
        ensures
            r.keys@ == Seq::<VersionKey>::empty(),
            r.values@ == Seq::<RowLocation>::empty(),
            r.next is None,
    {
        Self { keys: Vec::new(), values: Vec::new(), next: None }
    }
}

} // verus!
