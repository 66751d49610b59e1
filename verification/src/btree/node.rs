//! In-memory B+Tree nodes of the primary `RowId -> RowLocation` index.
use vstd::prelude::*;
use crate::ids::{PageId, RowId, RowLocation};

verus! {

/// Maximum number of entries of a leaf.
pub const MAX_LEAF_ENTRIES: usize = 96;
/// Maximum number of separator keys of an internal node.
pub const MAX_INTERNAL_KEYS: usize = 96;

/// A B+Tree node.
#[derive(Debug, Clone)]
pub enum Node {
    Leaf(LeafNode),
    Internal(InternalNode),
}

/// A leaf: sorted keys, their row locations and the next leaf to the right.
#[derive(Debug, Clone)]
pub struct LeafNode {
    pub keys: Vec<RowId>,
    pub values: Vec<RowLocation>,
    pub next: Option<PageId>,
}

/// An internal node: sorted separator keys and one more child than keys.
#[derive(Debug, Clone)]
pub struct InternalNode {
    pub keys: Vec<RowId>,
    pub children: Vec<PageId>,
}

/// The mathematical content of a node.
pub enum NodeView {
    Leaf { keys: Seq<RowId>, values: Seq<RowLocation>, next: Option<PageId> },
    Internal { keys: Seq<RowId>, children: Seq<PageId> },
}

impl View for Node {
    type V = NodeView;

    open spec fn view(&self) -> NodeView {
        match self {
            Node::Leaf(l) => NodeView::Leaf { keys: l.keys@, values: l.values@, next: l.next },
            Node::Internal(i) => NodeView::Internal { keys: i.keys@, children: i.children@ },
        }
    }
}

/// Keys increase strictly from left to right.
pub open spec fn keys_strictly_sorted(k: Seq<RowId>) -> bool {
    forall|i: int, j: int| 0 <= i < j < k.len() ==> #[trigger] k[i].0 < #[trigger] k[j].0
}

/// Shape, fanout and key order that every persisted node satisfies.
pub open spec fn node_valid(n: NodeView) -> bool {
    match n {
        NodeView::Leaf { keys, values, next } => {
            &&& keys.len() == values.len()
            &&& keys.len() <= MAX_LEAF_ENTRIES
            &&& keys_strictly_sorted(keys)
        },
        NodeView::Internal { keys, children } => {
            &&& keys.len() <= MAX_INTERNAL_KEYS
            &&& children.len() == keys.len() + 1
            &&& keys_strictly_sorted(keys)
        },
    }
}

impl LeafNode {
    /// An empty leaf with no right sibling.
    pub fn empty() -> (r: Self)
        ensures
            r.keys@ == Seq::<RowId>::empty(),
            r.values@ == Seq::<RowLocation>::empty(),
            r.next is None,
    {
        Self { keys: Vec::new(), values: Vec::new(), next: None }
    }
}

} // verus!
