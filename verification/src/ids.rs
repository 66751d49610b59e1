//! Identifier types shared by every layer of the engine.
use vstd::prelude::*;

verus! {

/// Errors of the core data types.
#[derive(Debug)]
pub enum CoreError {
    /// A value does not have the expected form.
    InvalidData(String),
}

/// Stable identifier of a logical row.
#[derive(Debug, Clone, Copy, PartialEq, Eq, Structural, PartialOrd, Ord, Hash)]
pub struct RowId(pub u128);

/// Identifier of a transaction.
#[derive(Debug, Clone, Copy, PartialEq, Eq, Structural, PartialOrd, Ord, Hash)]
pub struct TxId(pub u64);

/// Commit timestamp that orders committed transactions.
#[derive(Debug, Clone, Copy, PartialEq, Eq, Structural, PartialOrd, Ord, Hash)]
pub struct CommitTs(pub u64);

/// Log sequence number: the byte offset of a WAL frame.
#[derive(Debug, Clone, Copy, PartialEq, Eq, Structural, PartialOrd, Ord, Hash)]
pub struct Lsn(pub u64);

/// Physical page number inside a page file.
#[derive(Debug, Clone, Copy, PartialEq, Eq, Structural, PartialOrd, Ord, Hash)]
pub struct PageId(pub u64);

/// Slot number inside a slotted heap page.
pub type SlotId = u16;

/// Field number inside a row.
pub type FieldId = u32;

/// Physical location of a stored row: page and slot.
#[derive(Debug, Clone, Copy, PartialEq, Eq, Structural)]
pub struct RowLocation {
    pub page_id: PageId,
    pub slot_id: SlotId,
}

/// Lexicographically ordered temporal key: first by row, then by the
/// version's begin timestamp.
#[derive(Debug, Clone, Copy, PartialEq, Eq, Structural, PartialOrd, Ord, Hash)]
pub struct VersionKey {
    pub row_id: RowId,
    pub begin_ts: CommitTs,
}

/// Strict order on version keys: by row id, then by begin timestamp.
pub open spec fn version_key_lt(a: VersionKey, b: VersionKey) -> bool {
    a.row_id.0 < b.row_id.0 || (a.row_id.0 == b.row_id.0 && a.begin_ts.0 < b.begin_ts.0)
}

impl VersionKey {
    /// Builds the key of the version of `row_id` that begins at `begin_ts`.
    pub fn new(row_id: RowId, begin_ts: CommitTs) -> (k: Self)
        ensures
            k.row_id == row_id,
            k.begin_ts == begin_ts,
    {
        Self { row_id, begin_ts }
    }

    /// Whether `self` orders strictly before `other`.
    pub fn lt(&self, other: &VersionKey) -> (r: bool)
        ensures
            r == version_key_lt(*self, *other),
    {
        self.row_id.0 < other.row_id.0 || (self.row_id.0 == other.row_id.0 && self.begin_ts.0 < other.begin_ts.0)
    }
}

} // verus!
