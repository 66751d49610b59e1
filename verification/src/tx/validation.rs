//! First-committer-wins write-write conflict validation.
use vstd::prelude::*;
use crate::storage::current::CurrentRecord;
use crate::tx::transaction::Transaction;

verus! {

/// A write of a row is valid when the row's current record, if any, was
/// committed no later than the transaction's snapshot; a row committed by a
/// concurrent transaction after the snapshot is a conflict.
pub fn validate_write(current: Option<&CurrentRecord>, tx: &Transaction) -> (r: bool)
    ensures
        r == match current {
            Some(record) => record.commit_ts.0 <= tx.spec_snapshot_ts().0,
            None => true,
        },
{
    match current {
        Some(record) => record.commit_ts.0 <= tx.snapshot_ts().0,
        None => true,
    }
}

} // verus!
