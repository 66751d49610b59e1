//! Logical WAL records.
use vstd::prelude::*;
use crate::ids::{CommitTs, RowId, TxId};
use crate::storage::current::{bytes_opt, clone_value};

verus! {

/// One logical log record. Row values are carried in their encoded form.
#[derive(Debug)]
pub enum WalRecord {
    Begin { tx_id: TxId, snapshot_ts: CommitTs },
    /// Explicit historical before-image of a row.
    Version { tx_id: TxId, row_id: RowId, begin_ts: CommitTs, end_ts: CommitTs, value: Option<Vec<u8>> },
    Put { tx_id: TxId, row_id: RowId, value: Vec<u8> },
    Delete { tx_id: TxId, row_id: RowId },
    Commit { tx_id: TxId, commit_ts: CommitTs },
    Abort { tx_id: TxId },
}

/// The mathematical content of a WAL record.
pub enum RecordV {
    Begin { tx_id: TxId, snapshot_ts: CommitTs },
    Version { tx_id: TxId, row_id: RowId, begin_ts: CommitTs, end_ts: CommitTs, value: Option<Seq<u8>> },
    Put { tx_id: TxId, row_id: RowId, value: Seq<u8> },
    Delete { tx_id: TxId, row_id: RowId },
    Commit { tx_id: TxId, commit_ts: CommitTs },
    Abort { tx_id: TxId },
}

impl View for WalRecord {
    type V = RecordV;

    open spec fn view(&self) -> RecordV {
        match self {
            WalRecord::Begin { tx_id, snapshot_ts } => RecordV::Begin { tx_id: *tx_id, snapshot_ts: *snapshot_ts },
            WalRecord::Version { tx_id, row_id, begin_ts, end_ts, value } => RecordV::Version {
                tx_id: *tx_id,
                row_id: *row_id,
                begin_ts: *begin_ts,
                end_ts: *end_ts,
                value: bytes_opt(*value),
            },
            WalRecord::Put { tx_id, row_id, value } => RecordV::Put { tx_id: *tx_id, row_id: *row_id, value: value@ },
            WalRecord::Delete { tx_id, row_id } => RecordV::Delete { tx_id: *tx_id, row_id: *row_id },
            WalRecord::Commit { tx_id, commit_ts } => RecordV::Commit { tx_id: *tx_id, commit_ts: *commit_ts },
            WalRecord::Abort { tx_id } => RecordV::Abort { tx_id: *tx_id },
        }
    }
}

impl Clone for WalRecord {
    fn clone(&self) -> (r: Self)
        ensures
            r@ == self@,
    {
        match self {
            WalRecord::Begin { tx_id, snapshot_ts } => WalRecord::Begin { tx_id: *tx_id, snapshot_ts: *snapshot_ts },
            WalRecord::Version { tx_id, row_id, begin_ts, end_ts, value } => WalRecord::Version {
                tx_id: *tx_id,
                row_id: *row_id,
                begin_ts: *begin_ts,
                end_ts: *end_ts,
                value: clone_value(value),
            },
            WalRecord::Put { tx_id, row_id, value } => {
                let v = value.clone();
                proof {
                    assert(v@ =~= value@);
                }
                WalRecord::Put { tx_id: *tx_id, row_id: *row_id, value: v }
            },
            WalRecord::Delete { tx_id, row_id } => WalRecord::Delete { tx_id: *tx_id, row_id: *row_id },
            WalRecord::Commit { tx_id, commit_ts } => WalRecord::Commit { tx_id: *tx_id, commit_ts: *commit_ts },
            WalRecord::Abort { tx_id } => WalRecord::Abort { tx_id: *tx_id },
        }
    }
}

} // verus!
