//! Errors of the database engine.
use vstd::prelude::*;
use crate::storage::error::StorageError;
use crate::wal::error::WalError;

verus! {

/// Errors of the database engine.
#[derive(Debug)]
pub enum DbError {
    /// The write-ahead log failed.
    Wal(WalError),
    /// The row storage failed.
    Storage(StorageError),
    /// A row written by the transaction was committed by another
    /// transaction after its snapshot.
    TransactionConflict,
    /// The transaction was already committed or rolled back.
    TransactionClosed,
    /// A database file failed.
    Io(std::io::Error),
}

} // verus!
