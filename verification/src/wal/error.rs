//! Errors of the write-ahead log.
use vstd::prelude::*;

verus! {

/// Declares `bincode::ErrorKind` so that payload (de)serialization errors can
/// be carried.
#[verifier::external_type_specification]
#[verifier::external_body]
pub struct ExBincodeErrorKind(bincode::ErrorKind);

/// Errors of the write-ahead log.
#[derive(Debug)]
pub enum WalError {
    /// The log file failed.
    Io(std::io::Error),
    /// A record payload could not be (de)serialized.
    Serialization(Box<bincode::ErrorKind>),
    /// A frame violates the log format.
    Corrupt(String),
    /// A serialized record exceeds the per-record limit.
    RecordTooLarge(usize),
}

} // verus!
