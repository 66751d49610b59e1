//! Errors of the B+Tree layer.
use vstd::prelude::*;
use crate::buffer::error::BufferError;

verus! {

/// Errors of the B+Tree layer.
#[derive(Debug)]
pub enum BTreeError {
    /// The buffer pool or page store failed.
    Buffer(BufferError),
    /// A metadata file failed.
    Io(std::io::Error),
    /// Root metadata could not be (de)serialized.
    Serialization(Box<bincode::ErrorKind>),
    /// A node or metadata image violates its format.
    Corrupt(String),
}

} // verus!
