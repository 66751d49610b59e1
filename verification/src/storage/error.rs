//! Errors of the storage layer.
use vstd::prelude::*;
use crate::btree::error::BTreeError;
use crate::buffer::error::BufferError;
use crate::page::PageError;

verus! {

/// Errors of the storage layer.
#[derive(Debug)]
pub enum StorageError {
    Buffer(BufferError),
    BTree(BTreeError),
    Page(PageError),
    Io(std::io::Error),
    Serialization(Box<bincode::ErrorKind>),
    /// Persistent storage metadata is structurally invalid or checksum-corrupt.
    Corrupt(String),
}

} // verus!
