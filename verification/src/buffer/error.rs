//! Errors of the page-store and buffer-pool layer.
use vstd::prelude::*;
use crate::page::PageError;

verus! {

/// Declares `std::io::Error` so that errors of page files can be carried.
#[verifier::external_type_specification]
#[verifier::external_body]
pub struct ExIoError(std::io::Error);

/// Errors of the page store and buffer pool.
#[derive(Debug)]
pub enum BufferError {
    /// The backing file failed.
    Io(std::io::Error),
    /// A page failed validation.
    Page(PageError),
    /// The buffer pool has no frame it could evict.
    NoEvictableFrame,
    /// The page does not exist in the store.
    MissingPage(u64),
    /// The persistent page-file structure is inconsistent.
    CorruptStore(String),
}

} // verus!
