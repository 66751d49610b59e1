//! Write-ahead log: record framing, reading with crash-tail tolerance, and
//! appending.
pub mod error;
pub mod format;
pub mod reader;
pub mod record;
pub mod writer;
