//! Engine-level logic: crash recovery from the WAL, catch-up of the
//! persistent current store, and the decisions of the database handle.
pub mod commit_log;
pub mod database;
pub mod error;
pub mod recovery;
pub mod replay;
