//! Row storage: current records, historical versions, the MVCC store pair
//! and checkpoint metadata.
pub mod checkpoint;
pub mod current;
pub mod error;
pub mod heap;
pub mod persistent_current;
pub mod stores;
pub mod version;
