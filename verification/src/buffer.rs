//! Buffer-pool layer: page-store abstraction, page cache and their errors.
pub mod buffer_pool;
pub mod error;
pub mod mem_store;
pub mod page_store;
