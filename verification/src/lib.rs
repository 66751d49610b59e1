//! Adaptive DB storage engine core: pages, slotted heap pages, B+Tree node
//! codecs, write-ahead-log framing, MVCC stores and recovery.
pub mod checksum;
pub mod ids;
pub mod le;
pub mod page;
pub mod slotted;

pub mod buffer;
pub mod btree;
pub mod storage;
pub mod tx;
pub mod wal;
pub mod engine;
pub mod metafile;
pub mod serial;
