//! Transactions: timestamp management, transaction-local write sets and
//! write-write conflict validation.
pub mod manager;
pub mod mutation;
pub mod transaction;
pub mod validation;
