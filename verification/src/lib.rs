//! A crash-recoverable key-value store: an in-memory map from string keys to
//! string values, a write-ahead log of its mutations and a snapshot that
//! bounds the log.
//!
//! The crate holds the rules of the store and performs no I/O. Each
//! operation names the file work it needs as an [`Action`]; the caller
//! performs it and hands the outcome to [`KvStore::resume`]. A caller that
//! serves several threads keeps the store behind a reader-writer lock and
//! holds the writer's side for the whole of an operation, so that records
//! reach the log in the order in which they reach the map.

pub mod error;
pub mod record;
pub mod store;
pub mod table;
pub mod wal;

pub use crate::error::KvError;
pub use crate::record::LogCommand;
pub use crate::store::{Action, KvStore, Phase, SnapshotRead};
