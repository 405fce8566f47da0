//! A key-value store over an append-only log of PUT and DELETE records, with an
//! in-memory index that is always what replaying the log gives.
//!
//! `record` holds the binary record format, `index` the key to pointer map,
//! `wal` the log with its replay, and `kv` the store with compaction.
pub mod index;
pub mod kv;
pub mod record;
pub mod wal;
