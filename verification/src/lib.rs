//! A single-node key-value storage engine built from a durable append-only
//! log, an in-memory pending-mutation index, and an immutable sorted table,
//! with a compaction procedure that folds the pending mutations into a fresh
//! sorted table.
//!
//! The log is provided by the `commitlog` crate and the sorted tables by the
//! `sstable` crate; both are reached only through the trusted declarations in
//! `disk`. Everything else — the mutation codec, the pending index, the
//! read/write/delete paths, recovery by replay, and the compaction merge — is
//! verified.

pub mod ops;
pub mod codec;
pub mod keys;
pub mod pending;
pub mod merge;
pub mod memtable;
pub mod disk;
pub mod engine;
pub mod command;
pub mod laws;
