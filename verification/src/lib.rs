//! kepler: a replicated key-value store.
//!
//! [`storage`] keeps keys and values: a write-ahead log, a log-structured
//! engine and an engine in memory. [`raft`] decides what a cluster agrees on.
//! [`server`] carries out what was agreed on, and drives whole clusters
//! deterministically. [`mvcc`] runs transactions on top of an engine.
//!
//! Nothing here does I/O. The storage layer queues what the host has to do to
//! its files, and a node what the host has to send.

pub mod buffer;
pub mod checksum;
pub mod client;
pub mod codec;
pub mod mvcc;
pub mod order;
pub mod ordered;
pub mod proto;
pub mod raft;
pub mod server;
pub mod storage;
pub mod text;
pub mod types;
