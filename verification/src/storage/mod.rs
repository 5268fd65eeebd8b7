//! Storage: the write-ahead log, the engines and the interface they share.

pub mod disk;
pub mod engine;
pub mod lsm;
pub mod memengine;
pub mod power;
pub mod record;
pub mod reopen;
pub mod segment;
pub mod upkeep;
pub mod wal;
