//! Transactions on top of a storage engine.
//!
//! A transaction gathers its writes in memory and applies them on commit, at a
//! timestamp of the hybrid clock. Keys are stored as they are: there are no
//! versions of a key yet, and no conflicts are detected.

pub mod clock;
pub mod store;
pub mod txn;

pub use clock::HybridLogicalClock;
pub use store::MvccStore;
pub use txn::{Txn, TxnId};
