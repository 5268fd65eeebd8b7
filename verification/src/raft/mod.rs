//! Raft consensus as pure logic, without I/O.
//!
//! A node decides what to do: which entries to keep, which messages to send,
//! which entries are committed. The driver does the I/O and feeds messages back
//! in through [`node::Node::step`].

pub mod commits;
pub mod conduct;
pub mod history;
pub mod laws;
pub mod mem_storage;
pub mod node;
pub mod peers;
pub mod sends;
pub mod state;
pub mod state_machine;
pub mod storage;
pub mod types;

pub use mem_storage::MemRaftStorage;
pub use state_machine::StateMachine;
pub use storage::RaftStorage;
pub use types::{ConfState, Entry, EntryKind, HardState, Message, MessageBody, Snapshot};
