//! The server side: commands, the state machine that carries them out, a
//! deterministic cluster, and the rules of the simulated network.

pub mod ballot;
pub mod catch_up;
pub mod chronicle;
pub mod cluster;
pub mod cluster_state;
pub mod cold_start;
pub mod commands;
pub mod election;
pub mod isolation;
pub mod matching;
pub mod record;
pub mod replication;
pub mod requests;
pub mod rounds;
pub mod safety;
pub mod state_machine;
pub mod transport;
