//! A log-structured storage engine.
//!
//! [`engine`] is the engine, [`outcome`] says what each of its calls comes to,
//! [`history`] what any sequence of them does, and [`durability`] what a crash
//! leaves of it. [`state`] models the engine as a value; [`recover`] says what
//! opening it on a directory finds, and [`crash`] what a step that was cut off
//! leaves there. The parts are the buffer in [`memtable`], the table
//! files in [`sstable`], tables on top of each other in [`layers`] and [`tables`],
//! and the log entries in [`replay`]. Who holds a table is counted in [`holding`].
//! What a merge leaves is in [`compaction`], when the buffer is flushed in
//! [`buffering`], what stands where in the files in [`format`], and what becomes of
//! reads when a table is damaged in [`faults`].

pub mod buffering;
pub mod compaction;
pub mod crash;
pub mod durability;
pub mod engine;
pub mod faults;
pub mod format;
pub mod history;
pub mod holding;
pub mod layers;
pub mod memtable;
pub mod outcome;
pub mod recover;
pub mod replay;
pub mod sstable;
pub mod state;
pub mod tables;
