//! The rules of a shared card world.
//!
//! Rows are versioned by time: every rule is a function on in-memory tables, and
//! its contract gives the tables after the call from the tables before it.
pub mod actions;
pub mod cards;
pub mod content;
pub mod gc_schedule;
pub mod history;
pub mod layout;
pub mod lookups;
pub mod packed;
pub mod pending_actions;
pub mod players;
pub mod regionindex;
pub mod regions;
pub mod registry;
pub mod schedule_delete;
pub mod shard;
pub mod tables;
pub mod text;
pub mod tile_words;
pub mod time;
