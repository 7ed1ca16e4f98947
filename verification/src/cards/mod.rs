//! The owner-card database: cards, their holds, and the writes that the gateway requests.
pub mod blueprints;
pub mod cards;
pub mod env;
pub mod flags;
pub mod gate_api;
pub mod gc;
pub mod keys;
pub mod laws;
pub mod micro;
pub mod outcomes;
pub mod utilities;
