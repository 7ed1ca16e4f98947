//! The data shard: one card table for owned cards and for tile-cards, with the
//! zones, regions and souls that go with it.
pub mod cards;
pub mod effects;
pub mod flags;
pub mod gate_api;
pub mod gc;
pub mod keys;
pub mod laws;
pub mod model;
pub mod movement;
pub mod oplog;
pub mod outcomes;
pub mod ownership;
pub mod place;
pub mod replay;
pub mod souls;
pub mod tables;
pub mod tiles;
pub mod utilities;
