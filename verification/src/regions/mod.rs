//! The positional database: zones, tile-cards, regions and world generation.
pub mod card_shards;
pub mod cards;
pub mod demotion;
pub mod effects;
pub mod gate_api;
pub mod gc;
pub mod outcomes;
pub mod regions;
pub mod tables;
pub mod time;
pub mod world_gen;
pub mod zones;
