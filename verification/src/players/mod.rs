//! Players: their records and sessions, souls, and what they do outside of
//! recipe actions.
pub mod character_creation;
pub mod following;
pub mod gate_api;
pub mod lifecycle_pending;
pub mod mini_zone;
pub mod outcomes;
pub mod player_dimension;
pub mod players;
pub mod relocation;
pub mod rosters;
pub mod souls;
