//! Recipe actions: proposals, the output tape and its completion.
pub mod balance;
pub mod completion;
pub mod effects;
pub mod laws;
pub mod on_create;
pub mod outcomes;
pub mod path;
pub mod plan;
pub mod propose;
pub mod recipe_eval;
pub mod statements;
pub mod tape;
pub mod tile_cards;
pub mod verify;
