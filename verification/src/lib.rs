//! Game-state engine of a terminal falling-block puzzle game.
//!
//! The library models the board as a grid of occupancy cells, the active
//! piece as four board coordinates, and every board mutation (moving,
//! freezing, row clearing, spawning) as a verified operation with a full
//! functional contract. Terminal rendering and the two asynchronous intent
//! producers live outside the library and talk to it through plain values.

pub mod logic;
pub mod models;

pub use models::Action;
pub use models::Block;
