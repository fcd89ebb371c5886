//! A 2048-style sliding-tile puzzle engine.
//!
//! The engine owns a fixed 4x4 grid of numbered tiles, resolves directional
//! moves by sliding and merging tiles, spawns new tiles with weighted
//! randomness, tracks the score and the win/lose state, and derives a
//! deterministic color pair for any tile value.

mod colors;
mod game;
mod line;
mod rng;
mod tile;
pub mod model;

pub use colors::Colors;
pub use colors::log_2;
pub use game::Game;
pub use game::InputResult;
pub use game::InvalidMove;
pub use game::NewTileParams;
pub use game::BOARD_DIMENSION;
pub use game::NUM_TILES;
pub use game::NUM_IDS;
pub use line::Direction;
pub use tile::Tile;
