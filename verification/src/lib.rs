//! A sliding-tile puzzle on a square grid: tiles are shifted in one of four
//! directions, equal neighbours merge, and the game ends when no move can
//! change the grid.

pub mod game;
pub mod grid;
pub mod laws;
pub mod line;
pub mod model;
pub mod utils;
