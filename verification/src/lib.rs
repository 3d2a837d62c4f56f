//! Exact win chances for a game of tiles and dice under perfect play.

pub mod catalog;
pub mod chance;
pub mod depth;
pub mod dice;
pub mod game;
pub mod keys;
pub mod laws;
pub mod memo;
pub mod moves;
pub mod naive;
pub mod parallel;
pub mod solve;
pub mod tally;
pub mod tiles;
