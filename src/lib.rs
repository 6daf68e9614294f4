//! Move search for the game of Y: a connection game on a triangular board
//! where a player wins by linking all three sides with one group of stones.
pub mod board;
pub mod connect;
pub mod game;
pub mod geometry;
pub mod heuristics;
pub mod minimax;
pub mod win;

pub use geometry::Coordinates;
