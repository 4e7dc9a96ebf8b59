//! Conway's Game of Life on a fixed-size toroidal grid.

pub mod board;
pub mod cell;
pub mod control;
pub mod grid;
pub mod torus;

pub use board::Board;
pub use cell::Cell;
pub use control::App;
