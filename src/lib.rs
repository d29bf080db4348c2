//! A 9x9 Sudoku board and a backtracking solver whose answer is proved to be
//! the first completion of the board in row-major order.
pub mod board;
pub mod rules;
pub mod laws;
pub mod loader;
pub mod render;
mod solver;

pub use board::Sudoku;
