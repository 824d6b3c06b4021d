//! Sudoku: candidate-set propagation and backtracking search.
pub mod board;
pub mod cell;
pub mod grid;
pub mod laws;
pub mod lines;
pub mod pointing;
pub mod round;
pub mod search;
pub mod sound;
pub mod standstill;
pub mod subsets;
pub mod validate;

pub use board::SudokuSolver;
pub use cell::FieldElement;
