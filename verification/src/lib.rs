//! Puzzle solvers with machine-checked contracts.
//!
//! The centre of the crate is the Sudoku engine in [`solver::sudoku`]:
//! constraint propagation over candidate sets combined with a backtracking
//! search. Beside it stand the Towers of Hanoi, the n queens puzzle and the
//! pieces of pentomino puzzles. Every executable function carries a
//! contract that Verus proves; the few calls into `rayon` and into parts of
//! `std` that have no specification stand behind wrappers whose contracts
//! are stated and believed.
pub mod solver;
