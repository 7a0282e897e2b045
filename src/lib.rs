//! A 9x9 Sudoku validator and backtracking solver with proved contracts.
pub mod grid;
pub mod laws;
pub mod masks;
pub mod solver;
