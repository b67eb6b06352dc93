//! A 9×9 Sudoku board with unit accessors, a validator and an exhaustive
//! backtracking solver, all with machine-checked contracts.

pub mod board;
pub mod completion;
pub mod solver;
pub mod validate;
