//! A 9x9 Sudoku solver: a candidate grid, four deduction rules run to a fixed
//! point, and a backtracking search over hypotheses.

pub mod board;
pub mod grid;
pub mod rules;
pub mod blocks;
pub mod search;
pub mod parse;
pub mod laws;
