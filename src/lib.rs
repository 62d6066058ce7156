//! Generation of uniquely solvable Sudoku puzzles: a grid model, placement
//! constraints, a backtracking solver, a randomised generator and a reducer.

pub mod grid;
pub mod constraint;
pub mod solver;
pub mod generator;
pub mod json;
