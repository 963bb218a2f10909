//! A verified Sudoku-family puzzle engine: square grids split into equal
//! rectangular blocks (4, 6, 8 and 9 cells wide), with legal-value queries,
//! a backtracking solver, and a randomized generate-then-dig constructor.

pub mod difficulty;
pub mod grids;
pub mod laws;
pub mod sudoku;
