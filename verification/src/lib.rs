//! A verified solver for 9×9 Sudoku puzzles.
//!
//! A grid is nine rows of nine characters: `'.'` for a blank cell and
//! `'1'..='9'` for a digit. The solver fills the blanks in place by depth-first
//! search with backtracking, always branching on the blank cell that has the
//! fewest digits left to choose from. It ends in a solved Sudoku that keeps the
//! given digits, or reports that there is none and leaves the grid as it was;
//! a grid in which a digit already occurs twice in a row, column or block has
//! none.
//!
//! - `grid` holds the model of a grid and `is_valid`;
//! - `rules` says what a solved Sudoku and a completion of a grid are;
//! - `masks` relates the solver's bit masks to the grid;
//! - `search` defines the search and holds its executable form, `solve_opt`;
//! - `solver` holds the entry points, `solve_sudoku` and `try_solve_sudoku`;
//! - `laws` proves what the outcome of the search means.

pub mod grid;
pub mod laws;
pub mod masks;
pub mod rules;
pub mod search;
pub mod solver;

pub use grid::is_valid;
pub use search::solve_opt;
pub use solver::{build_state, solve_sudoku, try_solve_sudoku, InvalidCell, SearchState};
