//! A solver for 9×9 Sudoku puzzles: exhaustive depth-first search with
//! chronological backtracking, verified against a declarative statement of
//! what a solution is.
//!
//! * [`grid`]: the grid, its mathematical model, and the row-major scan
//!   for the next unassigned cell;
//! * [`rules`]: the row, column and box rules, and the check of a grid
//!   before a search;
//! * [`solver`]: the search, and what it is proved to find.

pub mod grid;
pub mod rules;
pub mod solver;

pub use grid::{find_unassigned_location, Grid, BOX, N, UNASSIGNED};
pub use rules::{check_grid, is_safe, used_in_box, used_in_col, used_in_row, GridError};
pub use solver::{solve, solve_sudoku, Outcome};
