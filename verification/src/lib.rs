//! A solver for 9x9 Sudoku puzzles, with its behaviour stated and proved.
//!
//! A puzzle is a grid of 81 cells, each holding a given digit from 1 to 9 or
//! nothing. [`Solver::solve`] completes it so that every row, every column
//! and every 3x3 block holds each digit exactly once, or reports that this
//! cannot be done. Where a puzzle has several solutions, the one that comes
//! first in lexicographic order is returned, so the result depends on the
//! puzzle alone.
//!
//! The work is done in two steps. The candidate builder of [`candidates`]
//! notes for every cell which digits its row, column and block leave open.
//! The search of [`solver`] then walks the cells row by row and tries those
//! digits in turn, going back whenever it runs out of them.
//!
//! * [`grid`]: the puzzle, its model, and what a solution is
//! * [`units`]: rows, columns and blocks as units of nine cells
//! * [`candidates`]: the candidate builder
//! * [`validate`]: the test of a filled board for repeated values
//! * [`solver`]: the search and the solver
//! * [`flat`]: the solver for puzzles given as a list of 81 numbers
//! * [`text`]: puzzles and solutions as text
//! * [`laws`]: what holds of all puzzles and their solutions
pub mod candidates;
pub mod flat;
pub mod grid;
pub mod laws;
pub mod solver;
pub mod text;
pub mod units;
pub mod validate;

pub use crate::flat::RollError;
pub use crate::grid::{Board, SolvedBoard};
pub use crate::solver::{Solver, SolverErrors};
pub use crate::text::ParseErrors;
pub use crate::validate::is_board_solved;
