//! A verified solver for 16x16 generalized Sudoku ("hexadoku").
//!
//! A grid is a buffer of 256 cells in row-major order; each cell is either
//! empty (0) or holds a symbol 1..=16.  A solved grid has every row, every
//! column, and every 4x4 box containing each of the 16 symbols exactly once.
//! The solver completes a partially filled grid in place by a depth-first
//! search with bitmask-based constraint tracking, or reports that no
//! completion exists and leaves the grid untouched.

pub mod laws;
pub mod masks;
pub mod model;
pub mod search;
pub mod solver;

pub use solver::{is_solved_grid, is_valid_grid, solve_hexadoku};
