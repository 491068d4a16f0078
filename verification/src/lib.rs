//! A verified solver for square grid-based constraint puzzles of parametric
//! box size: an N x N grid (N = box size squared) must be completed so that
//! every value `1 ..= N` appears at most once per row, column, and box.
//!
//! The engine is layered as the usual three passes: a validator that rejects
//! grids with pre-existing conflicts, a propagator that fills forced cells
//! (naked and hidden singles) without guessing, and a depth-first backtracking
//! search with a most-constrained-cell heuristic.  The contracts state that
//! propagation preserves the set of solutions exactly and that the search is
//! both sound and complete: `solve` returns `true` with a solution in place,
//! or `false` when no complete legal assignment exists at all.

pub mod board;
pub mod laws;
pub mod model;
pub mod propagate;
pub mod search;
pub mod solutions;
pub mod sudoku16;
pub mod units;

pub use board::Board;
pub use board::GlobalIterator;
pub use board::ValidationError;
pub use sudoku16::SudokuBoard16;
