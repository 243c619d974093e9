//! Sudoku puzzle solver and generator library.
//!
//! The solver keeps, beside the board, a candidate cache: the set of
//! still-legal values for every empty cell, and, for every (block, value)
//! pair, the set of cells where that value can still go.  Assignments go
//! through the cache first, are reversible through undo tokens, and the
//! search applies naked singles, hidden singles and least-candidate guessing
//! with chronological backtracking over guess points.  The generator drives
//! the solver with randomized guesses, strips deduced cells, minimizes the
//! givens and records the data for an approximate uniqueness check.

pub mod board;
pub mod candidate_cache;
pub mod solver;
pub mod indexed_map;
pub mod sets;

pub use board::Board;
pub use board::BoardSize;
pub use solver::generator::Puzzle;
