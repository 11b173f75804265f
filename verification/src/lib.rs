//! A 9×9 Sudoku solver built on exhaustive, constraint-checked
//! backtracking over immutable board values.
//!
//! [`grid`] owns the cell state and the consistency checks, [`solver`]
//! checks the given clues, performs the search, and carries the proofs
//! that its answer is the lexicographically least full solution of the
//! input, [`text`] renders and parses the line form of a board, and
//! [`json_input`] reads a board from JSON through the `json` crate.
pub mod grid;
pub mod solver;
pub mod text;
pub mod json_input;
