//! A 9x9 sudoku engine: board model, constraint propagation, backtracking
//! search with a uniqueness-proving mode, a text codec, and a generator that
//! carves minimal-clue puzzles out of filled grids.

pub mod board;
pub mod codec;
pub mod generate;
pub mod groups;
pub mod puzzle;
pub mod model;
pub mod propagate;
pub mod rng;
pub mod search;
