//! Finds the words of a dictionary on a rectangular board of letters.
//!
//! A word is found along a path: a run of cells in which each cell is a
//! neighbor of the one before it, sideways, up and down or across a corner,
//! and no cell occurs twice. [`Dict`] holds the words as a prefix tree,
//! [`Graph`] says which cells are neighbors, and [`Board`] puts a letter on
//! each cell and searches.

pub mod board;
pub mod dict;
pub mod graph;
pub mod text;

pub use board::Board;
pub use board::BoardError;
pub use board::Path;
pub use dict::Dict;
pub use graph::Graph;
