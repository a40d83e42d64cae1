//! Solver for a tile-partition puzzle: decides whether a multiset of pieces
//! (ranked suit tiles plus wildcards) can be split into valid melds of 3 to 5
//! pieces each, and returns one such partition in a canonical order.

pub mod common;
mod piece;
pub mod solve_tile;
pub mod sort_set;
pub mod validate;

pub use piece::{Color, NormalPiece, Piece};
pub use solve_tile::solve_board;
