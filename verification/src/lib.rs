//! A solver for calendar tiling puzzles: a fixed 2D board with some cells
//! permanently absent and some blocked for a given date must be covered
//! exactly by a set of polyomino tiles, each usable in any of its eight
//! rotation/reflection orientations.

pub mod active_board;
pub mod common;
pub mod custom_boards;
pub mod pruning;
pub mod solver;
pub mod tile_helper;
