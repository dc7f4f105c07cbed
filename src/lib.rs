//! Shortest paths on a rectangular grid with blocked cells, found by A* search.
pub mod algo;
pub mod grid;
mod search_state;

pub use algo::{astar, diagonal_distance, get_neighbors, manhattan_distance, reconstruct_path};
pub use grid::Grid;
