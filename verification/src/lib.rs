//! A maze model and a verified depth-first solver.
//!
//! A [`Maze`] is a rectangular grid of [`Node`]s, each passable or a wall,
//! together with a start and an end coordinate. [`Maze::solve`] searches for a
//! path from start to end by depth-first descent with backtracking and
//! returns whether one exists; on success the nodes marked `in_path` trace
//! one simple path from start to end.

pub mod grid;
pub mod loader;
pub mod render;
pub mod solver;

pub use grid::Maze;
pub use grid::Node;
pub use loader::MazeTemplate;
pub use loader::load_maze;
