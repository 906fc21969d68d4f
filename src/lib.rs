//! A grid maze generator and a branching, potential-guided walker search.

pub mod squares;
pub mod potential;
pub mod walker;
pub mod astar;
pub mod maze;

pub use astar::{flip_between, AStar};
pub use maze::{create_maze, open_if_solid};
pub use potential::{distance, isqrt, SCALE};
pub use squares::{new_grid, Square, MAX_SIDE};
pub use walker::{copy_path, path_contains, speed_for, Done, Walker, INITIAL_SPEED, SPEED_ONE, THRESHOLD};
