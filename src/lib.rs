//! Perfect-maze generation by randomized depth-first search over a grid,
//! with entry and exit marking and a flat-colour pixel rendering.
pub mod grid_store;
pub mod maze;
pub mod passages;
pub mod random;

pub use maze::{Direction, Maze, MazeError, TileState};
