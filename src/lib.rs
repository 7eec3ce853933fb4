//! Grid path search that advances one expansion at a time, so that a caller can show the
//! frontier, the closed set and the back pointers between steps.
//!
//! [`pathfinding_state::PathfindingState`] runs breadth-first search, depth-first search or
//! A* over a [`grid::Grid`]; each call of `step` pops one frontier entry, admits its
//! neighbours and paints overlays on the grid. The contracts state every step exactly, and
//! the proof modules show what the runs guarantee: returned paths are walks, BFS and A*
//! return shortest ones, and every run ends.

pub mod position;
pub mod node;
pub mod grid;
pub mod collections;
pub mod text;
pub mod algorithms;
pub mod tools;
pub mod ui_state;
pub mod pathfinding_state;
pub mod bfs_optimality;
pub mod astar_optimality;
