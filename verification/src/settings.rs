use vstd::prelude::*;
use crate::algorithms::{MazeAlgorithms, PathfindingAlgorithms};

verus! {

/// The knobs the surrounding application exposes: which algorithms
/// to run, the grid dimensions of new mazes, and how many micro-steps
/// to perform per animation tick.
pub struct AppSettings {
    pub maze_algorithm: MazeAlgorithms,
    pub pathfinding_algorithm: PathfindingAlgorithms,
    pub maze_size: (usize, usize),
    pub visualization_speed: i32,
}

impl Default for AppSettings {
    /// Fresh settings: Prim's generation, A* pathfinding, a 160×100
    /// grid, 100 micro-steps per tick.
    fn default() -> (s: Self)
        ensures
            s.maze_algorithm == MazeAlgorithms::Prims,
            s.pathfinding_algorithm == PathfindingAlgorithms::Astar,
            s.maze_size == ((160usize, 100usize)),
            s.visualization_speed == 100,
    {
        AppSettings {
            maze_algorithm: MazeAlgorithms::Prims,
            pathfinding_algorithm: PathfindingAlgorithms::Astar,
            maze_size: (160, 100),
            visualization_speed: 100,
        }
    }
}

} // verus!
