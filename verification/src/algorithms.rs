use vstd::prelude::*;

verus! {

/// The maze-generation algorithms the engine offers.
#[derive(PartialEq, Eq, Structural, Clone, Copy, Debug)]
pub enum MazeAlgorithms {
    Prims,
    Kruskals,
    Dfs,
    AldousBroder,
}

impl MazeAlgorithms {
    /// The name under which the algorithm is presented.
    pub fn name(&self) -> (s: String)
        ensures
            self matches MazeAlgorithms::Prims ==> s@ == "Prim's Algorithm"@,
            self matches MazeAlgorithms::Kruskals ==> s@ == "Kruskal's Algorithm"@,
            self matches MazeAlgorithms::Dfs ==> s@ == "DFS Algorithm"@,
            self matches MazeAlgorithms::AldousBroder ==> s@ == "Aldous-B Algorithm"@,
    {
        match self {
            MazeAlgorithms::Prims => "Prim's Algorithm".to_owned(),
            MazeAlgorithms::Kruskals => "Kruskal's Algorithm".to_owned(),
            MazeAlgorithms::Dfs => "DFS Algorithm".to_owned(),
            MazeAlgorithms::AldousBroder => "Aldous-B Algorithm".to_owned(),
        }
    }
}

/// The pathfinding algorithms the surrounding application lists;
/// placeholders there, but part of its settings state.
#[derive(PartialEq, Eq, Structural, Clone, Copy, Debug)]
pub enum PathfindingAlgorithms {
    Astar,
    Dijkstra,
    Bfs,
    Dfs,
}

impl PathfindingAlgorithms {
    /// The name under which the algorithm is presented.
    pub fn name(&self) -> (s: String)
        ensures
            self matches PathfindingAlgorithms::Astar ==> s@ == "Astar Algorithm"@,
            self matches PathfindingAlgorithms::Bfs ==> s@ == "BFS Algorithm"@,
            self matches PathfindingAlgorithms::Dfs ==> s@ == "DFS Algorithm"@,
            self matches PathfindingAlgorithms::Dijkstra ==> s@ == "Dijkstra's Algorithm"@,
    {
        match self {
            PathfindingAlgorithms::Astar => "Astar Algorithm".to_owned(),
            PathfindingAlgorithms::Bfs => "BFS Algorithm".to_owned(),
            PathfindingAlgorithms::Dfs => "DFS Algorithm".to_owned(),
            PathfindingAlgorithms::Dijkstra => "Dijkstra's Algorithm".to_owned(),
        }
    }
}

} // verus!
