use pathfinding_simulation::maze::Maze;
use pathfinding_simulation::algorithms::{MazeAlgorithms, PathfindingAlgorithms};
use pathfinding_simulation::settings::AppSettings;

#[test]
fn test_wall_pixels_fresh_cell() {
    // a pristine 1x1 maze at 3 pixels a side: the whole border is
    // wall, only the center pixel is background
    let maze = Maze::new(1, 1);
    let pixels = maze.wall_pixels(3);
    assert_eq!(pixels.len(), 9);
    let expected = vec![true, true, true, true, false, true, true, true, true];
    assert_eq!(pixels, expected);
}

#[test]
fn test_wall_pixels_carved_passage() {
    // carve between the two cells of a 1x2 maze and check that the
    // shared boundary row is open where the walls were cleared
    let mut maze = Maze::new(1, 2);
    maze.init_dfs();
    let mut time = std::time::Duration::ZERO;
    while maze.step(1, &mut time) {}
    assert!(!maze.grid[0][0].walls[2]);
    assert!(!maze.grid[1][0].walls[0]);
    let pixels = maze.wall_pixels(3);
    assert_eq!(pixels.len(), 3 * 6);
    // row 2 is the lower cell-edge of the top cell: with its bottom
    // wall carved, only the side columns stay dark
    assert_eq!(&pixels[6..9], &[true, false, true]);
    // row 3 is the upper cell-edge of the bottom cell, likewise open
    assert_eq!(&pixels[9..12], &[true, false, true]);
}

#[test]
fn test_algorithm_names() {
    assert_eq!(MazeAlgorithms::Prims.name(), "Prim's Algorithm");
    assert_eq!(MazeAlgorithms::Kruskals.name(), "Kruskal's Algorithm");
    assert_eq!(MazeAlgorithms::Dfs.name(), "DFS Algorithm");
    assert_eq!(MazeAlgorithms::AldousBroder.name(), "Aldous-B Algorithm");
    assert_eq!(PathfindingAlgorithms::Astar.name(), "Astar Algorithm");
    assert_eq!(PathfindingAlgorithms::Dijkstra.name(), "Dijkstra's Algorithm");
    assert_eq!(PathfindingAlgorithms::Bfs.name(), "BFS Algorithm");
    assert_eq!(PathfindingAlgorithms::Dfs.name(), "DFS Algorithm");
}

#[test]
fn test_default_settings() {
    let settings = AppSettings::default();
    assert_eq!(settings.maze_algorithm, MazeAlgorithms::Prims);
    assert_eq!(settings.pathfinding_algorithm, PathfindingAlgorithms::Astar);
    assert_eq!(settings.maze_size, (160, 100));
    assert_eq!(settings.visualization_speed, 100);
}
