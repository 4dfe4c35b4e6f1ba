use pathfinding_simulation::maze::Maze;

#[test]
fn test_maze_creation() {
    let maze = Maze::new(10, 10);

    assert_eq!(maze.width, 10);
    assert_eq!(maze.height, 10);

    for row in maze.grid.iter() {
        for node in row.iter() {
            assert!(!node.visited);
            assert_eq!(node.walls, [true, true, true, true]);
        }
    }
}

#[test]
fn test_dfs_maze() {
    let mut maze = Maze::new(10, 10);
    maze.dfs_maze();

    for row in maze.grid.iter() {
        for node in row.iter() {
            assert!(node.visited);
        }
    }
}

#[test]
fn test_dfs_maze_edge_cases() {
    let mut small_maze = Maze::new(1, 1);
    small_maze.dfs_maze();

    assert!(small_maze.grid[0][0].visited);

    let mut large_maze = Maze::new(1000, 1000);
    large_maze.dfs_maze();

    assert!(large_maze.grid[0][0].visited);
}

#[test]
fn test_prims_maze() {
    let mut maze = Maze::new(10, 10);
    maze.prims_maze();

    for row in maze.grid.iter() {
        for node in row.iter() {
            assert!(node.visited);
        }
    }

    let mut has_open_wall = false;
    for row in maze.grid.iter() {
        for node in row.iter() {
            if node.walls.contains(&false) {
                has_open_wall = true;
                break;
            }
        }
    }
    assert!(has_open_wall, "Maze should have at least one open wall between cells.");
}

#[test]
fn test_prims_maze_edge_cases() {
    let mut small_maze = Maze::new(1, 1);
    small_maze.prims_maze();

    assert!(small_maze.grid[0][0].visited);
    assert_eq!(small_maze.grid[0][0].walls, [true, true, true, true]);

    let mut large_maze = Maze::new(1000, 1000);
    large_maze.prims_maze();

    for row in large_maze.grid.iter() {
        for node in row.iter() {
            assert!(node.visited);
        }
    }
}

#[test]
fn test_prims_maze_randomness() {
    let mut maze1 = Maze::new(10, 10);
    let mut maze2 = Maze::new(10, 10);

    maze1.prims_maze();
    maze2.prims_maze();

    let mut identical = true;
    for y in 0..10 {
        for x in 0..10 {
            if maze1.grid[y][x].walls != maze2.grid[y][x].walls {
                identical = false;
                break;
            }
        }
        if !identical {
            break;
        }
    }
    assert!(!identical, "Mazes generated by Prim's algorithm should be different.");
}
