use std::time::Duration;
use pathfinding_simulation::maze::{Maze, MazeError, MazeGenerator};

fn run_to_completion_budget_one(maze: &mut Maze) -> usize {
    let mut time = Duration::ZERO;
    let mut calls: usize = 0;
    while maze.step(1, &mut time) {
        calls += 1;
        assert!(calls < 10_000_000, "generation did not complete");
    }
    calls
}

fn all_visited(maze: &Maze) -> bool {
    maze.grid.iter().all(|row| row.iter().all(|node| node.visited))
}

fn cleared_wall_entries(maze: &Maze) -> usize {
    let mut count: usize = 0;
    for row in maze.grid.iter() {
        for node in row.iter() {
            for w in 0..4 {
                if !node.walls[w] {
                    count += 1;
                }
            }
        }
    }
    count
}

fn walls_snapshot(maze: &Maze) -> Vec<[bool; 4]> {
    let mut v = Vec::new();
    for row in maze.grid.iter() {
        for node in row.iter() {
            v.push(node.walls);
        }
    }
    v
}

#[test]
fn test_try_new_rejects_zero_dimensions() {
    assert_eq!(Maze::try_new(0, 5).err(), Some(MazeError::InvalidConfiguration));
    assert_eq!(Maze::try_new(5, 0).err(), Some(MazeError::InvalidConfiguration));
    assert_eq!(Maze::try_new(0, 0).err(), Some(MazeError::InvalidConfiguration));
    let maze = Maze::try_new(3, 4).ok().expect("3x4 is a valid configuration");
    assert_eq!(maze.width, 3);
    assert_eq!(maze.height, 4);
}

#[test]
fn test_step_without_generator_is_noop() {
    let mut maze = Maze::new(4, 4);
    let mut time = Duration::ZERO;
    assert!(!maze.step(10, &mut time));
    assert!(!all_visited(&maze));
    assert_eq!(cleared_wall_entries(&maze), 0);
    assert_eq!(time, Duration::ZERO);
}

#[test]
fn test_step_completion_is_idempotent() {
    let mut maze = Maze::new(5, 5);
    maze.init_dfs();
    let mut time = Duration::ZERO;
    while maze.step(1, &mut time) {}
    assert!(all_visited(&maze));
    let before = walls_snapshot(&maze);
    // once complete, further calls keep returning false and change nothing
    for _ in 0..3 {
        assert!(!maze.step(7, &mut time));
    }
    assert_eq!(walls_snapshot(&maze), before);
}

#[test]
fn test_one_by_one_grid_dfs() {
    let mut maze = Maze::new(1, 1);
    maze.init_dfs();
    run_to_completion_budget_one(&mut maze);
    assert!(maze.grid[0][0].visited);
    assert_eq!(cleared_wall_entries(&maze), 0);
}

#[test]
fn test_one_by_one_grid_prims() {
    let mut maze = Maze::new(1, 1);
    maze.init_prims();
    run_to_completion_budget_one(&mut maze);
    assert!(maze.grid[0][0].visited);
    assert_eq!(cleared_wall_entries(&maze), 0);
}

#[test]
fn test_one_by_one_grid_aldous_broder() {
    let mut maze = Maze::new(1, 1);
    maze.init_aldous_broder();
    run_to_completion_budget_one(&mut maze);
    assert!(maze.grid[0][0].visited);
    assert_eq!(cleared_wall_entries(&maze), 0);
}

#[test]
fn test_one_by_one_grid_kruskals() {
    let mut maze = Maze::new(1, 1);
    maze.init_kruskals();
    run_to_completion_budget_one(&mut maze);
    assert!(maze.grid[0][0].visited);
    assert_eq!(cleared_wall_entries(&maze), 0);
}

#[test]
fn test_all_algorithms_produce_spanning_tree_counts() {
    let inits: [fn(&mut Maze); 4] = [
        Maze::init_dfs,
        Maze::init_prims,
        Maze::init_aldous_broder,
        Maze::init_kruskals,
    ];
    for init in inits.iter() {
        let mut maze = Maze::new(7, 5);
        init(&mut maze);
        run_to_completion_budget_one(&mut maze);
        assert!(all_visited(&maze));
        // a spanning tree over 35 cells has 34 passages, each clearing
        // one wall on both of its sides
        assert_eq!(cleared_wall_entries(&maze), 2 * (7 * 5 - 1));
    }
}

#[test]
fn test_seeded_generation_is_deterministic_dfs() {
    let mut maze1 = Maze::new(6, 6);
    maze1.set_seed(42);
    maze1.init_dfs();
    run_to_completion_budget_one(&mut maze1);

    let mut maze2 = Maze::new(6, 6);
    maze2.set_seed(42);
    maze2.init_dfs();
    let mut time = Duration::ZERO;
    // one call with a budget of width*height*4 micro-steps completes too
    assert!(!maze2.step(6 * 6 * 4, &mut time));

    assert_eq!(walls_snapshot(&maze1), walls_snapshot(&maze2));
}

#[test]
fn test_seeded_generation_is_deterministic_prims() {
    let mut maze1 = Maze::new(5, 5);
    maze1.set_seed(7);
    maze1.init_prims();
    run_to_completion_budget_one(&mut maze1);

    let mut maze2 = Maze::new(5, 5);
    maze2.set_seed(7);
    maze2.init_prims();
    let mut time = Duration::ZERO;
    assert!(!maze2.step(5 * 5 * 4, &mut time));

    assert_eq!(walls_snapshot(&maze1), walls_snapshot(&maze2));
}

#[test]
fn test_seeded_generation_is_deterministic_kruskals() {
    let mut maze1 = Maze::new(5, 5);
    maze1.set_seed(99);
    maze1.init_kruskals();
    run_to_completion_budget_one(&mut maze1);

    let mut maze2 = Maze::new(5, 5);
    maze2.set_seed(99);
    maze2.init_kruskals();
    let mut time = Duration::ZERO;
    assert!(!maze2.step(5 * 5 * 4, &mut time));

    assert_eq!(walls_snapshot(&maze1), walls_snapshot(&maze2));
}

#[test]
fn test_seeded_generation_is_deterministic_aldous_broder() {
    // the walk needs an unbounded number of steps, so both runs use
    // budget-1 calls until completion
    let mut maze1 = Maze::new(4, 4);
    maze1.set_seed(5);
    maze1.init_aldous_broder();
    run_to_completion_budget_one(&mut maze1);

    let mut maze2 = Maze::new(4, 4);
    maze2.set_seed(5);
    maze2.init_aldous_broder();
    run_to_completion_budget_one(&mut maze2);

    assert_eq!(walls_snapshot(&maze1), walls_snapshot(&maze2));
}

#[test]
fn test_rendering_hints_follow_the_backtracker() {
    let mut maze = Maze::new(4, 4);
    maze.set_seed(11);
    maze.init_dfs();
    let mut time = Duration::ZERO;
    assert!(maze.step(3, &mut time));
    let stack = match &maze.generator {
        Some(MazeGenerator::Dfs { stack }) => stack.clone(),
        _ => panic!("the backtracker must still be active"),
    };
    assert!(!stack.is_empty());
    let top = stack[stack.len() - 1];
    assert!(maze.cell_is_current(top.0, top.1));
    for &(x, y) in stack.iter() {
        assert!(maze.cell_in_stack(x, y));
    }
    for y in 0..4 {
        for x in 0..4 {
            if !maze.grid[y][x].visited {
                assert!(!maze.cell_in_stack(x, y));
                assert!(!maze.cell_is_current(x, y));
            }
        }
    }
}

#[test]
fn test_completed_mazes_are_connected() {
    // flood-fill through open passages from (0, 0): a perfect maze
    // reaches every cell
    let inits: [fn(&mut Maze); 4] = [
        Maze::init_dfs,
        Maze::init_prims,
        Maze::init_aldous_broder,
        Maze::init_kruskals,
    ];
    for init in inits.iter() {
        let mut maze = Maze::new(6, 4);
        init(&mut maze);
        run_to_completion_budget_one(&mut maze);
        let mut reached = vec![vec![false; 6]; 4];
        let mut stack = vec![(0usize, 0usize)];
        reached[0][0] = true;
        while let Some((x, y)) = stack.pop() {
            let node = &maze.grid[y][x];
            if x + 1 < 6 && !node.walls[1] && !reached[y][x + 1] {
                reached[y][x + 1] = true;
                stack.push((x + 1, y));
            }
            if x > 0 && !maze.grid[y][x - 1].walls[1] && !reached[y][x - 1] {
                reached[y][x - 1] = true;
                stack.push((x - 1, y));
            }
            if y + 1 < 4 && !node.walls[2] && !reached[y + 1][x] {
                reached[y + 1][x] = true;
                stack.push((x, y + 1));
            }
            if y > 0 && !maze.grid[y - 1][x].walls[2] && !reached[y - 1][x] {
                reached[y - 1][x] = true;
                stack.push((x, y - 1));
            }
        }
        for row in reached.iter() {
            for cell in row.iter() {
                assert!(cell, "every cell must be reachable through passages");
            }
        }
    }
}

fn follow_parents(sets: &[usize], start: usize) -> usize {
    let mut i = start;
    let mut hops = 0;
    while sets[i] != i {
        i = sets[i];
        hops += 1;
        assert!(hops <= sets.len(), "parent pointers must reach a root");
    }
    i
}

#[test]
fn test_kruskal_union_find_single_component() {
    let mut maze = Maze::new(4, 4);
    maze.set_seed(123);
    maze.init_kruskals();
    let mut time = Duration::ZERO;
    let mut last_sets: Vec<usize> = Vec::new();
    loop {
        if let Some(MazeGenerator::Kruskal { edges: _, sets }) = &maze.generator {
            last_sets = sets.clone();
        }
        if !maze.step(1, &mut time) {
            break;
        }
    }
    // the last stepping call performs no union (it only discards), so
    // the last observed table carries the final components
    assert_eq!(last_sets.len(), 16);
    let root0 = follow_parents(&last_sets, 0);
    for i in 0..16 {
        assert_eq!(follow_parents(&last_sets, i), root0);
    }
}

#[test]
fn test_dfs_three_by_three_scenario() {
    let mut maze = Maze::new(3, 3);
    maze.set_seed(2024);
    maze.init_dfs();
    run_to_completion_budget_one(&mut maze);
    for y in 0..3 {
        for x in 0..3 {
            assert!(maze.grid[y][x].visited);
        }
    }
    // 8 carved passages, each contributing two cleared wall entries
    assert_eq!(cleared_wall_entries(&maze), 16);
}
