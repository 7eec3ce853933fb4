use robonav::algorithms::Algorithm;
use robonav::grid::{CellType, Grid};
use robonav::pathfinding_state::{PathfindingState, StepResult};
use robonav::position::Position;
use std::collections::VecDeque;

fn p(x: i32, y: i32) -> Position {
    Position::new(x, y)
}

/// Runs a search to its end; returns the path (if any) and the state.
fn run(alg: Algorithm, grid: &mut Grid, start: Position, goal: Position) -> (Option<Vec<Position>>, PathfindingState) {
    let mut state = PathfindingState::new();
    state.initialize(&alg, start, goal);
    for _ in 0..10_000 {
        match state.step(&alg, goal, grid) {
            StepResult::Continue => {}
            StepResult::PathFound(path) => return (Some(path), state),
            StepResult::NoPath => return (None, state),
        }
    }
    panic!("search did not end");
}

/// Shortest distance by an independent breadth-first search over walkable cells.
fn shortest(grid: &Grid, start: Position, goal: Position) -> Option<usize> {
    let w = grid.width as i32;
    let h = grid.height as i32;
    let mut dist = vec![usize::MAX; (w * h) as usize];
    let mut q = VecDeque::new();
    dist[(start.y * w + start.x) as usize] = 0;
    q.push_back(start);
    while let Some(c) = q.pop_front() {
        let d = dist[(c.y * w + c.x) as usize];
        if c == goal {
            return Some(d);
        }
        for (dx, dy) in [(0, -1), (1, 0), (0, 1), (-1, 0)] {
            let n = p(c.x + dx, c.y + dy);
            if grid.is_walkable(&n) && dist[(n.y * w + n.x) as usize] == usize::MAX {
                dist[(n.y * w + n.x) as usize] = d + 1;
                q.push_back(n);
            }
        }
    }
    None
}

fn assert_valid_path(grid: &Grid, path: &[Position], start: Position, goal: Position) {
    assert_eq!(path[0], start);
    assert_eq!(*path.last().unwrap(), goal);
    for w in path.windows(2) {
        assert_eq!(w[0].manhattan_distance_to(&w[1]), 1);
    }
    for q in path {
        assert!(grid.is_walkable(q));
    }
}

/// A small maze used by several tests.
fn maze() -> Grid {
    let mut g = Grid::new(7, 6);
    for &(x, y) in &[(1, 0), (1, 1), (1, 2), (1, 3), (3, 1), (3, 2), (3, 3), (3, 4), (3, 5), (5, 0), (5, 1), (5, 2), (5, 3), (4, 3)] {
        g.set_cell(p(x, y), CellType::Obstacle);
    }
    g
}

#[test]
fn empty_five_by_five_bfs_and_astar_are_shortest() {
    for alg in [Algorithm::Bfs, Algorithm::AStar] {
        let mut g = Grid::new(5, 5);
        let (path, _) = run(alg, &mut g, p(0, 0), p(4, 4));
        let path = path.expect("a path exists");
        assert_eq!(path.len(), 9);
        assert_valid_path(&g, &path, p(0, 0), p(4, 4));
    }
}

#[test]
fn empty_five_by_five_dfs_goes_east_then_south() {
    let mut g = Grid::new(5, 5);
    let (path, _) = run(Algorithm::Dfs, &mut g, p(0, 0), p(4, 4));
    let path = path.expect("a path exists");
    assert!(path.len() >= 9);
    assert_eq!(
        path,
        vec![p(0, 0), p(1, 0), p(2, 0), p(3, 0), p(4, 0), p(4, 1), p(4, 2), p(4, 3), p(4, 4)]
    );
}

#[test]
fn start_equal_to_goal_is_found_on_the_first_step() {
    for alg in [Algorithm::Bfs, Algorithm::Dfs, Algorithm::AStar] {
        let mut g = Grid::new(3, 3);
        let mut state = PathfindingState::new();
        state.initialize(&alg, p(1, 1), p(1, 1));
        match state.step(&alg, p(1, 1), &mut g) {
            StepResult::PathFound(path) => assert_eq!(path, vec![p(1, 1)]),
            _ => panic!("expected a path"),
        }
        assert_eq!(state.step_count(), 1);
        assert_eq!(state.closed_set_len(), 1);
    }
}

#[test]
fn enclosed_goal_exhausts_the_reachable_component() {
    for alg in [Algorithm::Bfs, Algorithm::Dfs, Algorithm::AStar] {
        let mut g = Grid::new(5, 5);
        g.set_cell(p(3, 4), CellType::Obstacle);
        g.set_cell(p(4, 3), CellType::Obstacle);
        let (path, state) = run(alg, &mut g, p(0, 0), p(4, 4));
        assert!(path.is_none());
        // every walkable cell but the enclosed goal
        assert_eq!(state.closed_set_len(), 22);
        assert_eq!(state.frontier_len(&alg), 0);
        for y in 0..5 {
            for x in 0..5 {
                let q = p(x, y);
                let reachable = g.is_walkable(&q) && q != p(4, 4);
                assert_eq!(state.g_cost(&q).is_some(), reachable);
            }
        }
    }
}

#[test]
fn bfs_matches_independent_shortest_distances() {
    let g0 = maze();
    let starts = [p(0, 0), p(2, 5), p(6, 0)];
    let goals = [p(6, 5), p(4, 0), p(0, 5), p(6, 0)];
    for &s in &starts {
        for &t in &goals {
            let mut g = maze();
            let (path, _) = run(Algorithm::Bfs, &mut g, s, t);
            let expected = shortest(&g0, s, t);
            match (path, expected) {
                (Some(path), Some(d)) => {
                    assert_eq!(path.len() - 1, d);
                    assert_valid_path(&g0, &path, s, t);
                }
                (None, None) => {}
                (a, b) => panic!("disagreement: {:?} vs {:?}", a, b),
            }
        }
    }
}

#[test]
fn astar_path_length_equals_bfs() {
    let g0 = maze();
    let starts = [p(0, 0), p(2, 5), p(6, 0)];
    let goals = [p(6, 5), p(4, 0), p(0, 5)];
    for &s in &starts {
        for &t in &goals {
            let mut gb = maze();
            let mut ga = maze();
            let (pb, _) = run(Algorithm::Bfs, &mut gb, s, t);
            let (pa, _) = run(Algorithm::AStar, &mut ga, s, t);
            assert_eq!(pb.map(|v| v.len()), pa.clone().map(|v| v.len()));
            if let Some(path) = pa {
                assert_valid_path(&g0, &path, s, t);
            }
        }
    }
}

#[test]
fn dfs_paths_are_valid_walks() {
    let g0 = maze();
    let mut g = maze();
    let (path, _) = run(Algorithm::Dfs, &mut g, p(0, 0), p(4, 2));
    let path = path.expect("a path exists");
    assert_valid_path(&g0, &path, p(0, 0), p(4, 2));
    assert!(path.len() - 1 >= shortest(&g0, p(0, 0), p(4, 2)).unwrap());
}

#[test]
fn closed_set_only_grows_and_steps_stay_bounded() {
    for alg in [Algorithm::Bfs, Algorithm::Dfs, Algorithm::AStar] {
        let mut g = maze();
        let walkable = 7 * 6 - 14;
        let mut state = PathfindingState::new();
        state.initialize(&alg, p(0, 0), p(6, 5));
        let mut last = 0;
        loop {
            let r = state.step(&alg, p(6, 5), &mut g);
            assert!(state.closed_set_len() >= last);
            last = state.closed_set_len();
            assert_eq!(state.step_count(), state.closed_set_len());
            assert!(state.step_count() <= walkable + 1);
            if !matches!(r, StepResult::Continue) {
                break;
            }
        }
    }
}

#[test]
fn bfs_and_dfs_never_reassign_a_parent() {
    for alg in [Algorithm::Bfs, Algorithm::Dfs] {
        let mut g = maze();
        let mut state = PathfindingState::new();
        state.initialize(&alg, p(0, 0), p(6, 5));
        let mut seen: Vec<(Position, Position)> = Vec::new();
        loop {
            let r = state.step(&alg, p(6, 5), &mut g);
            for &(c, parent) in &seen {
                assert_eq!(state.came_from().get(&c), Some(parent));
            }
            for y in 0..6 {
                for x in 0..7 {
                    let c = p(x, y);
                    if let Some(parent) = state.came_from().get(&c) {
                        if !seen.iter().any(|&(k, _)| k == c) {
                            seen.push((c, parent));
                        }
                    }
                }
            }
            if !matches!(r, StepResult::Continue) {
                break;
            }
        }
        assert!(state.came_from().get(&p(0, 0)).is_none());
    }
}

#[test]
fn a_finished_run_repeats_its_path() {
    let mut g = Grid::new(3, 3);
    let (path, mut state) = run(Algorithm::Bfs, &mut g, p(0, 0), p(2, 2));
    let path = path.unwrap();
    let steps = state.step_count();
    match state.step(&Algorithm::Bfs, p(2, 2), &mut g) {
        StepResult::PathFound(again) => assert_eq!(again, path),
        _ => panic!("expected the same path"),
    }
    assert_eq!(state.step_count(), steps);
}

#[test]
fn exhausted_run_keeps_reporting_no_path() {
    let mut g = Grid::new(2, 1);
    g.set_cell(p(1, 0), CellType::Obstacle);
    let (path, mut state) = run(Algorithm::Dfs, &mut g, p(0, 0), p(1, 0));
    assert!(path.is_none());
    assert!(matches!(state.step(&Algorithm::Dfs, p(1, 0), &mut g), StepResult::NoPath));
    assert_eq!(state.last_step_info(), "Stack empty → no path");
}

#[test]
fn first_steps_report_their_decisions() {
    let mut g = Grid::new(5, 5);
    let mut state = PathfindingState::new();
    state.initialize(&Algorithm::Bfs, p(0, 0), p(4, 4));
    assert_eq!(state.g_cost(&p(0, 0)), Some(0));
    assert!(matches!(state.step(&Algorithm::Bfs, p(4, 4), &mut g), StepResult::Continue));
    assert_eq!(state.last_step_info(), "Step 1: pop (0, 0) at distance g=0 (queue=0, closed=1)");
    let log = state.last_neighbors();
    assert_eq!(log.len(), 2);
    assert_eq!(log[0].pos, p(1, 0));
    assert_eq!(log[0].g, Some(1));
    assert_eq!(log[0].decision, "enqueue");
    assert_eq!(log[1].pos, p(0, 1));
    assert_eq!(state.frontier_len(&Algorithm::Bfs), 2);
    assert_eq!(state.current_node(), Some(p(0, 0)));
    assert_eq!(g.get_cell(&p(0, 0)), CellType::Current);
    assert_eq!(g.get_cell(&p(1, 0)), CellType::Frontier);
    assert!(matches!(state.step(&Algorithm::Bfs, p(4, 4), &mut g), StepResult::Continue));
    assert_eq!(state.last_step_info(), "Step 2: pop (1, 0) at distance g=1 (queue=1, closed=2)");
    let log = state.last_neighbors();
    assert_eq!(log.len(), 3);
    assert_eq!(log[2].pos, p(0, 0));
    assert_eq!(log[2].decision, "skip: already seen");
    assert_eq!(log[2].g, None);
    assert_eq!(g.get_cell(&p(0, 0)), CellType::Visited);
}

#[test]
fn astar_reports_costs_and_skips_costlier_entries() {
    let mut g = Grid::new(3, 3);
    let mut state = PathfindingState::new();
    let goal = p(2, 2);
    state.initialize(&Algorithm::AStar, p(0, 0), goal);
    assert_eq!(state.h_cost(&p(0, 0)), Some(4));
    assert_eq!(state.f_cost(&p(0, 0)), Some(4));
    assert!(matches!(state.step(&Algorithm::AStar, goal, &mut g), StepResult::Continue));
    assert_eq!(state.last_step_info(), "Step 1: pop (0, 0) with g=0, h=4, f=4 (0 open, 1 closed)");
    assert_eq!(state.last_neighbors()[0].decision, "push: g=1, h=3, f=4");
    assert_eq!(state.frontier_len(&Algorithm::AStar), 2);
    for _ in 0..3 {
        assert!(matches!(state.step(&Algorithm::AStar, goal, &mut g), StepResult::Continue));
    }
    assert_eq!(state.current_node(), Some(p(2, 1)));
    let log = state.last_neighbors();
    assert_eq!(log.len(), 2);
    assert_eq!(log[0].pos, p(2, 2));
    assert_eq!(log[0].f, Some(4));
    assert_eq!(log[1].pos, p(1, 1));
    assert_eq!(log[1].decision, "skip: existing g=2 ≤ tentative g=4");
    assert_eq!(state.g_cost(&p(1, 1)), Some(2));
    assert_eq!(state.came_from().get(&p(2, 2)), Some(p(2, 1)));
}

#[test]
fn stepping_another_algorithm_finds_no_frontier() {
    let mut g = Grid::new(3, 3);
    let mut state = PathfindingState::new();
    state.initialize(&Algorithm::Bfs, p(0, 0), p(2, 2));
    assert_eq!(state.frontier_len(&Algorithm::AStar), 0);
    assert!(matches!(state.step(&Algorithm::AStar, p(2, 2), &mut g), StepResult::NoPath));
    assert_eq!(state.last_step_info(), "Open set empty → no path");
    assert_eq!(state.step_count(), 0);
}

#[test]
fn astar_discards_stale_entries() {
    let mut g = Grid::new(5, 4);
    g.set_cell(p(3, 3), CellType::Obstacle);
    g.set_cell(p(4, 2), CellType::Obstacle);
    let (path, state) = run(Algorithm::AStar, &mut g, p(0, 0), p(4, 3));
    assert!(path.is_none());
    // 18 walkable cells, 17 of them reachable; each step closes a new one
    assert_eq!(state.closed_set_len(), 17);
    assert_eq!(state.step_count(), 17);
}

#[test]
fn astar_pops_lowest_f_then_lowest_h() {
    let mut g = Grid::new(3, 3);
    let goal = p(2, 2);
    let mut state = PathfindingState::new();
    state.initialize(&Algorithm::AStar, p(0, 0), goal);
    let mut popped = Vec::new();
    loop {
        let r = state.step(&Algorithm::AStar, goal, &mut g);
        popped.push(state.current_node().unwrap());
        if let StepResult::PathFound(path) = r {
            assert_eq!(path, vec![p(0, 0), p(1, 0), p(2, 0), p(2, 1), p(2, 2)]);
            break;
        }
    }
    // every entry has f = 4; among them the lower h goes first, then the earlier entry
    assert_eq!(popped, vec![p(0, 0), p(1, 0), p(2, 0), p(2, 1), p(2, 2)]);
}

#[test]
fn status_line_renders_negative_coordinates() {
    let mut g = Grid::new(2, 1);
    let mut state = PathfindingState::new();
    state.initialize(&Algorithm::Bfs, p(-1, 0), p(0, 0));
    assert!(matches!(state.step(&Algorithm::Bfs, p(0, 0), &mut g), StepResult::Continue));
    assert_eq!(state.last_step_info(), "Step 1: pop (-1, 0) at distance g=0 (queue=0, closed=1)");
    match state.step(&Algorithm::Bfs, p(0, 0), &mut g) {
        StepResult::PathFound(path) => assert_eq!(path, vec![p(-1, 0), p(0, 0)]),
        _ => panic!("expected a path"),
    }
}

#[test]
fn a_run_fits_only_a_grid_without_obstacles_on_it() {
    let mut g = Grid::new(3, 3);
    let mut state = PathfindingState::new();
    state.initialize(&Algorithm::Bfs, p(0, 0), p(2, 2));
    assert!(state.fits_grid(&g));
    assert!(matches!(state.step(&Algorithm::Bfs, p(2, 2), &mut g), StepResult::Continue));
    assert!(state.fits_grid(&g));
    g.set_cell(p(1, 0), CellType::Obstacle);
    assert!(!state.fits_grid(&g));
    let mut other = PathfindingState::new();
    other.initialize(&Algorithm::Dfs, p(1, 0), p(2, 2));
    assert!(!other.fits_grid(&g));
}
