use robonav::grid::{CellType, Grid};
use robonav::position::Position;
use robonav::tools::{apply_tool, Tool};

#[test]
fn new_grid_is_empty() {
    let g = Grid::new(3, 2);
    assert_eq!(g.width, 3);
    assert_eq!(g.height, 2);
    for y in 0..2 {
        for x in 0..3 {
            assert_eq!(g.get_cell(&Position::new(x, y)), CellType::Empty);
        }
    }
}

#[test]
fn outside_cells_are_obstacles() {
    let g = Grid::new(3, 2);
    assert_eq!(g.get_cell(&Position::new(3, 0)), CellType::Obstacle);
    assert_eq!(g.get_cell(&Position::new(-1, 0)), CellType::Obstacle);
    assert!(!g.is_valid_position(&Position::new(0, 2)));
    assert!(!g.is_walkable(&Position::new(0, -1)));
}

#[test]
fn set_cell_ignores_outside_positions() {
    let mut g = Grid::new(2, 2);
    g.set_cell(Position::new(1, 1), CellType::Obstacle);
    g.set_cell(Position::new(5, 5), CellType::Goal);
    assert_eq!(g.get_cell(&Position::new(1, 1)), CellType::Obstacle);
    assert!(!g.is_walkable(&Position::new(1, 1)));
    assert!(g.is_walkable(&Position::new(0, 1)));
}

#[test]
fn walkable_neighbors_keep_order_and_skip_obstacles() {
    let mut g = Grid::new(3, 3);
    let c = Position::new(1, 1);
    assert_eq!(
        g.get_walkable_neighbors(&c),
        vec![Position::new(1, 0), Position::new(2, 1), Position::new(1, 2), Position::new(0, 1)]
    );
    g.set_cell(Position::new(2, 1), CellType::Obstacle);
    assert_eq!(
        g.get_walkable_neighbors(&c),
        vec![Position::new(1, 0), Position::new(1, 2), Position::new(0, 1)]
    );
    assert_eq!(g.get_walkable_neighbors(&Position::new(0, 0)), vec![Position::new(1, 0), Position::new(0, 1)]);
}

#[test]
fn frontier_marks_only_empty_non_endpoint_cells() {
    let mut g = Grid::new(3, 1);
    g.set_cell(Position::new(1, 0), CellType::Visited);
    let ps = [Position::new(0, 0), Position::new(1, 0), Position::new(2, 0)];
    g.mark_frontier(&ps, None, Some(Position::new(2, 0)));
    assert_eq!(g.get_cell(&Position::new(0, 0)), CellType::Frontier);
    assert_eq!(g.get_cell(&Position::new(1, 0)), CellType::Visited);
    assert_eq!(g.get_cell(&Position::new(2, 0)), CellType::Empty);
}

#[test]
fn visited_marks_empty_and_frontier_cells() {
    let mut g = Grid::new(4, 1);
    g.set_cell(Position::new(1, 0), CellType::Frontier);
    g.set_cell(Position::new(2, 0), CellType::Start);
    g.set_cell(Position::new(3, 0), CellType::Current);
    let ps = [Position::new(0, 0), Position::new(1, 0), Position::new(2, 0), Position::new(3, 0)];
    g.mark_visited(&ps, Some(Position::new(0, 0)), None);
    // an endpoint keeps an empty cell as it is, a frontier cell becomes visited regardless
    assert_eq!(g.get_cell(&Position::new(0, 0)), CellType::Empty);
    assert_eq!(g.get_cell(&Position::new(1, 0)), CellType::Visited);
    assert_eq!(g.get_cell(&Position::new(2, 0)), CellType::Start);
    assert_eq!(g.get_cell(&Position::new(3, 0)), CellType::Current);
}

#[test]
fn current_and_previous_marks_spare_endpoints() {
    let mut g = Grid::new(3, 1);
    g.set_cell(Position::new(0, 0), CellType::Start);
    g.mark_current(Position::new(0, 0));
    assert_eq!(g.get_cell(&Position::new(0, 0)), CellType::Start);
    g.mark_current(Position::new(1, 0));
    assert_eq!(g.get_cell(&Position::new(1, 0)), CellType::Current);
    g.mark_previous_node_as_visited(Position::new(1, 0));
    assert_eq!(g.get_cell(&Position::new(1, 0)), CellType::Visited);
    g.set_cell(Position::new(2, 0), CellType::Obstacle);
    g.mark_current(Position::new(2, 0));
    assert_eq!(g.get_cell(&Position::new(2, 0)), CellType::Current);
    g.set_cell(Position::new(2, 0), CellType::Obstacle);
    g.mark_previous_node_as_visited(Position::new(2, 0));
    assert_eq!(g.get_cell(&Position::new(2, 0)), CellType::Visited);
}

#[test]
fn path_marks_skip_endpoints_and_clear_resets_overlays() {
    let mut g = Grid::new(4, 1);
    g.set_cell(Position::new(3, 0), CellType::Obstacle);
    let path = [Position::new(0, 0), Position::new(1, 0), Position::new(2, 0)];
    g.mark_path(&path, Some(Position::new(0, 0)), Some(Position::new(2, 0)));
    assert_eq!(g.get_cell(&Position::new(0, 0)), CellType::Empty);
    assert_eq!(g.get_cell(&Position::new(1, 0)), CellType::Path);
    assert_eq!(g.get_cell(&Position::new(2, 0)), CellType::Empty);
    g.mark_current(Position::new(2, 0));
    g.clear_pathfinding_cells();
    assert_eq!(g.get_cell(&Position::new(1, 0)), CellType::Empty);
    assert_eq!(g.get_cell(&Position::new(2, 0)), CellType::Empty);
    assert_eq!(g.get_cell(&Position::new(3, 0)), CellType::Obstacle);
}

#[test]
fn tools_move_endpoints_and_edit_walls() {
    let mut g = Grid::new(3, 3);
    let mut start = None;
    let mut goal = None;
    apply_tool(Tool::SetStart, &mut g, Position::new(0, 0), &mut start, &mut goal);
    apply_tool(Tool::SetGoal, &mut g, Position::new(2, 2), &mut start, &mut goal);
    assert_eq!(start, Some(Position::new(0, 0)));
    assert_eq!(g.get_cell(&Position::new(2, 2)), CellType::Goal);
    apply_tool(Tool::SetStart, &mut g, Position::new(1, 0), &mut start, &mut goal);
    assert_eq!(g.get_cell(&Position::new(0, 0)), CellType::Empty);
    assert_eq!(g.get_cell(&Position::new(1, 0)), CellType::Start);
    // moving the start off the goal's position leaves that cell as it is
    apply_tool(Tool::SetStart, &mut g, Position::new(2, 2), &mut start, &mut goal);
    apply_tool(Tool::SetStart, &mut g, Position::new(0, 1), &mut start, &mut goal);
    assert_eq!(g.get_cell(&Position::new(2, 2)), CellType::Start);
    assert_eq!(goal, Some(Position::new(2, 2)));
    apply_tool(Tool::AddObstacle, &mut g, Position::new(1, 1), &mut start, &mut goal);
    apply_tool(Tool::AddObstacle, &mut g, Position::new(0, 1), &mut start, &mut goal);
    assert_eq!(g.get_cell(&Position::new(1, 1)), CellType::Obstacle);
    assert_eq!(g.get_cell(&Position::new(0, 1)), CellType::Start);
    apply_tool(Tool::RemoveObstacle, &mut g, Position::new(1, 1), &mut start, &mut goal);
    assert_eq!(g.get_cell(&Position::new(1, 1)), CellType::Empty);
    apply_tool(Tool::SetGoal, &mut g, Position::new(5, 5), &mut start, &mut goal);
    assert_eq!(goal, Some(Position::new(2, 2)));
}
