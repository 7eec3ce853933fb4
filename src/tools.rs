use vstd::prelude::*;
use crate::grid::{CellType, Grid};
use crate::position::Position;

verus! {

/// The editing tool that a click on the grid applies.
#[derive(Clone, Copy, Debug, PartialEq, Eq, Structural)]
pub enum Tool {
    SetStart,
    SetGoal,
    AddObstacle,
    RemoveObstacle,
}

impl Tool {
    pub fn description(&self) -> (r: &'static str)
        ensures
            *self == Tool::SetStart ==> r@ == "Set the starting position for the pathfinding algorithm"@,
            *self == Tool::SetGoal ==> r@ == "Set the goal/target position for the pathfinding algorithm"@,
            *self == Tool::AddObstacle ==> r@ == "Add walls/obstacles that block the path"@,
            *self == Tool::RemoveObstacle ==> r@ == "Remove existing walls/obstacles"@,
    {
        match self {
            Tool::SetStart => "Set the starting position for the pathfinding algorithm",
            Tool::SetGoal => "Set the goal/target position for the pathfinding algorithm",
            Tool::AddObstacle => "Add walls/obstacles that block the path",
            Tool::RemoveObstacle => "Remove existing walls/obstacles",
        }
    }

    pub fn icon(&self) -> (r: &'static str)
        ensures
            *self == Tool::SetStart ==> r@ == "🟢"@,
            *self == Tool::SetGoal ==> r@ == "🔴"@,
            *self == Tool::AddObstacle ==> r@ == "⬛"@,
            *self == Tool::RemoveObstacle ==> r@ == "⬜"@,
    {
        match self {
            Tool::SetStart => "🟢",
            Tool::SetGoal => "🔴",
            Tool::AddObstacle => "⬛",
            Tool::RemoveObstacle => "⬜",
        }
    }

    pub fn shortcut_key(&self) -> (r: char)
        ensures
            r == match *self {
                Tool::SetStart => 's',
                Tool::SetGoal => 'g',
                Tool::AddObstacle => 'w',
                Tool::RemoveObstacle => 'e',
            },
    {
        match self {
            Tool::SetStart => 's',
            Tool::SetGoal => 'g',
            Tool::AddObstacle => 'w',
            Tool::RemoveObstacle => 'e',
        }
    }
}

/// Applies `tool` at `pos`, when `pos` lies on the grid. Moving the start or the goal clears
/// its old cell, unless the other endpoint sits there; walls are added only on empty cells and
/// removed only where they stand.
pub fn apply_tool(
    tool: Tool,
    grid: &mut Grid,
    pos: Position,
    start_pos: &mut Option<Position>,
    goal_pos: &mut Option<Position>,
)
    requires
        old(grid).wf(),
    ensures
        final(grid).wf(),
        final(grid)@.width == old(grid)@.width,
        final(grid)@.height == old(grid)@.height,
        !old(grid).in_bounds(pos) ==> final(grid)@ == old(grid)@ && *final(start_pos) == *old(start_pos)
            && *final(goal_pos) == *old(goal_pos),
        old(grid).in_bounds(pos) ==> match tool {
            Tool::SetStart => {
                &&& *final(start_pos) == Some(pos)
                &&& *final(goal_pos) == *old(goal_pos)
                &&& forall|q: Position| #[trigger] final(grid).cell(q) == if q == pos {
                    CellType::Start
                } else if *old(start_pos) == Some(q) && *old(goal_pos) != Some(q) && old(grid).in_bounds(q) {
                    CellType::Empty
                } else {
                    old(grid).cell(q)
                }
            },
            Tool::SetGoal => {
                &&& *final(goal_pos) == Some(pos)
                &&& *final(start_pos) == *old(start_pos)
                &&& forall|q: Position| #[trigger] final(grid).cell(q) == if q == pos {
                    CellType::Goal
                } else if *old(goal_pos) == Some(q) && *old(start_pos) != Some(q) && old(grid).in_bounds(q) {
                    CellType::Empty
                } else {
                    old(grid).cell(q)
                }
            },
            Tool::AddObstacle => {
                &&& *final(start_pos) == *old(start_pos)
                &&& *final(goal_pos) == *old(goal_pos)
                &&& forall|q: Position| #[trigger] final(grid).cell(q) == if q == pos && old(grid).cell(pos) == CellType::Empty {
                    CellType::Obstacle
                } else {
                    old(grid).cell(q)
                }
            },
            Tool::RemoveObstacle => {
                &&& *final(start_pos) == *old(start_pos)
                &&& *final(goal_pos) == *old(goal_pos)
                &&& forall|q: Position| #[trigger] final(grid).cell(q) == if q == pos && old(grid).cell(pos) == CellType::Obstacle {
                    CellType::Empty
                } else {
                    old(grid).cell(q)
                }
            },
        },
{
    if !grid.is_valid_position(&pos) {
        return;
    }
    match tool {
        Tool::SetStart => {
            if let Some(old_start) = *start_pos {
                if *goal_pos != Some(old_start) {
                    grid.set_cell(old_start, CellType::Empty);
                }
            }
            *start_pos = Some(pos);
            grid.set_cell(pos, CellType::Start);
        },
        Tool::SetGoal => {
            if let Some(old_goal) = *goal_pos {
                if *start_pos != Some(old_goal) {
                    grid.set_cell(old_goal, CellType::Empty);
                }
            }
            *goal_pos = Some(pos);
            grid.set_cell(pos, CellType::Goal);
        },
        Tool::AddObstacle => {
            if grid.get_cell(&pos) == CellType::Empty {
                grid.set_cell(pos, CellType::Obstacle);
            }
        },
        Tool::RemoveObstacle => {
            if grid.get_cell(&pos) == CellType::Obstacle {
                grid.set_cell(pos, CellType::Empty);
            }
        },
    }
}

} // verus!
