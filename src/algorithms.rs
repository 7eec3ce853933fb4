use vstd::prelude::*;

verus! {

/// The search strategy of a run.
#[derive(Clone, Copy, Debug, PartialEq, Eq, Structural)]
pub enum Algorithm {
    AStar,
    Bfs,
    Dfs,
}

impl Algorithm {
    /// A short explanation of the strategy, for display.
    pub fn description(&self) -> (r: &'static str)
        ensures
            *self == Algorithm::AStar ==> r@ == "A* (A-star) is an informed search algorithm that uses both the actual distance from start (g) and a heuristic estimate to goal (h). It guarantees finding the optimal path while being efficient by exploring the most promising nodes first. Uses f = g + h to prioritize nodes."@,
            *self == Algorithm::Bfs ==> r@ == "Breadth-First Search (BFS) explores all nodes at depth d before exploring nodes at depth d+1. It guarantees finding the shortest path in unweighted graphs. Uses a queue (FIFO) to maintain frontier nodes, ensuring systematic layer-by-layer exploration."@,
            *self == Algorithm::Dfs ==> r@ == "Depth-First Search (DFS) explores as far as possible along each branch before backtracking. It doesn't guarantee the optimal path but uses less memory. Uses a stack (LIFO) to maintain frontier nodes, diving deep before exploring alternatives."@,
    {
        match self {
            Algorithm::AStar => {
                "A* (A-star) is an informed search algorithm that uses both the actual distance from start (g) and a heuristic estimate to goal (h). It guarantees finding the optimal path while being efficient by exploring the most promising nodes first. Uses f = g + h to prioritize nodes."
            },
            Algorithm::Bfs => {
                "Breadth-First Search (BFS) explores all nodes at depth d before exploring nodes at depth d+1. It guarantees finding the shortest path in unweighted graphs. Uses a queue (FIFO) to maintain frontier nodes, ensuring systematic layer-by-layer exploration."
            },
            Algorithm::Dfs => {
                "Depth-First Search (DFS) explores as far as possible along each branch before backtracking. It doesn't guarantee the optimal path but uses less memory. Uses a stack (LIFO) to maintain frontier nodes, diving deep before exploring alternatives."
            },
        }
    }
}

} // verus!
