use vstd::prelude::*;
use std::collections::VecDeque;
use crate::algorithms::Algorithm;
use crate::collections::{PositionMap, PositionSet};
use crate::node::{Node, served_before};
use crate::position::{Position, adjacent, manhattan};
use crate::grid::{
    CellType, Grid, is_endpoint, not_endpoint, lemma_same_terrain_neighbors, lemma_walkable_cells_finite, lemma_walkable_neighbors,
};
use crate::text::{append_int, append_usize, decimal, digits};
use crate::bfs_optimality::{bfs_layered, lemma_bfs_layered_step};
use crate::astar_optimality::{astar_ok, lemma_astar_ok_step};

verus! {

/// One record of the neighbour log: a neighbour considered in the last step, the costs it
/// was given (if any), and what was decided.
#[derive(Debug)]
pub struct NeighborInfo {
    pub pos: Position,
    pub g: Option<i32>,
    pub h: Option<i32>,
    pub f: Option<i32>,
    pub decision: String,
}

/// What one step produced.
pub enum StepResult {
    /// The goal has not been reached and the frontier is not exhausted.
    Continue,
    /// The goal was just expanded; the path runs from the start to the goal, both included.
    PathFound(Vec<Position>),
    /// The frontier was empty.
    NoPath,
}

/// The bookkeeping of one search run, advanced one expansion at a time.
pub struct PathfindingState {
    open_set: Vec<Node>,
    bfs_queue: VecDeque<Position>,
    dfs_stack: Vec<Position>,
    closed_set: PositionSet,
    came_from: PositionMap<Position>,
    g_costs: PositionMap<i32>,
    h_costs: PositionMap<i32>,
    f_costs: PositionMap<i32>,
    current_node: Option<Position>,
    step_count: usize,
    last_step_info: String,
    last_neighbors: Vec<NeighborInfo>,
    previous_node: Option<Position>,
    reached: Option<Position>,
    start: Position,
    goal: Ghost<Position>,
    algorithm: Ghost<Algorithm>,
}

/// The mathematical state of a run.
pub ghost struct SearchView {
    /// A* frontier, in storage order.
    pub open: Seq<Node>,
    /// BFS frontier, front first.
    pub queue: Seq<Position>,
    /// DFS frontier, top last.
    pub stack: Seq<Position>,
    pub closed: Set<Position>,
    pub came_from: Map<Position, Position>,
    pub g: Map<Position, i32>,
    pub h: Map<Position, i32>,
    pub f: Map<Position, i32>,
    pub current: Option<Position>,
    pub previous: Option<Position>,
    pub steps: nat,
    pub info: Seq<char>,
    pub log: Seq<NeighborInfo>,
    /// The goal, once a step has returned a path to it.
    pub reached: Option<Position>,
    /// The start of the run.
    pub start: Position,
    /// The goal the run was initialized with.
    pub goal: Position,
    /// The strategy the run was initialized for.
    pub algorithm: Algorithm,
}

/// Largest coordinate magnitude for which every cost fits in `i32`.
pub const COORD_LIMIT: i32 = 0x1000_0000;

/// Largest number of steps for which every cost fits in `i32`.
pub const STEP_LIMIT: usize = 0x3fff_fff0;

/// Coordinates small enough that Manhattan distances and `f` costs fit in `i32`.
pub open spec fn in_cost_range(p: Position) -> bool {
    -COORD_LIMIT <= p.x <= COORD_LIMIT && -COORD_LIMIT <= p.y <= COORD_LIMIT
}

/// A grid whose cells all lie within the cost range.
pub open spec fn grid_in_cost_range(grid: &Grid) -> bool {
    grid@.width <= COORD_LIMIT && grid@.height <= COORD_LIMIT
}

/// `p` is the start or has been reached from another position.
pub open spec fn discovered(v: SearchView, p: Position) -> bool {
    p == v.start || v.came_from.dom().contains(p)
}

/// The back-pointer tree: every child is adjacent to its parent, the parent is closed and
/// itself discovered, and the child's recorded cost exceeds the parent's.
pub open spec fn tree_ok(v: SearchView) -> bool {
    &&& !v.came_from.dom().contains(v.start)
    &&& forall|c: Position| #[trigger] v.came_from.dom().contains(c) ==> {
        let p = v.came_from[c];
        &&& adjacent(c, p)
        &&& v.closed.contains(p)
        &&& discovered(v, p)
        &&& v.g.dom().contains(c)
        &&& v.g.dom().contains(p)
        &&& v.g[p] < v.g[c]
    }
}

/// Costs are between zero and the step count, and only discovered positions have them.
pub open spec fn costs_ok(v: SearchView) -> bool {
    forall|p: Position| #[trigger] v.g.dom().contains(p) ==> 0 <= v.g[p] <= v.steps && discovered(v, p)
}

/// Every frontier element is discovered and has a cost; an A* entry's cost is at least
/// the recorded one. Only the frontier of the run's strategy is used.
pub open spec fn frontier_ok(v: SearchView) -> bool {
    &&& forall|i: int| 0 <= i < v.open.len() ==> {
        let e = #[trigger] v.open[i];
        &&& discovered(v, e.position)
        &&& v.g.dom().contains(e.position)
        &&& v.g[e.position] <= e.g_cost <= v.steps
    }
    &&& forall|i: int| 0 <= i < v.queue.len() ==> discovered(v, #[trigger] v.queue[i]) && v.g.dom().contains(v.queue[i])
    &&& forall|i: int| 0 <= i < v.stack.len() ==> discovered(v, #[trigger] v.stack[i]) && v.g.dom().contains(v.stack[i])
    &&& v.algorithm != Algorithm::AStar ==> v.open.len() == 0
    &&& v.algorithm != Algorithm::Bfs ==> v.queue.len() == 0
    &&& v.algorithm != Algorithm::Dfs ==> v.stack.len() == 0
}

/// Before the start is expanded nothing else is known, and every frontier element is the start.
pub open spec fn start_ok(v: SearchView) -> bool {
    &&& forall|p: Position| #[trigger] v.closed.contains(p) ==> discovered(v, p)
    &&& !v.closed.contains(v.start) ==> {
        &&& v.came_from.dom().is_empty()
        &&& forall|i: int| 0 <= i < v.open.len() ==> (#[trigger] v.open[i]).position == v.start
        &&& forall|i: int| 0 <= i < v.queue.len() ==> #[trigger] v.queue[i] == v.start
        &&& forall|i: int| 0 <= i < v.stack.len() ==> #[trigger] v.stack[i] == v.start
    }
}

/// For BFS and DFS each child costs one more than its parent, and the frontier holds
/// distinct positions that are not closed.
pub open spec fn uninformed_ok(v: SearchView) -> bool {
    v.algorithm != Algorithm::AStar ==> {
        &&& forall|c: Position| #[trigger] v.came_from.dom().contains(c) ==> v.g[c] == v.g[v.came_from[c]] + 1
        &&& v.queue.no_duplicates()
        &&& v.stack.no_duplicates()
        &&& forall|i: int| 0 <= i < v.queue.len() ==> !v.closed.contains(#[trigger] v.queue[i])
        &&& forall|i: int| 0 <= i < v.stack.len() ==> !v.closed.contains(#[trigger] v.stack[i])
    }
}

/// The invariant of a run.
#[verifier::opaque]
pub open spec fn search_ok(v: SearchView) -> bool {
    &&& tree_ok(v)
    &&& costs_ok(v)
    &&& frontier_ok(v)
    &&& start_ok(v)
    &&& uninformed_ok(v)
    &&& (v.reached matches Some(g) ==> discovered(v, g))
    &&& (v.previous matches Some(p) ==> v.closed.contains(p))
    &&& v.closed.finite()
    &&& v.steps == v.closed.len()
}

/// Every position that received a parent is walkable in `grid`.
pub open spec fn consistent_with(v: SearchView, grid: &Grid) -> bool {
    forall|c: Position| #[trigger] v.came_from.dom().contains(c) ==> grid.walkable(c)
}

/// The cell of the previously current position `previous`, other than `cur`, is marked
/// `Visited` in `g1` unless it lies outside or holds an endpoint in `g0`.
pub open spec fn aged(previous: Option<Position>, cur: Position, g0: &Grid, g1: &Grid) -> bool {
    previous is Some ==> {
        let q = previous->0;
        q != cur && g0.in_bounds(q) && !is_endpoint(g0.cell(q)) ==> g1.cell(q) == CellType::Visited
    }
}

/// The run fits `grid`: every position that received a parent is walkable, and the start
/// holds no obstacle. Then the positions a step marks hold no obstacle, and marking leaves the
/// terrain as it is.
pub open spec fn fits(v: SearchView, grid: &Grid) -> bool {
    consistent_with(v, grid) && grid.no_obstacle_at(v.start)
}

/// `path` runs from `start` to `goal` along back pointers: each element is the parent of
/// the next, and only the first has no parent.
pub open spec fn traces_back(cf: Map<Position, Position>, start: Position, goal: Position, path: Seq<Position>) -> bool {
    &&& path.len() >= 1
    &&& path[0] == start
    &&& path.last() == goal
    &&& !cf.dom().contains(path[0])
    &&& forall|i: int| 1 <= i < path.len() ==> cf.dom().contains(#[trigger] path[i]) && cf[path[i]] == path[i - 1]
}

/// The state right after `initialize`.
pub open spec fn initial_view(v: SearchView, algorithm: Algorithm, start: Position, goal: Position) -> bool {
    &&& v.open == (if algorithm == Algorithm::AStar {
        seq![Node { position: start, g_cost: 0, h_cost: manhattan(start, goal) as i32 }]
    } else {
        Seq::<Node>::empty()
    })
    &&& v.queue == (if algorithm == Algorithm::Bfs { seq![start] } else { Seq::<Position>::empty() })
    &&& v.stack == (if algorithm == Algorithm::Dfs { seq![start] } else { Seq::<Position>::empty() })
    &&& v.closed == Set::<Position>::empty()
    &&& v.came_from == Map::<Position, Position>::empty()
    &&& v.g == map![start => 0i32]
    &&& v.h == (if algorithm == Algorithm::AStar {
        map![start => manhattan(start, goal) as i32]
    } else {
        Map::<Position, i32>::empty()
    })
    &&& v.f == (if algorithm == Algorithm::AStar {
        map![start => manhattan(start, goal) as i32]
    } else {
        Map::<Position, i32>::empty()
    })
    &&& v.current == None::<Position>
    &&& v.previous == None::<Position>
    &&& v.steps == 0
    &&& v.info.len() == 0
    &&& v.log.len() == 0
    &&& v.reached == None::<Position>
    &&& v.start == start
    &&& v.goal == goal
    &&& v.algorithm == algorithm
}

/// The status line after a BFS or DFS pop.
pub open spec fn uninformed_line(dfs: bool, step: nat, p: Position, g: int, frontier: nat, closed: nat) -> Seq<char> {
    "Step "@ + digits(step) + ": pop ("@ + decimal(p.x as int) + ", "@ + decimal(p.y as int) + (if dfs {
        ") depth g="@
    } else {
        ") at distance g="@
    }) + decimal(g) + (if dfs { " (stack="@ } else { " (queue="@ }) + digits(frontier) + ", closed="@
        + digits(closed) + ")"@
}

/// The status line after an A* pop.
pub open spec fn informed_line(step: nat, n: Node, open: nat, closed: nat) -> Seq<char> {
    "Step "@ + digits(step) + ": pop ("@ + decimal(n.position.x as int) + ", "@ + decimal(n.position.y as int)
        + ") with g="@ + decimal(n.g_cost as int) + ", h="@ + decimal(n.h_cost as int) + ", f="@ + decimal(
        n.g_cost + n.h_cost,
    ) + " ("@ + digits(open) + " open, "@ + digits(closed) + " closed)"@
}

fn uninformed_text(dfs: bool, step: usize, p: Position, g: i32, frontier: usize, closed: usize) -> (r: String)
    ensures
        r@ == uninformed_line(dfs, step as nat, p, g as int, frontier as nat, closed as nat),
{
    let mut s = String::from_str("Step ");
    append_usize(&mut s, step);
    s.append(": pop (");
    append_int(&mut s, p.x as i64);
    s.append(", ");
    append_int(&mut s, p.y as i64);
    if dfs {
        s.append(") depth g=");
    } else {
        s.append(") at distance g=");
    }
    append_int(&mut s, g as i64);
    if dfs {
        s.append(" (stack=");
    } else {
        s.append(" (queue=");
    }
    append_usize(&mut s, frontier);
    s.append(", closed=");
    append_usize(&mut s, closed);
    s.append(")");
    s
}

fn informed_text(step: usize, n: Node, open: usize, closed: usize) -> (r: String)
    ensures
        r@ == informed_line(step as nat, n, open as nat, closed as nat),
{
    let mut s = String::from_str("Step ");
    append_usize(&mut s, step);
    s.append(": pop (");
    append_int(&mut s, n.position.x as i64);
    s.append(", ");
    append_int(&mut s, n.position.y as i64);
    s.append(") with g=");
    append_int(&mut s, n.g_cost as i64);
    s.append(", h=");
    append_int(&mut s, n.h_cost as i64);
    s.append(", f=");
    append_int(&mut s, n.g_cost as i64 + n.h_cost as i64);
    s.append(" (");
    append_usize(&mut s, open);
    s.append(" open, ");
    append_usize(&mut s, closed);
    s.append(" closed)");
    s
}

/// A neighbour that BFS and DFS admit: neither expanded (`cur` is being expanded) nor
/// discovered before.
pub open spec fn unseen(v: SearchView, cur: Position, n: Position) -> bool {
    !v.closed.contains(n) && n != cur && !v.came_from.dom().contains(n)
}

/// The decision BFS or DFS records for a neighbour.
pub open spec fn uninformed_decision(dfs: bool, admitted: bool) -> Seq<char> {
    if !admitted {
        "skip: already seen"@
    } else if dfs {
        "push"@
    } else {
        "enqueue"@
    }
}

/// The neighbours of `cur` that BFS or DFS admit, in the order they are considered.
pub open spec fn admitted_unseen(v: SearchView, cur: Position, nbrs: Seq<Position>) -> Seq<Position> {
    nbrs.filter(|n: Position| unseen(v, cur, n))
}

/// `m` extended with `value` at every element of `keys`.
pub open spec fn extend_all<V>(m: Map<Position, V>, keys: Seq<Position>, value: V) -> Map<Position, V> {
    m.union_prefer_right(Map::new(|k: Position| keys.contains(k), |k: Position| value))
}

/// The neighbours of `cur` in the order BFS (north first) or DFS (reversed) considers them.
pub open spec fn considered(grid: &Grid, cur: Position, dfs: bool) -> Seq<Position> {
    if dfs {
        grid.walkable_neighbors(cur).reverse()
    } else {
        grid.walkable_neighbors(cur)
    }
}

proof fn lemma_push_contains(keys: Seq<Position>, n: Position, k: Position)
    ensures
        keys.push(n).contains(k) == (keys.contains(k) || k == n),
{
    if keys.contains(k) {
        let j = choose|j: int| 0 <= j < keys.len() && keys[j] == k;
        assert(keys.push(n)[j] == k);
    }
    if k == n {
        assert(keys.push(n)[keys.len() as int] == k);
    }
    if keys.push(n).contains(k) && k != n {
        let j = choose|j: int| 0 <= j < keys.len() + 1 && keys.push(n)[j] == k;
        assert(j < keys.len());
        assert(keys[j] == k);
    }
}

proof fn lemma_extend_push<V>(m: Map<Position, V>, keys: Seq<Position>, n: Position, value: V)
    ensures
        extend_all(m, keys.push(n), value) == extend_all(m, keys, value).insert(n, value),
{
    let a = extend_all(m, keys.push(n), value);
    let b = extend_all(m, keys, value).insert(n, value);
    let na = Map::new(|k: Position| keys.push(n).contains(k), |k: Position| value);
    let nb = Map::new(|k: Position| keys.contains(k), |k: Position| value);
    assert forall|k: Position| #[trigger] a.dom().contains(k) == b.dom().contains(k) by {
        lemma_push_contains(keys, n, k);
        assert(na.dom().contains(k) == keys.push(n).contains(k));
        assert(nb.dom().contains(k) == keys.contains(k));
    }
    assert(a.dom() =~= b.dom());
    assert forall|k: Position| #[trigger] a.dom().contains(k) implies a[k] == b[k] by {
        lemma_push_contains(keys, n, k);
        assert(na.dom().contains(k) == keys.push(n).contains(k));
        assert(nb.dom().contains(k) == keys.contains(k));
    }
    assert(a =~= b);
}

/// The frontier that BFS (queue) or DFS (stack) uses.
pub open spec fn uninformed_frontier(v: SearchView, dfs: bool) -> Seq<Position> {
    if dfs {
        v.stack
    } else {
        v.queue
    }
}

/// The position that BFS takes from the front of its queue, or DFS from the top of its stack.
pub open spec fn uninformed_next(v: SearchView, dfs: bool) -> Position {
    if dfs {
        v.stack.last()
    } else {
        v.queue[0]
    }
}

/// The BFS or DFS frontier once its next position is taken out.
pub open spec fn uninformed_rest(v: SearchView, dfs: bool) -> Seq<Position> {
    if dfs {
        v.stack.drop_last()
    } else {
        v.queue.drop_first()
    }
}

/// One BFS (`dfs == false`) or DFS (`dfs == true`) step from `v0` on grid `g0` to `v1` on
/// grid `g1`, with outcome `r`: an empty frontier gives `NoPath`; otherwise the next position
/// is closed, and either it is the goal and the path is returned, or its unseen walkable
/// neighbours are admitted.
pub open spec fn uninformed_step(v0: SearchView, v1: SearchView, g0: &Grid, g1: &Grid, goal: Position, dfs: bool, r: StepResult) -> bool {
    &&& uninformed_frontier(v0, dfs).len() == 0 ==> {
        &&& r is NoPath
        &&& v1 == (SearchView { info: v1.info, ..v0 })
        &&& v1.info == (if dfs { "Stack empty → no path"@ } else { "Queue empty → no path"@ })
        &&& g1@ == g0@
    }
    &&& uninformed_frontier(v0, dfs).len() > 0 ==> {
        let cur = uninformed_next(v0, dfs);
        let nbrs = considered(g0, cur, dfs);
        let adm = admitted_unseen(v0, cur, nbrs);
        let g = v0.g[cur];
        &&& v1.closed == v0.closed.insert(cur)
        &&& v1.current == Some(cur)
        &&& v1.previous == Some(cur)
        &&& v1.steps == v0.steps + 1
        &&& v1.open == v0.open
        &&& uninformed_frontier(v1, !dfs) == uninformed_frontier(v0, !dfs)
        &&& v1.h == v0.h
        &&& v1.f == v0.f
        &&& v1.start == v0.start
        &&& v1.goal == v0.goal
        &&& v1.algorithm == v0.algorithm
        &&& v1.info == uninformed_line(
            dfs,
            v1.steps,
            cur,
            g as int,
            uninformed_rest(v0, dfs).len(),
            v1.closed.len(),
        )
        &&& g0.in_bounds(cur) && !is_endpoint(g0.cell(cur)) ==> g1.cell(cur) == CellType::Current
        &&& aged(v0.previous, cur, g0, g1)
        &&& cur == goal ==> {
            &&& r matches StepResult::PathFound(path) && traces_back(v1.came_from, v1.start, goal, path@)
            &&& v1.reached == Some(goal)
            &&& forall|q: Position| #[trigger] g1.cell(q) != g0.cell(q) ==> q == cur || Some(q) == v0.previous
            &&& uninformed_frontier(v1, dfs) == uninformed_rest(v0, dfs)
            &&& v1.came_from == v0.came_from
            &&& v1.g == v0.g
            &&& v1.log.len() == 0
        }
        &&& cur != goal ==> {
            &&& r is Continue
            &&& v1.reached == v0.reached
            &&& forall|q: Position| #[trigger] g1.cell(q) != g0.cell(q) ==> q == cur || adm.contains(q) || v1.closed.contains(q)
            &&& forall|n: Position| #[trigger] adm.contains(n) ==> g1.cell(n) == (if g0.cell(n) == CellType::Empty {
                CellType::Frontier
            } else {
                g0.cell(n)
            })
            &&& forall|c: Position| #[trigger] v1.closed.contains(c) && c != cur && (g0.cell(c) == CellType::Empty
                || g0.cell(c) == CellType::Frontier) ==> g1.cell(c) == CellType::Visited
            &&& uninformed_frontier(v1, dfs) == uninformed_rest(v0, dfs) + adm
            &&& v1.came_from == extend_all(v0.came_from, adm, cur)
            &&& v1.g == extend_all(v0.g, adm, (g + 1) as i32)
            &&& v1.log.len() == nbrs.len()
            &&& forall|j: int| 0 <= j < nbrs.len() ==> {
                let e = #[trigger] v1.log[j];
                &&& e.pos == nbrs[j]
                &&& e.g == if unseen(v0, cur, nbrs[j]) { Some((g + 1) as i32) } else { None::<i32> }
                &&& e.decision@ == uninformed_decision(dfs, unseen(v0, cur, nbrs[j]))
                &&& e.h == None::<i32>
                &&& e.f == None::<i32>
            }
        }
    }
}

/// `k` is the first frontier entry that no other entry is served before.
pub open spec fn is_first_min(open: Seq<Node>, k: int) -> bool {
    &&& 0 <= k < open.len()
    &&& forall|j: int| 0 <= j < open.len() ==> !served_before(#[trigger] open[j], open[k])
    &&& forall|j: int| 0 <= j < k ==> served_before(open[k], #[trigger] open[j])
}

/// The index of the entry that A* pops.
pub open spec fn first_min(open: Seq<Node>) -> int {
    choose|k: int| is_first_min(open, k)
}

/// The A* frontier once stale entries are discarded: while the entry that would be popped
/// belongs to a closed position, it is removed.
pub open spec fn skip_stale(open: Seq<Node>, closed: Set<Position>) -> Seq<Node>
    decreases open.len(),
{
    if open.len() > 0 && 0 <= first_min(open) < open.len() && closed.contains(open[first_min(open)].position) {
        skip_stale(open.remove(first_min(open)), closed)
    } else {
        open
    }
}

/// The run with its stale A* entries discarded.
pub open spec fn pruned(v: SearchView) -> SearchView {
    SearchView { open: skip_stale(v.open, v.closed), ..v }
}

/// One A* step from `v0` on grid `g0` to `v1` on grid `g1`, with outcome `r`: the stale
/// entries are discarded first, then the step expands as `expansion_step` says.
pub open spec fn informed_step(v0: SearchView, v1: SearchView, g0: &Grid, g1: &Grid, goal: Position, r: StepResult) -> bool {
    expansion_step(pruned(v0), v1, g0, g1, goal, r)
}

/// One A* expansion from `v0`, whose next entry is not stale: an empty frontier gives
/// `NoPath`; otherwise the first entry with the lowest `(f, h)` is popped and its position
/// closed, and either it is the goal and the path is returned, or each walkable neighbour
/// that is not closed is admitted with cost `g + 1` unless a frontier entry for it already has
/// a cost of at most `g + 1`.
pub open spec fn expansion_step(v0: SearchView, v1: SearchView, g0: &Grid, g1: &Grid, goal: Position, r: StepResult) -> bool {
    &&& v0.open.len() == 0 ==> {
        &&& r is NoPath
        &&& v1 == (SearchView { info: v1.info, ..v0 })
        &&& v1.info == "Open set empty → no path"@
        &&& g1@ == g0@
    }
    &&& v0.open.len() > 0 ==> {
        let k = first_min(v0.open);
        let e = v0.open[k];
        let cur = e.position;
        let rest = v0.open.remove(k);
        let tg = e.g_cost + 1;
        let cands = unclosed(v0.closed.insert(cur), g0.walkable_neighbors(cur));
        let adm = admitted_informed(rest, cands, tg);
        &&& is_first_min(v0.open, k)
        &&& !v0.closed.contains(cur)
        &&& v1.closed == v0.closed.insert(cur)
        &&& v1.current == Some(cur)
        &&& v1.previous == Some(cur)
        &&& v1.steps == v0.steps + 1
        &&& v1.queue == v0.queue
        &&& v1.stack == v0.stack
        &&& v1.start == v0.start
        &&& v1.goal == v0.goal
        &&& v1.algorithm == v0.algorithm
        &&& v1.info == informed_line(v1.steps, e, rest.len(), v1.closed.len())
        &&& g0.in_bounds(cur) && !is_endpoint(g0.cell(cur)) ==> g1.cell(cur) == CellType::Current
        &&& aged(v0.previous, cur, g0, g1)
        &&& cur == goal ==> {
            &&& r matches StepResult::PathFound(path) && traces_back(v1.came_from, v1.start, goal, path@)
            &&& v1.reached == Some(goal)
            &&& forall|q: Position| #[trigger] g1.cell(q) != g0.cell(q) ==> q == cur || Some(q) == v0.previous
            &&& v1.open == rest
            &&& v1.came_from == v0.came_from
            &&& v1.g == v0.g
            &&& v1.h == v0.h
            &&& v1.f == v0.f
            &&& v1.log.len() == 0
        }
        &&& cur != goal ==> {
            &&& r is Continue
            &&& v1.reached == v0.reached
            &&& forall|q: Position| #[trigger] g1.cell(q) != g0.cell(q) ==> q == cur || adm.contains(q) || v1.closed.contains(q)
            &&& forall|n: Position| #[trigger] adm.contains(n) ==> g1.cell(n) == (if g0.cell(n) == CellType::Empty {
                CellType::Frontier
            } else {
                g0.cell(n)
            })
            &&& forall|c: Position| #[trigger] v1.closed.contains(c) && c != cur && (g0.cell(c) == CellType::Empty
                || g0.cell(c) == CellType::Frontier) ==> g1.cell(c) == CellType::Visited
            &&& v1.open == rest + as_nodes(adm, tg, goal)
            &&& v1.came_from == extend_all(v0.came_from, adm, cur)
            &&& v1.g == extend_all(v0.g, adm, tg as i32)
            &&& v1.h == extend_by(v0.h, adm, h_for(goal))
            &&& v1.f == extend_by(v0.f, adm, f_for(tg, goal))
            &&& v1.log.len() == cands.len()
            &&& forall|j: int| 0 <= j < cands.len() ==> {
                let n = #[trigger] v1.log[j];
                &&& n.pos == cands[j]
                &&& n.g == Some(tg as i32)
                &&& n.h == Some(manhattan(cands[j], goal) as i32)
                &&& n.f == Some((tg + manhattan(cands[j], goal)) as i32)
                &&& n.decision@ == informed_decision(rest, cands[j], tg, goal)
            }
        }
    }
}

fn reversed(v: &Vec<Position>) -> (r: Vec<Position>)
    ensures
        r@ == v@.reverse(),
{
    let mut r: Vec<Position> = Vec::new();
    let mut k: usize = v.len();
    while k > 0
        invariant
            k <= v@.len(),
            r@.len() == v@.len() - k,
            forall|i: int| 0 <= i < r@.len() ==> #[trigger] r@[i] == v@[v@.len() - 1 - i],
        decreases k,
    {
        k = k - 1;
        r.push(v[k]);
    }
    assert(r@ =~= v@.reverse());
    r
}

/// Some frontier entry for `n` already has a cost of at most `g`.
pub open spec fn blocked(open: Seq<Node>, n: Position, g: int) -> bool {
    exists|i: int| 0 <= i < open.len() && (#[trigger] open[i]).position == n && open[i].g_cost <= g
}

/// Entry `i` is the first frontier entry for `n` whose cost is at most `g`.
pub open spec fn is_first_blocker(open: Seq<Node>, n: Position, g: int, i: int) -> bool {
    &&& 0 <= i < open.len()
    &&& open[i].position == n
    &&& open[i].g_cost <= g
    &&& forall|j: int| 0 <= j < i ==> !((#[trigger] open[j]).position == n && open[j].g_cost <= g)
}

/// The cost of the first frontier entry for `n` whose cost is at most `g`.
pub open spec fn blocker_cost(open: Seq<Node>, n: Position, g: int) -> i32 {
    open[choose|i: int| is_first_blocker(open, n, g, i)].g_cost
}

/// The decision A* records for an admitted neighbour.
pub open spec fn push_decision(g: int, h: int) -> Seq<char> {
    "push: g="@ + decimal(g) + ", h="@ + decimal(h) + ", f="@ + decimal(g + h)
}

/// The decision A* records for a neighbour that an entry of cost `existing` blocks.
pub open spec fn skip_decision(existing: int, g: int) -> Seq<char> {
    "skip: existing g="@ + decimal(existing) + " ≤ tentative g="@ + decimal(g)
}

/// The decision A* records for candidate `n` with tentative cost `g` against `open`.
pub open spec fn informed_decision(open: Seq<Node>, n: Position, g: int, goal: Position) -> Seq<char> {
    if blocked(open, n, g) {
        skip_decision(blocker_cost(open, n, g) as int, g)
    } else {
        push_decision(g, manhattan(n, goal))
    }
}

/// The first blocker is unique, and extending the frontier past it does not change it.
proof fn lemma_first_blocker(open: Seq<Node>, extra: Seq<Node>, n: Position, g: int, i: int)
    requires
        is_first_blocker(open, n, g, i),
    ensures
        blocker_cost(open, n, g) == open[i].g_cost,
        blocker_cost(open + extra, n, g) == open[i].g_cost,
{
    let k = choose|k: int| is_first_blocker(open, n, g, k);
    assert(is_first_blocker(open, n, g, k));
    if k < i {
        assert(!(open[k].position == n && open[k].g_cost <= g));
    } else if i < k {
        assert(!(open[i].position == n && open[i].g_cost <= g));
    }
    let both = open + extra;
    assert(is_first_blocker(both, n, g, i)) by {
        assert forall|j: int| 0 <= j < i implies !((#[trigger] both[j]).position == n && both[j].g_cost <= g) by {
            assert(both[j] == open[j]);
        }
    }
    let m = choose|m: int| is_first_blocker(both, n, g, m);
    assert(is_first_blocker(both, n, g, m));
    if m < i {
        assert(!(both[m].position == n && both[m].g_cost <= g));
    } else if i < m {
        assert(!(both[i].position == n && both[i].g_cost <= g));
    }
}

/// A blocked candidate has a first blocker.
proof fn lemma_first_blocker_exists(open: Seq<Node>, n: Position, g: int, k: int)
    requires
        0 <= k < open.len(),
        open[k].position == n,
        open[k].g_cost <= g,
    ensures
        exists|i: int| is_first_blocker(open, n, g, i),
    decreases k,
{
    if exists|j: int| 0 <= j < k && (#[trigger] open[j]).position == n && open[j].g_cost <= g {
        let j = choose|j: int| 0 <= j < k && (#[trigger] open[j]).position == n && open[j].g_cost <= g;
        lemma_first_blocker_exists(open, n, g, j);
    } else {
        assert(is_first_blocker(open, n, g, k));
    }
}

/// The A* entry pushed for `n` with cost `g`.
pub open spec fn node_for(n: Position, g: int, goal: Position) -> Node {
    Node { position: n, g_cost: g as i32, h_cost: manhattan(n, goal) as i32 }
}

pub open spec fn as_nodes(ps: Seq<Position>, g: int, goal: Position) -> Seq<Node> {
    ps.map_values(|n: Position| node_for(n, g, goal))
}

/// The neighbours that are not closed, in order.
pub open spec fn unclosed(closed: Set<Position>, nbrs: Seq<Position>) -> Seq<Position> {
    nbrs.filter(|n: Position| !closed.contains(n))
}

/// The candidates that A* admits with tentative cost `g`: those with no frontier entry
/// of cost at most `g`.
pub open spec fn admitted_informed(open: Seq<Node>, cands: Seq<Position>, g: int) -> Seq<Position> {
    cands.filter(|n: Position| !blocked(open, n, g))
}

/// `m` extended with `f(k)` at every element `k` of `keys`.
pub open spec fn extend_by<V>(m: Map<Position, V>, keys: Seq<Position>, f: spec_fn(Position) -> V) -> Map<Position, V> {
    m.union_prefer_right(Map::new(|k: Position| keys.contains(k), f))
}

/// The heuristic recorded for a position.
pub open spec fn h_for(goal: Position) -> spec_fn(Position) -> i32 {
    |k: Position| manhattan(k, goal) as i32
}

/// The `f` cost recorded for a position reached with cost `g`.
pub open spec fn f_for(g: int, goal: Position) -> spec_fn(Position) -> i32 {
    |k: Position| (g + manhattan(k, goal)) as i32
}

proof fn lemma_extend_by_push<V>(m: Map<Position, V>, keys: Seq<Position>, n: Position, f: spec_fn(Position) -> V)
    ensures
        extend_by(m, keys.push(n), f) == extend_by(m, keys, f).insert(n, f(n)),
{
    let a = extend_by(m, keys.push(n), f);
    let b = extend_by(m, keys, f).insert(n, f(n));
    let na = Map::new(|k: Position| keys.push(n).contains(k), f);
    let nb = Map::new(|k: Position| keys.contains(k), f);
    assert forall|k: Position| #[trigger] a.dom().contains(k) == b.dom().contains(k) by {
        lemma_push_contains(keys, n, k);
        assert(na.dom().contains(k) == keys.push(n).contains(k));
        assert(nb.dom().contains(k) == keys.contains(k));
    }
    assert(a.dom() =~= b.dom());
    assert forall|k: Position| #[trigger] a.dom().contains(k) implies a[k] == b[k] by {
        lemma_push_contains(keys, n, k);
        assert(na.dom().contains(k) == keys.push(n).contains(k));
        assert(nb.dom().contains(k) == keys.contains(k));
    }
    assert(a =~= b);
}

/// Filtering a list without repeats leaves a list without repeats.
proof fn lemma_filter_no_duplicates(s: Seq<Position>, p: spec_fn(Position) -> bool)
    requires
        s.no_duplicates(),
    ensures
        s.filter(p).no_duplicates(),
    decreases s.len(),
{
    reveal(Seq::filter);
    if s.len() > 0 {
        let d = s.drop_last();
        assert(d.no_duplicates());
        lemma_filter_no_duplicates(d, p);
        if p(s.last()) {
            if d.filter(p).contains(s.last()) {
                d.lemma_filter_contains_rev(p, s.last());
                let j = choose|j: int| 0 <= j < d.len() && d[j] == s.last();
                assert(s[j] == s[s.len() - 1]);
            }
            let t = d.filter(p).push(s.last());
            assert forall|a: int, b: int| 0 <= a < t.len() && 0 <= b < t.len() && a != b implies t[a] != t[b] by {
                if a == t.len() - 1 {
                    assert(d.filter(p).contains(t[b]));
                } else if b == t.len() - 1 {
                    assert(d.filter(p).contains(t[a]));
                }
            }
        }
    }
}

/// The diagnostic fields play no part in the invariant.
pub proof fn lemma_search_ok_text(v: SearchView, info: Seq<char>, log: Seq<NeighborInfo>)
    requires
        search_ok(v),
    ensures
        search_ok(SearchView { info, log, ..v }),
{
    reveal(search_ok);
}

/// Every path the search returns is a walk in the grid: consecutive positions are
/// four-connected neighbours, it starts at the start, and every position after the start is
/// walkable in a grid that the run has been consistent with.
pub proof fn lemma_path_valid(s: &PathfindingState, grid: &Grid, goal: Position, path: Seq<Position>)
    requires
        s.wf(),
        consistent_with(s@, grid),
        traces_back(s@.came_from, s@.start, goal, path),
    ensures
        path[0] == s@.start,
        path.last() == goal,
        forall|i: int| 0 <= i < path.len() - 1 ==> adjacent(#[trigger] path[i], path[i + 1]),
        forall|i: int| 1 <= i < path.len() ==> grid.walkable(#[trigger] path[i]),
        grid.walkable(s@.start) ==> forall|i: int| 0 <= i < path.len() ==> grid.walkable(#[trigger] path[i]),
{
    s.lemma_invariant();
    reveal(search_ok);
    let v = s@;
    assert forall|i: int| 0 <= i < path.len() - 1 implies adjacent(#[trigger] path[i], path[i + 1]) by {
        assert(v.came_from.dom().contains(path[i + 1]));
        let c = path[i + 1];
        assert(adjacent(c, v.came_from[c]));
        assert(v.came_from[c] == path[i]);
        assert(manhattan(c, path[i]) == manhattan(path[i], c));
    }
}

/// Every expansion closes a new position (A* discards stale entries instead of expanding
/// them), and only the start and walkable cells are ever closed; so a run has taken at most
/// one more expansion than the grid has walkable cells, and it ends within that many steps.
pub proof fn lemma_steps_bounded(s: &PathfindingState, grid: &Grid)
    requires
        s.wf(),
        grid.wf(),
        consistent_with(s@, grid),
    ensures
        s@.steps == s@.closed.len(),
        s@.closed.subset_of(grid.walkable_cells().insert(s@.start)),
        grid.walkable_cells().finite(),
        s@.steps <= grid.walkable_cells().len() + 1,
{
    s.lemma_invariant();
    reveal(search_ok);
    let v = s@;
    lemma_walkable_cells_finite(grid);
    let bound = grid.walkable_cells().insert(v.start);
    assert forall|p: Position| v.closed.contains(p) implies bound.contains(p) by {
        if p != v.start {
            assert(v.came_from.dom().contains(p));
            assert(grid.walkable(p));
        }
    }
    vstd::set_lib::lemma_len_subset(v.closed, bound);
}

/// How the three painting stages of an expansion combine: `g0` before the step, `gm` after
/// the current marker moved, `ga` after the admitted neighbours were marked, `g1` after the
/// closed positions were marked visited.
proof fn lemma_marks(v0: SearchView, v1: SearchView, g0: &Grid, gm: &Grid, ga: &Grid, g1: &Grid, cur: Position, adm: Seq<Position>)
    requires
        v0.previous matches Some(p) ==> v0.closed.contains(p),
        v1.closed == v0.closed.insert(cur),
        forall|n: Position| #[trigger] adm.contains(n) ==> !v1.closed.contains(n),
        forall|q: Position| #[trigger] gm.cell(q) != g0.cell(q) ==> q == cur || Some(q) == v0.previous,
        forall|q: Position| #[trigger] gm.cell(q) == g0.cell(q) || q == cur || gm.cell(q) == CellType::Visited,
        aged(v0.previous, cur, g0, gm),
        forall|q: Position| #[trigger] ga.cell(q) == if adm.contains(q) && gm.cell(q) == CellType::Empty {
            CellType::Frontier
        } else {
            gm.cell(q)
        },
        forall|q: Position| #[trigger] g1.cell(q) == if ga.in_bounds(q) && v1.closed.contains(q) && ((not_endpoint(q, None, None)
            && ga.cell(q) == CellType::Empty) || ga.cell(q) == CellType::Frontier) {
            CellType::Visited
        } else {
            ga.cell(q)
        },
    ensures
        forall|q: Position| #[trigger] g1.cell(q) != g0.cell(q) ==> q == cur || adm.contains(q) || v1.closed.contains(q),
        forall|n: Position| #[trigger] adm.contains(n) ==> g1.cell(n) == (if g0.cell(n) == CellType::Empty {
            CellType::Frontier
        } else {
            g0.cell(n)
        }),
        forall|c: Position| #[trigger] v1.closed.contains(c) && c != cur && (g0.cell(c) == CellType::Empty
            || g0.cell(c) == CellType::Frontier) ==> g1.cell(c) == CellType::Visited,
        aged(v0.previous, cur, g0, g1),
{
    if let Some(q) = v0.previous {
        if q != cur && g0.in_bounds(q) && !is_endpoint(g0.cell(q)) {
            assert(v1.closed.contains(q));
            if adm.contains(q) {
                assert(!v1.closed.contains(q));
            }
            assert(ga.cell(q) == gm.cell(q));
        }
    }
    assert forall|q: Position| #[trigger] g1.cell(q) != g0.cell(q) implies q == cur || adm.contains(q) || v1.closed.contains(q) by {
        assert(g1.cell(q) == ga.cell(q) || v1.closed.contains(q));
        assert(ga.cell(q) == gm.cell(q) || adm.contains(q));
        if gm.cell(q) != g0.cell(q) && q != cur {
            assert(Some(q) == v0.previous);
        }
    }
    assert forall|n: Position| #[trigger] adm.contains(n) implies g1.cell(n) == (if g0.cell(n) == CellType::Empty {
        CellType::Frontier
    } else {
        g0.cell(n)
    }) by {
        assert(!v1.closed.contains(n));
        if gm.cell(n) != g0.cell(n) {
            assert(n == cur || Some(n) == v0.previous);
        }
    }
    assert forall|c: Position| #[trigger] v1.closed.contains(c) && c != cur && (g0.cell(c) == CellType::Empty
        || g0.cell(c) == CellType::Frontier) implies g1.cell(c) == CellType::Visited by {
        assert(gm.cell(c) == g0.cell(c) || gm.cell(c) == CellType::Visited);
        if adm.contains(c) {
            assert(!v1.closed.contains(c));
        }
        assert(ga.cell(c) == gm.cell(c));
        assert(ga.in_bounds(c));
    }
}

/// Dropping a frontier entry of a closed position keeps the run invariant.
pub proof fn lemma_search_ok_drop(v: SearchView, k: int)
    requires
        search_ok(v),
        0 <= k < v.open.len(),
        v.closed.contains(v.open[k].position),
    ensures
        search_ok(SearchView { open: v.open.remove(k), ..v }),
{
    reveal(search_ok);
    let w = SearchView { open: v.open.remove(k), ..v };
    assert forall|i: int| 0 <= i < w.open.len() implies w.open[i] == v.open[if i < k { i } else { i + 1 }] by {
    }
    assert forall|i: int| 0 <= i < w.open.len() implies {
        let e = #[trigger] w.open[i];
        &&& discovered(w, e.position)
        &&& w.g.dom().contains(e.position)
        &&& w.g[e.position] <= e.g_cost <= w.steps
    } by {
        let j = if i < k { i } else { i + 1 };
        assert(w.open[i] == v.open[j]);
    }
    assert(frontier_ok(w));
    assert(start_ok(w)) by {
        if !w.closed.contains(w.start) {
            assert forall|i: int| 0 <= i < w.open.len() implies (#[trigger] w.open[i]).position == w.start by {
                let j = if i < k { i } else { i + 1 };
                assert(w.open[i] == v.open[j]);
            }
        }
    }
}

impl View for PathfindingState {
    type V = SearchView;

    closed spec fn view(&self) -> SearchView {
        SearchView {
            open: self.open_set@,
            queue: self.bfs_queue@,
            stack: self.dfs_stack@,
            closed: self.closed_set@,
            came_from: self.came_from@,
            g: self.g_costs@,
            h: self.h_costs@,
            f: self.f_costs@,
            current: self.current_node,
            previous: self.previous_node,
            steps: self.step_count as nat,
            info: self.last_step_info@,
            log: self.last_neighbors@,
            reached: self.reached,
            start: self.start,
            goal: self.goal@,
            algorithm: self.algorithm@,
        }
    }
}

impl PathfindingState {
    /// The collections are well formed and the run invariant holds.
    pub closed spec fn wf(&self) -> bool {
        &&& self.parts_wf()
        &&& search_ok(self@)
    }

    /// A well-formed state satisfies the run invariant.
    pub proof fn lemma_invariant(&self)
        requires
            self.wf(),
        ensures
            search_ok(self@),
    {
    }

    closed spec fn parts_wf(&self) -> bool {
        &&& self.closed_set.wf()
        &&& self.came_from.wf()
        &&& self.g_costs.wf()
        &&& self.h_costs.wf()
        &&& self.f_costs.wf()
    }

    /// Closes `p`, makes it current, counts the step, and moves the `Current` marker to it.
    fn close_current(&mut self, p: Position, grid: &mut Grid)
        requires
            old(self).parts_wf(),
            old(self)@.steps < STEP_LIMIT,
            old(grid).wf(),
            old(grid).no_obstacle_at(p),
            old(self)@.previous matches Some(q) ==> old(grid).no_obstacle_at(q),
        ensures
            final(self).parts_wf(),
            final(self)@ == (SearchView {
                closed: old(self)@.closed.insert(p),
                current: Some(p),
                previous: Some(p),
                steps: old(self)@.steps + 1,
                ..old(self)@
            }),
            final(grid).wf(),
            final(grid).same_terrain(old(grid)),
            old(grid).in_bounds(p) && !is_endpoint(old(grid).cell(p)) ==> final(grid).cell(p) == CellType::Current,
            forall|q: Position| #[trigger] final(grid).cell(q) != old(grid).cell(q) ==> q == p || Some(q) == old(self)@.previous,
            forall|q: Position| #[trigger] final(grid).cell(q) == old(grid).cell(q) || q == p || final(grid).cell(q) == CellType::Visited,
            aged(old(self)@.previous, p, old(grid), final(grid)),
    {
        let ghost g0 = *grid;
        self.current_node = Some(p);
        self.closed_set.insert(p);
        self.step_count = self.step_count + 1;
        match self.previous_node {
            Some(previous) => {
                grid.mark_previous_node_as_visited(previous);
            },
            None => {},
        }
        self.previous_node = Some(p);
        grid.mark_current(p);
        assert forall|q: Position| #[trigger] grid.walkable(q) == g0.walkable(q) by {
            assert(grid.cell(q) == g0.cell(q) || grid.cell(q) == CellType::Visited || grid.cell(q)
                == CellType::Current);
            if grid.cell(q) != g0.cell(q) {
                assert(q == p || Some(q) == old(self)@.previous);
            }
        }
    }

    /// Admits one unseen neighbour `n` of `cur`.
    fn admit_one(&mut self, dfs: bool, cur: Position, g: i32, n: Position, grid: &mut Grid)
        requires
            old(self).parts_wf(),
            search_ok(old(self)@),
            old(self)@.closed.contains(cur),
            old(self)@.g.dom().contains(cur),
            old(self)@.g[cur] == g,
            g + 1 <= old(self)@.steps,
            old(self)@.steps <= STEP_LIMIT,
            old(self)@.algorithm == (if dfs { Algorithm::Dfs } else { Algorithm::Bfs }),
            !old(self)@.closed.contains(n),
            !old(self)@.came_from.dom().contains(n),
            adjacent(n, cur),
            old(grid).wf(),
            old(grid).walkable(n),
        ensures
            final(self).parts_wf(),
            search_ok(final(self)@),
            final(self)@ == (SearchView {
                queue: if dfs { old(self)@.queue } else { old(self)@.queue.push(n) },
                stack: if dfs { old(self)@.stack.push(n) } else { old(self)@.stack },
                came_from: old(self)@.came_from.insert(n, cur),
                g: old(self)@.g.insert(n, (g + 1) as i32),
                log: old(self)@.log.push(final(self)@.log.last()),
                ..old(self)@
            }),
            final(self)@.log.last().pos == n,
            final(self)@.log.last().g == Some((g + 1) as i32),
            final(self)@.log.last().decision@ == uninformed_decision(dfs, true),
            final(self)@.log.last().h == None::<i32>,
            final(self)@.log.last().f == None::<i32>,
            final(grid).wf(),
            final(grid).same_terrain(old(grid)),
            forall|q: Position| #[trigger] final(grid).cell(q) == if q == n && old(grid).cell(q) == CellType::Empty {
                CellType::Frontier
            } else {
                old(grid).cell(q)
            },
            consistent_with(old(self)@, old(grid)) ==> consistent_with(final(self)@, final(grid)),
    {
        proof {
            reveal(search_ok);
        }
        let ghost v0 = self@;
        proof {
            assert(n != v0.start);
            assert(!v0.g.dom().contains(n));
        }
        let new_g = g + 1;
        self.came_from.insert(n, cur);
        self.g_costs.insert(n, new_g);
        if dfs {
            self.dfs_stack.push(n);
        } else {
            self.bfs_queue.push_back(n);
        }
        let one = vec![n];
        grid.mark_frontier(one.as_slice(), None, None);
        self.last_neighbors.push(NeighborInfo {
            pos: n,
            g: Some(new_g),
            h: None,
            f: None,
            decision: String::from_str(if dfs { "push" } else { "enqueue" }),
        });
        proof {
            let v = self@;
            assert forall|c: Position| #[trigger] v.came_from.dom().contains(c) implies {
                let p = v.came_from[c];
                &&& adjacent(c, p)
                &&& v.closed.contains(p)
                &&& discovered(v, p)
                &&& v.g.dom().contains(c)
                &&& v.g.dom().contains(p)
                &&& v.g[p] < v.g[c]
            } by {
                if c != n {
                    assert(v0.came_from.dom().contains(c));
                }
            }
            assert(tree_ok(v));
            assert(costs_ok(v));
            assert(frontier_ok(v));
            assert(start_ok(v));
            if dfs {
                assert forall|i: int| 0 <= i < v.stack.len() - 1 implies v.stack[i] != n by {
                    assert(discovered(v0, v0.stack[i]));
                }
            } else {
                assert forall|i: int| 0 <= i < v.queue.len() - 1 implies v.queue[i] != n by {
                    assert(discovered(v0, v0.queue[i]));
                }
            }
            assert(uninformed_ok(v));
        }
    }

    /// Considers each of `nbrs` in turn and admits the unseen ones: records `cur` as their
    /// parent and `g + 1` as their cost, adds them to the queue (BFS) or stack (DFS), and
    /// marks them as frontier.
    #[verifier::rlimit(40)]
    fn admit_unseen(&mut self, dfs: bool, cur: Position, g: i32, nbrs: &Vec<Position>, grid: &mut Grid)
        requires
            old(self).parts_wf(),
            search_ok(old(self)@),
            old(self)@.closed.contains(cur),
            old(self)@.g.dom().contains(cur),
            old(self)@.g[cur] == g,
            g + 1 <= old(self)@.steps,
            old(self)@.steps <= STEP_LIMIT,
            old(self)@.algorithm == (if dfs { Algorithm::Dfs } else { Algorithm::Bfs }),
            old(self)@.log.len() == 0,
            old(grid).wf(),
            nbrs@ == considered(old(grid), cur, dfs),
        ensures
            final(self).parts_wf(),
            search_ok(final(self)@),
            final(self)@ == (SearchView {
                queue: if dfs { old(self)@.queue } else { old(self)@.queue + admitted_unseen(old(self)@, cur, nbrs@) },
                stack: if dfs { old(self)@.stack + admitted_unseen(old(self)@, cur, nbrs@) } else { old(self)@.stack },
                came_from: extend_all(old(self)@.came_from, admitted_unseen(old(self)@, cur, nbrs@), cur),
                g: extend_all(old(self)@.g, admitted_unseen(old(self)@, cur, nbrs@), (g + 1) as i32),
                log: final(self)@.log,
                ..old(self)@
            }),
            final(self)@.log.len() == nbrs@.len(),
            forall|j: int| 0 <= j < nbrs@.len() ==> {
                let e = #[trigger] final(self)@.log[j];
                &&& e.pos == nbrs@[j]
                &&& e.g == if unseen(old(self)@, cur, nbrs@[j]) { Some((g + 1) as i32) } else { None::<i32> }
                &&& e.decision@ == uninformed_decision(dfs, unseen(old(self)@, cur, nbrs@[j]))
                &&& e.h == None::<i32>
                &&& e.f == None::<i32>
            },
            final(grid).wf(),
            final(grid).same_terrain(old(grid)),
            forall|q: Position| #[trigger] final(grid).cell(q) == if admitted_unseen(old(self)@, cur, nbrs@).contains(q)
                && old(grid).cell(q) == CellType::Empty {
                CellType::Frontier
            } else {
                old(grid).cell(q)
            },
            consistent_with(old(self)@, old(grid)) ==> consistent_with(final(self)@, final(grid)),
    {
        let ghost v0 = self@;
        let ghost g0 = *grid;
        proof {
            lemma_walkable_neighbors(grid, cur);
            let w = grid.walkable_neighbors(cur);
            if dfs {
                assert forall|a: int, b: int| 0 <= a < nbrs@.len() && 0 <= b < nbrs@.len() && a != b implies nbrs@[a] != nbrs@[b] by {
                    assert(nbrs@[a] == w[w.len() - 1 - a]);
                    assert(nbrs@[b] == w[w.len() - 1 - b]);
                }
                assert forall|a: int| 0 <= a < nbrs@.len() implies #[trigger] g0.walkable(nbrs@[a]) && adjacent(nbrs@[a], cur) by {
                    assert(nbrs@[a] == w[w.len() - 1 - a]);
                }
            }
        }
        let ghost pred = |n: Position| unseen(v0, cur, n);
        proof {
            let e = nbrs@.subrange(0, 0).filter(pred);
            reveal_with_fuel(Seq::filter, 1);
            assert(e =~= Seq::<Position>::empty());
            assert(extend_all(v0.came_from, e, cur) =~= v0.came_from);
            assert(extend_all(v0.g, e, (g + 1) as i32) =~= v0.g);
            assert(v0.queue + e =~= v0.queue);
            assert(v0.stack + e =~= v0.stack);
        }
        let mut i: usize = 0;
        while i < nbrs.len()
            invariant
                0 <= i <= nbrs@.len(),
                self.parts_wf(),
                search_ok(self@),
                grid.wf(),
                grid.same_terrain(&g0),
                forall|q: Position| #[trigger] grid.cell(q) == if nbrs@.subrange(0, i as int).filter(pred).contains(q)
                    && g0.cell(q) == CellType::Empty {
                    CellType::Frontier
                } else {
                    g0.cell(q)
                },
                consistent_with(v0, &g0) ==> consistent_with(self@, grid),
                nbrs@.no_duplicates(),
                forall|a: int| 0 <= a < nbrs@.len() ==> #[trigger] g0.walkable(nbrs@[a]) && adjacent(nbrs@[a], cur),
                v0.closed.contains(cur),
                v0.g.dom().contains(cur),
                v0.g[cur] == g,
                g + 1 <= v0.steps,
                v0.steps <= STEP_LIMIT,
                v0.algorithm == (if dfs { Algorithm::Dfs } else { Algorithm::Bfs }),
                pred == (|n: Position| unseen(v0, cur, n)),
                self@ == (SearchView {
                    queue: if dfs { v0.queue } else { v0.queue + nbrs@.subrange(0, i as int).filter(pred) },
                    stack: if dfs { v0.stack + nbrs@.subrange(0, i as int).filter(pred) } else { v0.stack },
                    came_from: extend_all(v0.came_from, nbrs@.subrange(0, i as int).filter(pred), cur),
                    g: extend_all(v0.g, nbrs@.subrange(0, i as int).filter(pred), (g + 1) as i32),
                    log: self@.log,
                    ..v0
                }),
                self@.log.len() == i,
                forall|j: int| 0 <= j < i ==> {
                    let e = #[trigger] self@.log[j];
                    &&& e.pos == nbrs@[j]
                    &&& e.g == if unseen(v0, cur, nbrs@[j]) { Some((g + 1) as i32) } else { None::<i32> }
                    &&& e.decision@ == uninformed_decision(dfs, unseen(v0, cur, nbrs@[j]))
                    &&& e.h == None::<i32>
                    &&& e.f == None::<i32>
                },
            decreases nbrs@.len() - i,
        {
            let n = nbrs[i];
            let ghost before = self@;
            let ghost prefix = nbrs@.subrange(0, i as int).filter(pred);
            proof {
                assert(nbrs@.subrange(0, i as int + 1) =~= nbrs@.subrange(0, i as int).push(n));
                nbrs@.subrange(0, i as int).lemma_filter_push(n, pred);
                assert(!prefix.contains(n)) by {
                    if prefix.contains(n) {
                        nbrs@.subrange(0, i as int).lemma_filter_contains_rev(pred, n);
                        let j = choose|j: int| 0 <= j < i && nbrs@.subrange(0, i as int)[j] == n;
                        assert(nbrs@[j] == nbrs@[i as int]);
                    }
                }
                assert(before.came_from.dom().contains(n) == v0.came_from.dom().contains(n));
                assert(g0.walkable(nbrs@[i as int]));
                assert(grid.walkable(n));
            }
            if self.closed_set.contains(&n) || self.came_from.contains_key(&n) {
                proof {
                    assert(!unseen(v0, cur, n));
                }
                self.last_neighbors.push(NeighborInfo {
                    pos: n,
                    g: None,
                    h: None,
                    f: None,
                    decision: String::from_str("skip: already seen"),
                });
                proof {
                    lemma_search_ok_text(before, before.info, self@.log);
                    assert(self@ == (SearchView { info: before.info, log: self@.log, ..before }));
                }
            } else {
                self.admit_one(dfs, cur, g, n, grid);
            }
            proof {
                let next = nbrs@.subrange(0, i as int + 1).filter(pred);
                assert forall|q: Position| #[trigger] grid.cell(q) == if next.contains(q) && g0.cell(q) == CellType::Empty {
                    CellType::Frontier
                } else {
                    g0.cell(q)
                } by {
                    lemma_push_contains(prefix, n, q);
                }
                lemma_extend_push(v0.came_from, prefix, n, cur);
                lemma_extend_push(v0.g, prefix, n, (g + 1) as i32);
                assert(self@.came_from =~= extend_all(v0.came_from, next, cur));
                assert(self@.g =~= extend_all(v0.g, next, (g + 1) as i32));
                if dfs {
                    assert(self@.stack =~= v0.stack + next);
                } else {
                    assert(self@.queue =~= v0.queue + next);
                }
            }
            i = i + 1;
        }
        proof {
            assert(nbrs@.subrange(0, nbrs@.len() as int) =~= nbrs@);
        }
    }

    /// The neighbours that are not closed, in order.
    fn unclosed_neighbors(&self, nbrs: &Vec<Position>) -> (r: Vec<Position>)
        requires
            self.parts_wf(),
        ensures
            r@ == unclosed(self@.closed, nbrs@),
    {
        let ghost pred = |n: Position| !self@.closed.contains(n);
        let mut r: Vec<Position> = Vec::new();
        let mut i: usize = 0;
        proof {
            reveal_with_fuel(Seq::filter, 1);
            assert(nbrs@.subrange(0, 0).filter(pred) =~= Seq::<Position>::empty());
        }
        while i < nbrs.len()
            invariant
                i <= nbrs@.len(),
                self.parts_wf(),
                pred == (|n: Position| !self@.closed.contains(n)),
                r@ == nbrs@.subrange(0, i as int).filter(pred),
            decreases nbrs@.len() - i,
        {
            let n = nbrs[i];
            proof {
                assert(nbrs@.subrange(0, i as int + 1) =~= nbrs@.subrange(0, i as int).push(n));
                nbrs@.subrange(0, i as int).lemma_filter_push(n, pred);
            }
            if !self.closed_set.contains(&n) {
                r.push(n);
            }
            i = i + 1;
        }
        proof {
            assert(nbrs@.subrange(0, nbrs@.len() as int) =~= nbrs@);
        }
        r
    }

    /// The cost of the first frontier entry for `n` whose cost is at most `g`, if any.
    fn find_blocker(&self, n: Position, g: i32) -> (r: Option<i32>)
        ensures
            r is None <==> !blocked(self@.open, n, g as int),
            r matches Some(x) ==> x == blocker_cost(self@.open, n, g as int),
    {
        let mut i: usize = 0;
        while i < self.open_set.len()
            invariant
                i <= self@.open.len(),
                forall|j: int| 0 <= j < i ==> !((#[trigger] self@.open[j]).position == n && self@.open[j].g_cost <= g),
            decreases self@.open.len() - i,
        {
            let e = self.open_set[i];
            if e.position == n && e.g_cost <= g {
                proof {
                    assert(is_first_blocker(self@.open, n, g as int, i as int));
                    lemma_first_blocker(self@.open, Seq::<Node>::empty(), n, g as int, i as int);
                }
                return Some(e.g_cost);
            }
            i = i + 1;
        }
        None
    }

    /// Admits `n` into the A* frontier with cost `tg`, reached from `cur`.
    fn admit_informed_one(&mut self, cur: Position, tg: i32, n: Position, goal: Position, grid: &mut Grid)
        requires
            old(self).parts_wf(),
            search_ok(old(self)@),
            old(self)@.closed.contains(cur),
            old(self)@.g.dom().contains(cur),
            old(self)@.g[cur] < tg,
            tg <= old(self)@.steps,
            old(self)@.steps <= STEP_LIMIT,
            old(self)@.algorithm == Algorithm::AStar,
            !old(self)@.closed.contains(n),
            !blocked(old(self)@.open, n, tg as int),
            adjacent(n, cur),
            old(grid).wf(),
            grid_in_cost_range(old(grid)),
            in_cost_range(goal),
            old(grid).walkable(n),
        ensures
            final(self).parts_wf(),
            search_ok(final(self)@),
            final(self)@ == (SearchView {
                open: old(self)@.open.push(node_for(n, tg as int, goal)),
                came_from: old(self)@.came_from.insert(n, cur),
                g: old(self)@.g.insert(n, tg),
                h: old(self)@.h.insert(n, manhattan(n, goal) as i32),
                f: old(self)@.f.insert(n, (tg + manhattan(n, goal)) as i32),
                log: old(self)@.log.push(final(self)@.log.last()),
                ..old(self)@
            }),
            final(self)@.log.last().pos == n,
            final(self)@.log.last().g == Some(tg),
            final(self)@.log.last().h == Some(manhattan(n, goal) as i32),
            final(self)@.log.last().f == Some((tg + manhattan(n, goal)) as i32),
            final(self)@.log.last().decision@ == push_decision(tg as int, manhattan(n, goal)),
            final(grid).wf(),
            final(grid).same_terrain(old(grid)),
            forall|q: Position| #[trigger] final(grid).cell(q) == if q == n && old(grid).cell(q) == CellType::Empty {
                CellType::Frontier
            } else {
                old(grid).cell(q)
            },
            consistent_with(old(self)@, old(grid)) ==> consistent_with(final(self)@, final(grid)),
    {
        proof {
            reveal(search_ok);
        }
        let ghost v0 = self@;
        proof {
            assert(v0.closed.contains(v0.start));
            assert(n != v0.start);
        }
        let h = n.manhattan_distance_to(&goal);
        let f = tg + h;
        self.came_from.insert(n, cur);
        self.g_costs.insert(n, tg);
        self.h_costs.insert(n, h);
        self.f_costs.insert(n, f);
        self.open_set.push(Node { position: n, g_cost: tg, h_cost: h });
        let one = vec![n];
        grid.mark_frontier(one.as_slice(), None, None);
        let mut decision = String::from_str("push: g=");
        append_int(&mut decision, tg as i64);
        decision.append(", h=");
        append_int(&mut decision, h as i64);
        decision.append(", f=");
        append_int(&mut decision, f as i64);
        self.last_neighbors.push(NeighborInfo { pos: n, g: Some(tg), h: Some(h), f: Some(f), decision });
        proof {
            let v = self@;
            assert forall|c: Position| #[trigger] v.came_from.dom().contains(c) implies {
                let p = v.came_from[c];
                &&& adjacent(c, p)
                &&& v.closed.contains(p)
                &&& discovered(v, p)
                &&& v.g.dom().contains(c)
                &&& v.g.dom().contains(p)
                &&& v.g[p] < v.g[c]
            } by {
                if c != n {
                    assert(v0.came_from.dom().contains(c));
                    assert(v0.came_from[c] != n);
                }
            }
            assert(tree_ok(v));
            assert(costs_ok(v));
            assert forall|i: int| 0 <= i < v.open.len() implies {
                let e = #[trigger] v.open[i];
                &&& discovered(v, e.position)
                &&& v.g.dom().contains(e.position)
                &&& v.g[e.position] <= e.g_cost <= v.steps
            } by {
                if i < v0.open.len() {
                    let e = v0.open[i];
                    if e.position == n {
                        assert(!(e.g_cost <= tg));
                    }
                }
            }
            assert(frontier_ok(v));
            assert(start_ok(v));
            assert(uninformed_ok(v));
        }
    }

    /// Considers each candidate in turn and admits those that no frontier entry blocks.
    fn admit_informed(&mut self, cur: Position, tg: i32, cands: &Vec<Position>, goal: Position, grid: &mut Grid)
        requires
            old(self).parts_wf(),
            search_ok(old(self)@),
            old(self)@.closed.contains(cur),
            old(self)@.g.dom().contains(cur),
            old(self)@.g[cur] < tg,
            tg <= old(self)@.steps,
            old(self)@.steps <= STEP_LIMIT,
            old(self)@.algorithm == Algorithm::AStar,
            old(self)@.log.len() == 0,
            old(grid).wf(),
            grid_in_cost_range(old(grid)),
            in_cost_range(goal),
            cands@.no_duplicates(),
            forall|a: int| 0 <= a < cands@.len() ==> {
                let n = #[trigger] cands@[a];
                old(grid).walkable(n) && adjacent(n, cur) && !old(self)@.closed.contains(n)
            },
        ensures
            final(self).parts_wf(),
            search_ok(final(self)@),
            final(self)@ == (SearchView {
                open: old(self)@.open + as_nodes(admitted_informed(old(self)@.open, cands@, tg as int), tg as int, goal),
                came_from: extend_all(old(self)@.came_from, admitted_informed(old(self)@.open, cands@, tg as int), cur),
                g: extend_all(old(self)@.g, admitted_informed(old(self)@.open, cands@, tg as int), tg),
                h: extend_by(old(self)@.h, admitted_informed(old(self)@.open, cands@, tg as int), h_for(goal)),
                f: extend_by(old(self)@.f, admitted_informed(old(self)@.open, cands@, tg as int), f_for(tg as int, goal)),
                log: final(self)@.log,
                ..old(self)@
            }),
            final(self)@.log.len() == cands@.len(),
            forall|j: int| 0 <= j < cands@.len() ==> {
                let e = #[trigger] final(self)@.log[j];
                &&& e.pos == cands@[j]
                &&& e.g == Some(tg)
                &&& e.h == Some(manhattan(cands@[j], goal) as i32)
                &&& e.f == Some((tg + manhattan(cands@[j], goal)) as i32)
                &&& e.decision@ == informed_decision(old(self)@.open, cands@[j], tg as int, goal)
            },
            final(grid).wf(),
            final(grid).same_terrain(old(grid)),
            forall|q: Position| #[trigger] final(grid).cell(q) == if admitted_informed(old(self)@.open, cands@, tg as int).contains(q)
                && old(grid).cell(q) == CellType::Empty {
                CellType::Frontier
            } else {
                old(grid).cell(q)
            },
            consistent_with(old(self)@, old(grid)) ==> consistent_with(final(self)@, final(grid)),
    {
        let ghost v0 = self@;
        let ghost g0 = *grid;
        let ghost pred = |n: Position| !blocked(v0.open, n, tg as int);
        proof {
            let e = cands@.subrange(0, 0).filter(pred);
            reveal_with_fuel(Seq::filter, 1);
            assert(e =~= Seq::<Position>::empty());
            assert(extend_all(v0.came_from, e, cur) =~= v0.came_from);
            assert(extend_all(v0.g, e, tg) =~= v0.g);
            assert(extend_by(v0.h, e, h_for(goal)) =~= v0.h);
            assert(extend_by(v0.f, e, f_for(tg as int, goal)) =~= v0.f);
            assert(v0.open + as_nodes(e, tg as int, goal) =~= v0.open);
        }
        let mut i: usize = 0;
        while i < cands.len()
            invariant
                0 <= i <= cands@.len(),
                self.parts_wf(),
                search_ok(self@),
                grid.wf(),
                grid.same_terrain(&g0),
                grid_in_cost_range(grid),
                in_cost_range(goal),
                forall|q: Position| #[trigger] grid.cell(q) == if cands@.subrange(0, i as int).filter(pred).contains(q)
                    && g0.cell(q) == CellType::Empty {
                    CellType::Frontier
                } else {
                    g0.cell(q)
                },
                consistent_with(v0, &g0) ==> consistent_with(self@, grid),
                cands@.no_duplicates(),
                forall|a: int| 0 <= a < cands@.len() ==> {
                    let n = #[trigger] cands@[a];
                    g0.walkable(n) && adjacent(n, cur) && !v0.closed.contains(n)
                },
                v0.closed.contains(cur),
                v0.g.dom().contains(cur),
                v0.g[cur] < tg,
                tg <= v0.steps,
                v0.steps <= STEP_LIMIT,
                v0.algorithm == Algorithm::AStar,
                pred == (|n: Position| !blocked(v0.open, n, tg as int)),
                self@ == (SearchView {
                    open: v0.open + as_nodes(cands@.subrange(0, i as int).filter(pred), tg as int, goal),
                    came_from: extend_all(v0.came_from, cands@.subrange(0, i as int).filter(pred), cur),
                    g: extend_all(v0.g, cands@.subrange(0, i as int).filter(pred), tg),
                    h: extend_by(v0.h, cands@.subrange(0, i as int).filter(pred), h_for(goal)),
                    f: extend_by(v0.f, cands@.subrange(0, i as int).filter(pred), f_for(tg as int, goal)),
                    log: self@.log,
                    ..v0
                }),
                self@.log.len() == i,
                forall|j: int| 0 <= j < i ==> {
                    let e = #[trigger] self@.log[j];
                    &&& e.pos == cands@[j]
                    &&& e.g == Some(tg)
                    &&& e.h == Some(manhattan(cands@[j], goal) as i32)
                    &&& e.f == Some((tg + manhattan(cands@[j], goal)) as i32)
                    &&& e.decision@ == informed_decision(v0.open, cands@[j], tg as int, goal)
                },
            decreases cands@.len() - i,
        {
            let n = cands[i];
            let ghost before = self@;
            let ghost prefix = cands@.subrange(0, i as int).filter(pred);
            proof {
                assert(cands@.subrange(0, i as int + 1) =~= cands@.subrange(0, i as int).push(n));
                cands@.subrange(0, i as int).lemma_filter_push(n, pred);
                assert(!prefix.contains(n)) by {
                    if prefix.contains(n) {
                        cands@.subrange(0, i as int).lemma_filter_contains_rev(pred, n);
                        let j = choose|j: int| 0 <= j < i && cands@.subrange(0, i as int)[j] == n;
                        assert(cands@[j] == cands@[i as int]);
                    }
                }
                assert(blocked(before.open, n, tg as int) == blocked(v0.open, n, tg as int)) by {
                    let added = as_nodes(prefix, tg as int, goal);
                    if blocked(before.open, n, tg as int) {
                        let k = choose|k: int| 0 <= k < before.open.len() && (#[trigger] before.open[k]).position == n
                            && before.open[k].g_cost <= tg;
                        if k >= v0.open.len() {
                            assert(before.open[k] == added[k - v0.open.len()]);
                            assert(prefix[k - v0.open.len()] == n);
                        } else {
                            assert(before.open[k] == v0.open[k]);
                        }
                    }
                    if blocked(v0.open, n, tg as int) {
                        let k = choose|k: int| 0 <= k < v0.open.len() && (#[trigger] v0.open[k]).position == n
                            && v0.open[k].g_cost <= tg;
                        assert(before.open[k] == v0.open[k]);
                    }
                }
                assert(g0.walkable(cands@[i as int]));
                if prefix.contains(cur) {
                    cands@.subrange(0, i as int).lemma_filter_contains_rev(pred, cur);
                    let j = choose|j: int| 0 <= j < i && cands@.subrange(0, i as int)[j] == cur;
                    assert(!v0.closed.contains(cands@[j]));
                }
                assert(before.g[cur] == v0.g[cur]);
            }
            let h = n.manhattan_distance_to(&goal);
            match self.find_blocker(n, tg) {
                Some(existing) => {
                    proof {
                        let m = choose|m: int| 0 <= m < v0.open.len() && (#[trigger] v0.open[m]).position == n
                            && v0.open[m].g_cost <= tg;
                        lemma_first_blocker_exists(v0.open, n, tg as int, m);
                        let f = choose|f: int| is_first_blocker(v0.open, n, tg as int, f);
                        lemma_first_blocker(v0.open, as_nodes(prefix, tg as int, goal), n, tg as int, f);
                    }
                    let mut decision = String::from_str("skip: existing g=");
                    append_int(&mut decision, existing as i64);
                    decision.append(" ≤ tentative g=");
                    append_int(&mut decision, tg as i64);
                    self.last_neighbors.push(NeighborInfo {
                        pos: n,
                        g: Some(tg),
                        h: Some(h),
                        f: Some(tg + h),
                        decision,
                    });
                    proof {
                        lemma_search_ok_text(before, before.info, self@.log);
                        assert(self@ == (SearchView { info: before.info, log: self@.log, ..before }));
                    }
                },
                None => {
                    self.admit_informed_one(cur, tg, n, goal, grid);
                },
            }
            proof {
                let next = cands@.subrange(0, i as int + 1).filter(pred);
                assert forall|q: Position| #[trigger] grid.cell(q) == if next.contains(q) && g0.cell(q) == CellType::Empty {
                    CellType::Frontier
                } else {
                    g0.cell(q)
                } by {
                    lemma_push_contains(prefix, n, q);
                }
                lemma_extend_push(v0.came_from, prefix, n, cur);
                lemma_extend_push(v0.g, prefix, n, tg);
                lemma_extend_by_push(v0.h, prefix, n, h_for(goal));
                lemma_extend_by_push(v0.f, prefix, n, f_for(tg as int, goal));
                assert(self@.came_from =~= extend_all(v0.came_from, next, cur));
                assert(self@.g =~= extend_all(v0.g, next, tg));
                assert(self@.h =~= extend_by(v0.h, next, h_for(goal)));
                assert(self@.f =~= extend_by(v0.f, next, f_for(tg as int, goal)));
                assert(as_nodes(next, tg as int, goal) =~= as_nodes(prefix, tg as int, goal) + (if pred(n) {
                    seq![node_for(n, tg as int, goal)]
                } else {
                    Seq::<Node>::empty()
                }));
                assert(self@.open =~= v0.open + as_nodes(next, tg as int, goal));
            }
            i = i + 1;
        }
        proof {
            assert(cands@.subrange(0, cands@.len() as int) =~= cands@);
        }
    }

    /// The index of the first entry that no other entry is served before.
    fn select_min(&self) -> (r: usize)
        requires
            self@.open.len() > 0,
        ensures
            is_first_min(self@.open, r as int),
    {
        let mut best: usize = 0;
        let mut j: usize = 1;
        while j < self.open_set.len()
            invariant
                1 <= j <= self@.open.len(),
                best < j,
                forall|k: int| 0 <= k < j ==> !served_before(#[trigger] self@.open[k], self@.open[best as int]),
                forall|k: int| 0 <= k < best ==> served_before(self@.open[best as int], #[trigger] self@.open[k]),
            decreases self@.open.len() - j,
        {
            let a = self.open_set[j];
            let b = self.open_set[best];
            let fa: i64 = a.g_cost as i64 + a.h_cost as i64;
            let fb: i64 = b.g_cost as i64 + b.h_cost as i64;
            if fa < fb || (fa == fb && a.h_cost < b.h_cost) {
                best = j;
            }
            j = j + 1;
        }
        best
    }

    /// One A* step.
    #[verifier::rlimit(100)]
    fn step_astar(&mut self, goal: Position, grid: &mut Grid) -> (r: StepResult)
        requires
            old(self).wf(),
            old(self)@.reached is None,
            old(self)@.steps < STEP_LIMIT,
            old(grid).wf(),
            fits(old(self)@, old(grid)),
            grid_in_cost_range(old(grid)),
            in_cost_range(goal),
        ensures
            final(self).wf(),
            final(grid).wf(),
            final(grid).same_terrain(old(grid)),
            consistent_with(old(self)@, old(grid)) ==> consistent_with(final(self)@, final(grid)),
            informed_step(old(self)@, final(self)@, old(grid), final(grid), goal, r),
    {
        let ghost v0 = self@;
        let ghost g0 = *grid;
        loop
            invariant
                self.parts_wf(),
                search_ok(self@),
                self@ == (SearchView { open: self@.open, ..v0 }),
                skip_stale(self@.open, v0.closed) == skip_stale(v0.open, v0.closed),
                *grid == g0,
            ensures
                self.parts_wf(),
                search_ok(self@),
                self@ == (SearchView { open: self@.open, ..v0 }),
                self@.open == skip_stale(v0.open, v0.closed),
                self@.open.len() > 0 ==> !v0.closed.contains(self@.open[first_min(self@.open)].position),
                *grid == g0,
            decreases self@.open.len(),
        {
            if self.open_set.len() == 0 {
                break;
            }
            let k = self.select_min();
            let ghost o = self@.open;
            proof {
                assert(is_first_min(o, first_min(o)));
                if first_min(o) != k as int {
                    let m = first_min(o);
                    if m < k {
                        assert(served_before(o[k as int], o[m]));
                    } else {
                        assert(served_before(o[m], o[k as int]));
                    }
                }
            }
            if self.closed_set.contains(&self.open_set[k].position) {
                let ghost before = self@;
                self.open_set.remove(k);
                proof {
                    lemma_search_ok_drop(before, k as int);
                    assert(skip_stale(o, v0.closed) == skip_stale(o.remove(k as int), v0.closed));
                }
            } else {
                break;
            }
        }
        let ghost vp = self@;
        proof {
            assert(vp == pruned(v0));
        }
        if self.open_set.len() == 0 {
            self.last_step_info = String::from_str("Open set empty → no path");
            proof {
                lemma_search_ok_text(vp, self@.info, vp.log);
            }
            return StepResult::NoPath;
        }
        let k = self.select_min();
        proof {
            assert(is_first_min(vp.open, first_min(vp.open)));
            if first_min(vp.open) != k as int {
                let m = first_min(vp.open);
                if m < k {
                    assert(served_before(vp.open[k as int], vp.open[m]));
                } else {
                    assert(served_before(vp.open[m], vp.open[k as int]));
                }
            }
        }
        let node = self.open_set.remove(k);
        let current = node.position;
        proof {
            reveal(search_ok);
            assert(vp.algorithm == Algorithm::AStar);
            assert(vp.g[current] <= node.g_cost <= vp.steps);
        }
        self.close_current(current, grid);
        proof {
            reveal(search_ok);
            let v = self@;
            assert forall|i: int| 0 <= i < v.open.len() implies {
                let e = #[trigger] v.open[i];
                &&& discovered(v, e.position)
                &&& v.g.dom().contains(e.position)
                &&& v.g[e.position] <= e.g_cost <= v.steps
            } by {
                if i < k {
                    assert(v.open[i] == vp.open[i]);
                } else {
                    assert(v.open[i] == vp.open[i + 1]);
                }
            }
            assert(start_ok(v)) by {
                if !vp.closed.contains(vp.start) {
                    assert(vp.open[k as int].position == vp.start);
                }
            }
            assert(tree_ok(v));
            assert(costs_ok(v));
            assert(frontier_ok(v));
            assert(uninformed_ok(v));
        }
        let closed_len = self.closed_set.len();
        self.last_step_info = informed_text(self.step_count, node, self.open_set.len(), closed_len);
        self.last_neighbors = Vec::new();
        proof {
            lemma_search_ok_text(self@, self@.info, self@.log);
        }
        if current == goal {
            let path = self.reconstruct_path(current);
            self.reached = Some(goal);
            proof {
                reveal(search_ok);
            }
            return StepResult::PathFound(path);
        }
        let neighbors = grid.get_walkable_neighbors(&current);
        proof {
            lemma_same_terrain_neighbors(grid, &g0, current);
            lemma_walkable_neighbors(grid, current);
        }
        let cands = self.unclosed_neighbors(&neighbors);
        proof {
            lemma_filter_no_duplicates(neighbors@, |n: Position| !self@.closed.contains(n));
            assert forall|a: int| 0 <= a < cands@.len() implies {
                let n = #[trigger] cands@[a];
                grid.walkable(n) && adjacent(n, current) && !self@.closed.contains(n)
            } by {
                let n = cands@[a];
                assert(cands@.contains(n));
                neighbors@.lemma_filter_contains_rev(|n: Position| !self@.closed.contains(n), n);
                let b = choose|b: int| 0 <= b < neighbors@.len() && neighbors@[b] == n;
                assert(grid.walkable(neighbors@[b]));
            }
        }
        let ghost gm_closed = self@.closed;
        let ghost gm = *grid;
        self.admit_informed(current, node.g_cost + 1, &cands, goal, grid);
        let ghost ga = *grid;
        grid.mark_visited(self.closed_set.as_slice(), None, None);
        proof {
            assert(ga.cell(current) == gm.cell(current) || gm.cell(current) == CellType::Empty);
            let rest = vp.open.remove(k as int);
            let tg = (node.g_cost + 1) as int;
            let adm = admitted_informed(rest, cands@, tg);
            assert forall|n: Position| #[trigger] adm.contains(n) implies !self@.closed.contains(n) by {
                cands@.lemma_filter_contains_rev(|n: Position| !blocked(rest, n, tg), n);
                let a = choose|a: int| 0 <= a < cands@.len() && cands@[a] == n;
                assert(!gm_closed.contains(cands@[a]));
            }
            lemma_marks(vp, self@, &g0, &gm, &ga, grid, current, adm);
        }
        StepResult::Continue
    }

    /// Advances the run by one expansion of `algorithm`'s frontier toward `goal`, painting
    /// overlays on `grid`. A* first discards the entries it would pop for positions that are
    /// already closed. Once a path has been returned, every later call returns the same
    /// path and changes nothing. Once `NoPath` has been returned the frontier is empty, so
    /// later calls return `NoPath` again; so does a call with another algorithm than the one
    /// the run was initialized for.
    pub fn step(&mut self, algorithm: &Algorithm, goal: Position, grid: &mut Grid) -> (r: StepResult)
        requires
            old(self).wf(),
            old(self)@.steps < STEP_LIMIT,
            old(grid).wf(),
            fits(old(self)@, old(grid)),
            grid_in_cost_range(old(grid)),
            in_cost_range(goal),
        ensures
            fits(final(self)@, final(grid)),
            final(self).wf(),
            final(grid).wf(),
            final(grid).same_terrain(old(grid)),
            consistent_with(old(self)@, old(grid)) ==> consistent_with(final(self)@, final(grid)),
            old(self)@.reached matches Some(g) ==> {
                &&& r matches StepResult::PathFound(path) && traces_back(old(self)@.came_from, old(self)@.start, g, path@)
                &&& final(self)@ == old(self)@
                &&& final(grid)@ == old(grid)@
            },
            old(self)@.reached is None && *algorithm == Algorithm::AStar ==> informed_step(old(self)@, final(self)@, old(grid), final(grid), goal, r),
            old(self)@.reached is None && *algorithm == Algorithm::Bfs ==> uninformed_step(old(self)@, final(self)@, old(grid), final(grid), goal, false, r),
            old(self)@.reached is None && *algorithm == Algorithm::Dfs ==> uninformed_step(old(self)@, final(self)@, old(grid), final(grid), goal, true, r),
            old(self)@.closed.subset_of(final(self)@.closed),
            *algorithm != Algorithm::AStar ==> forall|c: Position| #[trigger] old(self)@.came_from.dom().contains(c)
                ==> final(self)@.came_from.dom().contains(c) && final(self)@.came_from[c] == old(self)@.came_from[c],
            *algorithm == Algorithm::Bfs && bfs_layered(old(self)@, old(grid)) ==> bfs_layered(final(self)@, final(grid)),
            *algorithm == Algorithm::AStar && goal == old(self)@.goal && astar_ok(old(self)@, old(grid))
                ==> astar_ok(final(self)@, final(grid)),
    {
        let ghost v0 = self@;
        let ghost g0 = *grid;
        if let Some(reached) = self.reached {
            proof {
                reveal(search_ok);
            }
            return StepResult::PathFound(self.reconstruct_path(reached));
        }
        let r = match algorithm {
            Algorithm::AStar => self.step_astar(goal, grid),
            Algorithm::Bfs => self.step_uninformed(false, goal, grid),
            Algorithm::Dfs => self.step_uninformed(true, goal, grid),
        };
        proof {
            crate::grid::lemma_same_terrain_obstacles(grid, &g0, v0.start);
            if v0.reached is None && *algorithm == Algorithm::Bfs && bfs_layered(v0, &g0) {
                lemma_bfs_layered_step(v0, self@, &g0, grid, goal, r);
            }
            if v0.reached is None && *algorithm == Algorithm::AStar && goal == v0.goal && astar_ok(v0, &g0) {
                lemma_astar_ok_step(v0, self@, &g0, grid, goal, r);
            }
            if *algorithm != Algorithm::AStar {
                let dfs = *algorithm == Algorithm::Dfs;
                if uninformed_frontier(v0, dfs).len() > 0 {
                    let cur = uninformed_next(v0, dfs);
                    let nbrs = considered(&g0, cur, dfs);
                    let adm = admitted_unseen(v0, cur, nbrs);
                    assert forall|c: Position| #[trigger] v0.came_from.dom().contains(c) implies !adm.contains(c) by {
                        if adm.contains(c) {
                            let i = choose|i: int| 0 <= i < adm.len() && adm[i] == c;
                            nbrs.lemma_filter_pred(|n: Position| unseen(v0, cur, n), i);
                        }
                    }
                }
            }
        }
        r
    }

    /// One BFS step (`dfs == false`) or DFS step (`dfs == true`).
    #[verifier::rlimit(100)]
    #[verifier::spinoff_prover]
    fn step_uninformed(&mut self, dfs: bool, goal: Position, grid: &mut Grid) -> (r: StepResult)
        requires
            old(self).wf(),
            old(self)@.reached is None,
            old(self)@.steps < STEP_LIMIT,
            old(grid).wf(),
            fits(old(self)@, old(grid)),
        ensures
            final(self).wf(),
            final(grid).wf(),
            final(grid).same_terrain(old(grid)),
            consistent_with(old(self)@, old(grid)) ==> consistent_with(final(self)@, final(grid)),
            uninformed_step(old(self)@, final(self)@, old(grid), final(grid), goal, dfs, r),
    {
        proof {
            reveal(search_ok);
        }
        let ghost v0 = self@;
        let ghost g0 = *grid;
        let popped = if dfs {
            self.dfs_stack.pop()
        } else {
            self.bfs_queue.pop_front()
        };
        let current = match popped {
            Some(p) => p,
            None => {
                self.last_step_info = String::from_str(if dfs { "Stack empty → no path" } else { "Queue empty → no path" });
                proof {
                    lemma_search_ok_text(v0, self@.info, v0.log);
                }
                return StepResult::NoPath;
            },
        };
        proof {
            if dfs {
                assert(self@.stack == v0.stack.drop_last());
                assert(v0.stack[v0.stack.len() - 1] == current);
            } else {
                assert(self@.queue == v0.queue.drop_first());
                assert(v0.queue[0] == current);
            }
        }
        self.close_current(current, grid);
        proof {
            let v = self@;
            if dfs {
                assert forall|i: int| 0 <= i < v.stack.len() implies #[trigger] v.stack[i] != current by {
                    assert(v0.stack[i] == v.stack[i]);
                    assert(v0.stack[v0.stack.len() - 1] == current);
                }
            } else {
                assert forall|i: int| 0 <= i < v.queue.len() implies #[trigger] v.queue[i] != current by {
                    assert(v0.queue[i + 1] == v.queue[i]);
                }
            }
            assert(!v0.closed.contains(current));
            assert(v0.closed.finite());
            assert(v.closed.len() == v0.closed.len() + 1);
            assert(tree_ok(v));
            assert(costs_ok(v));
            assert(frontier_ok(v));
            assert(start_ok(v));
            assert(uninformed_ok(v));
        }
        let g = match self.g_costs.get(&current) {
            Some(value) => value,
            None => 0,
        };
        let frontier_len = if dfs {
            self.dfs_stack.len()
        } else {
            self.bfs_queue.len()
        };
        let closed_len = self.closed_set.len();
        self.last_step_info = uninformed_text(dfs, self.step_count, current, g, frontier_len, closed_len);
        self.last_neighbors = Vec::new();
        if current == goal {
            let path = self.reconstruct_path(current);
            self.reached = Some(goal);
            proof {
                reveal(search_ok);
            }
            return StepResult::PathFound(path);
        }
        let neighbors = grid.get_walkable_neighbors(&current);
        proof {
            lemma_same_terrain_neighbors(grid, &g0, current);
        }
        let neighbors = if dfs {
            reversed(&neighbors)
        } else {
            neighbors
        };
        let ghost mid = self@;
        let ghost gm = *grid;
        self.admit_unseen(dfs, current, g, &neighbors, grid);
        proof {
            assert((|n: Position| unseen(mid, current, n)) =~= (|n: Position| unseen(v0, current, n)));
        }
        let ghost ga = *grid;
        grid.mark_visited(self.closed_set.as_slice(), None, None);
        proof {
            assert(ga.cell(current) == gm.cell(current) || gm.cell(current) == CellType::Empty);
            assert(admitted_unseen(mid, current, neighbors@) == admitted_unseen(v0, current, neighbors@));
            lemma_marks(v0, self@, &g0, &gm, &ga, grid, current, admitted_unseen(mid, current, neighbors@));
        }
        StepResult::Continue
    }

    /// An empty state, with every structure empty.
    pub fn new() -> (r: Self)
        ensures
            r.wf(),
            r@.open.len() == 0,
            r@.queue.len() == 0,
            r@.stack.len() == 0,
            r@.closed == Set::<Position>::empty(),
            r@.came_from == Map::<Position, Position>::empty(),
            r@.g == Map::<Position, i32>::empty(),
            r@.h == Map::<Position, i32>::empty(),
            r@.f == Map::<Position, i32>::empty(),
            r@.current == None::<Position>,
            r@.previous == None::<Position>,
            r@.steps == 0,
            r@.info.len() == 0,
            r@.log.len() == 0,
            r@.reached == None::<Position>,
    {
        proof {
            reveal(search_ok);
        }
        let r = PathfindingState {
            open_set: Vec::new(),
            bfs_queue: VecDeque::new(),
            dfs_stack: Vec::new(),
            closed_set: PositionSet::new(),
            came_from: PositionMap::new(),
            g_costs: PositionMap::new(),
            h_costs: PositionMap::new(),
            f_costs: PositionMap::new(),
            current_node: None,
            step_count: 0,
            last_step_info: String::new(),
            last_neighbors: Vec::new(),
            previous_node: None,
            reached: None,
            start: Position { x: 0, y: 0 },
            goal: Ghost(Position { x: 0, y: 0 }),
            algorithm: Ghost(Algorithm::AStar),
        };
        proof {
            assert(r@.closed.len() == 0);
        }
        r
    }

    /// Resets the state and seeds the frontier of `algorithm` with `start`.
    pub fn initialize(&mut self, algorithm: &Algorithm, start: Position, goal: Position)
        requires
            in_cost_range(start),
            in_cost_range(goal),
        ensures
            final(self).wf(),
            initial_view(final(self)@, *algorithm, start, goal),
    {
        proof {
            reveal(search_ok);
        }
        *self = Self::new();
        self.start = start;
        self.goal = Ghost(goal);
        self.algorithm = Ghost(*algorithm);
        match algorithm {
            Algorithm::AStar => {
                let h = start.manhattan_distance_to(&goal);
                let start_node = Node { position: start, g_cost: 0, h_cost: h };
                self.open_set.push(start_node);
                self.g_costs.insert(start, 0);
                self.h_costs.insert(start, h);
                self.f_costs.insert(start, h);
            },
            Algorithm::Bfs => {
                self.bfs_queue.push_back(start);
                self.g_costs.insert(start, 0);
            },
            Algorithm::Dfs => {
                self.dfs_stack.push(start);
                self.g_costs.insert(start, 0);
            },
        }
        proof {
            assert(self@.open =~= (if *algorithm == Algorithm::AStar {
                seq![Node { position: start, g_cost: 0, h_cost: manhattan(start, goal) as i32 }]
            } else {
                Seq::<Node>::empty()
            }));
            assert(self@.queue =~= (if *algorithm == Algorithm::Bfs { seq![start] } else { Seq::<Position>::empty() }));
            assert(self@.stack =~= (if *algorithm == Algorithm::Dfs { seq![start] } else { Seq::<Position>::empty() }));
            assert(self@.g =~= map![start => 0i32]);
            assert(self@.h =~= (if *algorithm == Algorithm::AStar {
                map![start => manhattan(start, goal) as i32]
            } else {
                Map::<Position, i32>::empty()
            }));
            assert(self@.f =~= (if *algorithm == Algorithm::AStar {
                map![start => manhattan(start, goal) as i32]
            } else {
                Map::<Position, i32>::empty()
            }));
        }
    }

    /// Walks the back pointers from `goal` to the start and returns the path in forward order.
    fn reconstruct_path(&self, goal: Position) -> (r: Vec<Position>)
        requires
            self.wf(),
            discovered(self@, goal),
        ensures
            traces_back(self@.came_from, self@.start, goal, r@),
    {
        let ghost v = self@;
        proof {
            reveal(search_ok);
            assert(tree_ok(v));
            assert(costs_ok(v));
        }
        let mut rev: Vec<Position> = Vec::new();
        let mut current = goal;
        loop
            invariant
                self.wf(),
                v == self@,
                tree_ok(v),
                costs_ok(v),
                discovered(v, current),
                rev@.len() == 0 ==> current == goal,
                rev@.len() > 0 ==> rev@[0] == goal,
                forall|j: int| 0 <= j < rev@.len() ==> v.came_from.dom().contains(#[trigger] rev@[j])
                    && v.came_from[rev@[j]] == (if j + 1 < rev@.len() { rev@[j + 1] } else { current }),
            ensures
                discovered(v, current),
                !v.came_from.dom().contains(current),
                rev@.len() == 0 ==> current == goal,
                rev@.len() > 0 ==> rev@[0] == goal,
                forall|j: int| 0 <= j < rev@.len() ==> v.came_from.dom().contains(#[trigger] rev@[j])
                    && v.came_from[rev@[j]] == (if j + 1 < rev@.len() { rev@[j + 1] } else { current }),
            decreases (if v.g.dom().contains(current) { v.g[current] as int } else { 0 }),
        {
            match self.came_from.get(&current) {
                Some(parent) => {
                    rev.push(current);
                    current = parent;
                },
                None => {
                    break;
                },
            }
        }
        rev.push(current);
        let n = rev.len();
        let mut path: Vec<Position> = Vec::new();
        let mut k: usize = n;
        while k > 0
            invariant
                k <= n,
                n == rev@.len(),
                path@.len() == n - k,
                forall|i: int| 0 <= i < path@.len() ==> #[trigger] path@[i] == rev@[n - 1 - i],
            decreases k,
        {
            k = k - 1;
            path.push(rev[k]);
        }
        proof {
            assert(path@[0] == rev@[n - 1]);
            assert(path@[n - 1] == rev@[0]);
            assert(path@.last() == goal);
            assert forall|i: int| 1 <= i < path@.len() implies v.came_from.dom().contains(#[trigger] path@[i])
                && v.came_from[path@[i]] == path@[i - 1] by {
                assert(path@[i] == rev@[n - 1 - i]);
                assert(path@[i - 1] == rev@[n - 1 - i + 1]);
            }
        }
        path
    }

    /// Whether the run fits `grid`, as `step` requires: every position that received a
    /// parent is walkable there, and the start holds no obstacle.
    pub fn fits_grid(&self, grid: &Grid) -> (r: bool)
        requires
            self.wf(),
            grid.wf(),
        ensures
            r == fits(self@, grid),
    {
        if grid.is_valid_position(&self.start) && grid.get_cell(&self.start) == CellType::Obstacle {
            return false;
        }
        let keys = self.came_from.keys();
        let mut i: usize = 0;
        while i < keys.len()
            invariant
                i <= keys@.len(),
                grid.wf(),
                self.wf(),
                forall|q: Position| self@.came_from.dom().contains(q) <==> #[trigger] keys@.contains(q),
                forall|j: int| 0 <= j < i ==> grid.walkable(#[trigger] keys@[j]),
            decreases keys@.len() - i,
        {
            if !grid.is_walkable(&keys[i]) {
                assert(keys@.contains(keys@[i as int]));
                assert(self@.came_from.dom().contains(keys@[i as int]));
                return false;
            }
            i = i + 1;
        }
        assert forall|c: Position| #[trigger] self@.came_from.dom().contains(c) implies grid.walkable(c) by {
            assert(keys@.contains(c));
            let j = choose|j: int| 0 <= j < keys@.len() && keys@[j] == c;
            assert(grid.walkable(keys@[j]));
        }
        true
    }

    /// Number of entries in the frontier of `algorithm`, stale A* entries included.
    pub fn frontier_len(&self, algorithm: &Algorithm) -> (r: usize)
        ensures
            r == match *algorithm {
                Algorithm::AStar => self@.open.len(),
                Algorithm::Bfs => self@.queue.len(),
                Algorithm::Dfs => self@.stack.len(),
            },
    {
        match algorithm {
            Algorithm::AStar => self.open_set.len(),
            Algorithm::Bfs => self.bfs_queue.len(),
            Algorithm::Dfs => self.dfs_stack.len(),
        }
    }

    pub fn step_count(&self) -> (r: usize)
        ensures
            r == self@.steps,
    {
        self.step_count
    }

    pub fn closed_set_len(&self) -> (r: usize)
        requires
            self.wf(),
        ensures
            r == self@.closed.len(),
    {
        self.closed_set.len()
    }

    pub fn last_step_info(&self) -> (r: &str)
        ensures
            r@ == self@.info,
    {
        self.last_step_info.as_str()
    }

    pub fn last_neighbors(&self) -> (r: &[NeighborInfo])
        ensures
            r@ == self@.log,
    {
        self.last_neighbors.as_slice()
    }

    pub fn current_node(&self) -> (r: Option<Position>)
        ensures
            r == self@.current,
    {
        self.current_node
    }

    /// The back pointers: each discovered position other than the start, with its parent.
    pub fn came_from(&self) -> (r: &PositionMap<Position>)
        requires
            self.wf(),
        ensures
            r.wf(),
            r@ == self@.came_from,
    {
        &self.came_from
    }

    pub fn g_cost(&self, pos: &Position) -> (r: Option<i32>)
        requires
            self.wf(),
        ensures
            r == if self@.g.dom().contains(*pos) { Some(self@.g[*pos]) } else { None::<i32> },
    {
        self.g_costs.get(pos)
    }

    pub fn h_cost(&self, pos: &Position) -> (r: Option<i32>)
        requires
            self.wf(),
        ensures
            r == if self@.h.dom().contains(*pos) { Some(self@.h[*pos]) } else { None::<i32> },
    {
        self.h_costs.get(pos)
    }

    pub fn f_cost(&self, pos: &Position) -> (r: Option<i32>)
        requires
            self.wf(),
        ensures
            r == if self@.f.dom().contains(*pos) { Some(self@.f[*pos]) } else { None::<i32> },
    {
        self.f_costs.get(pos)
    }
}

} // verus!
