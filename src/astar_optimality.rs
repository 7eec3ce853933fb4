use vstd::prelude::*;
use crate::algorithms::Algorithm;
use crate::bfs_optimality::{bfs_layered, is_walk, lemma_bfs_returns_shortest};
use crate::grid::{Grid, lemma_neighbor_listed};
use crate::node::{f_of, served_before};
use crate::pathfinding_state::{
    SearchView, StepResult, admitted_informed, as_nodes, blocked, consistent_with, discovered, extend_all,
    expansion_step, first_min, grid_in_cost_range, lemma_search_ok_drop, pruned, in_cost_range, informed_step, initial_view, is_first_min,
    node_for, search_ok, traces_back, unclosed, uninformed_step, COORD_LIMIT,
};
use crate::position::{Position, adjacent, manhattan};

verus! {

/// The A* bookkeeping of a run that has not returned yet, on `grid`: the start has cost
/// zero; the goal is not closed; every entry carries the Manhattan distance to the goal;
/// every discovered open position has an entry at its recorded cost; every walkable open
/// neighbour of a closed position costs at most one more; no walk from the start to a
/// closed position is shorter than its cost; and each child costs one more than its parent.
pub open spec fn astar_ok(v: SearchView, grid: &Grid) -> bool {
    v.algorithm == Algorithm::AStar && v.reached is None ==> {
        &&& v.g.dom().contains(v.start)
        &&& v.g[v.start] == 0
        &&& !v.closed.contains(v.goal)
        &&& forall|i: int| 0 <= i < v.open.len() ==> (#[trigger] v.open[i]).h_cost == manhattan(v.open[i].position, v.goal)
        &&& forall|p: Position| #[trigger] v.g.dom().contains(p) && !v.closed.contains(p) ==> exists|i: int|
            0 <= i < v.open.len() && (#[trigger] v.open[i]).position == p && v.open[i].g_cost == v.g[p]
        &&& forall|c: Position, n: Position| #![trigger v.closed.contains(c), grid.walkable(n)]
            v.closed.contains(c) && grid.walkable(n) && adjacent(n, c) && !v.closed.contains(n) ==> v.g.dom().contains(n)
                && v.g[n] <= v.g[c] + 1
        &&& forall|c: Position, w: Seq<Position>| #![trigger v.closed.contains(c), is_walk(grid, w)]
            v.closed.contains(c) && is_walk(grid, w) && w[0] == v.start && w.last() == c ==> v.g[c] <= w.len() - 1
        &&& forall|c: Position| #[trigger] v.came_from.dom().contains(c) ==> v.g[c] == v.g[v.came_from[c]] + 1
    }
}

/// Manhattan distance to `t` drops by at most one per step.
proof fn lemma_manhattan_step(a: Position, b: Position, t: Position)
    requires
        adjacent(a, b),
    ensures
        manhattan(a, t) <= manhattan(b, t) + 1,
{
}

/// Along a walk, the Manhattan distance to `t` drops by at most the number of steps taken.
proof fn lemma_manhattan_walk(grid: &Grid, w: Seq<Position>, i: int, t: Position)
    requires
        is_walk(grid, w),
        0 <= i < w.len(),
    ensures
        manhattan(w[i], t) <= (w.len() - 1 - i) + manhattan(w.last(), t),
    decreases w.len() - i,
{
    if i < w.len() - 1 {
        lemma_manhattan_walk(grid, w, i + 1, t);
        lemma_manhattan_step(w[i], w[i + 1], t);
    }
}

proof fn lemma_prefix_walk(grid: &Grid, w: Seq<Position>, n: int)
    requires
        is_walk(grid, w),
        1 <= n <= w.len(),
    ensures
        is_walk(grid, w.subrange(0, n)),
        w.subrange(0, n)[0] == w[0],
        w.subrange(0, n).last() == w[n - 1],
{
    let s = w.subrange(0, n);
    assert forall|i: int| 0 <= i < s.len() - 1 implies adjacent(#[trigger] s[i], s[i + 1]) by {
        assert(s[i] == w[i] && s[i + 1] == w[i + 1]);
    }
    assert forall|i: int| 1 <= i < s.len() implies grid.walkable(#[trigger] s[i]) by {
        assert(s[i] == w[i]);
    }
}

proof fn lemma_walk_same_terrain(g0: &Grid, g1: &Grid, w: Seq<Position>)
    requires
        g1.same_terrain(g0),
    ensures
        is_walk(g0, w) == is_walk(g1, w),
{
    assert forall|i: int| 1 <= i < w.len() implies g0.walkable(#[trigger] w[i]) == g1.walkable(w[i]) by {
    }
}

/// A freshly initialized A* run satisfies the A* bookkeeping on any grid.
pub proof fn lemma_astar_ok_initial(v: SearchView, grid: &Grid, start: Position, goal: Position)
    requires
        initial_view(v, Algorithm::AStar, start, goal),
        in_cost_range(start),
        in_cost_range(goal),
    ensures
        astar_ok(v, grid),
{
    assert(v.g.dom().contains(start));
    assert forall|p: Position| #[trigger] v.g.dom().contains(p) && !v.closed.contains(p) implies exists|i: int|
        0 <= i < v.open.len() && (#[trigger] v.open[i]).position == p && v.open[i].g_cost == v.g[p] by {
        assert(v.open[0].position == p);
    }
}

/// The walk argument: scanning a walk from the start to the popped position `u`, the first
/// position that is not closed has an entry whose `f` is at most the walk's length plus the
/// heuristic of `u`; the popped entry, being first in priority, has no larger `f`.
proof fn lemma_astar_walk(v: SearchView, grid: &Grid, k: int, w: Seq<Position>, i: int)
    requires
        search_ok(v),
        astar_ok(v, grid),
        v.algorithm == Algorithm::AStar,
        v.reached is None,
        is_first_min(v.open, k),
        !v.closed.contains(v.open[k].position),
        is_walk(grid, w),
        w[0] == v.start,
        w.last() == v.open[k].position,
        0 <= i < w.len(),
        forall|j: int| 0 <= j < i ==> v.closed.contains(#[trigger] w[j]),
        v.g.dom().contains(w[i]),
        v.g[w[i]] <= i,
    ensures
        f_of(v.open[k]) <= w.len() - 1 + manhattan(v.open[k].position, v.goal),
    decreases w.len() - i,
{
    let u = v.open[k].position;
    if !v.closed.contains(w[i]) {
        let p = w[i];
        assert(v.g.dom().contains(p) && !v.closed.contains(p));
        let m = choose|m: int| 0 <= m < v.open.len() && (#[trigger] v.open[m]).position == p && v.open[m].g_cost == v.g[p];
        assert(!served_before(v.open[m], v.open[k]));
        lemma_manhattan_walk(grid, w, i, v.goal);
        assert(v.open[m].h_cost == manhattan(p, v.goal));
        assert(v.open[k].h_cost == manhattan(u, v.goal));
    } else {
        assert(i < w.len() - 1);
        let n = w[i + 1];
        assert(adjacent(w[i], n));
        assert(adjacent(n, w[i]));
        assert(grid.walkable(n));
        if v.closed.contains(n) {
            lemma_prefix_walk(grid, w, i + 2);
            let pre = w.subrange(0, i + 2);
            assert(v.closed.contains(n) && is_walk(grid, pre));
            reveal(search_ok);
            assert(discovered(v, n));
            assert(v.g[n] <= pre.len() - 1);
        } else {
            assert(v.closed.contains(w[i]) && grid.walkable(n));
        }
        lemma_astar_walk(v, grid, k, w, i + 1);
    }
}

/// The first time a position is popped, its entry has the recorded cost, and no walk from the
/// start to it is shorter than that cost.
proof fn lemma_astar_first_pop(v: SearchView, grid: &Grid, k: int)
    requires
        search_ok(v),
        astar_ok(v, grid),
        v.algorithm == Algorithm::AStar,
        v.reached is None,
        is_first_min(v.open, k),
        !v.closed.contains(v.open[k].position),
    ensures
        v.g.dom().contains(v.open[k].position),
        v.open[k].g_cost == v.g[v.open[k].position],
        forall|w: Seq<Position>| #[trigger] is_walk(grid, w) && w[0] == v.start && w.last() == v.open[k].position
            ==> v.g[v.open[k].position] <= w.len() - 1,
{
    reveal(search_ok);
    let u = v.open[k].position;
    assert(v.g.dom().contains(u));
    let m = choose|m: int| 0 <= m < v.open.len() && (#[trigger] v.open[m]).position == u && v.open[m].g_cost == v.g[u];
    assert(!served_before(v.open[m], v.open[k]));
    assert(v.open[m].h_cost == v.open[k].h_cost);
    assert forall|w: Seq<Position>| #[trigger] is_walk(grid, w) && w[0] == v.start && w.last() == u implies v.g[u] <= w.len() - 1 by {
        if v.closed.contains(v.start) {
            lemma_astar_walk(v, grid, k, w, 0);
        } else {
            assert(u == v.start);
        }
        assert(v.open[k].h_cost == manhattan(u, v.goal));
    }
}

/// The facts about one A* expansion of entry `k` that the bookkeeping rests on.
pub open spec fn astar_expansion(v0: SearchView, v1: SearchView, g0: &Grid, g1: &Grid, k: int, adm: Seq<Position>) -> bool {
    let e = v0.open[k];
    let u = e.position;
    let rest = v0.open.remove(k);
    let tg = e.g_cost + 1;
    &&& 0 <= k < v0.open.len()
    &&& is_first_min(v0.open, k)
    &&& u != v0.goal
    &&& v1.algorithm == Algorithm::AStar
    &&& v1.reached is None
    &&& v1.start == v0.start
    &&& v1.goal == v0.goal
    &&& v1.closed == v0.closed.insert(u)
    &&& v1.open == rest + as_nodes(adm, tg, v0.goal)
    &&& v1.g == extend_all(v0.g, adm, tg as i32)
    &&& v1.came_from == extend_all(v0.came_from, adm, u)
    &&& forall|c: Position| #[trigger] v0.came_from.dom().contains(c) ==> v0.g.dom().contains(c)
        && v0.closed.contains(v0.came_from[c]) && v0.g.dom().contains(v0.came_from[c])
    &&& tg <= i32::MAX
    &&& forall|n: Position| #[trigger] adm.contains(n) ==> g0.walkable(n) && adjacent(n, u) && !v1.closed.contains(n)
        && !blocked(rest, n, tg) && manhattan(node_for(n, tg, v0.goal).position, v0.goal) == node_for(n, tg, v0.goal).h_cost
    &&& forall|n: Position| #[trigger] g0.walkable(n) && adjacent(n, u) && !v1.closed.contains(n) && !blocked(rest, n, tg)
        ==> adm.contains(n)
    &&& forall|i: int| 0 <= i < v0.open.len() ==> v0.g.dom().contains((#[trigger] v0.open[i]).position)
        && v0.g[v0.open[i].position] <= v0.open[i].g_cost
    &&& forall|c: Position| #[trigger] v0.closed.contains(c) ==> v0.g.dom().contains(c)
    &&& !v0.closed.contains(v0.start) ==> u == v0.start
    &&& forall|p: Position| #[trigger] g1.walkable(p) == g0.walkable(p)
    &&& forall|w: Seq<Position>| #[trigger] is_walk(g1, w) == is_walk(g0, w)
    &&& !v0.closed.contains(u) ==> {
        &&& v0.g.dom().contains(u)
        &&& e.g_cost == v0.g[u]
        &&& forall|w: Seq<Position>| #[trigger] is_walk(g0, w) && w[0] == v0.start && w.last() == u ==> v0.g[u] <= w.len() - 1
    }
}

proof fn lemma_expansion_indices(v0: SearchView, v1: SearchView, g0: &Grid, g1: &Grid, k: int, adm: Seq<Position>)
    requires
        astar_expansion(v0, v1, g0, g1, k, adm),
    ensures
        forall|i: int| 0 <= i < k ==> v1.open[i] == v0.open[i],
        forall|i: int| k < i < v0.open.len() ==> v1.open[i - 1] == v0.open[i],
        forall|j: int| 0 <= j < adm.len() ==> v1.open[v0.open.len() - 1 + j] == node_for(adm[j], v0.open[k].g_cost + 1, v0.goal),
        v1.open.len() == v0.open.len() - 1 + adm.len(),
        forall|p: Position| #[trigger] v0.g.dom().contains(p) && !adm.contains(p) ==> v1.g.dom().contains(p) && v1.g[p] == v0.g[p],
        forall|n: Position| #[trigger] adm.contains(n) ==> v1.g.dom().contains(n) && v1.g[n] == v0.open[k].g_cost + 1,
        forall|p: Position| #[trigger] v1.g.dom().contains(p) ==> v0.g.dom().contains(p) || adm.contains(p),
{
}

#[verifier::rlimit(60)]
proof fn lemma_expansion_astar_ok(v0: SearchView, v1: SearchView, g0: &Grid, g1: &Grid, k: int, adm: Seq<Position>)
    requires
        astar_ok(v0, g0),
        v0.algorithm == Algorithm::AStar,
        v0.reached is None,
        astar_expansion(v0, v1, g0, g1, k, adm),
    ensures
        astar_ok(v1, g1),
{
    lemma_expansion_indices(v0, v1, g0, g1, k, adm);
    let e = v0.open[k];
    let u = e.position;
    let rest = v0.open.remove(k);
    let tg = e.g_cost + 1;
    let n0 = v0.open.len() - 1;
    // the start keeps cost zero
    assert(v1.closed.contains(v0.start));
    assert(!adm.contains(v0.start));
    // entries carry the heuristic
    assert forall|i: int| 0 <= i < v1.open.len() implies (#[trigger] v1.open[i]).h_cost == manhattan(v1.open[i].position, v1.goal) by {
        if i < k {
        } else if i < n0 {
            assert(v1.open[i] == v0.open[i + 1]);
        } else {
            let j = i - n0;
            assert(v1.open[i] == node_for(adm[j], tg, v0.goal));
            assert(adm.contains(adm[j]));
        }
    }
    // every discovered open position has an entry at its cost
    assert forall|p: Position| #[trigger] v1.g.dom().contains(p) && !v1.closed.contains(p) implies exists|i: int|
        0 <= i < v1.open.len() && (#[trigger] v1.open[i]).position == p && v1.open[i].g_cost == v1.g[p] by {
        if adm.contains(p) {
            let j = choose|j: int| 0 <= j < adm.len() && adm[j] == p;
            assert(v1.open[n0 + j] == node_for(adm[j], tg, v0.goal));
            assert(v1.open[n0 + j].position == p);
        } else {
            assert(v0.g.dom().contains(p) && !v0.closed.contains(p));
            let m = choose|m: int| 0 <= m < v0.open.len() && (#[trigger] v0.open[m]).position == p && v0.open[m].g_cost == v0.g[p];
            assert(m != k);
            if m < k {
                assert(v1.open[m] == v0.open[m]);
            } else {
                assert(v1.open[m - 1] == v0.open[m]);
            }
        }
    }
    // an admitted position that was already discovered had a higher cost
    assert forall|n: Position| #[trigger] adm.contains(n) && v0.g.dom().contains(n) implies tg < v0.g[n] by {
        assert(!v0.closed.contains(n));
        let m = choose|m: int| 0 <= m < v0.open.len() && (#[trigger] v0.open[m]).position == n && v0.open[m].g_cost == v0.g[n];
        assert(m != k);
        let r = if m < k { m } else { m - 1 };
        assert(rest[r] == v0.open[m]);
        assert(!blocked(rest, n, tg));
    }
    // open walkable neighbours of closed positions cost at most one more
    assert forall|c: Position, n: Position| #![trigger v1.closed.contains(c), g1.walkable(n)]
        v1.closed.contains(c) && g1.walkable(n) && adjacent(n, c) && !v1.closed.contains(n) implies v1.g.dom().contains(n)
            && v1.g[n] <= v1.g[c] + 1 by {
        assert(g0.walkable(n));
        if v0.closed.contains(c) {
            assert(v0.closed.contains(c) && g0.walkable(n));
            assert(v0.g.dom().contains(n) && v0.g[n] <= v0.g[c] + 1);
            assert(v0.g.dom().contains(c));
            assert(!adm.contains(c));
        } else {
            assert(c == u);
            if blocked(rest, n, tg) {
                let m = choose|m: int| 0 <= m < rest.len() && (#[trigger] rest[m]).position == n && rest[m].g_cost <= tg;
                let i = if m < k { m } else { m + 1 };
                assert(rest[m] == v0.open[i]);
                assert(v0.g.dom().contains(n));
                assert(!adm.contains(n));
            } else {
                assert(adm.contains(n));
            }
        }
    }
    // each child costs one more than its parent
    assert forall|c: Position| #[trigger] v1.came_from.dom().contains(c) implies v1.g[c] == v1.g[v1.came_from[c]] + 1 by {
        if adm.contains(c) {
            assert(v1.came_from[c] == u);
            assert(!adm.contains(u));
        } else {
            assert(v0.came_from.dom().contains(c));
            assert(v1.came_from[c] == v0.came_from[c]);
            let p = v0.came_from[c];
            assert(v0.closed.contains(p));
            assert(!adm.contains(p));
        }
    }
    // no walk to a closed position is shorter than its cost
    assert forall|c: Position, w: Seq<Position>| #![trigger v1.closed.contains(c), is_walk(g1, w)]
        v1.closed.contains(c) && is_walk(g1, w) && w[0] == v1.start && w.last() == c implies v1.g[c] <= w.len() - 1 by {
        assert(is_walk(g0, w));
        if v0.closed.contains(c) {
            assert(v0.closed.contains(c) && is_walk(g0, w));
            assert(!adm.contains(c));
        } else {
            assert(c == u);
            assert(!adm.contains(u));
        }
    }
}

/// One A* expansion toward the run's goal keeps the A* bookkeeping.
proof fn lemma_astar_ok_expansion(v0: SearchView, v1: SearchView, g0: &Grid, g1: &Grid, goal: Position, r: StepResult)
    requires
        search_ok(v0),
        astar_ok(v0, g0),
        v0.reached is None,
        goal == v0.goal,
        g0.wf(),
        g1.wf(),
        g1.same_terrain(g0),
        grid_in_cost_range(g0),
        in_cost_range(goal),
        v0.steps < crate::pathfinding_state::STEP_LIMIT,
        expansion_step(v0, v1, g0, g1, goal, r),
    ensures
        astar_ok(v1, g1),
{
    reveal(search_ok);
    assert forall|w: Seq<Position>| #[trigger] is_walk(g1, w) == is_walk(g0, w) by {
        lemma_walk_same_terrain(g0, g1, w);
    }
    if v0.algorithm != Algorithm::AStar {
        assert(v0.open.len() == 0);
        return;
    }
    if v0.open.len() == 0 {
        assert forall|c: Position, n: Position| #![trigger v1.closed.contains(c), g1.walkable(n)]
            v1.closed.contains(c) && g1.walkable(n) && adjacent(n, c) && !v1.closed.contains(n) implies v1.g.dom().contains(n)
                && v1.g[n] <= v1.g[c] + 1 by {
            assert(g0.walkable(n));
        }
        assert forall|c: Position, w: Seq<Position>| #![trigger v1.closed.contains(c), is_walk(g1, w)]
            v1.closed.contains(c) && is_walk(g1, w) && w[0] == v1.start && w.last() == c implies v1.g[c] <= w.len() - 1 by {
            assert(is_walk(g0, w));
        }
        return;
    }
    let k = first_min(v0.open);
    let e = v0.open[k];
    let u = e.position;
    if u == goal {
        return;
    }
    let rest = v0.open.remove(k);
    let tg = e.g_cost + 1;
    let cands = unclosed(v0.closed.insert(u), g0.walkable_neighbors(u));
    let adm = admitted_informed(rest, cands, tg);
    let cpred = |n: Position| !v0.closed.insert(u).contains(n);
    let apred = |n: Position| !blocked(rest, n, tg);
    assert(e.g_cost <= v0.steps);
    if !v0.closed.contains(u) {
        lemma_astar_first_pop(v0, g0, k);
    }
    assert forall|n: Position| #[trigger] adm.contains(n) implies g0.walkable(n) && adjacent(n, u) && !v1.closed.contains(n)
        && !blocked(rest, n, tg) && manhattan(node_for(n, tg, v0.goal).position, v0.goal) == node_for(n, tg, v0.goal).h_cost by {
        let i = choose|i: int| 0 <= i < adm.len() && adm[i] == n;
        cands.lemma_filter_pred(apred, i);
        cands.lemma_filter_contains_rev(apred, n);
        let j = choose|j: int| 0 <= j < cands.len() && cands[j] == n;
        g0.walkable_neighbors(u).lemma_filter_pred(cpred, j);
        g0.walkable_neighbors(u).lemma_filter_contains_rev(cpred, n);
        crate::grid::lemma_walkable_neighbors(g0, u);
        let m = choose|m: int| 0 <= m < g0.walkable_neighbors(u).len() && g0.walkable_neighbors(u)[m] == n;
        assert(g0.walkable(g0.walkable_neighbors(u)[m]));
        assert(n.x >= 0 && n.x < COORD_LIMIT && n.y >= 0 && n.y < COORD_LIMIT);
    }
    assert forall|n: Position| #[trigger] g0.walkable(n) && adjacent(n, u) && !v1.closed.contains(n) && !blocked(rest, n, tg)
        implies adm.contains(n) by {
        lemma_neighbor_listed(g0, u, n);
        let j = choose|j: int| 0 <= j < g0.walkable_neighbors(u).len() && g0.walkable_neighbors(u)[j] == n;
        g0.walkable_neighbors(u).lemma_filter_contains(cpred, j);
        let i = choose|i: int| 0 <= i < cands.len() && cands[i] == n;
        cands.lemma_filter_contains(apred, i);
    }
    assert forall|c: Position| #[trigger] v0.closed.contains(c) implies v0.g.dom().contains(c) by {
        assert(discovered(v0, c));
    }
    assert forall|c: Position| #[trigger] v0.came_from.dom().contains(c) implies v0.g.dom().contains(c)
        && v0.closed.contains(v0.came_from[c]) && v0.g.dom().contains(v0.came_from[c]) by {
    }
    assert(astar_expansion(v0, v1, g0, g1, k, adm));
    lemma_expansion_astar_ok(v0, v1, g0, g1, k, adm);
}

/// Along a path of back pointers from the start, each position costs at least its index.
proof fn lemma_path_cost_lower(v: SearchView, goal: Position, path: Seq<Position>, i: int)
    requires
        search_ok(v),
        v.g.dom().contains(v.start),
        v.g[v.start] == 0,
        traces_back(v.came_from, v.start, goal, path),
        0 <= i < path.len(),
    ensures
        v.g.dom().contains(path[i]),
        v.g[path[i]] >= i,
    decreases i,
{
    reveal(search_ok);
    if i > 0 {
        lemma_path_cost_lower(v, goal, path, i - 1);
        assert(v.came_from.dom().contains(path[i]));
        assert(v.came_from[path[i]] == path[i - 1]);
    }
}

proof fn lemma_expansion_shortest(
    v0: SearchView,
    v1: SearchView,
    g0: &Grid,
    g1: &Grid,
    goal: Position,
    r: StepResult,
    walk: Seq<Position>,
)
    requires
        search_ok(v0),
        astar_ok(v0, g0),
        v0.algorithm == Algorithm::AStar,
        v0.reached is None,
        goal == v0.goal,
        expansion_step(v0, v1, g0, g1, goal, r),
        is_walk(g0, walk),
        walk[0] == v0.start,
        walk.last() == goal,
    ensures
        r matches StepResult::PathFound(path) ==> path@.len() <= walk.len(),
{
    if let StepResult::PathFound(path) = r {
        reveal(search_ok);
        let k = first_min(v0.open);
        assert(v0.open.len() > 0);
        assert(v0.open[k].position == goal);
        lemma_astar_first_pop(v0, g0, k);
        assert(v1.came_from == v0.came_from);
        lemma_path_cost_lower(v0, goal, path@, path@.len() - 1);
    }
}

/// A path traced back from a run's back pointers is a walk in a grid that the run has been
/// consistent with.
pub proof fn lemma_traced_path_is_walk(v: SearchView, grid: &Grid, goal: Position, path: Seq<Position>)
    requires
        search_ok(v),
        consistent_with(v, grid),
        traces_back(v.came_from, v.start, goal, path),
    ensures
        is_walk(grid, path),
{
    reveal(search_ok);
    assert forall|i: int| 0 <= i < path.len() - 1 implies adjacent(#[trigger] path[i], path[i + 1]) by {
        let c = path[i + 1];
        assert(v.came_from.dom().contains(c));
        assert(adjacent(c, v.came_from[c]));
    }
}

/// A* and BFS agree: on the same grid, start and goal, the paths that an A* step and a BFS
/// step return have the same length.
pub proof fn lemma_astar_matches_bfs(
    a0: SearchView,
    a1: SearchView,
    b0: SearchView,
    b1: SearchView,
    grid: &Grid,
    ga: &Grid,
    gb: &Grid,
    goal: Position,
    pa: Vec<Position>,
    pb: Vec<Position>,
)
    requires
        search_ok(a0),
        search_ok(a1),
        search_ok(b0),
        search_ok(b1),
        astar_ok(a0, grid),
        bfs_layered(b0, grid),
        consistent_with(a1, grid),
        consistent_with(b1, grid),
        a0.algorithm == Algorithm::AStar,
        b0.algorithm == Algorithm::Bfs,
        a0.reached is None,
        b0.reached is None,
        a0.start == b0.start,
        goal == a0.goal,
        informed_step(a0, a1, grid, ga, goal, StepResult::PathFound(pa)),
        uninformed_step(b0, b1, grid, gb, goal, false, StepResult::PathFound(pb)),
    ensures
        pa@.len() == pb@.len(),
{
    lemma_traced_path_is_walk(a1, grid, goal, pa@);
    lemma_traced_path_is_walk(b1, grid, goal, pb@);
    lemma_astar_returns_shortest(a0, a1, grid, ga, goal, StepResult::PathFound(pa), pb@);
    lemma_bfs_returns_shortest(b0, b1, grid, gb, goal, StepResult::PathFound(pb), pa@);
}

/// Dropping a frontier entry of a closed position keeps the A* bookkeeping.
proof fn lemma_astar_ok_drop(v: SearchView, grid: &Grid, k: int)
    requires
        astar_ok(v, grid),
        0 <= k < v.open.len(),
        v.closed.contains(v.open[k].position),
    ensures
        astar_ok(SearchView { open: v.open.remove(k), ..v }, grid),
{
    let w = SearchView { open: v.open.remove(k), ..v };
    if v.algorithm == Algorithm::AStar && v.reached is None {
        assert forall|i: int| 0 <= i < w.open.len() implies (#[trigger] w.open[i]).h_cost == manhattan(w.open[i].position, w.goal) by {
            let j = if i < k { i } else { i + 1 };
            assert(w.open[i] == v.open[j]);
        }
        assert forall|p: Position| #[trigger] w.g.dom().contains(p) && !w.closed.contains(p) implies exists|i: int|
            0 <= i < w.open.len() && (#[trigger] w.open[i]).position == p && w.open[i].g_cost == w.g[p] by {
            let m = choose|m: int| 0 <= m < v.open.len() && (#[trigger] v.open[m]).position == p && v.open[m].g_cost == v.g[p];
            assert(m != k);
            let i = if m < k { m } else { m - 1 };
            assert(w.open[i] == v.open[m]);
        }
    }
}

/// Discarding the stale entries keeps the run invariant and the A* bookkeeping.
pub proof fn lemma_astar_prune(v: SearchView, grid: &Grid)
    requires
        search_ok(v),
        astar_ok(v, grid),
    ensures
        search_ok(pruned(v)),
        astar_ok(pruned(v), grid),
    decreases v.open.len(),
{
    let open = v.open;
    if open.len() > 0 && 0 <= first_min(open) < open.len() && v.closed.contains(open[first_min(open)].position) {
        let k = first_min(open);
        let w = SearchView { open: open.remove(k), ..v };
        lemma_search_ok_drop(v, k);
        lemma_astar_ok_drop(v, grid, k);
        lemma_astar_prune(w, grid);
        assert(pruned(w) == pruned(v));
    } else {
        assert(pruned(v) == v);
    }
}

/// One A* step toward the run's goal keeps the A* bookkeeping.
pub proof fn lemma_astar_ok_step(v0: SearchView, v1: SearchView, g0: &Grid, g1: &Grid, goal: Position, r: StepResult)
    requires
        search_ok(v0),
        astar_ok(v0, g0),
        v0.reached is None,
        goal == v0.goal,
        g0.wf(),
        g1.wf(),
        g1.same_terrain(g0),
        grid_in_cost_range(g0),
        in_cost_range(goal),
        v0.steps < crate::pathfinding_state::STEP_LIMIT,
        informed_step(v0, v1, g0, g1, goal, r),
    ensures
        astar_ok(v1, g1),
{
    lemma_astar_prune(v0, g0);
    lemma_astar_ok_expansion(pruned(v0), v1, g0, g1, goal, r);
}

/// A* returns shortest paths: when an A* step toward the run's goal returns a path, no walk in
/// the grid from the start to the goal has fewer positions.
pub proof fn lemma_astar_returns_shortest(
    v0: SearchView,
    v1: SearchView,
    g0: &Grid,
    g1: &Grid,
    goal: Position,
    r: StepResult,
    walk: Seq<Position>,
)
    requires
        search_ok(v0),
        astar_ok(v0, g0),
        v0.algorithm == Algorithm::AStar,
        v0.reached is None,
        goal == v0.goal,
        informed_step(v0, v1, g0, g1, goal, r),
        is_walk(g0, walk),
        walk[0] == v0.start,
        walk.last() == goal,
    ensures
        r matches StepResult::PathFound(path) ==> path@.len() <= walk.len(),
{
    lemma_astar_prune(v0, g0);
    lemma_expansion_shortest(pruned(v0), v1, g0, g1, goal, r, walk);
}

} // verus!
