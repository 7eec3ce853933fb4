use vstd::prelude::*;
use crate::algorithms::Algorithm;
use crate::grid::{Grid, lemma_neighbor_listed};
use crate::pathfinding_state::{
    SearchView, StepResult, admitted_unseen, considered, discovered, extend_all, initial_view, search_ok,
    traces_back, uninformed_step, unseen, STEP_LIMIT,
};
use crate::position::{Position, adjacent};

verus! {

/// A walk in `grid`: consecutive positions are one step apart and every position after the
/// first is walkable.
pub open spec fn is_walk(grid: &Grid, w: Seq<Position>) -> bool {
    &&& w.len() >= 1
    &&& forall|i: int| 0 <= i < w.len() - 1 ==> adjacent(#[trigger] w[i], w[i + 1])
    &&& forall|i: int| 1 <= i < w.len() ==> grid.walkable(#[trigger] w[i])
}

/// The layer structure of a BFS run that has not returned yet: the start has cost zero;
/// each child costs one more than its parent; every discovered position is closed or queued;
/// queued costs are sorted and span at most two consecutive values; closed costs are at most
/// the queued ones; and every walkable neighbour of a closed position is discovered with a
/// cost of at most one more.
pub open spec fn bfs_layered(v: SearchView, grid: &Grid) -> bool {
    v.algorithm == Algorithm::Bfs && v.reached is None ==> {
        &&& v.g.dom().contains(v.start)
        &&& v.g[v.start] == 0
        &&& forall|c: Position| #[trigger] v.came_from.dom().contains(c) ==> v.g[c] == v.g[v.came_from[c]] + 1
        &&& forall|p: Position| #[trigger] v.g.dom().contains(p) ==> v.closed.contains(p) || v.queue.contains(p)
        &&& forall|i: int, j: int| 0 <= i <= j < v.queue.len() ==> v.g[#[trigger] v.queue[i]] <= v.g[#[trigger] v.queue[j]]
        &&& forall|i: int| 0 <= i < v.queue.len() ==> v.g[#[trigger] v.queue[i]] <= v.g[v.queue[0]] + 1
        &&& forall|c: Position, i: int| #![trigger v.closed.contains(c), v.queue[i]] v.closed.contains(c) && 0 <= i < v.queue.len() ==> v.g[c] <= v.g[v.queue[i]]
        &&& forall|c: Position, n: Position| #![trigger v.closed.contains(c), grid.walkable(n)]
            v.closed.contains(c) && grid.walkable(n) && adjacent(n, c) ==> v.g.dom().contains(n) && v.g[n] <= v.g[c] + 1
    }
}

/// A freshly initialized BFS run is layered on any grid.
pub proof fn lemma_bfs_layered_initial(v: SearchView, grid: &Grid, start: Position, goal: Position)
    requires
        initial_view(v, Algorithm::Bfs, start, goal),
    ensures
        bfs_layered(v, grid),
{
    assert(v.g.dom().contains(start));
    assert forall|p: Position| #[trigger] v.g.dom().contains(p) implies v.closed.contains(p) || v.queue.contains(p) by {
        assert(v.queue[0] == start);
    }
}

/// The facts about one BFS expansion of `cur` that the layer structure rests on.
pub open spec fn expansion_facts(v0: SearchView, v1: SearchView, g0: &Grid, g1: &Grid, cur: Position, adm: Seq<Position>) -> bool {
    &&& v0.queue.len() > 0
    &&& cur == v0.queue[0]
    &&& v1.algorithm == Algorithm::Bfs
    &&& v1.reached is None
    &&& v1.start == v0.start
    &&& v1.closed == v0.closed.insert(cur)
    &&& v1.queue == v0.queue.drop_first() + adm
    &&& v1.g == extend_all(v0.g, adm, (v0.g[cur] + 1) as i32)
    &&& v1.came_from == extend_all(v0.came_from, adm, cur)
    &&& v0.g.dom().contains(cur)
    &&& v0.g[cur] + 1 <= i32::MAX
    &&& forall|n: Position| #[trigger] adm.contains(n) ==> !v0.g.dom().contains(n) && !v0.closed.contains(n) && n != cur
    &&& forall|n: Position| #[trigger] g0.walkable(n) && adjacent(n, cur) && !v0.closed.contains(n) && n != cur
        && !v0.came_from.dom().contains(n) ==> adm.contains(n)
    &&& forall|c: Position| #[trigger] v0.came_from.dom().contains(c) ==> v0.g.dom().contains(c)
        && v0.g.dom().contains(v0.came_from[c])
    &&& forall|c: Position| #[trigger] v0.closed.contains(c) ==> v0.g.dom().contains(c)
    &&& forall|i: int| 0 <= i < v0.queue.len() ==> v0.g.dom().contains(#[trigger] v0.queue[i])
    &&& forall|p: Position| #[trigger] g1.walkable(p) == g0.walkable(p)
}

proof fn lemma_expansion_costs(v0: SearchView, v1: SearchView, g0: &Grid, g1: &Grid, cur: Position, adm: Seq<Position>)
    requires
        expansion_facts(v0, v1, g0, g1, cur, adm),
    ensures
        forall|p: Position| #[trigger] v0.g.dom().contains(p) ==> v1.g.dom().contains(p) && v1.g[p] == v0.g[p],
        forall|n: Position| #[trigger] adm.contains(n) ==> v1.g.dom().contains(n) && v1.g[n] == v0.g[cur] + 1,
        forall|p: Position| #[trigger] v1.g.dom().contains(p) ==> v0.g.dom().contains(p) || adm.contains(p),
{
    assert forall|p: Position| #[trigger] v0.g.dom().contains(p) implies v1.g.dom().contains(p) && v1.g[p] == v0.g[p] by {
        assert(!adm.contains(p));
    }
}

#[verifier::rlimit(60)]
proof fn lemma_expansion_layered(v0: SearchView, v1: SearchView, g0: &Grid, g1: &Grid, cur: Position, adm: Seq<Position>)
    requires
        bfs_layered(v0, g0),
        v0.algorithm == Algorithm::Bfs,
        v0.reached is None,
        expansion_facts(v0, v1, g0, g1, cur, adm),
    ensures
        bfs_layered(v1, g1),
{
    lemma_expansion_costs(v0, v1, g0, g1, cur, adm);
    let gc = v0.g[cur];
    let rest = v0.queue.drop_first();
    assert(!adm.contains(v0.start));
    assert forall|c: Position| #[trigger] v1.came_from.dom().contains(c) implies v1.g[c] == v1.g[v1.came_from[c]] + 1 by {
        if adm.contains(c) {
            assert(v1.came_from[c] == cur);
        } else {
            assert(v0.came_from.dom().contains(c));
            assert(v1.came_from[c] == v0.came_from[c]);
        }
    }
    assert forall|p: Position| #[trigger] v1.g.dom().contains(p) implies v1.closed.contains(p) || v1.queue.contains(p) by {
        if adm.contains(p) {
            let i = choose|i: int| 0 <= i < adm.len() && adm[i] == p;
            assert(v1.queue[rest.len() + i] == p);
        } else if !v0.closed.contains(p) && p != cur {
            assert(v0.queue.contains(p));
            let i = choose|i: int| 0 <= i < v0.queue.len() && v0.queue[i] == p;
            assert(i != 0);
            assert(v1.queue[i - 1] == p);
        }
    }
    assert forall|i: int| 0 <= i < v1.queue.len() implies gc <= v1.g[#[trigger] v1.queue[i]] <= gc + 1 by {
        if i < rest.len() {
            assert(v1.queue[i] == v0.queue[i + 1]);
            assert(v0.g.dom().contains(v0.queue[i + 1]));
            assert(v0.g[v0.queue[0]] <= v0.g[v0.queue[i + 1]]);
        } else {
            assert(v1.queue[i] == adm[i - rest.len()]);
            assert(adm.contains(adm[i - rest.len()]));
        }
    }
    assert forall|i: int, j: int| 0 <= i <= j < v1.queue.len() implies v1.g[#[trigger] v1.queue[i]] <= v1.g[#[trigger] v1.queue[j]] by {
        if j < rest.len() {
            assert(v1.queue[i] == v0.queue[i + 1]);
            assert(v1.queue[j] == v0.queue[j + 1]);
            assert(v0.g[v0.queue[i + 1]] <= v0.g[v0.queue[j + 1]]);
        } else {
            assert(v1.queue[j] == adm[j - rest.len()]);
            assert(adm.contains(adm[j - rest.len()]));
            assert(gc <= v1.g[v1.queue[i]] <= gc + 1);
        }
    }
    assert forall|i: int| 0 <= i < v1.queue.len() implies v1.g[#[trigger] v1.queue[i]] <= v1.g[v1.queue[0]] + 1 by {
        assert(gc <= v1.g[v1.queue[0]]);
        assert(v1.g[v1.queue[i]] <= gc + 1);
    }
    assert forall|c: Position| #[trigger] v1.closed.contains(c) implies v1.g.dom().contains(c) && v1.g[c] <= gc by {
        if c != cur {
            assert(v0.closed.contains(c));
            assert(v0.g[c] <= v0.g[v0.queue[0]]);
        }
    }
    assert forall|c: Position, i: int| #![trigger v1.closed.contains(c), v1.queue[i]] v1.closed.contains(c) && 0 <= i
        < v1.queue.len() implies v1.g[c] <= v1.g[v1.queue[i]] by {
        assert(v1.g[c] <= gc);
        assert(gc <= v1.g[v1.queue[i]]);
    }
    assert forall|c: Position, n: Position| #![trigger v1.closed.contains(c), g1.walkable(n)]
        v1.closed.contains(c) && g1.walkable(n) && adjacent(n, c) implies v1.g.dom().contains(n) && v1.g[n] <= v1.g[c] + 1 by {
        assert(g0.walkable(n));
        if c != cur {
            assert(v0.closed.contains(c));
            assert(v0.g.dom().contains(n) && v0.g[n] <= v0.g[c] + 1);
        } else if v0.closed.contains(n) {
            assert(v0.g[n] <= v0.g[v0.queue[0]]);
        } else if n == cur {
        } else if v0.came_from.dom().contains(n) {
            assert(v0.g.dom().contains(n));
            assert(v0.queue.contains(n));
            let i = choose|i: int| 0 <= i < v0.queue.len() && v0.queue[i] == n;
            assert(v0.g[v0.queue[i]] <= v0.g[v0.queue[0]] + 1);
        } else {
            assert(adm.contains(n));
        }
    }
}

/// One BFS step keeps a run layered.
pub proof fn lemma_bfs_layered_step(v0: SearchView, v1: SearchView, g0: &Grid, g1: &Grid, goal: Position, r: StepResult)
    requires
        search_ok(v0),
        g0.wf(),
        g1.wf(),
        g1.same_terrain(g0),
        bfs_layered(v0, g0),
        v0.reached is None,
        v0.steps < STEP_LIMIT,
        uninformed_step(v0, v1, g0, g1, goal, false, r),
    ensures
        bfs_layered(v1, g1),
{
    reveal(search_ok);
    if v0.algorithm != Algorithm::Bfs {
        assert(v0.queue.len() == 0);
        return;
    }
    if v0.queue.len() == 0 {
        assert forall|c: Position, n: Position| #![trigger v1.closed.contains(c), g1.walkable(n)]
            v1.closed.contains(c) && g1.walkable(n) && adjacent(n, c) implies v1.g.dom().contains(n) && v1.g[n] <= v1.g[c] + 1 by {
            assert(g0.walkable(n));
        }
        return;
    }
    let cur = v0.queue[0];
    if cur == goal {
        return;
    }
    let nbrs = considered(g0, cur, false);
    let adm = admitted_unseen(v0, cur, nbrs);
    let pred = |n: Position| unseen(v0, cur, n);
    assert(v0.g.dom().contains(cur));
    assert forall|n: Position| #[trigger] adm.contains(n) implies !v0.g.dom().contains(n) && !v0.closed.contains(n) && n != cur by {
        let i = choose|i: int| 0 <= i < adm.len() && adm[i] == n;
        nbrs.lemma_filter_pred(pred, i);
        if v0.g.dom().contains(n) {
            assert(discovered(v0, n));
            if n == v0.start {
                assert(v0.closed.contains(v0.start) || cur == v0.start);
            }
        }
    }
    assert forall|n: Position| #[trigger] g0.walkable(n) && adjacent(n, cur) && !v0.closed.contains(n) && n != cur
        && !v0.came_from.dom().contains(n) implies adm.contains(n) by {
        lemma_neighbor_listed(g0, cur, n);
        let i = choose|i: int| 0 <= i < nbrs.len() && nbrs[i] == n;
        nbrs.lemma_filter_contains(pred, i);
    }
    assert forall|c: Position| #[trigger] v0.closed.contains(c) implies v0.g.dom().contains(c) by {
        assert(discovered(v0, c));
    }
    assert forall|p: Position| #[trigger] g1.walkable(p) == g0.walkable(p) by {
    }
    assert(expansion_facts(v0, v1, g0, g1, cur, adm));
    lemma_expansion_layered(v0, v1, g0, g1, cur, adm);
}

proof fn lemma_adjacent_symmetric(a: Position, b: Position)
    ensures
        adjacent(a, b) == adjacent(b, a),
{
}

/// Along a walk whose first `i` positions are closed, position `i` is discovered with a cost
/// of at most `i`; the first position that is not closed is queued, so the cost of the head of
/// the queue is at most the walk's length.
proof fn lemma_walk_bound(v: SearchView, grid: &Grid, walk: Seq<Position>, i: int)
    requires
        bfs_layered(v, grid),
        v.algorithm == Algorithm::Bfs,
        v.reached is None,
        v.queue.len() > 0,
        is_walk(grid, walk),
        !v.closed.contains(walk.last()),
        0 <= i < walk.len(),
        forall|j: int| 0 <= j < i ==> v.closed.contains(#[trigger] walk[j]),
        v.g.dom().contains(walk[i]),
        v.g[walk[i]] <= i,
    ensures
        v.g[v.queue[0]] <= walk.len() - 1,
    decreases walk.len() - i,
{
    if !v.closed.contains(walk[i]) {
        assert(v.queue.contains(walk[i]));
        let k = choose|k: int| 0 <= k < v.queue.len() && v.queue[k] == walk[i];
        assert(v.g[v.queue[0]] <= v.g[v.queue[k]]);
    } else {
        assert(i < walk.len() - 1);
        let n = walk[i + 1];
        assert(adjacent(walk[i], n));
        lemma_adjacent_symmetric(walk[i], n);
        assert(grid.walkable(n));
        assert(v.g.dom().contains(n) && v.g[n] <= v.g[walk[i]] + 1);
        lemma_walk_bound(v, grid, walk, i + 1);
    }
}

/// Along a path of back pointers from the start, the cost of each position is its index.
proof fn lemma_path_costs(v: SearchView, grid: &Grid, goal: Position, path: Seq<Position>, i: int)
    requires
        search_ok(v),
        bfs_layered(v, grid),
        v.algorithm == Algorithm::Bfs,
        v.reached is None,
        traces_back(v.came_from, v.start, goal, path),
        0 <= i < path.len(),
    ensures
        v.g.dom().contains(path[i]),
        v.g[path[i]] == i,
    decreases i,
{
    reveal(search_ok);
    if i > 0 {
        lemma_path_costs(v, grid, goal, path, i - 1);
        assert(v.came_from.dom().contains(path[i]));
        assert(v.came_from[path[i]] == path[i - 1]);
    }
}

/// BFS returns shortest paths: when a BFS step on a layered run returns a path to the goal,
/// no walk in the grid from the start to the goal has fewer positions.
pub proof fn lemma_bfs_returns_shortest(
    v0: SearchView,
    v1: SearchView,
    g0: &Grid,
    g1: &Grid,
    goal: Position,
    r: StepResult,
    walk: Seq<Position>,
)
    requires
        search_ok(v0),
        bfs_layered(v0, g0),
        v0.algorithm == Algorithm::Bfs,
        v0.reached is None,
        uninformed_step(v0, v1, g0, g1, goal, false, r),
        is_walk(g0, walk),
        walk[0] == v0.start,
        walk.last() == goal,
    ensures
        r matches StepResult::PathFound(path) ==> path@.len() <= walk.len(),
{
    reveal(search_ok);
    if let StepResult::PathFound(path) = r {
        assert(v0.queue.len() > 0);
        let cur = v0.queue[0];
        assert(cur == goal);
        assert(!v0.closed.contains(cur));
        assert(v1.came_from == v0.came_from);
        lemma_path_costs(v0, g0, goal, path@, path@.len() - 1);
        assert(v0.g[goal] == path@.len() - 1);
        lemma_walk_bound(v0, g0, walk, 0);
    }
}

} // verus!
