use vstd::prelude::*;
use crate::position::Position;

verus! {

/// What a grid cell holds: terrain, an endpoint, or a search overlay.
#[derive(Clone, Copy, Debug, PartialEq, Eq, Structural)]
pub enum CellType {
    Empty,
    Obstacle,
    Start,
    Goal,
    Path,
    Visited,
    Frontier,
    Current,
}

/// A rectangular grid of cells, `height` rows of `width` cells each.
pub struct Grid {
    cells: Vec<Vec<CellType>>,
    pub width: usize,
    pub height: usize,
}

/// Overlays that `clear_pathfinding_cells` turns back into `Empty`.
pub open spec fn is_overlay(c: CellType) -> bool {
    c == CellType::Visited || c == CellType::Frontier || c == CellType::Current
        || c == CellType::Path
}

/// Cells that search overlays never replace: the endpoints.
pub open spec fn is_endpoint(c: CellType) -> bool {
    c == CellType::Start || c == CellType::Goal
}

/// `Some(p)` differs from both endpoints.
pub open spec fn not_endpoint(p: Position, start: Option<Position>, goal: Option<Position>) -> bool {
    start != Some(p) && goal != Some(p)
}

/// The grid as rows of cells, with its dimensions.
pub ghost struct GridView {
    pub rows: Seq<Seq<CellType>>,
    pub width: int,
    pub height: int,
}

/// `q` occurs among the first `n` elements of `s`.
pub open spec fn listed_before(s: Seq<Position>, n: int, q: Position) -> bool {
    exists|j: int| 0 <= j < n && s[j] == q
}

fn is_endpoint_cell(c: CellType) -> (r: bool)
    ensures
        r == is_endpoint(c),
{
    c == CellType::Start || c == CellType::Goal
}

impl View for Grid {
    type V = GridView;

    closed spec fn view(&self) -> GridView {
        GridView {
            rows: Seq::new(self.cells@.len(), |i: int| self.cells@[i]@),
            width: self.width as int,
            height: self.height as int,
        }
    }
}

impl Grid {
    /// The rows have the recorded dimensions, and every coordinate fits in `i32`.
    pub open spec fn wf(&self) -> bool {
        &&& self@.width <= i32::MAX
        &&& self@.height <= i32::MAX
        &&& self@.rows.len() == self@.height
        &&& forall|i: int| 0 <= i < self@.height ==> #[trigger] self@.rows[i].len() == self@.width
    }

    pub open spec fn in_bounds_at(&self, x: int, y: int) -> bool {
        0 <= x < self@.width && 0 <= y < self@.height
    }

    pub open spec fn in_bounds(&self, p: Position) -> bool {
        self.in_bounds_at(p.x as int, p.y as int)
    }

    /// The cell at `(x, y)`; outside the grid every cell counts as an obstacle.
    pub open spec fn cell_at(&self, x: int, y: int) -> CellType {
        if self.in_bounds_at(x, y) {
            self@.rows[y][x]
        } else {
            CellType::Obstacle
        }
    }

    pub open spec fn cell(&self, p: Position) -> CellType {
        self.cell_at(p.x as int, p.y as int)
    }

    pub open spec fn walkable_at(&self, x: int, y: int) -> bool {
        self.in_bounds_at(x, y) && self.cell_at(x, y) != CellType::Obstacle
    }

    pub open spec fn walkable(&self, p: Position) -> bool {
        self.walkable_at(p.x as int, p.y as int)
    }

    /// The walkable four-connected neighbours of `p`, north, east, south, west.
    pub open spec fn walkable_neighbors(&self, p: Position) -> Seq<Position> {
        let x = p.x as int;
        let y = p.y as int;
        (if self.walkable_at(x, y - 1) { seq![Position { x: p.x, y: (y - 1) as i32 }] } else { seq![] })
        + (if self.walkable_at(x + 1, y) { seq![Position { x: (x + 1) as i32, y: p.y }] } else { seq![] })
        + (if self.walkable_at(x, y + 1) { seq![Position { x: p.x, y: (y + 1) as i32 }] } else { seq![] })
        + (if self.walkable_at(x - 1, y) { seq![Position { x: (x - 1) as i32, y: p.y }] } else { seq![] })
    }

    /// The set of walkable cells.
    pub open spec fn walkable_cells(&self) -> Set<Position> {
        Set::new(|p: Position| self.walkable(p))
    }

    /// `p` is outside the grid or holds no obstacle.
    pub open spec fn no_obstacle_at(&self, p: Position) -> bool {
        !self.in_bounds(p) || self.cell(p) != CellType::Obstacle
    }

    /// Same dimensions and the same obstacles as `other`.
    pub open spec fn same_terrain(&self, other: &Grid) -> bool {
        &&& self@.width == other@.width
        &&& self@.height == other@.height
        &&& forall|p: Position| #[trigger] self.walkable(p) == other.walkable(p)
    }

    pub fn new(width: usize, height: usize) -> (r: Self)
        requires
            width <= i32::MAX,
            height <= i32::MAX,
        ensures
            r.wf(),
            r@.width == width,
            r@.height == height,
            forall|p: Position| r.in_bounds(p) ==> #[trigger] r.cell(p) == CellType::Empty,
    {
        let mut cells: Vec<Vec<CellType>> = Vec::new();
        let mut j: usize = 0;
        while j < height
            invariant
                j <= height,
                cells@.len() == j,
                forall|k: int| 0 <= k < j ==> #[trigger] cells@[k]@ == Seq::new(width as nat, |i: int| CellType::Empty),
            decreases height - j,
        {
            let mut row: Vec<CellType> = Vec::new();
            let mut i: usize = 0;
            while i < width
                invariant
                    i <= width,
                    row@ == Seq::new(i as nat, |k: int| CellType::Empty),
                decreases width - i,
            {
                row.push(CellType::Empty);
                i = i + 1;
                assert(row@ =~= Seq::new(i as nat, |k: int| CellType::Empty));
            }
            cells.push(row);
            j = j + 1;
        }
        let r = Self { cells, width, height };
        assert forall|p: Position| r.in_bounds(p) implies #[trigger] r.cell(p) == CellType::Empty by {
            assert(r.cells@[p.y as int]@ == Seq::new(width as nat, |i: int| CellType::Empty));
        }
        r
    }

    pub fn is_valid_position(&self, pos: &Position) -> (r: bool)
        ensures
            r == self.in_bounds(*pos),
    {
        pos.x >= 0 && (pos.x as usize) < self.width && pos.y >= 0 && (pos.y as usize) < self.height
    }

    pub fn get_cell(&self, pos: &Position) -> (r: CellType)
        requires
            self.wf(),
        ensures
            r == self.cell(*pos),
    {
        if self.is_valid_position(pos) {
            self.cells[pos.y as usize][pos.x as usize]
        } else {
            CellType::Obstacle
        }
    }

    pub fn is_walkable(&self, pos: &Position) -> (r: bool)
        requires
            self.wf(),
        ensures
            r == self.walkable(*pos),
    {
        self.is_valid_position(pos) && self.get_cell(pos) != CellType::Obstacle
    }

    /// Writes `cell_type` at `pos` when `pos` lies on the grid; otherwise does nothing.
    pub fn set_cell(&mut self, pos: Position, cell_type: CellType)
        requires
            old(self).wf(),
        ensures
            final(self).wf(),
            final(self)@.width == old(self)@.width,
            final(self)@.height == old(self)@.height,
            old(self).in_bounds(pos) ==> final(self)@.rows == old(self)@.rows.update(
                pos.y as int,
                old(self)@.rows[pos.y as int].update(pos.x as int, cell_type),
            ),
            !old(self).in_bounds(pos) ==> final(self)@ == old(self)@,
            forall|q: Position| #[trigger] final(self).cell(q) == if q == pos && old(self).in_bounds(pos) {
                cell_type
            } else {
                old(self).cell(q)
            },
    {
        if self.is_valid_position(&pos) {
            let y = pos.y as usize;
            let x = pos.x as usize;
            let ghost before = self@.rows;
            assert(before[y as int] == self.cells@[y as int]@);
            self.cells[y][x] = cell_type;
            assert(self@.rows =~= before.update(y as int, before[y as int].update(x as int, cell_type)));
        }
    }

    /// Paints `Path` on each listed position that is not an endpoint.
    pub fn mark_path(&mut self, path: &[Position], start_pos: Option<Position>, goal_pos: Option<Position>)
        requires
            old(self).wf(),
        ensures
            final(self).wf(),
            final(self)@.width == old(self)@.width,
            final(self)@.height == old(self)@.height,
            forall|q: Position| #[trigger] final(self).cell(q) == if old(self).in_bounds(q) && path@.contains(q)
                && not_endpoint(q, start_pos, goal_pos) {
                CellType::Path
            } else {
                old(self).cell(q)
            },
    {
        let ghost g0 = *self;
        let mut i: usize = 0;
        while i < path.len()
            invariant
                i <= path@.len(),
                self.wf(),
                self@.width == g0@.width,
                self@.height == g0@.height,
                forall|q: Position| #[trigger] self.cell(q) == if g0.in_bounds(q)
                    && listed_before(path@, i as int, q) && not_endpoint(q, start_pos, goal_pos) {
                    CellType::Path
                } else {
                    g0.cell(q)
                },
            decreases path@.len() - i,
        {
            let pos = path[i];
            if Some(pos) != start_pos && Some(pos) != goal_pos {
                self.set_cell(pos, CellType::Path);
            }
            proof {
                assert forall|q: Position| #[trigger] listed_before(path@, i + 1, q)
                    == (listed_before(path@, i as int, q) || q == pos) by {
                    if q == pos {
                        assert(path@[i as int] == q);
                    }
                }
            }
            i = i + 1;
        }
    }

    /// Turns listed `Empty` cells that are not endpoints, and listed `Frontier` cells, into
    /// `Visited`.
    pub fn mark_visited(&mut self, positions: &[Position], start_pos: Option<Position>, goal_pos: Option<Position>)
        requires
            old(self).wf(),
        ensures
            final(self).wf(),
            final(self).same_terrain(old(self)),
            final(self)@.width == old(self)@.width,
            final(self)@.height == old(self)@.height,
            forall|q: Position| #[trigger] final(self).cell(q) == if old(self).in_bounds(q) && positions@.contains(q)
                && ((not_endpoint(q, start_pos, goal_pos) && old(self).cell(q) == CellType::Empty)
                    || old(self).cell(q) == CellType::Frontier) {
                CellType::Visited
            } else {
                old(self).cell(q)
            },
    {
        let ghost g0 = *self;
        let mut i: usize = 0;
        while i < positions.len()
            invariant
                i <= positions@.len(),
                self.wf(),
                self@.width == g0@.width,
                self@.height == g0@.height,
                forall|q: Position| #[trigger] self.cell(q) == if g0.in_bounds(q)
                    && listed_before(positions@, i as int, q)
                    && ((not_endpoint(q, start_pos, goal_pos) && g0.cell(q) == CellType::Empty)
                        || g0.cell(q) == CellType::Frontier) {
                    CellType::Visited
                } else {
                    g0.cell(q)
                },
            decreases positions@.len() - i,
        {
            let pos = positions[i];
            let c = self.get_cell(&pos);
            if Some(pos) != start_pos && Some(pos) != goal_pos && c == CellType::Empty || c
                == CellType::Frontier {
                self.set_cell(pos, CellType::Visited);
            }
            proof {
                assert forall|q: Position| #[trigger] listed_before(positions@, i + 1, q)
                    == (listed_before(positions@, i as int, q) || q == pos) by {
                    if q == pos {
                        assert(positions@[i as int] == q);
                    }
                }
            }
            i = i + 1;
        }
        assert forall|q: Position| #[trigger] self.walkable(q) == g0.walkable(q) by {
            assert(self.cell(q) == g0.cell(q) || self.cell(q) == CellType::Visited);
        }
    }

    /// Marks the cell that was current on the previous step as `Visited`, unless it holds
    /// an endpoint.
    pub fn mark_previous_node_as_visited(&mut self, position: Position)
        requires
            old(self).wf(),
        ensures
            final(self).wf(),
            final(self)@.width == old(self)@.width,
            final(self)@.height == old(self)@.height,
            forall|q: Position| #[trigger] final(self).cell(q) == if q == position && old(self).in_bounds(q)
                && !is_endpoint(old(self).cell(q)) {
                CellType::Visited
            } else {
                old(self).cell(q)
            },
    {
        if !is_endpoint_cell(self.get_cell(&position)) {
            self.set_cell(position, CellType::Visited);
        }
    }

    /// Turns listed `Empty` cells that are not endpoints into `Frontier`.
    pub fn mark_frontier(&mut self, positions: &[Position], start_pos: Option<Position>, goal_pos: Option<Position>)
        requires
            old(self).wf(),
        ensures
            final(self).wf(),
            final(self).same_terrain(old(self)),
            final(self)@.width == old(self)@.width,
            final(self)@.height == old(self)@.height,
            forall|q: Position| #[trigger] final(self).cell(q) == if old(self).in_bounds(q) && positions@.contains(q)
                && not_endpoint(q, start_pos, goal_pos) && old(self).cell(q) == CellType::Empty {
                CellType::Frontier
            } else {
                old(self).cell(q)
            },
    {
        let ghost g0 = *self;
        let mut i: usize = 0;
        while i < positions.len()
            invariant
                i <= positions@.len(),
                self.wf(),
                self@.width == g0@.width,
                self@.height == g0@.height,
                forall|q: Position| #[trigger] self.cell(q) == if g0.in_bounds(q)
                    && listed_before(positions@, i as int, q)
                    && not_endpoint(q, start_pos, goal_pos) && g0.cell(q) == CellType::Empty {
                    CellType::Frontier
                } else {
                    g0.cell(q)
                },
            decreases positions@.len() - i,
        {
            let pos = positions[i];
            if Some(pos) != start_pos && Some(pos) != goal_pos && self.get_cell(&pos) == CellType::Empty {
                self.set_cell(pos, CellType::Frontier);
            }
            proof {
                assert forall|q: Position| #[trigger] listed_before(positions@, i + 1, q)
                    == (listed_before(positions@, i as int, q) || q == pos) by {
                    if q == pos {
                        assert(positions@[i as int] == q);
                    }
                }
            }
            i = i + 1;
        }
        assert forall|q: Position| #[trigger] self.walkable(q) == g0.walkable(q) by {
            assert(self.cell(q) == g0.cell(q) || self.cell(q) == CellType::Frontier);
        }
    }

    /// Marks `pos` as the cell being expanded, unless it holds an endpoint.
    pub fn mark_current(&mut self, pos: Position)
        requires
            old(self).wf(),
        ensures
            final(self).wf(),
            final(self)@.width == old(self)@.width,
            final(self)@.height == old(self)@.height,
            forall|q: Position| #[trigger] final(self).cell(q) == if q == pos && old(self).in_bounds(q)
                && !is_endpoint(old(self).cell(q)) {
                CellType::Current
            } else {
                old(self).cell(q)
            },
    {
        if !is_endpoint_cell(self.get_cell(&pos)) {
            self.set_cell(pos, CellType::Current);
        }
    }

    /// The walkable neighbours of `pos`, in the order north, east, south, west.
    pub fn get_walkable_neighbors(&self, pos: &Position) -> (r: Vec<Position>)
        requires
            self.wf(),
        ensures
            r@ == self.walkable_neighbors(*pos),
    {
        let ghost x = pos.x as int;
        let ghost y = pos.y as int;
        let mut r: Vec<Position> = Vec::new();
        if pos.y > 0 {
            let n = Position::new(pos.x, pos.y - 1);
            if self.is_walkable(&n) {
                r.push(n);
            }
        }
        let ghost r1 = r@;
        assert(r1 =~= (if self.walkable_at(x, y - 1) { seq![Position { x: pos.x, y: (y - 1) as i32 }] } else { seq![] }));
        if pos.x < i32::MAX {
            let n = Position::new(pos.x + 1, pos.y);
            if self.is_walkable(&n) {
                r.push(n);
            }
        }
        let ghost r2 = r@;
        assert(r2 =~= r1 + (if self.walkable_at(x + 1, y) { seq![Position { x: (x + 1) as i32, y: pos.y }] } else { seq![] }));
        if pos.y < i32::MAX {
            let n = Position::new(pos.x, pos.y + 1);
            if self.is_walkable(&n) {
                r.push(n);
            }
        }
        let ghost r3 = r@;
        assert(r3 =~= r2 + (if self.walkable_at(x, y + 1) { seq![Position { x: pos.x, y: (y + 1) as i32 }] } else { seq![] }));
        if pos.x > 0 {
            let n = Position::new(pos.x - 1, pos.y);
            if self.is_walkable(&n) {
                r.push(n);
            }
        }
        assert(r@ =~= r3 + (if self.walkable_at(x - 1, y) { seq![Position { x: (x - 1) as i32, y: pos.y }] } else { seq![] }));
        r
    }

    /// Turns every overlay cell (`Visited`, `Frontier`, `Current`, `Path`) back into `Empty`.
    pub fn clear_pathfinding_cells(&mut self)
        requires
            old(self).wf(),
        ensures
            final(self).wf(),
            final(self)@.width == old(self)@.width,
            final(self)@.height == old(self)@.height,
            forall|q: Position| #[trigger] final(self).cell(q) == if is_overlay(old(self).cell(q)) {
                CellType::Empty
            } else {
                old(self).cell(q)
            },
    {
        let ghost g0 = self@;
        let mut j: usize = 0;
        while j < self.height
            invariant
                self.wf(),
                self@.width == g0.width,
                self@.height == g0.height,
                j <= self.height,
                forall|a: int, b: int| 0 <= a < self.height && 0 <= b < self.width ==> #[trigger] self@.rows[a][b]
                    == if a < j && is_overlay(g0.rows[a][b]) { CellType::Empty } else { g0.rows[a][b] },
            decreases self.height - j,
        {
            let mut i: usize = 0;
            while i < self.width
                invariant
                    self.wf(),
                    self@.width == g0.width,
                    self@.height == g0.height,
                    j < self.height,
                    i <= self.width,
                    forall|a: int, b: int| 0 <= a < self.height && 0 <= b < self.width ==> #[trigger] self@.rows[a][b]
                        == if (a < j || (a == j && b < i)) && is_overlay(g0.rows[a][b]) {
                            CellType::Empty
                        } else {
                            g0.rows[a][b]
                        },
                decreases self.width - i,
            {
                let p = Position::new(i as i32, j as i32);
                let c = self.get_cell(&p);
                match c {
                    CellType::Visited | CellType::Frontier | CellType::Current | CellType::Path => {
                        self.set_cell(p, CellType::Empty);
                    },
                    _ => {},
                }
                i = i + 1;
            }
            j = j + 1;
        }
    }
}

/// Each listed neighbour is walkable and one step away, and none is listed twice.
pub proof fn lemma_walkable_neighbors(grid: &Grid, p: Position)
    requires
        grid.wf(),
    ensures
        grid.walkable_neighbors(p).no_duplicates(),
        forall|i: int| 0 <= i < grid.walkable_neighbors(p).len() ==> {
            let n = #[trigger] grid.walkable_neighbors(p)[i];
            grid.walkable(n) && crate::position::adjacent(n, p)
        },
{
    let x = p.x as int;
    let y = p.y as int;
    let a: Seq<Position> = if grid.walkable_at(x, y - 1) { seq![Position { x: p.x, y: (y - 1) as i32 }] } else { seq![] };
    let b: Seq<Position> = if grid.walkable_at(x + 1, y) { seq![Position { x: (x + 1) as i32, y: p.y }] } else { seq![] };
    let c: Seq<Position> = if grid.walkable_at(x, y + 1) { seq![Position { x: p.x, y: (y + 1) as i32 }] } else { seq![] };
    let d: Seq<Position> = if grid.walkable_at(x - 1, y) { seq![Position { x: (x - 1) as i32, y: p.y }] } else { seq![] };
    let s = grid.walkable_neighbors(p);
    assert(s == a + b + c + d);
    assert forall|i: int| 0 <= i < s.len() implies {
        let n = #[trigger] s[i];
        grid.walkable(n) && crate::position::adjacent(n, p)
    } by {
        let n = s[i];
        assert(n == a[i] || n == b[i - a.len()] || n == (a + b + c)[i] || n == d[i - (a + b + c).len()]);
    }
    assert forall|i: int, j: int| 0 <= i < s.len() && 0 <= j < s.len() && i != j implies s[i] != s[j] by {
    }
}

/// Grids with the same terrain list the same walkable neighbours.
pub proof fn lemma_same_terrain_neighbors(a: &Grid, b: &Grid, p: Position)
    requires
        a.wf(),
        b.wf(),
        a.same_terrain(b),
    ensures
        a.walkable_neighbors(p) == b.walkable_neighbors(p),
{
    assert forall|x: int, y: int| a.walkable_at(x, y) == b.walkable_at(x, y) by {
        if a.in_bounds_at(x, y) {
            let q = Position { x: x as i32, y: y as i32 };
            assert(a.walkable(q) == b.walkable(q));
        }
    }
}

/// The positions with `0 <= x < w` on row `y`.
pub open spec fn row_cells(w: int, y: int) -> Set<Position> {
    Set::new(|p: Position| 0 <= p.x < w && p.y == y)
}

/// The positions with `0 <= x < w` and `0 <= y < h`.
pub open spec fn rect_cells(w: int, h: int) -> Set<Position> {
    Set::new(|p: Position| 0 <= p.x < w && 0 <= p.y < h)
}

proof fn lemma_row_cells_finite(w: int, y: int)
    requires
        0 <= w <= i32::MAX,
        0 <= y <= i32::MAX,
    ensures
        row_cells(w, y).finite(),
    decreases w,
{
    if w == 0 {
        assert(row_cells(w, y) =~= Set::<Position>::empty());
    } else {
        lemma_row_cells_finite(w - 1, y);
        let p = Position { x: (w - 1) as i32, y: y as i32 };
        assert(row_cells(w, y) =~= row_cells(w - 1, y).insert(p));
    }
}

proof fn lemma_rect_cells_finite(w: int, h: int)
    requires
        0 <= w <= i32::MAX,
        0 <= h <= i32::MAX,
    ensures
        rect_cells(w, h).finite(),
    decreases h,
{
    if h == 0 {
        assert(rect_cells(w, h) =~= Set::<Position>::empty());
    } else {
        lemma_rect_cells_finite(w, h - 1);
        lemma_row_cells_finite(w, h - 1);
        assert(rect_cells(w, h) =~= rect_cells(w, h - 1).union(row_cells(w, h - 1)));
    }
}

/// A grid has finitely many walkable cells.
pub proof fn lemma_walkable_cells_finite(grid: &Grid)
    requires
        grid.wf(),
    ensures
        grid.walkable_cells().finite(),
{
    lemma_rect_cells_finite(grid@.width, grid@.height);
    assert(grid.walkable_cells().subset_of(rect_cells(grid@.width, grid@.height)));
    vstd::set_lib::lemma_set_subset_finite(rect_cells(grid@.width, grid@.height), grid.walkable_cells());
}

/// Every walkable cell one step away from `p` is listed among its walkable neighbours.
pub proof fn lemma_neighbor_listed(grid: &Grid, p: Position, n: Position)
    requires
        grid.wf(),
        grid.walkable(n),
        crate::position::adjacent(n, p),
    ensures
        grid.walkable_neighbors(p).contains(n),
{
    let x = p.x as int;
    let y = p.y as int;
    let a: Seq<Position> = if grid.walkable_at(x, y - 1) { seq![Position { x: p.x, y: (y - 1) as i32 }] } else { seq![] };
    let b: Seq<Position> = if grid.walkable_at(x + 1, y) { seq![Position { x: (x + 1) as i32, y: p.y }] } else { seq![] };
    let c: Seq<Position> = if grid.walkable_at(x, y + 1) { seq![Position { x: p.x, y: (y + 1) as i32 }] } else { seq![] };
    let d: Seq<Position> = if grid.walkable_at(x - 1, y) { seq![Position { x: (x - 1) as i32, y: p.y }] } else { seq![] };
    let s = grid.walkable_neighbors(p);
    assert(s == a + b + c + d);
    if n.x == p.x && n.y == y - 1 {
        assert(s[0] == n);
    } else if n.x == x + 1 && n.y == p.y {
        assert(s[a.len() as int] == n);
    } else if n.x == p.x && n.y == y + 1 {
        assert(s[(a.len() + b.len()) as int] == n);
    } else {
        assert(n.x == x - 1 && n.y == p.y);
        assert(s[(a.len() + b.len() + c.len()) as int] == n);
    }
}

/// Grids with the same terrain have obstacles at the same positions.
pub proof fn lemma_same_terrain_obstacles(a: &Grid, b: &Grid, p: Position)
    requires
        a.same_terrain(b),
    ensures
        a.no_obstacle_at(p) == b.no_obstacle_at(p),
{
    assert(a.walkable(p) == b.walkable(p));
}

} // verus!
