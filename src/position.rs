use vstd::prelude::*;

verus! {

/// An integer grid coordinate.
#[derive(Clone, Copy, Debug, PartialEq, Eq, Structural, Hash)]
pub struct Position {
    pub x: i32,
    pub y: i32,
}

/// Absolute value on mathematical integers.
pub open spec fn abs_int(v: int) -> int {
    if v < 0 {
        -v
    } else {
        v
    }
}

/// Manhattan distance between two positions.
pub open spec fn manhattan(a: Position, b: Position) -> int {
    abs_int(a.x - b.x) + abs_int(a.y - b.y)
}

/// The four-connected neighbours of `p`, in the order north, east, south, west.
pub open spec fn neighbor_seq(p: Position) -> Seq<Position> {
    seq![
        Position { x: p.x, y: (p.y - 1) as i32 },
        Position { x: (p.x + 1) as i32, y: p.y },
        Position { x: p.x, y: (p.y + 1) as i32 },
        Position { x: (p.x - 1) as i32, y: p.y },
    ]
}

/// `a` and `b` differ by one step along exactly one axis.
pub open spec fn adjacent(a: Position, b: Position) -> bool {
    manhattan(a, b) == 1
}

/// A position whose four neighbours are representable.
pub open spec fn has_neighbors(p: Position) -> bool {
    i32::MIN < p.x < i32::MAX && i32::MIN < p.y < i32::MAX
}

impl Position {
    pub fn new(x: i32, y: i32) -> (r: Self)
        ensures
            r.x == x,
            r.y == y,
    {
        Self { x, y }
    }

    pub fn manhattan_distance_to(&self, other: &Position) -> (r: i32)
        requires
            manhattan(*self, *other) <= i32::MAX,
        ensures
            r == manhattan(*self, *other),
    {
        let dx: i64 = self.x as i64 - other.x as i64;
        let dy: i64 = self.y as i64 - other.y as i64;
        let ax: i64 = if dx < 0 { -dx } else { dx };
        let ay: i64 = if dy < 0 { -dy } else { dy };
        (ax + ay) as i32
    }

    pub fn neighbors(&self) -> (r: Vec<Position>)
        requires
            has_neighbors(*self),
        ensures
            r@ == neighbor_seq(*self),
    {
        let r = vec![
            Position::new(self.x, self.y - 1),
            Position::new(self.x + 1, self.y),
            Position::new(self.x, self.y + 1),
            Position::new(self.x - 1, self.y),
        ];
        assert(r@ =~= neighbor_seq(*self));
        r
    }
}

} // verus!
