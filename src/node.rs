use vstd::prelude::*;
use crate::position::Position;
use core::cmp::Ordering;

verus! {

/// An entry of the A* frontier: a position with the cost from the start (`g_cost`)
/// and the heuristic estimate to the goal (`h_cost`).
///
/// Two nodes are equal when their positions are; the costs are not part of identity.
/// Nodes compare by priority: a node is greater than another when it is served
/// first, that is when its `f_cost` is lower, or the `f_cost`s tie and its
/// `h_cost` is lower.
#[derive(Clone, Copy, Debug)]
pub struct Node {
    pub position: Position,
    pub g_cost: i32,
    pub h_cost: i32,
}

/// `f = g + h` as a mathematical integer.
pub open spec fn f_of(n: Node) -> int {
    n.g_cost + n.h_cost
}

/// `a` is served strictly before `b`: lower `f`, or equal `f` and lower `h`.
pub open spec fn served_before(a: Node, b: Node) -> bool {
    f_of(a) < f_of(b) || (f_of(a) == f_of(b) && a.h_cost < b.h_cost)
}

/// The priority comparison: `Greater` when `a` is served first.
pub open spec fn priority_cmp(a: Node, b: Node) -> Ordering {
    if served_before(a, b) {
        Ordering::Greater
    } else if served_before(b, a) {
        Ordering::Less
    } else {
        Ordering::Equal
    }
}

impl Node {
    pub fn new(position: Position, g_cost: i32, h_cost: i32) -> (r: Self)
        ensures
            r.position == position,
            r.g_cost == g_cost,
            r.h_cost == h_cost,
    {
        Self { position, g_cost, h_cost }
    }

    pub fn f_cost(&self) -> (r: i32)
        requires
            i32::MIN <= f_of(*self) <= i32::MAX,
        ensures
            r == f_of(*self),
    {
        self.g_cost + self.h_cost
    }
}

impl PartialEq for Node {
    fn eq(&self, other: &Node) -> (r: bool) {
        self.position == other.position
    }
}

impl vstd::std_specs::cmp::PartialEqSpecImpl for Node {
    open spec fn obeys_eq_spec() -> bool {
        true
    }

    open spec fn eq_spec(&self, other: &Node) -> bool {
        self.position == other.position
    }
}

impl Eq for Node {
}

impl PartialOrd for Node {
    fn partial_cmp(&self, other: &Node) -> (r: Option<Ordering>) {
        let fa: i64 = self.g_cost as i64 + self.h_cost as i64;
        let fb: i64 = other.g_cost as i64 + other.h_cost as i64;
        if fa < fb || (fa == fb && self.h_cost < other.h_cost) {
            Some(Ordering::Greater)
        } else if fb < fa || (fa == fb && other.h_cost < self.h_cost) {
            Some(Ordering::Less)
        } else {
            Some(Ordering::Equal)
        }
    }
}

impl vstd::std_specs::cmp::PartialOrdSpecImpl for Node {
    open spec fn obeys_partial_cmp_spec() -> bool {
        true
    }

    open spec fn partial_cmp_spec(&self, other: &Node) -> Option<Ordering> {
        Some(priority_cmp(*self, *other))
    }
}

} // verus!
