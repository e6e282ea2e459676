//! Axis-aligned rectangle between two corner positions, used for dungeon
//! rooms.

use crate::position::{div_trunc, Position};
use vstd::prelude::*;

verus! {

/// An axis-aligned rectangle. `p1` is the top-left-ish corner and `p2` the
/// bottom-right-ish corner; construction keeps `p1` at or before `p2` on
/// both axes.
#[derive(Clone, Copy, Debug, PartialEq, Eq, Structural)]
pub struct Rectangle {
    pub p1: Position,
    pub p2: Position,
}

impl Rectangle {
    /// The corner ordering established by construction.
    pub open spec fn wf(self) -> bool {
        self.p1.x <= self.p2.x && self.p1.y <= self.p2.y
    }

    /// Whether the closed rectangles overlap on both axes. Bounds are
    /// inclusive: two rectangles that share only an edge or a corner count
    /// as intersecting.
    pub open spec fn spec_intersect(self, rhs: Rectangle) -> bool {
        self.p1.x <= rhs.p2.x && self.p2.x >= rhs.p1.x && self.p1.y <= rhs.p2.y && self.p2.y
            >= rhs.p1.y
    }

    pub fn new(p1: Position, p2: Position) -> (r: Rectangle)
        requires
            p1.x <= p2.x,
            p1.y <= p2.y,
        ensures
            r.p1 == p1,
            r.p2 == p2,
            r.wf(),
    {
        Rectangle { p1, p2 }
    }

    pub fn intersect(&self, rhs: &Rectangle) -> (r: bool)
        ensures
            r == self.spec_intersect(*rhs),
    {
        self.p1.x <= rhs.p2.x && self.p2.x >= rhs.p1.x && self.p1.y <= rhs.p2.y && self.p2.y
            >= rhs.p1.y
    }

    /// What `center` returns: the midpoint of the two corners, each
    /// coordinate halved with truncating integer division.
    pub open spec fn spec_center(self) -> Position {
        Position {
            x: div_trunc(self.p1.x + self.p2.x, 2) as isize,
            y: div_trunc(self.p1.y + self.p2.y, 2) as isize,
        }
    }

    /// The midpoint of the two corners, each coordinate halved with
    /// truncating integer division.
    pub fn center(&self) -> (c: Position)
        requires
            isize::MIN <= self.p1.x + self.p2.x <= isize::MAX,
            isize::MIN <= self.p1.y + self.p2.y <= isize::MAX,
        ensures
            c == self.spec_center(),
            c.x == div_trunc(self.p1.x + self.p2.x, 2),
            c.y == div_trunc(self.p1.y + self.p2.y, 2),
    {
        let sx = self.p1.x + self.p2.x;
        let sy = self.p1.y + self.p2.y;
        Position { x: sx / 2, y: sy / 2 }
    }
}

} // verus!
