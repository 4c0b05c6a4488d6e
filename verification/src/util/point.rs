//! Integer grid positions and the compass offsets around them.

use vstd::prelude::*;

verus! {

/// A position (or offset) on an integer grid.
#[derive(Clone, Copy, Debug, PartialEq, Eq, Hash, Structural)]
pub struct Point {
    pub x: i32,
    pub y: i32,
}

impl Point {
    /// The point with the given coordinates.
    pub fn new(x: i32, y: i32) -> (p: Point)
        ensures
            p == (Point { x, y }),
    {
        Point { x, y }
    }

    /// The coordinates as a pair.
    pub fn coords(&self) -> (r: (i32, i32))
        ensures
            r.0 == self.x,
            r.1 == self.y,
    {
        (self.x, self.y)
    }

    /// This point moved by the offset `o`.
    pub fn add(self, o: Point) -> (r: Point)
        requires
            i32::MIN <= self.x + o.x <= i32::MAX,
            i32::MIN <= self.y + o.y <= i32::MAX,
        ensures
            r.x == self.x + o.x,
            r.y == self.y + o.y,
    {
        Point { x: self.x + o.x, y: self.y + o.y }
    }
}

/// The offset one step in the `d`-th compass direction: east, west, south,
/// north, then the four diagonals, as `d` runs from 0 to 7.
pub open spec fn spec_direction(d: int) -> (int, int) {
    if d == 0 {
        (1, 0)
    } else if d == 1 {
        (-1, 0)
    } else if d == 2 {
        (0, 1)
    } else if d == 3 {
        (0, -1)
    } else if d == 4 {
        (1, 1)
    } else if d == 5 {
        (-1, 1)
    } else if d == 6 {
        (1, -1)
    } else {
        (-1, -1)
    }
}

/// The `d`-th compass offset; the first four are the axis-aligned ones.
pub fn direction(d: usize) -> (r: Point)
    requires
        d < 8,
    ensures
        (r.x as int, r.y as int) == spec_direction(d as int),
{
    if d == 0 {
        Point { x: 1, y: 0 }
    } else if d == 1 {
        Point { x: -1, y: 0 }
    } else if d == 2 {
        Point { x: 0, y: 1 }
    } else if d == 3 {
        Point { x: 0, y: -1 }
    } else if d == 4 {
        Point { x: 1, y: 1 }
    } else if d == 5 {
        Point { x: -1, y: 1 }
    } else if d == 6 {
        Point { x: 1, y: -1 }
    } else {
        Point { x: -1, y: -1 }
    }
}

} // verus!
