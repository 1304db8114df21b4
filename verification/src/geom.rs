//! Rectangle math and integer distance measures shared by the grid, the
//! generator and the effect routines.

use vstd::prelude::*;

verus! {

/// Squared Euclidean distance between two integer points, as a mathematical
/// integer. All range and radius tests in the engine compare squared
/// distances, which orders points exactly as the real distance does.
pub open spec fn dist_sq_spec(x1: int, y1: int, x2: int, y2: int) -> int {
    (x2 - x1) * (x2 - x1) + (y2 - y1) * (y2 - y1)
}

/// Squared Euclidean distance between two integer points.
pub fn dist_sq(x1: i32, y1: i32, x2: i32, y2: i32) -> (d: i128)
    ensures
        d == dist_sq_spec(x1 as int, y1 as int, x2 as int, y2 as int),
{
    let dx: i128 = (x2 as i128) - (x1 as i128);
    let dy: i128 = (y2 as i128) - (y1 as i128);
    proof {
        assert(dx * dx + dy * dy == dist_sq_spec(x1 as int, y1 as int, x2 as int, y2 as int))
            by (nonlinear_arith)
            requires
                dx == x2 - x1,
                dy == y2 - y1,
        ;
        assert(dx * dx >= 0 && dy * dy >= 0) by (nonlinear_arith);
        assert(dx * dx < 0x4000_0000_0000_0000_0000 && dy * dy < 0x4000_0000_0000_0000_0000)
            by (nonlinear_arith)
            requires
                -0x2_0000_0000 < dx < 0x2_0000_0000,
                -0x2_0000_0000 < dy < 0x2_0000_0000,
        ;
    }
    dx * dx + dy * dy
}

/// An axis-aligned rectangle on the grid, used for the generator's rooms.
/// `x2`/`y2` are the exclusive-looking far edge produced by `x + w`/`y + h`,
/// but the overlap test below treats the bounds inclusively.
#[derive(Clone, Copy, Debug, PartialEq, Eq, Structural)]
pub struct Rect {
    pub x1: i32,
    pub y1: i32,
    pub x2: i32,
    pub y2: i32,
}

/// Whether the bounding rectangles of two rooms overlap, bounds inclusive.
pub open spec fn rects_overlap(a: Rect, b: Rect) -> bool {
    a.x1 <= b.x2 && a.x2 >= b.x1 && a.y1 <= b.y2 && a.y2 >= b.y1
}

impl Rect {
    pub fn new(x: i32, y: i32, w: i32, h: i32) -> (r: Rect)
        requires
            i32::MIN <= x + w <= i32::MAX,
            i32::MIN <= y + h <= i32::MAX,
        ensures
            r == (Rect { x1: x, y1: y, x2: (x + w) as i32, y2: (y + h) as i32 }),
    {
        Rect { x1: x, y1: y, x2: x + w, y2: y + h }
    }

    /// Midpoint of the rectangle, rounded down.
    pub open spec fn center_spec(self) -> (int, int) {
        ((self.x1 + self.x2) / 2, (self.y1 + self.y2) / 2)
    }

    pub fn center(&self) -> (c: (i32, i32))
        requires
            0 <= self.x1,
            0 <= self.y1,
            self.x1 + self.x2 <= i32::MAX,
            self.y1 + self.y2 <= i32::MAX,
            self.x1 <= self.x2,
            self.y1 <= self.y2,
        ensures
            (c.0 as int, c.1 as int) == self.center_spec(),
    {
        let cx: i32 = (self.x1 + self.x2) / 2;
        let cy: i32 = (self.y1 + self.y2) / 2;
        (cx, cy)
    }

    /// Inclusive-bound overlap test between two rooms.
    pub fn intersects_with(&self, other: &Rect) -> (r: bool)
        ensures
            r == rects_overlap(*self, *other),
    {
        (self.x1 <= other.x2) && (self.x2 >= other.x1) && (self.y1 <= other.y2) && (self.y2
            >= other.y1)
    }
}

} // verus!
