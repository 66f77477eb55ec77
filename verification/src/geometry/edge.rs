use vstd::prelude::*;
use crate::geometry::cell::Cell;
use crate::geometry::point::Point;

verus! {

/// A straight line between two points of the grid.
#[derive(Clone, Copy, Debug, PartialEq, Eq, Structural, Hash)]
pub struct Edge {
    pub start: Point,
    pub end: Point,
}

impl Edge {
    /// Whether the edge crosses the horizontal line through the centers of
    /// the cells of row `j`: one of its ends lies at or below the lower side
    /// of the row, the other at or above its upper side.
    pub open spec fn straddles(&self, j: int) -> bool {
        (self.start.1 <= j) != (self.end.1 <= j)
    }

    /// The end of the edge that lies lower.
    pub open spec fn lower(&self) -> Point {
        if self.start.1 <= self.end.1 {
            self.start
        } else {
            self.end
        }
    }

    /// The end of the edge that lies higher.
    pub open spec fn upper(&self) -> Point {
        if self.start.1 <= self.end.1 {
            self.end
        } else {
            self.start
        }
    }

    /// Whether the edge crosses the horizontal line through the center of
    /// the cell `c` strictly to the right of that center.
    ///
    /// With `lo` and `hi` the lower and the upper end of the edge, the edge
    /// crosses the line `y = j + 1/2` at
    /// `x = lo.x + (j + 1/2 - lo.y) * (hi.x - lo.x) / (hi.y - lo.y)`, and the
    /// center lies at `x = i + 1/2`. The comparison is made on the numbers
    /// multiplied by `2 * (hi.y - lo.y)`, which is positive.
    pub open spec fn passes_right_of(&self, c: Cell) -> bool {
        let lo = self.lower();
        let hi = self.upper();
        self.straddles(c.1) && (2 * c.1 + 1 - 2 * lo.1) * (hi.0 - lo.0) > (2 * c.0 + 1 - 2 * lo.0)
            * (hi.1 - lo.1)
    }

    /// Whether the edge crosses the horizontal line through the center of
    /// the cell `(i, j)` strictly to the right of that center.
    pub fn passes_right(&self, i: i32, j: i32) -> (r: bool)
        ensures
            r == self.passes_right_of((i as int, j as int)),
    {
        if (self.start.1 <= j) == (self.end.1 <= j) {
            return false;
        }
        let (lo, hi) = if self.start.1 <= self.end.1 {
            (self.start, self.end)
        } else {
            (self.end, self.start)
        };
        let a: i128 = 2 * (j as i128) + 1 - 2 * (lo.1 as i128);
        let dx: i128 = hi.0 as i128 - lo.0 as i128;
        let b: i128 = 2 * (i as i128) + 1 - 2 * (lo.0 as i128);
        let dy: i128 = hi.1 as i128 - lo.1 as i128;
        assert(-0x8_0000_0000 * 0x8_0000_0000 <= a * dx <= 0x8_0000_0000 * 0x8_0000_0000
            && -0x8_0000_0000 * 0x8_0000_0000 <= b * dy <= 0x8_0000_0000 * 0x8_0000_0000)
            by (nonlinear_arith)
            requires
                -0x8_0000_0000 <= a <= 0x8_0000_0000,
                -0x8_0000_0000 <= b <= 0x8_0000_0000,
                -0x8_0000_0000 <= dx <= 0x8_0000_0000,
                -0x8_0000_0000 <= dy <= 0x8_0000_0000,
        ;
        a * dx > b * dy
    }
}

} // verus!
