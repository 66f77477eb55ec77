use vstd::prelude::*;
use crate::collision_detection::quadtree::qt_traits::QTQueryable;
use crate::geometry::aa_rectangle::AARectangle;
use crate::geometry::cell::{overlap, Cell};
use crate::geometry::point::Point;
use crate::geometry::transformation::{Rotation, Transformation};

verus! {

/// The square of an integer.
pub open spec fn sq(a: int) -> int {
    a * a
}

/// How far the point `center` of a line is from the farther end of the unit
/// interval `[i, i + 1]`.
pub open spec fn reach(i: int, center: int) -> int {
    if i >= center {
        i + 1 - center
    } else {
        center - i
    }
}

/// A closed disk with its center on the grid.
///
/// Its view holds the cells that lie in the disk as a whole: a cell belongs
/// to it when the corner of the cell that is farthest from the center is
/// within the radius. Cells that the disk covers only in part do not belong
/// to it.
#[derive(Clone, Copy, Debug, PartialEq, Eq, Structural, Hash)]
pub struct Circle {
    pub center: Point,
    pub radius: u32,
}

/// The cells that lie, as a whole, in the closed disk of radius `r` about
/// the grid point `(cx, cy)`.
pub open spec fn disk_cells(cx: int, cy: int, r: int) -> Set<Cell> {
    Set::new(|c: Cell| sq(reach(c.0, cx)) + sq(reach(c.1, cy)) <= sq(r))
}

impl View for Circle {
    type V = Set<Cell>;

    open spec fn view(&self) -> Set<Cell> {
        disk_cells(self.center.0 as int, self.center.1 as int, self.radius as int)
    }
}

/// A disk lies in every larger disk about the same point.
pub proof fn lemma_disk_monotone(cx: int, cy: int, r: int, larger: int)
    requires
        0 <= r <= larger,
    ensures
        disk_cells(cx, cy, r).subset_of(disk_cells(cx, cy, larger)),
{
    lemma_sq_monotone(r, larger);
}

/// The squares of non-negative integers are ordered as the integers are.
pub proof fn lemma_sq_monotone(a: int, b: int)
    requires
        0 <= a <= b,
    ensures
        sq(a) <= sq(b),
{
    assert(a * a <= b * b) by (nonlinear_arith)
        requires
            0 <= a <= b,
    ;
}

/// An integer between `-b` and `b` has a square of at most that of `b`.
pub proof fn lemma_sq_within(a: int, b: int)
    requires
        -b <= a <= b,
    ensures
        sq(a) <= sq(b),
{
    assert(a * a <= b * b) by (nonlinear_arith)
        requires
            -b <= a <= b,
    ;
}

impl Circle {
    /// Whether the grid point `(x, y)` lies in the disk.
    pub open spec fn holds_point(&self, x: int, y: int) -> bool {
        sq(x - self.center.0) + sq(y - self.center.1) <= sq(self.radius as int)
    }

    /// A cell belongs to the disk exactly when its four corners lie in the
    /// disk.
    pub proof fn lemma_cell_by_corners(&self, c: Cell)
        ensures
            self@.contains(c) == (self.holds_point(c.0, c.1) && self.holds_point(c.0 + 1, c.1)
                && self.holds_point(c.0, c.1 + 1) && self.holds_point(c.0 + 1, c.1 + 1)),
    {
        let cx = self.center.0 as int;
        let cy = self.center.1 as int;
        let rx = reach(c.0, cx);
        let ry = reach(c.1, cy);
        // the farthest corner
        let fx = if c.0 >= cx { c.0 + 1 } else { c.0 };
        let fy = if c.1 >= cy { c.1 + 1 } else { c.1 };
        assert(sq(fx - cx) == sq(rx)) by (nonlinear_arith)
            requires
                fx - cx == rx || fx - cx == -rx,
        ;
        assert(sq(fy - cy) == sq(ry)) by (nonlinear_arith)
            requires
                fy - cy == ry || fy - cy == -ry,
        ;
        lemma_sq_within(c.0 - cx, rx);
        lemma_sq_within(c.0 + 1 - cx, rx);
        lemma_sq_within(c.1 - cy, ry);
        lemma_sq_within(c.1 + 1 - cy, ry);
    }

    /// A cell of the disk is at most a radius away from the center in each
    /// direction.
    pub proof fn lemma_cells_near_center(&self, c: Cell)
        requires
            self@.contains(c),
        ensures
            self.center.0 - self.radius <= c.0 < self.center.0 + self.radius,
            self.center.1 - self.radius <= c.1 < self.center.1 + self.radius,
    {
        let rx = reach(c.0, self.center.0 as int);
        let ry = reach(c.1, self.center.1 as int);
        let r = self.radius as int;
        assert(sq(rx) >= 0 && sq(ry) >= 0) by (nonlinear_arith);
        if rx > r {
            lemma_sq_monotone(r + 1, rx);
            assert(sq(r + 1) > sq(r)) by (nonlinear_arith)
                requires
                    r >= 0,
            ;
        }
        if ry > r {
            lemma_sq_monotone(r + 1, ry);
            assert(sq(r + 1) > sq(r)) by (nonlinear_arith)
                requires
                    r >= 0,
            ;
        }
    }

    /// Whether the grid point lies in the disk.
    pub fn contains_point(&self, p: &Point) -> (r: bool)
        ensures
            r == self.holds_point(p.0 as int, p.1 as int),
    {
        let dx: i128 = p.0 as i128 - self.center.0 as i128;
        let dy: i128 = p.1 as i128 - self.center.1 as i128;
        let radius: i128 = self.radius as i128;
        assert(0 <= dx * dx <= 0x1_0000_0000 * 0x1_0000_0000 && 0 <= dy * dy <= 0x1_0000_0000
            * 0x1_0000_0000 && 0 <= radius * radius <= 0x1_0000_0000 * 0x1_0000_0000)
            by (nonlinear_arith)
            requires
                -0x1_0000_0000 <= dx <= 0x1_0000_0000,
                -0x1_0000_0000 <= dy <= 0x1_0000_0000,
                0 <= radius <= 0x1_0000_0000,
        ;
        dx * dx + dy * dy <= radius * radius
    }

    /// The least reach to `center` over the unit intervals between `lo` and
    /// `hi`.
    fn least_reach(lo: i32, hi: i32, center: i32) -> (d: i64)
        requires
            lo < hi,
        ensures
            1 <= d <= 0x1_0000_0000,
            exists|i: int| lo <= i < hi && d == reach(i, center as int),
            forall|i: int| lo <= i < hi ==> d <= #[trigger] reach(i, center as int),
    {
        if center <= lo {
            assert(reach(lo as int, center as int) == lo + 1 - center);
            lo as i64 + 1 - center as i64
        } else if center >= hi {
            assert(reach(hi - 1, center as int) == center - hi + 1);
            center as i64 - hi as i64 + 1
        } else {
            assert(reach(center as int, center as int) == 1);
            1
        }
    }

    /// The image of the disk under a transformation, or `None` when its
    /// center would be off the grid.
    pub fn transform(&self, t: &Transformation) -> (r: Option<Circle>)
        ensures
            r.is_some() == t.fits_point(self.center),
            r.is_some() ==> r.unwrap().radius == self.radius && r.unwrap()@ == t.image(self@),
    {
        match t.transform_point(&self.center) {
            Some(center) => {
                let image = Circle { center, radius: self.radius };
                proof {
                    assert(image@ =~= t.image(self@));
                }
                Some(image)
            },
            None => None,
        }
    }
}

impl QTQueryable for Circle {
    open spec fn cells(&self) -> Set<Cell> {
        self@
    }

    open spec fn valid(&self) -> bool {
        true
    }

    fn collides_with_rect(&self, rect: &AARectangle) -> (r: bool) {
        if rect.x_min >= rect.x_max || rect.y_min >= rect.y_max {
            return false;
        }
        let dx = Circle::least_reach(rect.x_min, rect.x_max, self.center.0);
        let dy = Circle::least_reach(rect.y_min, rect.y_max, self.center.1);
        let radius = self.radius as i64;
        if dx > radius || dy > radius {
            proof {
                if overlap(self@, rect@) {
                    let c = choose|c: Cell| #[trigger] self@.contains(c) && rect@.contains(c);
                    self.lemma_cells_near_center(c);
                    assert(dx <= reach(c.0, self.center.0 as int));
                    assert(dy <= reach(c.1, self.center.1 as int));
                }
            }
            return false;
        }
        assert(dx * dx + dy * dy <= 0x2_0000_0000_0000_0000 && radius * radius
            <= 0x1_0000_0000_0000_0000 && dx * dx >= 0 && dy * dy >= 0) by (nonlinear_arith)
            requires
                1 <= dx <= 0x1_0000_0000,
                1 <= dy <= 0x1_0000_0000,
                0 <= radius <= 0x1_0000_0000,
        ;
        let r = (dx as i128) * (dx as i128) + (dy as i128) * (dy as i128) <= (radius as i128) * (
        radius as i128);
        proof {
            let i = choose|i: int| rect.x_min <= i < rect.x_max && dx == reach(i, self.center.0 as int);
            let j = choose|j: int| rect.y_min <= j < rect.y_max && dy == reach(j, self.center.1 as int);
            if r {
                let c: Cell = (i, j);
                assert(self@.contains(c) && rect@.contains(c));
            }
            if overlap(self@, rect@) {
                let c = choose|c: Cell| #[trigger] self@.contains(c) && rect@.contains(c);
                assert(dx <= reach(c.0, self.center.0 as int));
                assert(dy <= reach(c.1, self.center.1 as int));
                lemma_sq_monotone(dx as int, reach(c.0, self.center.0 as int));
                lemma_sq_monotone(dy as int, reach(c.1, self.center.1 as int));
            }
        }
        r
    }

    open spec fn bounded_by(&self, rect: AARectangle) -> bool {
        &&& rect.x_min <= self.center.0 - self.radius
        &&& self.center.0 + self.radius <= rect.x_max
        &&& rect.y_min <= self.center.1 - self.radius
        &&& self.center.1 + self.radius <= rect.y_max
    }

    fn lies_within(&self, rect: &AARectangle) -> (r: bool) {
        let radius = self.radius as i64;
        let r = rect.x_min as i64 <= self.center.0 as i64 - radius && self.center.0 as i64 + radius
            <= rect.x_max as i64 && rect.y_min as i64 <= self.center.1 as i64 - radius
            && self.center.1 as i64 + radius <= rect.y_max as i64;
        proof {
            if r {
                assert forall|c: Cell| self@.contains(c) implies rect@.contains(c) by {
                    self.lemma_cells_near_center(c);
                }
            }
        }
        r
    }
}

} // verus!
