use vstd::prelude::*;
use crate::geometry::cell::{overlap, Cell};

verus! {

/// An axis-aligned rectangle with corners on the grid.
///
/// Its view is the set of cells it covers: cell `(i, j)` belongs to it when
/// `x_min <= i < x_max` and `y_min <= j < y_max`.
#[derive(Clone, Copy, Debug, PartialEq, Eq, Structural, Hash)]
pub struct AARectangle {
    pub x_min: i32,
    pub y_min: i32,
    pub x_max: i32,
    pub y_max: i32,
}

/// The four quarters of a rectangle.
#[derive(Clone, Copy, Debug, PartialEq, Eq, Structural)]
pub struct Quadrants {
    pub sw: AARectangle,
    pub se: AARectangle,
    pub nw: AARectangle,
    pub ne: AARectangle,
}

impl View for AARectangle {
    type V = Set<Cell>;

    open spec fn view(&self) -> Set<Cell> {
        Set::new(
            |c: Cell| self.x_min <= c.0 < self.x_max && self.y_min <= c.1 < self.y_max,
        )
    }
}

impl AARectangle {
    /// A rectangle is well formed when it has positive width and height.
    pub open spec fn wf(&self) -> bool {
        self.x_min < self.x_max && self.y_min < self.y_max
    }

    /// The rectangle mirrored at the diagonal.
    pub open spec fn spec_transposed(&self) -> AARectangle {
        AARectangle {
            x_min: self.y_min,
            y_min: self.x_min,
            x_max: self.y_max,
            y_max: self.x_max,
        }
    }

    pub open spec fn spec_width(&self) -> int {
        self.x_max - self.x_min
    }

    pub open spec fn spec_height(&self) -> int {
        self.y_max - self.y_min
    }

    /// The number of cells of a well-formed rectangle.
    pub open spec fn spec_area(&self) -> int {
        self.spec_width() * self.spec_height()
    }

    /// The area that two rectangles share: the area of the rectangle between
    /// the larger of their lower bounds and the smaller of their upper
    /// bounds, and zero when there is no such rectangle.
    pub open spec fn shared_area(&self, other: AARectangle) -> int {
        let x_lo = if self.x_min >= other.x_min { self.x_min } else { other.x_min };
        let x_hi = if self.x_max <= other.x_max { self.x_max } else { other.x_max };
        let y_lo = if self.y_min >= other.y_min { self.y_min } else { other.y_min };
        let y_hi = if self.y_max <= other.y_max { self.y_max } else { other.y_max };
        if x_lo < x_hi && y_lo < y_hi {
            (x_hi - x_lo) * (y_hi - y_lo)
        } else {
            0
        }
    }

    /// Two rectangles share a cell exactly when the area that they share is
    /// positive.
    pub proof fn lemma_overlap_is_positive_area(&self, other: AARectangle)
        ensures
            overlap(self@, other@) == (self.shared_area(other) > 0),
    {
        let x_lo = if self.x_min >= other.x_min { self.x_min } else { other.x_min };
        let x_hi = if self.x_max <= other.x_max { self.x_max } else { other.x_max };
        let y_lo = if self.y_min >= other.y_min { self.y_min } else { other.y_min };
        let y_hi = if self.y_max <= other.y_max { self.y_max } else { other.y_max };
        if x_lo < x_hi && y_lo < y_hi {
            let c: Cell = (x_lo as int, y_lo as int);
            assert(self@.contains(c) && other@.contains(c));
            assert((x_hi - x_lo) * (y_hi - y_lo) > 0) by (nonlinear_arith)
                requires
                    x_hi - x_lo > 0,
                    y_hi - y_lo > 0,
            ;
        }
    }

    /// The rectangle with the given bounds, or `None` when it would have no
    /// area.
    pub fn new(x_min: i32, y_min: i32, x_max: i32, y_max: i32) -> (r: Option<AARectangle>)
        ensures
            r.is_some() == (x_min < x_max && y_min < y_max),
            r.is_some() ==> r.unwrap() == (AARectangle { x_min, y_min, x_max, y_max }),
    {
        if x_min < x_max && y_min < y_max {
            Some(AARectangle { x_min, y_min, x_max, y_max })
        } else {
            None
        }
    }

    pub fn width(&self) -> (w: i64)
        ensures
            w == self.spec_width(),
    {
        self.x_max as i64 - self.x_min as i64
    }

    pub fn height(&self) -> (h: i64)
        ensures
            h == self.spec_height(),
    {
        self.y_max as i64 - self.y_min as i64
    }

    /// The area of the rectangle, in cells.
    pub fn area(&self) -> (a: u64)
        requires
            self.wf(),
        ensures
            a == self.spec_area(),
            a > 0,
    {
        let w: u64 = (self.x_max as i64 - self.x_min as i64) as u64;
        let h: u64 = (self.y_max as i64 - self.y_min as i64) as u64;
        assert(0 < w * h <= 0xffff_ffff * 0xffff_ffff) by (nonlinear_arith)
            requires
                0 < w <= 0xffff_ffff,
                0 < h <= 0xffff_ffff,
        ;
        w * h
    }

    /// Whether the two rectangles share a cell. Rectangles that touch along
    /// an edge or at a corner do not.
    pub fn collides_with(&self, other: &AARectangle) -> (r: bool)
        ensures
            r == overlap(self@, other@),
    {
        let x_lo: i32 = if self.x_min >= other.x_min { self.x_min } else { other.x_min };
        let x_hi: i32 = if self.x_max <= other.x_max { self.x_max } else { other.x_max };
        let y_lo: i32 = if self.y_min >= other.y_min { self.y_min } else { other.y_min };
        let y_hi: i32 = if self.y_max <= other.y_max { self.y_max } else { other.y_max };
        let r = x_lo < x_hi && y_lo < y_hi;
        proof {
            if r {
                let c: Cell = (x_lo as int, y_lo as int);
                assert(self@.contains(c) && other@.contains(c));
            }
        }
        r
    }

    /// Whether `other` lies within this rectangle.
    pub fn contains_rect(&self, other: &AARectangle) -> (r: bool)
        requires
            other.wf(),
        ensures
            r == other@.subset_of(self@),
    {
        let r = self.x_min <= other.x_min && other.x_max <= self.x_max && self.y_min <= other.y_min
            && other.y_max <= self.y_max;
        proof {
            if !r {
                let lo: Cell = (other.x_min as int, other.y_min as int);
                let hi: Cell = (other.x_max - 1, other.y_max - 1);
                assert(other@.contains(lo) && other@.contains(hi));
            }
        }
        r
    }

    /// The part that the two rectangles share, or `None` when they share no
    /// cell.
    pub fn intersection(&self, other: &AARectangle) -> (r: Option<AARectangle>)
        ensures
            r.is_some() == overlap(self@, other@),
            r.is_some() ==> r.unwrap().wf() && r.unwrap()@ == self@.intersect(other@),
    {
        if self.collides_with(other) {
            let x_min: i32 = if self.x_min >= other.x_min { self.x_min } else { other.x_min };
            let x_max: i32 = if self.x_max <= other.x_max { self.x_max } else { other.x_max };
            let y_min: i32 = if self.y_min >= other.y_min { self.y_min } else { other.y_min };
            let y_max: i32 = if self.y_max <= other.y_max { self.y_max } else { other.y_max };
            let shared = AARectangle { x_min, y_min, x_max, y_max };
            proof {
                let c = choose|c: Cell| #[trigger] self@.contains(c) && other@.contains(c);
                assert(shared@.contains(c));
                assert(shared@ =~= self@.intersect(other@));
            }
            Some(shared)
        } else {
            None
        }
    }

    /// The smallest rectangle that holds both.
    pub fn hull(&self, other: &AARectangle) -> (r: AARectangle)
        requires
            self.wf(),
            other.wf(),
        ensures
            r.wf(),
            self@.subset_of(r@),
            other@.subset_of(r@),
            r.x_min == self.x_min || r.x_min == other.x_min,
            r.y_min == self.y_min || r.y_min == other.y_min,
            r.x_max == self.x_max || r.x_max == other.x_max,
            r.y_max == self.y_max || r.y_max == other.y_max,
    {
        AARectangle {
            x_min: if self.x_min <= other.x_min { self.x_min } else { other.x_min },
            y_min: if self.y_min <= other.y_min { self.y_min } else { other.y_min },
            x_max: if self.x_max >= other.x_max { self.x_max } else { other.x_max },
            y_max: if self.y_max >= other.y_max { self.y_max } else { other.y_max },
        }
    }

    /// Whether the rectangle is wide and high enough to be cut in four.
    pub open spec fn splittable(&self) -> bool {
        self.spec_width() >= 2 && self.spec_height() >= 2
    }

    /// Cuts the rectangle in four along its two middle lines, or returns
    /// `None` when it is less than two cells wide or high.
    ///
    /// The quarters are well formed, share no cell with each other, and
    /// together cover exactly the cells of the rectangle.
    pub fn quadrants(&self) -> (r: Option<Quadrants>)
        requires
            self.wf(),
        ensures
            r.is_some() == self.splittable(),
            r.is_some() ==> r.unwrap().partitions(*self),
    {
        let w = self.width();
        let h = self.height();
        if w < 2 || h < 2 {
            return None;
        }
        let x_mid: i32 = (self.x_min as i64 + w / 2) as i32;
        let y_mid: i32 = (self.y_min as i64 + h / 2) as i32;
        let q = Quadrants {
            sw: AARectangle { x_min: self.x_min, y_min: self.y_min, x_max: x_mid, y_max: y_mid },
            se: AARectangle { x_min: x_mid, y_min: self.y_min, x_max: self.x_max, y_max: y_mid },
            nw: AARectangle { x_min: self.x_min, y_min: y_mid, x_max: x_mid, y_max: self.y_max },
            ne: AARectangle { x_min: x_mid, y_min: y_mid, x_max: self.x_max, y_max: self.y_max },
        };
        Some(q)
    }
}

impl Quadrants {
    /// Each quarter lies within the whole.
    pub proof fn lemma_quarters_within(&self, whole: AARectangle)
        requires
            self.partitions(whole),
        ensures
            self.sw@.subset_of(whole@),
            self.se@.subset_of(whole@),
            self.nw@.subset_of(whole@),
            self.ne@.subset_of(whole@),
    {
        assert forall|c: Cell| self.sw@.contains(c) implies whole@.contains(c) by {}
        assert forall|c: Cell| self.se@.contains(c) implies whole@.contains(c) by {}
        assert forall|c: Cell| self.nw@.contains(c) implies whole@.contains(c) by {}
        assert forall|c: Cell| self.ne@.contains(c) implies whole@.contains(c) by {}
    }

    /// The four quarters are well formed and every cell of `whole` lies in
    /// exactly one of them, and they hold no other cell.
    pub open spec fn partitions(&self, whole: AARectangle) -> bool {
        &&& self.sw.wf() && self.se.wf() && self.nw.wf() && self.ne.wf()
        &&& forall|c: Cell| #[trigger]
            whole@.contains(c) <==> self.sw@.contains(c) || self.se@.contains(c)
                || self.nw@.contains(c) || self.ne@.contains(c)
        &&& forall|c: Cell| !(#[trigger] self.sw@.contains(c) && self.se@.contains(c))
        &&& forall|c: Cell| !(#[trigger] self.sw@.contains(c) && self.nw@.contains(c))
        &&& forall|c: Cell| !(#[trigger] self.sw@.contains(c) && self.ne@.contains(c))
        &&& forall|c: Cell| !(#[trigger] self.se@.contains(c) && self.nw@.contains(c))
        &&& forall|c: Cell| !(#[trigger] self.se@.contains(c) && self.ne@.contains(c))
        &&& forall|c: Cell| !(#[trigger] self.nw@.contains(c) && self.ne@.contains(c))
    }
}

} // verus!
