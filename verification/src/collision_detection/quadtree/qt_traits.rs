use vstd::prelude::*;
use crate::geometry::aa_rectangle::AARectangle;
use crate::geometry::cell::{overlap, Cell};
use crate::geometry::point::Point;
use crate::geometry::shape::{lemma_overlap_region, region, Shape};

verus! {

/// What can be tested against the index: a region of the grid that can say
/// whether it shares a cell with a rectangle.
pub trait QTQueryable {
    /// The cells of the region.
    spec fn cells(&self) -> Set<Cell>;

    /// Whether the value is well formed.
    spec fn valid(&self) -> bool;

    /// Whether the region shares a cell with `rect`.
    fn collides_with_rect(&self, rect: &AARectangle) -> (r: bool)
        requires
            self.valid(),
        ensures
            r == overlap(self.cells(), rect@),
    ;

    /// What `lies_within` tests: a condition on the value's own bounds
    /// under which the region lies in `rect`.
    spec fn bounded_by(&self, rect: AARectangle) -> bool;

    /// A quick test that answers `true` only when the whole region lies in
    /// `rect`.
    fn lies_within(&self, rect: &AARectangle) -> (r: bool)
        requires
            self.valid(),
        ensures
            r == self.bounded_by(*rect),
            r ==> self.cells().subset_of(rect@),
    ;
}

impl QTQueryable for AARectangle {
    open spec fn cells(&self) -> Set<Cell> {
        self@
    }

    open spec fn valid(&self) -> bool {
        self.wf()
    }

    fn collides_with_rect(&self, rect: &AARectangle) -> (r: bool) {
        self.collides_with(rect)
    }

    open spec fn bounded_by(&self, rect: AARectangle) -> bool {
        self@.subset_of(rect@)
    }

    fn lies_within(&self, rect: &AARectangle) -> (r: bool) {
        rect.contains_rect(self)
    }
}

/// A point probes the cell of which it is the lower left corner.
impl QTQueryable for Point {
    open spec fn cells(&self) -> Set<Cell> {
        set![(self.0 as int, self.1 as int)]
    }

    open spec fn valid(&self) -> bool {
        true
    }

    fn collides_with_rect(&self, rect: &AARectangle) -> (r: bool) {
        let r = rect.x_min <= self.0 && self.0 < rect.x_max && rect.y_min <= self.1 && self.1
            < rect.y_max;
        proof {
            let c: Cell = (self.0 as int, self.1 as int);
            assert(self.cells().contains(c));
            if overlap(self.cells(), rect@) {
                let w = choose|w: Cell| #[trigger] self.cells().contains(w) && rect@.contains(w);
                assert(w == c);
            }
        }
        r
    }

    open spec fn bounded_by(&self, rect: AARectangle) -> bool {
        rect@.contains((self.0 as int, self.1 as int))
    }

    fn lies_within(&self, rect: &AARectangle) -> (r: bool) {
        rect.x_min <= self.0 && self.0 < rect.x_max && rect.y_min <= self.1 && self.1 < rect.y_max
    }
}

impl QTQueryable for Shape {
    open spec fn cells(&self) -> Set<Cell> {
        self@
    }

    open spec fn valid(&self) -> bool {
        self.wf()
    }

    fn collides_with_rect(&self, rect: &AARectangle) -> (r: bool) {
        Shape::collides_with_rect(self, rect)
    }

    open spec fn bounded_by(&self, rect: AARectangle) -> bool {
        self.bbox@.subset_of(rect@)
    }

    fn lies_within(&self, rect: &AARectangle) -> (r: bool) {
        let r = rect.contains_rect(&self.bbox);
        proof {
            if r {
                assert forall|c: Cell| self@.contains(c) implies rect@.contains(c) by {
                    let i = choose|i: int|
                        0 <= i < self.boxes@.len() && (#[trigger] self.boxes@[i])@.contains(c);
                    assert(self.bbox@.contains(c));
                }
            }
        }
        r
    }
}

/// Whether `probe` shares a cell with the union of `boxes`.
pub fn collides_with_any<P: QTQueryable>(probe: &P, boxes: &Vec<AARectangle>) -> (r: bool)
    requires
        probe.valid(),
    ensures
        r == overlap(probe.cells(), region(boxes@)),
{
    let mut i: usize = 0;
    while i < boxes.len()
        invariant
            i <= boxes@.len(),
            probe.valid(),
            forall|j: int| 0 <= j < i ==> !overlap(probe.cells(), (#[trigger] boxes@[j])@),
        decreases boxes@.len() - i,
    {
        if probe.collides_with_rect(&boxes[i]) {
            proof {
                lemma_overlap_region(probe.cells(), boxes@);
            }
            return true;
        }
        i += 1;
    }
    proof {
        lemma_overlap_region(probe.cells(), boxes@);
    }
    false
}

} // verus!
