use vstd::prelude::*;
use crate::geometry::aa_rectangle::AARectangle;
use crate::geometry::cell::{overlap, Cell};

verus! {

/// The cells covered by at least one of the rectangles.
pub open spec fn region(boxes: Seq<AARectangle>) -> Set<Cell> {
    Set::new(|c: Cell| exists|i: int| 0 <= i < boxes.len() && (#[trigger] boxes[i])@.contains(c))
}

/// A rectilinear shape: the union of a list of rectangles, together with a
/// rectangle that bounds it.
///
/// A shape may have holes and need not be connected. Its view is the set of
/// cells it covers.
#[derive(Clone, Debug, PartialEq, Eq)]
pub struct Shape {
    pub boxes: Vec<AARectangle>,
    pub bbox: AARectangle,
}

impl View for Shape {
    type V = Set<Cell>;

    open spec fn view(&self) -> Set<Cell> {
        region(self.boxes@)
    }
}

/// The union of a list of rectangles with one more rectangle.
pub proof fn lemma_region_push(boxes: Seq<AARectangle>, b: AARectangle)
    ensures
        region(boxes.push(b)) == region(boxes).union(b@),
{
    let after = boxes.push(b);
    assert forall|c: Cell| region(after).contains(c) == region(boxes).union(b@).contains(c) by {
        if region(after).contains(c) {
            let i = choose|i: int| 0 <= i < after.len() && (#[trigger] after[i])@.contains(c);
            if i < boxes.len() {
                assert(boxes[i]@.contains(c));
            }
        }
        if region(boxes).contains(c) {
            let i = choose|i: int| 0 <= i < boxes.len() && (#[trigger] boxes[i])@.contains(c);
            assert(after[i]@.contains(c));
        }
        if b@.contains(c) {
            assert(after[boxes.len() as int]@.contains(c));
        }
    }
    assert(region(after) =~= region(boxes).union(b@));
}

/// A region overlaps a union of rectangles exactly when it overlaps one of
/// them.
pub proof fn lemma_overlap_region(a: Set<Cell>, boxes: Seq<AARectangle>)
    ensures
        overlap(a, region(boxes)) <==> exists|i: int|
            0 <= i < boxes.len() && overlap(a, (#[trigger] boxes[i])@),
{
    if overlap(a, region(boxes)) {
        let c = choose|c: Cell| #[trigger] a.contains(c) && region(boxes).contains(c);
        let i = choose|i: int| 0 <= i < boxes.len() && (#[trigger] boxes[i])@.contains(c);
        assert(a.contains(c) && boxes[i]@.contains(c));
        assert(overlap(a, boxes[i]@));
    }
    if exists|i: int| 0 <= i < boxes.len() && overlap(a, (#[trigger] boxes[i])@) {
        let i = choose|i: int| 0 <= i < boxes.len() && overlap(a, (#[trigger] boxes[i])@);
        let c = choose|c: Cell| #[trigger] a.contains(c) && boxes[i]@.contains(c);
        assert(a.contains(c) && region(boxes).contains(c));
    }
}

impl Shape {
    /// A shape is well formed when it has at least one rectangle, each of
    /// its rectangles has positive area, and its bounding box holds them all.
    /// A well-formed shape therefore has positive area.
    pub open spec fn wf(&self) -> bool {
        &&& self.boxes@.len() > 0
        &&& self.bbox.wf()
        &&& forall|i: int|
            0 <= i < self.boxes@.len() ==> (#[trigger] self.boxes@[i]).wf()
                && self.boxes@[i]@.subset_of(self.bbox@)
    }

    /// Whether `bbox` is the smallest rectangle that holds all of `boxes`.
    pub open spec fn is_bounding_box(bbox: AARectangle, boxes: Seq<AARectangle>) -> bool {
        &&& forall|i: int| 0 <= i < boxes.len() ==> (#[trigger] boxes[i])@.subset_of(bbox@)
        &&& exists|i: int| 0 <= i < boxes.len() && (#[trigger] boxes[i]).x_min == bbox.x_min
        &&& exists|i: int| 0 <= i < boxes.len() && (#[trigger] boxes[i]).y_min == bbox.y_min
        &&& exists|i: int| 0 <= i < boxes.len() && (#[trigger] boxes[i]).x_max == bbox.x_max
        &&& exists|i: int| 0 <= i < boxes.len() && (#[trigger] boxes[i]).y_max == bbox.y_max
    }

    /// The shape made of the given rectangles, or `None` when there is none
    /// or one of them has no area. Shapes without area are refused here, so
    /// none ever reaches the index.
    pub fn new(boxes: Vec<AARectangle>) -> (r: Option<Shape>)
        ensures
            r.is_some() == (boxes@.len() > 0 && forall|i: int|
                0 <= i < boxes@.len() ==> (#[trigger] boxes@[i]).wf()),
            r.is_some() ==> {
                &&& r.unwrap().wf()
                &&& r.unwrap().boxes@ == boxes@
                &&& Self::is_bounding_box(r.unwrap().bbox, boxes@)
            },
    {
        if boxes.len() == 0 {
            return None;
        }
        let first = boxes[0];
        if first.x_min >= first.x_max || first.y_min >= first.y_max {
            return None;
        }
        let mut bbox = first;
        let mut i: usize = 1;
        proof {
            assert(boxes@.take(1)[0] == first);
        }
        while i < boxes.len()
            invariant
                1 <= i <= boxes@.len(),
                bbox.wf(),
                forall|j: int| 0 <= j < i ==> (#[trigger] boxes@[j]).wf(),
                Self::is_bounding_box(bbox, boxes@.take(i as int)),
            decreases boxes@.len() - i,
        {
            let b = boxes[i];
            if b.x_min >= b.x_max || b.y_min >= b.y_max {
                return None;
            }
            let ghost prev = bbox;
            bbox = bbox.hull(&b);
            proof {
                let before = boxes@.take(i as int);
                let after = boxes@.take(i + 1);
                assert(after[i as int] == b);
                assert forall|j: int| 0 <= j < after.len() implies (#[trigger] after[j])@.subset_of(
                    bbox@,
                ) by {
                    if j < i {
                        assert(after[j] == before[j]);
                    }
                }
                let wx = choose|k: int| 0 <= k < before.len() && (#[trigger] before[k]).x_min == prev.x_min;
                assert(after[wx] == before[wx]);
                let wy = choose|k: int| 0 <= k < before.len() && (#[trigger] before[k]).y_min == prev.y_min;
                assert(after[wy] == before[wy]);
                let vx = choose|k: int| 0 <= k < before.len() && (#[trigger] before[k]).x_max == prev.x_max;
                assert(after[vx] == before[vx]);
                let vy = choose|k: int| 0 <= k < before.len() && (#[trigger] before[k]).y_max == prev.y_max;
                assert(after[vy] == before[vy]);
            }
            i += 1;
        }
        proof {
            assert(boxes@.take(boxes@.len() as int) =~= boxes@);
        }
        Some(Shape { boxes, bbox })
    }

    /// The shape that is one rectangle.
    pub fn from_rect(rect: AARectangle) -> (r: Shape)
        requires
            rect.wf(),
        ensures
            r.wf(),
            r@ == rect@,
            r.bbox == rect,
            r.boxes@ == seq![rect],
    {
        let mut boxes: Vec<AARectangle> = Vec::new();
        boxes.push(rect);
        let r = Shape { boxes, bbox: rect };
        proof {
            assert(r.boxes@[0] == rect);
            assert(r@ =~= rect@);
        }
        r
    }

    /// A copy of the shape.
    pub fn duplicate(&self) -> (r: Shape)
        ensures
            r.boxes@ == self.boxes@,
            r.bbox == self.bbox,
    {
        let mut boxes: Vec<AARectangle> = Vec::new();
        let mut i: usize = 0;
        while i < self.boxes.len()
            invariant
                i <= self.boxes@.len(),
                boxes@ == self.boxes@.take(i as int),
            decreases self.boxes@.len() - i,
        {
            boxes.push(self.boxes[i]);
            proof {
                assert(boxes@ =~= self.boxes@.take(i + 1));
            }
            i += 1;
        }
        proof {
            assert(self.boxes@.take(self.boxes@.len() as int) =~= self.boxes@);
        }
        Shape { boxes, bbox: self.bbox }
    }

    /// Whether the shape shares a cell with the rectangle.
    pub fn collides_with_rect(&self, rect: &AARectangle) -> (r: bool)
        requires
            self.wf(),
        ensures
            r == overlap(self@, rect@),
    {
        proof {
            crate::geometry::cell::lemma_overlap_symmetric(self@, rect@);
            lemma_overlap_region(rect@, self.boxes@);
        }
        if !self.bbox.collides_with(rect) {
            proof {
                if overlap(rect@, self@) {
                    let i = choose|i: int|
                        0 <= i < self.boxes@.len() && overlap(rect@, (#[trigger] self.boxes@[i])@);
                    let c = choose|c: Cell| #[trigger]
                        rect@.contains(c) && self.boxes@[i]@.contains(c);
                    assert(self.bbox@.contains(c) && rect@.contains(c));
                }
            }
            return false;
        }
        let mut i: usize = 0;
        while i < self.boxes.len()
            invariant
                i <= self.boxes@.len(),
                forall|j: int| 0 <= j < i ==> !overlap(rect@, (#[trigger] self.boxes@[j])@),
            decreases self.boxes@.len() - i,
        {
            if rect.collides_with(&self.boxes[i]) {
                proof {
                    crate::geometry::cell::lemma_overlap_symmetric(self@, rect@);
                    lemma_overlap_region(rect@, self.boxes@);
                }
                return true;
            }
            i += 1;
        }
        false
    }

    /// Whether the two shapes share a cell, that is, whether their
    /// intersection has positive area.
    pub fn collides_with(&self, other: &Shape) -> (r: bool)
        requires
            self.wf(),
            other.wf(),
        ensures
            r == overlap(self@, other@),
    {
        proof {
            lemma_overlap_region(other@, self.boxes@);
            crate::geometry::cell::lemma_overlap_symmetric(self@, other@);
        }
        let mut i: usize = 0;
        while i < self.boxes.len()
            invariant
                i <= self.boxes@.len(),
                other.wf(),
                forall|j: int| 0 <= j < i ==> !overlap(other@, (#[trigger] self.boxes@[j])@),
            decreases self.boxes@.len() - i,
        {
            if other.collides_with_rect(&self.boxes[i]) {
                proof {
                    lemma_overlap_region(other@, self.boxes@);
                    crate::geometry::cell::lemma_overlap_symmetric(self@, other@);
                }
                return true;
            }
            i += 1;
        }
        false
    }

    /// The parts of the shape's rectangles that lie in `window`.
    ///
    /// The result covers exactly the cells that the shape and the window
    /// share; it is empty when they share none.
    pub fn clip_to(&self, window: &AARectangle) -> (parts: Vec<AARectangle>)
        requires
            self.wf(),
        ensures
            region(parts@) == self@.intersect(window@),
            forall|k: int|
                0 <= k < parts@.len() ==> (#[trigger] parts@[k]).wf() && parts@[k]@.subset_of(
                    window@,
                ),
            parts@.len() > 0 <==> overlap(self@, window@),
    {
        let mut parts: Vec<AARectangle> = Vec::new();
        let mut i: usize = 0;
        while i < self.boxes.len()
            invariant
                i <= self.boxes@.len(),
                region(parts@) =~= region(self.boxes@.take(i as int)).intersect(window@),
                forall|k: int|
                    0 <= k < parts@.len() ==> (#[trigger] parts@[k]).wf() && parts@[k]@.subset_of(
                        window@,
                    ),
            decreases self.boxes@.len() - i,
        {
            let ghost before = parts@;
            let ghost seen = self.boxes@.take(i as int);
            let ghost seen_next = self.boxes@.take(i + 1);
            let b = self.boxes[i];
            let shared = b.intersection(window);
            match shared {
                Some(part) => {
                    parts.push(part);
                },
                None => {},
            }
            proof {
                assert(seen_next[i as int] == b);
                assert forall|c: Cell|
                    region(parts@).contains(c) == region(seen_next).intersect(window@).contains(
                        c,
                    ) by {
                    if region(parts@).contains(c) {
                        let k = choose|k: int| 0 <= k < parts@.len() && (#[trigger] parts@[k])@.contains(c);
                        if k < before.len() {
                            assert(before[k] == parts@[k]);
                            assert(region(before).contains(c));
                            let j = choose|j: int| 0 <= j < seen.len() && (#[trigger] seen[j])@.contains(c);
                            assert(seen_next[j] == seen[j]);
                        } else {
                            assert(seen_next[i as int]@.contains(c));
                        }
                    }
                    if region(seen_next).intersect(window@).contains(c) {
                        let j = choose|j: int|
                            0 <= j < seen_next.len() && (#[trigger] seen_next[j])@.contains(c);
                        if j < i {
                            assert(seen[j] == seen_next[j]);
                            assert(region(seen).contains(c));
                            assert(region(before).contains(c));
                            let k = choose|k: int|
                                0 <= k < before.len() && (#[trigger] before[k])@.contains(c);
                            assert(parts@[k] == before[k]);
                        } else {
                            assert(b@.contains(c) && window@.contains(c));
                            assert(overlap(b@, window@));
                            assert(parts@[parts@.len() - 1]@.contains(c));
                        }
                    }
                }
            }
            i += 1;
        }
        proof {
            assert(self.boxes@.take(self.boxes@.len() as int) =~= self.boxes@);
            if parts@.len() > 0 {
                let p = parts@[0];
                let c: Cell = (p.x_min as int, p.y_min as int);
                assert(p@.contains(c));
                assert(region(parts@).contains(c));
                assert(self@.contains(c) && window@.contains(c));
            }
            if overlap(self@, window@) {
                let c = choose|c: Cell| #[trigger] self@.contains(c) && window@.contains(c);
                assert(region(parts@).contains(c));
            }
        }
        parts
    }

    /// A rectangle of the shape that holds the cell `(i, j)`, if there is
    /// one.
    pub fn find_box(&self, i: i32, j: i32) -> (r: Option<usize>)
        ensures
            r.is_some() == self@.contains((i as int, j as int)),
            r.is_some() ==> r.unwrap() < self.boxes@.len() && self.boxes@[r.unwrap() as int]@.contains(
                (i as int, j as int),
            ),
    {
        let mut k: usize = 0;
        while k < self.boxes.len()
            invariant
                k <= self.boxes@.len(),
                forall|m: int| 0 <= m < k ==> !(#[trigger] self.boxes@[m])@.contains((i as int, j as int)),
            decreases self.boxes@.len() - k,
        {
            let b = &self.boxes[k];
            if b.x_min <= i && i < b.x_max && b.y_min <= j && j < b.y_max {
                return Some(k);
            }
            k += 1;
        }
        None
    }

    /// Whether the shape holds the cell `(i, j)`.
    pub fn holds_cell(&self, i: i32, j: i32) -> (r: bool)
        ensures
            r == self@.contains((i as int, j as int)),
    {
        self.find_box(i, j).is_some()
    }

    /// Where the stretch of cells of the shape that begins with the cell
    /// `(i, j)` and runs to the right ends: the cells from `(i, j)` up to,
    /// but not including, `(r, j)` belong to the shape, and the cell `(r, j)`
    /// does not. The result is `i` when the cell `(i, j)` is not in the shape.
    pub fn run_right(&self, i: i32, j: i32) -> (r: i32)
        requires
            self.wf(),
        ensures
            i <= r,
            forall|x: int| i <= x < r ==> #[trigger] self@.contains((x, j as int)),
            !self@.contains((r as int, j as int)),
    {
        let mut x: i32 = i;
        loop
            invariant
                self.wf(),
                i <= x,
                forall|t: int| i <= t < x ==> #[trigger] self@.contains((t, j as int)),
            ensures
                i <= x,
                forall|t: int| i <= t < x ==> #[trigger] self@.contains((t, j as int)),
                !self@.contains((x as int, j as int)),
            decreases i32::MAX - x,
        {
            match self.find_box(x, j) {
                None => {
                    break ;
                },
                Some(k) => {
                    let b = &self.boxes[k];
                    proof {
                        assert forall|t: int| i <= t < b.x_max implies #[trigger] self@.contains(
                            (t, j as int),
                        ) by {
                            if t >= x {
                                assert(self.boxes@[k as int]@.contains((t, j as int)));
                            }
                        }
                    }
                    x = b.x_max;
                },
            }
        }
        x
    }

    /// Where the stretch of cells of the shape that ends with the cell
    /// `(i, j)` and comes from the left begins: the cells from `(r, j)` to
    /// `(i, j)` belong to the shape, and the cell before `(r, j)` does not.
    pub fn run_left(&self, i: i32, j: i32) -> (r: i32)
        requires
            self.wf(),
            self@.contains((i as int, j as int)),
        ensures
            r <= i,
            forall|x: int| r <= x <= i ==> #[trigger] self@.contains((x, j as int)),
            !self@.contains((r - 1, j as int)),
    {
        let mut x: i32 = i;
        loop
            invariant
                self.wf(),
                x <= i,
                forall|t: int| x <= t <= i ==> #[trigger] self@.contains((t, j as int)),
            ensures
                x <= i,
                forall|t: int| x <= t <= i ==> #[trigger] self@.contains((t, j as int)),
                !self@.contains((x - 1, j as int)),
            decreases x - i32::MIN,
        {
            let k = self.find_box(x, j).unwrap();
            let b = &self.boxes[k];
            proof {
                assert forall|t: int| b.x_min <= t <= i implies #[trigger] self@.contains(
                    (t, j as int),
                ) by {
                    if t <= x {
                        assert(self.boxes@[k as int]@.contains((t, j as int)));
                    }
                }
            }
            x = b.x_min;
            if x == i32::MIN {
                proof {
                    if self@.contains((x - 1, j as int)) {
                        let m = choose|m: int|
                            0 <= m < self.boxes@.len() && (#[trigger] self.boxes@[m])@.contains(
                                (x - 1, j as int),
                            );
                    }
                }
                break ;
            }
            if !self.holds_cell(x - 1, j) {
                break ;
            }
            x = x - 1;
        }
        x
    }

    /// Whether the shape holds every cell of row `j` from `(x_min, j)` up
    /// to, but not including, `(x_max, j)`.
    pub fn covers_row(&self, x_min: i32, x_max: i32, j: i32) -> (r: bool)
        requires
            self.wf(),
        ensures
            r == forall|x: int| x_min <= x < x_max ==> #[trigger] self@.contains((x, j as int)),
    {
        if x_min >= x_max {
            return true;
        }
        let end = self.run_right(x_min, j);
        proof {
            if end < x_max {
                assert(!self@.contains((end as int, j as int)));
            }
        }
        end >= x_max
    }

    /// The shape mirrored at the diagonal: its cell `(j, i)` is the cell
    /// `(i, j)` of this shape.
    pub fn transposed(&self) -> (r: Shape)
        requires
            self.wf(),
        ensures
            r.wf(),
            r.boxes@.len() == self.boxes@.len(),
            forall|k: int|
                0 <= k < self.boxes@.len() ==> #[trigger] r.boxes@[k] == self.boxes@[k].spec_transposed(),
            r.bbox == self.bbox.spec_transposed(),
            forall|c: Cell| r@.contains(c) == self@.contains((c.1, c.0)),
    {
        let mut boxes: Vec<AARectangle> = Vec::new();
        let mut k: usize = 0;
        while k < self.boxes.len()
            invariant
                k <= self.boxes@.len(),
                boxes@.len() == k,
                forall|m: int|
                    0 <= m < k ==> #[trigger] boxes@[m] == self.boxes@[m].spec_transposed(),
            decreases self.boxes@.len() - k,
        {
            let b = &self.boxes[k];
            boxes.push(AARectangle { x_min: b.y_min, y_min: b.x_min, x_max: b.y_max, y_max: b.x_max });
            k += 1;
        }
        let bbox = AARectangle {
            x_min: self.bbox.y_min,
            y_min: self.bbox.x_min,
            x_max: self.bbox.y_max,
            y_max: self.bbox.x_max,
        };
        let r = Shape { boxes, bbox };
        proof {
            assert forall|m: int| 0 <= m < r.boxes@.len() implies (#[trigger] r.boxes@[m]).wf()
                && r.boxes@[m]@.subset_of(r.bbox@) by {
                let b = self.boxes@[m];
                assert(b.wf() && b@.subset_of(self.bbox@));
                assert forall|c: Cell| r.boxes@[m]@.contains(c) implies r.bbox@.contains(c) by {
                    assert(b@.contains((c.1, c.0)));
                    assert(self.bbox@.contains((c.1, c.0)));
                }
            }
            assert forall|c: Cell| r@.contains(c) == self@.contains((c.1, c.0)) by {
                if r@.contains(c) {
                    let m = choose|m: int| 0 <= m < r.boxes@.len() && (#[trigger] r.boxes@[m])@.contains(c);
                    assert(self.boxes@[m]@.contains((c.1, c.0)));
                }
                if self@.contains((c.1, c.0)) {
                    let m = choose|m: int|
                        0 <= m < self.boxes@.len() && (#[trigger] self.boxes@[m])@.contains(
                            (c.1, c.0),
                        );
                    assert(r.boxes@[m]@.contains(c));
                }
            }
        }
        r
    }

    /// Where the stretch of cells of row `j` outside the shape that begins
    /// with the cell `(i, j)` ends, if it ends before `limit`: the cells from
    /// `(i, j)` up to, but not including, `(r, j)` lie outside the shape, and
    /// `r` is `limit` or the cell `(r, j)` belongs to the shape.
    pub fn gap_right(&self, i: i32, j: i32, limit: i32) -> (r: i32)
        requires
            i < limit,
            !self@.contains((i as int, j as int)),
        ensures
            i < r <= limit,
            forall|x: int| i <= x < r ==> !#[trigger] self@.contains((x, j as int)),
            r == limit || self@.contains((r as int, j as int)),
    {
        let mut r: i32 = limit;
        let mut k: usize = 0;
        while k < self.boxes.len()
            invariant
                k <= self.boxes@.len(),
                i < r <= limit,
                !self@.contains((i as int, j as int)),
                r == limit || self@.contains((r as int, j as int)),
                forall|m: int, x: int|
                    0 <= m < k && i <= x < r ==> !#[trigger] self.boxes@[m]@.contains(
                        (x, j as int),
                    ),
            decreases self.boxes@.len() - k,
        {
            let b = &self.boxes[k];
            proof {
                assert(!self.boxes@[k as int]@.contains((i as int, j as int)));
            }
            if b.y_min <= j && j < b.y_max && i < b.x_min && b.x_min < r && b.x_min < b.x_max {
                proof {
                    assert(self.boxes@[k as int]@.contains((b.x_min as int, j as int)));
                }
                r = b.x_min;
            }
            k += 1;
        }
        r
    }

    /// The cells of `window` that the shape does not cover, as a shape of
    /// rows of cells; `None` when the shape covers the window.
    pub fn complement_in(&self, window: &AARectangle) -> (r: Option<Shape>)
        requires
            self.wf(),
            window.wf(),
        ensures
            r.is_some() == !window@.subset_of(self@),
            r.is_some() ==> r.unwrap().wf() && r.unwrap()@ == window@.difference(self@)
                && r.unwrap().bbox == *window,
    {
        let ghost wanted = window@.difference(self@);
        let mut boxes: Vec<AARectangle> = Vec::new();
        let mut j: i32 = window.y_min;
        proof {
            assert(region(boxes@) =~= Set::new(|c: Cell| wanted.contains(c) && c.1 < j));
        }
        while j < window.y_max
            invariant
                self.wf(),
                window.wf(),
                wanted == window@.difference(self@),
                window.y_min <= j <= window.y_max,
                region(boxes@) == Set::new(|c: Cell| wanted.contains(c) && c.1 < j),
                forall|k: int|
                    0 <= k < boxes@.len() ==> (#[trigger] boxes@[k]).wf() && boxes@[k]@.subset_of(
                        window@,
                    ),
            decreases window.y_max - j,
        {
            let mut i: i32 = window.x_min;
            proof {
                assert(region(boxes@) =~= Set::new(
                    |c: Cell| wanted.contains(c) && (c.1 < j || (c.1 == j && c.0 < i)),
                ));
            }
            while i < window.x_max
                invariant
                    self.wf(),
                    window.wf(),
                    wanted == window@.difference(self@),
                    window.y_min <= j < window.y_max,
                    window.x_min <= i <= window.x_max,
                    region(boxes@) == Set::new(
                        |c: Cell| wanted.contains(c) && (c.1 < j || (c.1 == j && c.0 < i)),
                    ),
                    forall|k: int|
                        0 <= k < boxes@.len() ==> (#[trigger] boxes@[k]).wf()
                            && boxes@[k]@.subset_of(window@),
                decreases window.x_max - i,
            {
                if self.holds_cell(i, j) {
                    let end = self.run_right(i, j);
                    let next = if end < window.x_max { end } else { window.x_max };
                    proof {
                        assert forall|x: int| i <= x < next implies !wanted.contains(
                            (x, j as int),
                        ) by {
                            assert(self@.contains((x, j as int)));
                        }
                        assert(region(boxes@) =~= Set::new(
                            |c: Cell| wanted.contains(c) && (c.1 < j || (c.1 == j && c.0 < next)),
                        ));
                    }
                    i = next;
                } else {
                    let next = self.gap_right(i, j, window.x_max);
                    let gap = AARectangle { x_min: i, y_min: j, x_max: next, y_max: j + 1 };
                    proof {
                        lemma_region_push(boxes@, gap);
                        assert forall|c: Cell| gap@.contains(c) implies wanted.contains(c) by {
                            assert(!self@.contains((c.0, j as int)));
                        }
                        assert(region(boxes@).union(gap@) =~= Set::new(
                            |c: Cell| wanted.contains(c) && (c.1 < j || (c.1 == j && c.0 < next)),
                        ));
                    }
                    boxes.push(gap);
                    i = next;
                }
            }
            proof {
                assert(region(boxes@) =~= Set::new(|c: Cell| wanted.contains(c) && c.1 < j + 1));
            }
            j += 1;
        }
        proof {
            assert(region(boxes@) =~= wanted);
            if boxes@.len() > 0 {
                let first = boxes@[0];
                let c: Cell = (first.x_min as int, first.y_min as int);
                assert(first@.contains(c));
                assert(region(boxes@).contains(c));
                assert(window@.contains(c) && !self@.contains(c));
            }
            if !window@.subset_of(self@) {
                let c = choose|c: Cell| window@.contains(c) && !self@.contains(c);
                assert(wanted.contains(c));
                assert(region(boxes@).contains(c));
            }
        }
        if boxes.len() == 0 {
            return None;
        }
        Some(Shape { boxes, bbox: *window })
    }

    /// The cells of the shape that `other` does not cover, as a shape;
    /// `None` when `other` covers the shape.
    pub fn difference(&self, other: &Shape) -> (r: Option<Shape>)
        requires
            self.wf(),
            other.wf(),
        ensures
            r.is_some() == !self@.subset_of(other@),
            r.is_some() ==> r.unwrap().wf() && r.unwrap()@ == self@.difference(other@)
                && r.unwrap().bbox == self.bbox,
    {
        let mut boxes: Vec<AARectangle> = Vec::new();
        let mut k: usize = 0;
        proof {
            assert(region(boxes@) =~= region(self.boxes@.take(0)).difference(other@));
        }
        while k < self.boxes.len()
            invariant
                k <= self.boxes@.len(),
                self.wf(),
                other.wf(),
                region(boxes@) == region(self.boxes@.take(k as int)).difference(other@),
                forall|m: int|
                    0 <= m < boxes@.len() ==> (#[trigger] boxes@[m]).wf() && boxes@[m]@.subset_of(
                        self.bbox@,
                    ),
            decreases self.boxes@.len() - k,
        {
            let b = self.boxes[k];
            let ghost seen = region(self.boxes@.take(k as int));
            proof {
                assert(self.boxes@.take(k + 1) =~= self.boxes@.take(k as int).push(b));
                lemma_region_push(self.boxes@.take(k as int), b);
                assert(b.wf() && b@.subset_of(self.bbox@));
            }
            match other.complement_in(&b) {
                None => {
                    proof {
                        assert(region(boxes@) =~= seen.union(b@).difference(other@));
                    }
                },
                Some(rest) => {
                    let ghost start = boxes@;
                    let mut m: usize = 0;
                    while m < rest.boxes.len()
                        invariant
                            m <= rest.boxes@.len(),
                            rest.wf(),
                            rest.bbox == b,
                            b@.subset_of(self.bbox@),
                            region(boxes@) == region(start).union(region(rest.boxes@.take(m as int))),
                            forall|i: int|
                                0 <= i < start.len() ==> (#[trigger] start[i]).wf()
                                    && start[i]@.subset_of(self.bbox@),
                            forall|i: int|
                                0 <= i < boxes@.len() ==> (#[trigger] boxes@[i]).wf()
                                    && boxes@[i]@.subset_of(self.bbox@),
                        decreases rest.boxes@.len() - m,
                    {
                        let part = rest.boxes[m];
                        proof {
                            assert(rest.boxes@.take(m + 1) =~= rest.boxes@.take(m as int).push(part));
                            lemma_region_push(rest.boxes@.take(m as int), part);
                            lemma_region_push(boxes@, part);
                            assert(part.wf() && part@.subset_of(rest.bbox@));
                            assert(region(boxes@).union(part@) =~= region(start).union(
                                region(rest.boxes@.take(m as int)).union(part@),
                            ));
                        }
                        boxes.push(part);
                        m += 1;
                    }
                    proof {
                        assert(rest.boxes@.take(rest.boxes@.len() as int) =~= rest.boxes@);
                        assert(region(boxes@) =~= seen.union(b@).difference(other@));
                    }
                },
            }
            k += 1;
        }
        proof {
            assert(self.boxes@.take(self.boxes@.len() as int) =~= self.boxes@);
            if boxes@.len() > 0 {
                let first = boxes@[0];
                let c: Cell = (first.x_min as int, first.y_min as int);
                assert(first@.contains(c));
                assert(region(boxes@).contains(c));
                assert(self@.contains(c) && !other@.contains(c));
            }
            if !self@.subset_of(other@) {
                let c = choose|c: Cell| self@.contains(c) && !other@.contains(c);
                assert(region(boxes@).contains(c));
            }
        }
        if boxes.len() == 0 {
            return None;
        }
        Some(Shape { boxes, bbox: self.bbox })
    }
}

} // verus!
