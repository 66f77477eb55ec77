use vstd::prelude::*;
use crate::geometry::aa_rectangle::AARectangle;
use crate::geometry::cell::Cell;
use crate::geometry::edge::Edge;
use crate::geometry::point::Point;
use crate::geometry::shape::{lemma_region_push, region, Shape};

verus! {

/// A polygon given by its corners, in order, on the grid. The last corner
/// is joined to the first; no corner is given twice for that.
///
/// Its view holds the cells whose centers lie inside the outline. A center
/// lies inside when a ray from it to the right crosses the outline an odd
/// number of times. The corners lie on the grid and the centers between its
/// lines, so the ray never meets a corner. For an outline whose edges run
/// along the grid these are the cells that the outline encloses; along a
/// slanted edge they are the cells of which the edge leaves the center
/// inside. An edge that runs through a center is not crossed by the ray
/// from that center.
#[derive(Clone, Debug, PartialEq, Eq)]
pub struct SimplePolygon {
    pub points: Vec<Point>,
    pub bbox: AARectangle,
}

/// The edge from corner `k` to the next corner.
pub open spec fn edge_of(points: Seq<Point>, k: int) -> Edge {
    Edge { start: points[k], end: points[if k + 1 < points.len() { k + 1 } else { 0 }] }
}

/// How many of the first `k` edges cross the horizontal line through the
/// center of the cell `c` to the right of that center.
pub open spec fn crossings(points: Seq<Point>, c: Cell, k: int) -> int
    decreases k,
{
    if k <= 0 {
        0
    } else {
        crossings(points, c, k - 1) + if edge_of(points, k - 1).passes_right_of(c) {
            1int
        } else {
            0int
        }
    }
}

/// Whether the center of the cell `c` lies inside the outline.
pub open spec fn holds_center(points: Seq<Point>, c: Cell) -> bool {
    crossings(points, c, points.len() as int) % 2 == 1
}

/// How many of the first `k` edges cross the horizontal line through the
/// centers of the cells of row `j`.
pub open spec fn straddlers(points: Seq<Point>, j: int, k: int) -> int
    decreases k,
{
    if k <= 0 {
        0
    } else {
        straddlers(points, j, k - 1) + if edge_of(points, k - 1).straddles(j) {
            1int
        } else {
            0int
        }
    }
}

/// An outline that leaves one side of a line comes back to it: the number
/// of edges, among the first `k`, that cross the line through the centers of
/// a row is even exactly when corner `k` lies on the same side of the line as
/// the first corner.
pub proof fn lemma_straddlers_parity(points: Seq<Point>, j: int, k: int)
    requires
        points.len() >= 1,
        0 <= k <= points.len(),
    ensures
        (straddlers(points, j, k) % 2 == 1) == ((points[0].1 <= j) != (points[if k
            < points.len() {
            k
        } else {
            0
        }].1 <= j)),
    decreases k,
{
    if k > 0 {
        lemma_straddlers_parity(points, j, k - 1);
    }
}

/// An edge whose ends lie at or left of a cell's right side does not pass
/// to the right of the cell's center; an edge that crosses the row of the
/// cell and whose ends lie at or right of the cell's right side does.
pub proof fn lemma_passes_by_side(e: Edge, c: Cell)
    ensures
        e.start.0 <= c.0 && e.end.0 <= c.0 ==> !e.passes_right_of(c),
        e.start.0 > c.0 && e.end.0 > c.0 && e.straddles(c.1) ==> e.passes_right_of(c),
{
    let lo = e.lower();
    let hi = e.upper();
    let a = 2 * c.1 + 1 - 2 * lo.1;
    let b = 2 * c.0 + 1 - 2 * lo.0;
    let dx = hi.0 - lo.0;
    let dy = hi.1 - lo.1;
    if e.straddles(c.1) {
        if e.start.0 <= c.0 && e.end.0 <= c.0 {
            assert(a * dx <= b * dy) by (nonlinear_arith)
                requires
                    1 <= a <= 2 * dy - 1,
                    b >= 1,
                    b >= 2 * dx + 1,
            ;
        }
        if e.start.0 > c.0 && e.end.0 > c.0 {
            assert(a * dx > b * dy) by (nonlinear_arith)
                requires
                    1 <= a <= 2 * dy - 1,
                    b <= -1,
                    b <= 2 * dx - 1,
            ;
        }
    }
}

/// No center outside the bounding box of the corners lies inside the
/// outline.
pub proof fn lemma_outside_bbox(points: Seq<Point>, bbox: AARectangle, c: Cell)
    requires
        points.len() >= 1,
        SimplePolygon::is_bounding_box(bbox, points),
        !bbox@.contains(c),
    ensures
        !holds_center(points, c),
{
    let n = points.len() as int;
    if c.0 < bbox.x_min && bbox.y_min <= c.1 < bbox.y_max {
        lemma_crossings_left(points, bbox, c, n);
        lemma_straddlers_parity(points, c.1, n);
    } else {
        lemma_crossings_none(points, bbox, c, n);
    }
}

/// Left of the bounding box, every edge that crosses the row passes to the
/// right.
proof fn lemma_crossings_left(points: Seq<Point>, bbox: AARectangle, c: Cell, k: int)
    requires
        SimplePolygon::is_bounding_box(bbox, points),
        c.0 < bbox.x_min,
        0 <= k <= points.len(),
    ensures
        crossings(points, c, k) == straddlers(points, c.1, k),
    decreases k,
{
    if k > 0 {
        lemma_crossings_left(points, bbox, c, k - 1);
        let e = edge_of(points, k - 1);
        assert(bbox.x_min <= points[k - 1].0);
        assert(bbox.x_min <= points[if k < points.len() { k } else { 0 }].0);
        lemma_passes_by_side(e, c);
    }
}

/// Right of the bounding box, and above and below it, no edge passes to
/// the right.
proof fn lemma_crossings_none(points: Seq<Point>, bbox: AARectangle, c: Cell, k: int)
    requires
        SimplePolygon::is_bounding_box(bbox, points),
        c.0 >= bbox.x_max || c.1 < bbox.y_min || c.1 >= bbox.y_max,
        0 <= k <= points.len(),
    ensures
        crossings(points, c, k) == 0,
    decreases k,
{
    if k > 0 {
        lemma_crossings_none(points, bbox, c, k - 1);
        let e = edge_of(points, k - 1);
        assert(points[k - 1].0 <= bbox.x_max && bbox.y_min <= points[k - 1].1 <= bbox.y_max);
        let next = if k < points.len() { k } else { 0 };
        assert(points[next].0 <= bbox.x_max && bbox.y_min <= points[next].1 <= bbox.y_max);
        lemma_passes_by_side(e, c);
    }
}

/// The corners of a rectangle, counter clockwise from the lower left.
pub open spec fn corners(r: AARectangle) -> Seq<Point> {
    seq![
        Point(r.x_min, r.y_min),
        Point(r.x_max, r.y_min),
        Point(r.x_max, r.y_max),
        Point(r.x_min, r.y_max),
    ]
}

/// The centers inside the outline of a rectangle are those of the cells of
/// the rectangle.
pub proof fn lemma_rectangle_outline(r: AARectangle, c: Cell)
    requires
        r.wf(),
    ensures
        holds_center(corners(r), c) == r@.contains(c),
{
    let p = corners(r);
    reveal_with_fuel(crossings, 5);
    lemma_passes_by_side(edge_of(p, 0), c);
    lemma_passes_by_side(edge_of(p, 1), c);
    lemma_passes_by_side(edge_of(p, 2), c);
    lemma_passes_by_side(edge_of(p, 3), c);
    assert(!edge_of(p, 0).straddles(c.1));
    assert(!edge_of(p, 2).straddles(c.1));
}

impl View for SimplePolygon {
    type V = Set<Cell>;

    open spec fn view(&self) -> Set<Cell> {
        Set::new(|c: Cell| self.bbox@.contains(c) && holds_center(self.points@, c))
    }
}

impl SimplePolygon {
    /// Whether `bbox` is the smallest rectangle that holds all the points.
    pub open spec fn is_bounding_box(bbox: AARectangle, points: Seq<Point>) -> bool {
        &&& forall|k: int|
            0 <= k < points.len() ==> bbox.x_min <= (#[trigger] points[k]).0 <= bbox.x_max
                && bbox.y_min <= points[k].1 <= bbox.y_max
        &&& exists|k: int| 0 <= k < points.len() && (#[trigger] points[k]).0 == bbox.x_min
        &&& exists|k: int| 0 <= k < points.len() && (#[trigger] points[k]).0 == bbox.x_max
        &&& exists|k: int| 0 <= k < points.len() && (#[trigger] points[k]).1 == bbox.y_min
        &&& exists|k: int| 0 <= k < points.len() && (#[trigger] points[k]).1 == bbox.y_max
    }

    /// A polygon is well formed when it has three corners or more and its
    /// bounding box is the smallest rectangle that holds them, and has
    /// positive width and height.
    pub open spec fn wf(&self) -> bool {
        &&& self.points@.len() >= 3
        &&& self.bbox.wf()
        &&& Self::is_bounding_box(self.bbox, self.points@)
    }

    /// Whether the corners do not all lie on one vertical or one horizontal
    /// line.
    pub open spec fn spans_area(points: Seq<Point>) -> bool {
        &&& exists|a: int, b: int|
            0 <= a < points.len() && 0 <= b < points.len() && (#[trigger] points[a]).0 != (
            #[trigger] points[b]).0
        &&& exists|a: int, b: int|
            0 <= a < points.len() && 0 <= b < points.len() && (#[trigger] points[a]).1 != (
            #[trigger] points[b]).1
    }

    /// The polygon with these corners, or `None` when there are fewer than
    /// three of them or they all lie on one vertical or horizontal line.
    pub fn new(points: Vec<Point>) -> (r: Option<SimplePolygon>)
        ensures
            r.is_some() == (points@.len() >= 3 && Self::spans_area(points@)),
            r.is_some() ==> r.unwrap().wf() && r.unwrap().points == points,
    {
        if points.len() < 3 {
            return None;
        }
        let first = points[0];
        let mut x_min = first.0;
        let mut x_max = first.0;
        let mut y_min = first.1;
        let mut y_max = first.1;
        let mut k: usize = 1;
        while k < points.len()
            invariant
                1 <= k <= points@.len(),
                forall|i: int|
                    0 <= i < k ==> x_min <= (#[trigger] points@[i]).0 <= x_max && y_min
                        <= points@[i].1 <= y_max,
                exists|i: int| 0 <= i < k && (#[trigger] points@[i]).0 == x_min,
                exists|i: int| 0 <= i < k && (#[trigger] points@[i]).0 == x_max,
                exists|i: int| 0 <= i < k && (#[trigger] points@[i]).1 == y_min,
                exists|i: int| 0 <= i < k && (#[trigger] points@[i]).1 == y_max,
            decreases points@.len() - k,
        {
            let p = points[k];
            proof {
                let a = choose|i: int| 0 <= i < k && (#[trigger] points@[i]).0 == x_min;
                let b = choose|i: int| 0 <= i < k && (#[trigger] points@[i]).0 == x_max;
                let c = choose|i: int| 0 <= i < k && (#[trigger] points@[i]).1 == y_min;
                let d = choose|i: int| 0 <= i < k && (#[trigger] points@[i]).1 == y_max;
                assert(points@[a].0 == x_min && points@[b].0 == x_max && points@[c].1 == y_min
                    && points@[d].1 == y_max);
                assert(points@[k as int] == p);
            }
            if p.0 < x_min {
                x_min = p.0;
            }
            if p.0 > x_max {
                x_max = p.0;
            }
            if p.1 < y_min {
                y_min = p.1;
            }
            if p.1 > y_max {
                y_max = p.1;
            }
            k += 1;
        }
        proof {
            let a = choose|i: int| 0 <= i < points@.len() && (#[trigger] points@[i]).0 == x_min;
            let b = choose|i: int| 0 <= i < points@.len() && (#[trigger] points@[i]).0 == x_max;
            let c = choose|i: int| 0 <= i < points@.len() && (#[trigger] points@[i]).1 == y_min;
            let d = choose|i: int| 0 <= i < points@.len() && (#[trigger] points@[i]).1 == y_max;
            if x_min < x_max {
                assert(points@[a].0 != points@[b].0);
            }
            if y_min < y_max {
                assert(points@[c].1 != points@[d].1);
            }
        }
        if x_min >= x_max || y_min >= y_max {
            return None;
        }
        Some(SimplePolygon { points, bbox: AARectangle { x_min, y_min, x_max, y_max } })
    }

    /// The outline of a rectangle. Its cells are those of the rectangle.
    pub fn from_rect(r: AARectangle) -> (polygon: SimplePolygon)
        requires
            r.wf(),
        ensures
            polygon.wf(),
            polygon.points@ == corners(r),
            polygon.bbox == r,
            polygon@ == r@,
    {
        let mut points: Vec<Point> = Vec::new();
        points.push(Point(r.x_min, r.y_min));
        points.push(Point(r.x_max, r.y_min));
        points.push(Point(r.x_max, r.y_max));
        points.push(Point(r.x_min, r.y_max));
        let polygon = SimplePolygon { points, bbox: r };
        proof {
            assert(polygon.points@ =~= corners(r));
            assert(polygon.points@[0].0 == r.x_min && polygon.points@[0].1 == r.y_min);
            assert(polygon.points@[2].0 == r.x_max && polygon.points@[2].1 == r.y_max);
            assert forall|c: Cell| polygon@.contains(c) == r@.contains(c) by {
                lemma_rectangle_outline(r, c);
            }
            assert(polygon@ =~= r@);
        }
        polygon
    }

    /// Whether a center lies inside the outline is decided by the corners
    /// alone: the bounding box in the view leaves out no cell.
    pub proof fn lemma_view(&self, c: Cell)
        requires
            self.wf(),
        ensures
            self@.contains(c) == holds_center(self.points@, c),
    {
        if !self.bbox@.contains(c) {
            lemma_outside_bbox(self.points@, self.bbox, c);
        }
    }

    /// The edge from corner `k` to the next corner.
    pub fn edge(&self, k: usize) -> (e: Edge)
        requires
            k < self.points@.len(),
        ensures
            e == edge_of(self.points@, k as int),
    {
        let next = if k < self.points.len() - 1 { k + 1 } else { 0 };
        Edge { start: self.points[k], end: self.points[next] }
    }

    /// The edges of the outline, in order.
    pub fn edges(&self) -> (r: Vec<Edge>)
        ensures
            r@.len() == self.points@.len(),
            forall|k: int| 0 <= k < r@.len() ==> #[trigger] r@[k] == edge_of(self.points@, k),
    {
        let mut r: Vec<Edge> = Vec::new();
        let mut k: usize = 0;
        while k < self.points.len()
            invariant
                k <= self.points@.len(),
                r@.len() == k,
                forall|i: int| 0 <= i < k ==> #[trigger] r@[i] == edge_of(self.points@, i),
            decreases self.points@.len() - k,
        {
            r.push(self.edge(k));
            k += 1;
        }
        r
    }

    /// Whether the center of the cell `(i, j)` lies inside the outline.
    pub fn center_inside(&self, i: i32, j: i32) -> (r: bool)
        ensures
            r == holds_center(self.points@, (i as int, j as int)),
    {
        let ghost c: Cell = (i as int, j as int);
        let mut odd = false;
        let mut k: usize = 0;
        while k < self.points.len()
            invariant
                k <= self.points@.len(),
                c == (i as int, j as int),
                odd == (crossings(self.points@, c, k as int) % 2 == 1),
            decreases self.points@.len() - k,
        {
            if self.edge(k).passes_right(i, j) {
                odd = !odd;
            }
            k += 1;
        }
        odd
    }

    /// The cells of the polygon as a shape: rows of cells, one rectangle
    /// for each stretch of cells of a row that lie inside. `None` when no
    /// cell lies inside.
    pub fn to_shape(&self) -> (r: Option<Shape>)
        requires
            self.wf(),
        ensures
            r.is_some() == (exists|c: Cell| self@.contains(c)),
            r.is_some() ==> r.unwrap().wf() && r.unwrap()@ == self@ && r.unwrap().bbox
                == self.bbox,
    {
        let b = self.bbox;
        let mut boxes: Vec<AARectangle> = Vec::new();
        let mut j: i32 = b.y_min;
        proof {
            assert(region(boxes@) =~= Set::new(|c: Cell| self@.contains(c) && c.1 < j));
        }
        while j < b.y_max
            invariant
                b == self.bbox,
                b.wf(),
                b.y_min <= j <= b.y_max,
                region(boxes@) == Set::new(|c: Cell| self@.contains(c) && c.1 < j),
                forall|k: int|
                    0 <= k < boxes@.len() ==> (#[trigger] boxes@[k]).wf() && boxes@[k]@.subset_of(
                        b@,
                    ),
            decreases b.y_max - j,
        {
            let mut run: Option<i32> = None;
            let mut i: i32 = b.x_min;
            proof {
                assert(region(boxes@) =~= Set::new(
                    |c: Cell| self@.contains(c) && (c.1 < j || (c.1 == j && c.0 < i)),
                ));
            }
            while i < b.x_max
                invariant
                    b == self.bbox,
                    b.wf(),
                    b.y_min <= j < b.y_max,
                    b.x_min <= i <= b.x_max,
                    run.is_some() ==> b.x_min <= run.unwrap() < i && forall|x: int|
                        run.unwrap() <= x < i ==> #[trigger] holds_center(self.points@, (x, j as int)),
                    region(boxes@) == Set::new(
                        |c: Cell|
                            self@.contains(c) && (c.1 < j || (c.1 == j && c.0 < (if run.is_some() {
                                run.unwrap()
                            } else {
                                i
                            }))),
                    ),
                    forall|k: int|
                        0 <= k < boxes@.len() ==> (#[trigger] boxes@[k]).wf()
                            && boxes@[k]@.subset_of(b@),
                decreases b.x_max - i,
            {
                let inside = self.center_inside(i, j);
                match run {
                    Some(start) => {
                        if !inside {
                            let stretch = AARectangle { x_min: start, y_min: j, x_max: i, y_max: j + 1 };
                            proof {
                                lemma_region_push(boxes@, stretch);
                                assert(region(boxes@).union(stretch@) =~= Set::new(
                                    |c: Cell|
                                        self@.contains(c) && (c.1 < j || (c.1 == j && c.0 < i + 1)),
                                ));
                            }
                            boxes.push(stretch);
                            run = None;
                        }
                    },
                    None => {
                        if inside {
                            run = Some(i);
                        } else {
                            proof {
                                assert(region(boxes@) =~= Set::new(
                                    |c: Cell|
                                        self@.contains(c) && (c.1 < j || (c.1 == j && c.0 < i + 1)),
                                ));
                            }
                        }
                    },
                }
                i += 1;
            }
            match run {
                Some(start) => {
                    let stretch = AARectangle { x_min: start, y_min: j, x_max: b.x_max, y_max: j + 1 };
                    proof {
                        lemma_region_push(boxes@, stretch);
                        assert(region(boxes@).union(stretch@) =~= Set::new(
                            |c: Cell| self@.contains(c) && c.1 < j + 1,
                        ));
                    }
                    boxes.push(stretch);
                },
                None => {
                    proof {
                        assert(region(boxes@) =~= Set::new(|c: Cell| self@.contains(c) && c.1 < j + 1));
                    }
                },
            }
            j += 1;
        }
        proof {
            assert(region(boxes@) =~= self@);
            if boxes@.len() > 0 {
                let first = boxes@[0];
                let c: Cell = (first.x_min as int, first.y_min as int);
                assert(first@.contains(c));
                assert(region(boxes@).contains(c));
            }
            if exists|c: Cell| self@.contains(c) {
                let c = choose|c: Cell| self@.contains(c);
                assert(region(boxes@).contains(c));
            }
        }
        if boxes.len() == 0 {
            return None;
        }
        Some(Shape { boxes, bbox: b })
    }
}

} // verus!
