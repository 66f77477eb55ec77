use vstd::prelude::*;
use crate::geometry::aa_rectangle::AARectangle;
use crate::geometry::cell::{overlap, Cell};
use crate::geometry::point::Point;
use crate::geometry::shape::{lemma_overlap_region, Shape};

verus! {

/// The rectangle `a`, widened by `d` cells on every side.
pub open spec fn grown(a: AARectangle, d: int) -> Set<Cell> {
    Set::new(
        |c: Cell| a.x_min - d <= c.0 < a.x_max + d && a.y_min - d <= c.1 < a.y_max + d,
    )
}

/// How far apart two rectangles are: 0 when they share a cell, 1 when they
/// touch, and one more for every cell that can be laid between them.
pub open spec fn separation(a: AARectangle, b: AARectangle) -> int {
    let dx = if b.x_min - a.x_max >= a.x_min - b.x_max {
        b.x_min - a.x_max
    } else {
        a.x_min - b.x_max
    };
    let dy = if b.y_min - a.y_max >= a.y_min - b.y_max {
        b.y_min - a.y_max
    } else {
        a.y_min - b.y_max
    };
    let d = if dx >= dy { dx } else { dy };
    if d < 0 {
        0
    } else {
        d + 1
    }
}

/// A rectangle widened by `d` reaches another exactly when `d` is at least
/// their separation.
pub proof fn lemma_separation(a: AARectangle, b: AARectangle, d: int)
    requires
        a.wf(),
        b.wf(),
        d >= 0,
    ensures
        overlap(grown(a, d), b@) == (d >= separation(a, b)),
{
    if d >= separation(a, b) {
        let x = if a.x_min - d >= b.x_min { a.x_min - d } else { b.x_min as int };
        let y = if a.y_min - d >= b.y_min { a.y_min - d } else { b.y_min as int };
        let c: Cell = (x, y);
        assert(grown(a, d).contains(c) && b@.contains(c));
    }
}

/// Whether `n` is the proximity of the rectangle `a` to the cells of
/// `occupied`: `a` can be widened by `n - 1` cells on every side without
/// reaching an occupied cell, but not by `n`. A proximity of 0 says that `a`
/// itself holds an occupied cell; the greatest value of the type says that
/// nothing was ever reached.
pub open spec fn is_proximity(a: AARectangle, n: u64, occupied: Set<Cell>) -> bool {
    &&& n > 0 ==> !overlap(grown(a, n - 1), occupied)
    &&& n < u64::MAX ==> overlap(grown(a, n as int), occupied)
}

/// The proximity to the union of two regions is the smaller of the
/// proximities to each.
pub proof fn lemma_proximity_union(a: AARectangle, n: u64, first: Set<Cell>, m: u64, second: Set<Cell>)
    requires
        is_proximity(a, n, first),
        is_proximity(a, m, second),
    ensures
        is_proximity(a, if n <= m { n } else { m }, first.union(second)),
{
    let least = if n <= m { n } else { m };
    let both = first.union(second);
    if least > 0 && overlap(grown(a, least - 1), both) {
        let c = choose|c: Cell| #[trigger] grown(a, least - 1).contains(c) && both.contains(c);
        if first.contains(c) {
            assert(grown(a, n - 1).contains(c) && first.contains(c));
        } else {
            assert(grown(a, m - 1).contains(c) && second.contains(c));
        }
    }
    if least < u64::MAX {
        if least == n {
            let c = choose|c: Cell| #[trigger] grown(a, n as int).contains(c) && first.contains(c);
            assert(grown(a, least as int).contains(c) && both.contains(c));
        } else {
            let c = choose|c: Cell| #[trigger] grown(a, m as int).contains(c) && second.contains(c);
            assert(grown(a, least as int).contains(c) && both.contains(c));
        }
    }
}

/// The separation of two rectangles.
pub fn separation_of(a: &AARectangle, b: &AARectangle) -> (n: u64)
    requires
        a.wf(),
        b.wf(),
    ensures
        n == separation(*a, *b),
        n <= 0x1_0000_0000,
{
    let dx1 = b.x_min as i64 - a.x_max as i64;
    let dx2 = a.x_min as i64 - b.x_max as i64;
    let dy1 = b.y_min as i64 - a.y_max as i64;
    let dy2 = a.y_min as i64 - b.y_max as i64;
    let dx = if dx1 >= dx2 { dx1 } else { dx2 };
    let dy = if dy1 >= dy2 { dy1 } else { dy2 };
    let d = if dx >= dy { dx } else { dy };
    if d < 0 {
        0
    } else {
        (d + 1) as u64
    }
}

/// The proximity of a rectangle to a shape: the least of its separations
/// from the rectangles of the shape.
pub fn proximity_to_shape(a: &AARectangle, shape: &Shape) -> (n: u64)
    requires
        a.wf(),
        shape.wf(),
    ensures
        is_proximity(*a, n, shape@),
        n <= 0x1_0000_0000,
        forall|k: int| 0 <= k < shape.boxes@.len() ==> n <= separation(*a, #[trigger] shape.boxes@[k]),
        exists|k: int| 0 <= k < shape.boxes@.len() && n == separation(*a, #[trigger] shape.boxes@[k]),
{
    let mut n = separation_of(a, &shape.boxes[0]);
    let mut i: usize = 1;
    while i < shape.boxes.len()
        invariant
            1 <= i <= shape.boxes@.len(),
            a.wf(),
            shape.wf(),
            n <= 0x1_0000_0000,
            forall|k: int| 0 <= k < i ==> n <= separation(*a, #[trigger] shape.boxes@[k]),
            exists|k: int| 0 <= k < i && n == separation(*a, #[trigger] shape.boxes@[k]),
        decreases shape.boxes@.len() - i,
    {
        let s = separation_of(a, &shape.boxes[i]);
        if s < n {
            n = s;
        }
        i += 1;
    }
    proof {
        let w = choose|k: int| 0 <= k < shape.boxes@.len() && n == separation(*a, #[trigger] shape.boxes@[k]);
        lemma_separation(*a, shape.boxes@[w], n as int);
        lemma_overlap_region(grown(*a, n as int), shape.boxes@);
        if n > 0 {
            lemma_overlap_region(grown(*a, n - 1), shape.boxes@);
            if overlap(grown(*a, n - 1), shape@) {
                let k = choose|k: int|
                    0 <= k < shape.boxes@.len() && overlap(
                        grown(*a, n - 1),
                        (#[trigger] shape.boxes@[k])@,
                    );
                lemma_separation(*a, shape.boxes@[k], n - 1);
            }
        }
    }
    n
}

/// Whether `marks` cuts the range from `lo` to `hi` into intervals: it
/// starts at `lo`, ends at `hi` and rises strictly.
pub open spec fn is_partition(marks: Seq<i32>, lo: i32, hi: i32) -> bool {
    &&& marks.len() >= 2
    &&& marks[0] == lo
    &&& marks[marks.len() - 1] == hi
    &&& forall|i: int, j: int| 0 <= i < j < marks.len() ==> marks[i] < marks[j]
}

/// The length of the intervals when a range of length `width` is cut into
/// at most `parts` intervals of equal length (but for the last): `width`
/// over `parts`, rounded up.
pub open spec fn step_size(width: int, parts: int) -> int {
    (width + parts - 1) / parts
}

/// Whether `marks` cuts the range from `lo` to `hi` into intervals of length
/// `step`, but for the last, which may be shorter.
pub open spec fn is_even_partition(marks: Seq<i32>, lo: i32, hi: i32, step: int) -> bool {
    &&& is_partition(marks, lo, hi)
    &&& forall|i: int| 0 <= i < marks.len() - 1 ==> #[trigger] marks[i] == lo + i * step
    &&& hi <= lo + (marks.len() - 1) * step
}

/// Cuts the range from `lo` to `hi` into at most `parts` intervals of equal
/// length, but for the last, which may be shorter.
pub fn partition(lo: i32, hi: i32, parts: usize) -> (marks: Vec<i32>)
    requires
        lo < hi,
        parts >= 1,
    ensures
        is_even_partition(marks@, lo, hi, step_size(hi - lo, parts as int)),
        marks@.len() <= parts + 1,
{
    let width: u64 = (hi as i64 - lo as i64) as u64;
    let parts64: u64 = if parts as u64 > width { width } else { parts as u64 };
    let step: u64 = if parts as u64 > width { 1 } else { (width + (parts64 - 1)) / parts64 };
    proof {
        lemma_step_size(width as int, parts as int);
        assert(step == step_size(width as int, parts as int));
    }
    let mut marks: Vec<i32> = Vec::new();
    marks.push(lo);
    let mut x: i64 = lo as i64;
    while hi as i64 - x > step as i64
        invariant
            lo <= x < hi,
            1 <= step <= 0xffff_ffff,
            step == step_size(hi - lo, parts as int),
            step * parts >= hi - lo,
            marks@.len() >= 1,
            x == lo + (marks@.len() - 1) * step,
            forall|i: int| 0 <= i < marks@.len() ==> #[trigger] marks@[i] == lo + i * step,
            marks@.len() <= parts,
        decreases hi - x,
    {
        let ghost n = marks@.len() as int;
        proof {
            assert((n - 1) * step + step == n * step) by (nonlinear_arith);
            assert(n * step == step * n) by (nonlinear_arith);
        }
        x = x + step as i64;
        marks.push(x as i32);
    }
    proof {
        let n = marks@.len() as int;
        assert((n - 1) * step + step == n * step) by (nonlinear_arith);
    }
    marks.push(hi);
    proof {
        assert forall|i: int, j: int| 0 <= i < j < marks@.len() implies marks@[i] < marks@[j] by {
            if j < marks@.len() - 1 {
                assert(i * step < j * step) by (nonlinear_arith)
                    requires
                        i < j,
                        step >= 1,
                ;
            } else {
                assert(i * step <= (marks@.len() - 2) * step) by (nonlinear_arith)
                    requires
                        i <= marks@.len() - 2,
                        step >= 1,
                ;
            }
        }
    }
    marks
}

/// The step is at least 1, `parts` steps span the width, and more parts
/// than the width give steps of 1.
pub proof fn lemma_step_size(width: int, parts: int)
    requires
        width >= 1,
        parts >= 1,
    ensures
        1 <= step_size(width, parts) <= width,
        step_size(width, parts) * parts >= width,
        parts > width ==> step_size(width, parts) == 1,
{
    let s = step_size(width, parts);
    vstd::arithmetic::div_mod::lemma_fundamental_div_mod(width + parts - 1, parts);
    vstd::arithmetic::div_mod::lemma_mod_bound(width + parts - 1, parts);
    assert(parts * s == s * parts) by (nonlinear_arith);
    if s < 1 {
        assert(parts * s <= 0) by (nonlinear_arith)
            requires
                s <= 0,
                parts >= 1,
        ;
    }
    if s > width {
        assert(parts * s >= parts * (width + 1)) by (nonlinear_arith)
            requires
                s >= width + 1,
                parts >= 1,
        ;
        assert(parts * (width + 1) >= width + parts) by (nonlinear_arith)
            requires
                width >= 1,
                parts >= 1,
        ;
    }
    if parts > width {
        if s >= 2 {
            assert(parts * s >= 2 * parts) by (nonlinear_arith)
                requires
                    s >= 2,
                    parts >= 1,
            ;
        }
    }
}

/// The interval of `marks` in which `x` lies.
pub fn locate(marks: &Vec<i32>, x: i32) -> (i: usize)
    requires
        marks@.len() >= 2,
        forall|i: int, j: int| 0 <= i < j < marks@.len() ==> marks@[i] < marks@[j],
        marks@[0] <= x < marks@[marks@.len() - 1],
    ensures
        i + 1 < marks@.len(),
        marks@[i as int] <= x < marks@[i + 1],
{
    let mut lo: usize = 0;
    let mut hi: usize = marks.len() - 1;
    while hi - lo > 1
        invariant
            lo < hi < marks@.len(),
            marks@[lo as int] <= x < marks@[hi as int],
        decreases hi - lo,
    {
        let mid = lo + (hi - lo) / 2;
        if marks[mid] <= x {
            lo = mid;
        } else {
            hi = mid;
        }
    }
    lo
}

/// The square of the number after `s`.
fn next_square(s: u32) -> (r: u64)
    requires
        s < 0xffff_ffff,
    ensures
        r == (s + 1) * (s + 1),
{
    let t = s as u64 + 1;
    assert(t * t <= 0xffff_ffff * 0xffff_ffff) by (nonlinear_arith)
        requires
            t <= 0xffff_ffff,
    ;
    t * t
}

/// The largest number, at least 1 and below 2^32, whose square is at most
/// `n`; 1 when `n` is 0.
pub fn grid_side(n: usize) -> (s: u32)
    ensures
        1 <= s,
        n >= 1 ==> s * s <= n,
        (s + 1) * (s + 1) > n || s == 0xffff_ffff,
{
    let mut s: u32 = 1;
    while s < 0xffff_ffff && next_square(s) <= n as u64
        invariant
            1 <= s,
            n >= 1 ==> s * s <= n,
        decreases 0xffff_ffff - s,
    {
        s = s + 1;
    }
    s
}

/// A grid over the bin's bounding box that knows, for each of its cells,
/// how near the nearest hazard is.
///
/// The grid is told of every hazard that is registered. Its view is the set
/// of grid cells that the hazards it was told of occupy. It is a cache: it
/// can be emptied and told of the hazards anew at any time.
pub struct HazardProximityGrid {
    bbox: AARectangle,
    xs: Vec<i32>,
    ys: Vec<i32>,
    rows: Vec<Vec<u64>>,
    occupied: Ghost<Set<Cell>>,
}

impl View for HazardProximityGrid {
    type V = Set<Cell>;

    closed spec fn view(&self) -> Set<Cell> {
        self.occupied@
    }
}

impl HazardProximityGrid {
    /// The rectangle that the grid covers.
    pub closed spec fn bbox(&self) -> AARectangle {
        self.bbox
    }

    /// Where the columns of the grid begin and end, from left to right.
    pub closed spec fn column_marks(&self) -> Seq<i32> {
        self.xs@
    }

    /// Where the rows of the grid begin and end, from bottom to top.
    pub closed spec fn row_marks(&self) -> Seq<i32> {
        self.ys@
    }

    /// The rectangle in column `i` and row `j`.
    pub open spec fn cell(&self, i: int, j: int) -> AARectangle {
        AARectangle {
            x_min: self.column_marks()[i],
            y_min: self.row_marks()[j],
            x_max: self.column_marks()[i + 1],
            y_max: self.row_marks()[j + 1],
        }
    }

    /// The proximity recorded for the rectangle in column `i` and row `j`.
    pub closed spec fn recorded(&self, i: int, j: int) -> u64 {
        self.rows@[j]@[i]
    }

    /// The invariant of the grid: its columns and rows cut the bounding box
    /// into rectangles, and for each of them the proximity to the occupied
    /// cells is recorded.
    pub closed spec fn wf(&self) -> bool {
        &&& self.bbox.wf()
        &&& is_partition(self.xs@, self.bbox.x_min, self.bbox.x_max)
        &&& is_partition(self.ys@, self.bbox.y_min, self.bbox.y_max)
        &&& self.rows@.len() == self.ys@.len() - 1
        &&& forall|j: int| 0 <= j < self.rows@.len() ==> (#[trigger] self.rows@[j])@.len() == self.xs@.len() - 1
        &&& forall|i: int, j: int|
            0 <= i < self.xs@.len() - 1 && 0 <= j < self.ys@.len() - 1 ==> is_proximity(
                self.cell(i, j),
                #[trigger] self.recorded(i, j),
                self.occupied@,
            )
    }

    /// In a well-formed grid the marks cut the bounding box into columns and
    /// rows, and the recorded proximities are those to the occupied cells.
    pub proof fn lemma_wf(&self)
        requires
            self.wf(),
        ensures
            self.bbox().wf(),
            is_partition(self.column_marks(), self.bbox().x_min, self.bbox().x_max),
            is_partition(self.row_marks(), self.bbox().y_min, self.bbox().y_max),
            forall|i: int, j: int|
                0 <= i < self.column_marks().len() - 1 && 0 <= j < self.row_marks().len() - 1
                    ==> is_proximity(self.cell(i, j), #[trigger] self.recorded(i, j), self@),
    {
    }

    /// A row of `n` cells near which nothing was found yet.
    fn blank_row(n: usize) -> (row: Vec<u64>)
        ensures
            row@.len() == n,
            forall|i: int| 0 <= i < n ==> row@[i] == u64::MAX,
    {
        let mut row: Vec<u64> = Vec::new();
        let mut i: usize = 0;
        while i < n
            invariant
                i <= n,
                row@.len() == i,
                forall|k: int| 0 <= k < i ==> row@[k] == u64::MAX,
            decreases n - i,
        {
            row.push(u64::MAX);
            i += 1;
        }
        row
    }

    /// A grid over `bbox` of at most `n_cells` cells (one cell when `n_cells`
    /// is 0) that was told of no hazard.
    ///
    /// With `side` the largest number whose square is at most `n_cells`, the
    /// box is cut into at most `side` columns of equal width and at most
    /// `side` rows of equal height; the last column and the last row may be
    /// narrower.
    pub fn new(bbox: AARectangle, n_cells: usize) -> (grid: HazardProximityGrid)
        requires
            bbox.wf(),
        ensures
            grid.wf(),
            grid@ == Set::<Cell>::empty(),
            grid.bbox() == bbox,
            exists|side: int|
                {
                    &&& 1 <= side
                    &&& n_cells >= 1 ==> side * side <= n_cells
                    &&& (side + 1) * (side + 1) > n_cells || side == 0xffff_ffff
                    &&& #[trigger] is_even_partition(
                        grid.column_marks(),
                        bbox.x_min,
                        bbox.x_max,
                        step_size(bbox.spec_width(), side),
                    )
                    &&& is_even_partition(
                        grid.row_marks(),
                        bbox.y_min,
                        bbox.y_max,
                        step_size(bbox.spec_height(), side),
                    )
                    &&& grid.column_marks().len() <= side + 1
                    &&& grid.row_marks().len() <= side + 1
                },
    {
        let side = grid_side(n_cells);
        let xs = partition(bbox.x_min, bbox.x_max, side as usize);
        let ys = partition(bbox.y_min, bbox.y_max, side as usize);
        let mut rows: Vec<Vec<u64>> = Vec::new();
        let mut j: usize = 0;
        while j < ys.len() - 1
            invariant
                j + 1 <= ys@.len(),
                rows@.len() == j,
                forall|k: int| 0 <= k < j ==> (#[trigger] rows@[k])@.len() == xs@.len() - 1,
                forall|k: int, i: int|
                    0 <= k < j && 0 <= i < xs@.len() - 1 ==> #[trigger] rows@[k]@[i] == u64::MAX,
                xs@.len() >= 2,
            decreases ys@.len() - j,
        {
            rows.push(Self::blank_row(xs.len() - 1));
            j += 1;
        }
        let grid = HazardProximityGrid { bbox, xs, ys, rows, occupied: Ghost(Set::empty()) };
        proof {
            assert forall|i: int, j: int|
                0 <= i < grid.xs@.len() - 1 && 0 <= j < grid.ys@.len() - 1 implies is_proximity(
                grid.cell(i, j),
                #[trigger] grid.recorded(i, j),
                grid.occupied@,
            ) by {
                assert(grid.rows@[j]@[i] == u64::MAX);
            }
            assert(is_even_partition(
                grid.column_marks(),
                bbox.x_min,
                bbox.x_max,
                step_size(bbox.spec_width(), side as int),
            ));
        }
        grid
    }

    /// Forgets every hazard that the grid was told of.
    pub fn reset(&mut self)
        requires
            old(self).wf(),
        ensures
            final(self).wf(),
            final(self)@ == Set::<Cell>::empty(),
            final(self).bbox() == old(self).bbox(),
            final(self).column_marks() == old(self).column_marks(),
            final(self).row_marks() == old(self).row_marks(),
    {
        let mut rows: Vec<Vec<u64>> = Vec::new();
        let mut j: usize = 0;
        while j < self.ys.len() - 1
            invariant
                *self == *old(self),
                self.xs@.len() >= 2,
                j + 1 <= self.ys@.len(),
                rows@.len() == j,
                forall|k: int| 0 <= k < j ==> (#[trigger] rows@[k])@.len() == self.xs@.len() - 1,
                forall|k: int, i: int|
                    0 <= k < j && 0 <= i < self.xs@.len() - 1 ==> #[trigger] rows@[k]@[i]
                        == u64::MAX,
            decreases self.ys@.len() - j,
        {
            rows.push(Self::blank_row(self.xs.len() - 1));
            j += 1;
        }
        self.rows = rows;
        self.occupied = Ghost(Set::empty());
        proof {
            assert forall|i: int, j: int|
                0 <= i < self.xs@.len() - 1 && 0 <= j < self.ys@.len() - 1 implies is_proximity(
                self.cell(i, j),
                #[trigger] self.recorded(i, j),
                self.occupied@,
            ) by {
                assert(self.rows@[j]@[i] == u64::MAX);
            }
        }
    }

    /// Tells the grid of a hazard: the proximity of every cell of the grid
    /// is brought down to its proximity to the hazard, where that is less.
    pub fn register(&mut self, shape: &Shape)
        requires
            old(self).wf(),
            shape.wf(),
        ensures
            final(self).wf(),
            final(self)@ == old(self)@.union(shape@),
            final(self).bbox() == old(self).bbox(),
            final(self).column_marks() == old(self).column_marks(),
            final(self).row_marks() == old(self).row_marks(),
    {
        let ghost before = *self;
        let ghost after = before.occupied@.union(shape@);
        let n_marks = self.ys.len();
        let mut j: usize = 0;
        while j < self.rows.len()
            invariant
                j <= self.rows@.len(),
                n_marks == self.ys@.len(),
                before.wf(),
                shape.wf(),
                after == before.occupied@.union(shape@),
                self.bbox == before.bbox,
                self.xs == before.xs,
                self.ys == before.ys,
                self.occupied == before.occupied,
                self.rows@.len() == before.rows@.len(),
                forall|k: int| 0 <= k < self.rows@.len() ==> (#[trigger] self.rows@[k])@.len() == self.xs@.len() - 1,
                forall|i: int, k: int|
                    0 <= i < self.xs@.len() - 1 && 0 <= k < j ==> is_proximity(
                        self.cell(i, k),
                        #[trigger] self.recorded(i, k),
                        after,
                    ),
                forall|i: int, k: int|
                    0 <= i < self.xs@.len() - 1 && j <= k < self.rows@.len() ==> is_proximity(
                        self.cell(i, k),
                        #[trigger] self.recorded(i, k),
                        before.occupied@,
                    ),
            decreases self.rows@.len() - j,
        {
            let mut i: usize = 0;
            assert(self.xs@.len() >= 2 && self.ys@.len() == self.rows@.len() + 1);
            while i < self.xs.len() - 1
                invariant
                    i + 1 <= self.xs@.len(),
                    j < self.rows@.len(),
                    n_marks == self.ys@.len(),
                    before.wf(),
                    shape.wf(),
                    after == before.occupied@.union(shape@),
                    self.bbox == before.bbox,
                    self.xs == before.xs,
                    self.ys == before.ys,
                    self.occupied == before.occupied,
                    self.rows@.len() == before.rows@.len(),
                    forall|k: int| 0 <= k < self.rows@.len() ==> (#[trigger] self.rows@[k])@.len() == self.xs@.len() - 1,
                    forall|c: int, k: int|
                        0 <= c < self.xs@.len() - 1 && 0 <= k < j ==> is_proximity(
                            self.cell(c, k),
                            #[trigger] self.recorded(c, k),
                            after,
                        ),
                    forall|c: int, k: int|
                        0 <= c < self.xs@.len() - 1 && j < k < self.rows@.len() ==> is_proximity(
                            self.cell(c, k),
                            #[trigger] self.recorded(c, k),
                            before.occupied@,
                        ),
                    forall|c: int|
                        0 <= c < i ==> is_proximity(
                            self.cell(c, j as int),
                            #[trigger] self.recorded(c, j as int),
                            after,
                        ),
                    forall|c: int|
                        i <= c < self.xs@.len() - 1 ==> is_proximity(
                            self.cell(c, j as int),
                            #[trigger] self.recorded(c, j as int),
                            before.occupied@,
                        ),
                decreases self.xs@.len() - i,
            {
                let rect = AARectangle {
                    x_min: self.xs[i],
                    y_min: self.ys[j],
                    x_max: self.xs[i + 1],
                    y_max: self.ys[j + 1],
                };
                let ghost prev = *self;
                let recorded = self.rows[j][i];
                let near = proximity_to_shape(&rect, shape);
                proof {
                    assert(rect == self.cell(i as int, j as int));
                    assert(recorded == self.recorded(i as int, j as int));
                    lemma_proximity_union(rect, recorded, before.occupied@, near, shape@);
                }
                if near < recorded {
                    self.rows[j][i] = near;
                }
                proof {
                    assert forall|c: int, k: int|
                        0 <= c < self.xs@.len() - 1 && 0 <= k < self.rows@.len() implies self.cell(
                            c,
                            k,
                        ) == prev.cell(c, k) && (!(c == i && k == j) ==> #[trigger] self.recorded(
                            c,
                            k,
                        ) == prev.recorded(c, k)) by {}
                    assert forall|c: int, k: int|
                        0 <= c < self.xs@.len() - 1 && 0 <= k < j implies is_proximity(
                        self.cell(c, k),
                        #[trigger] self.recorded(c, k),
                        after,
                    ) by {
                        assert(is_proximity(prev.cell(c, k), prev.recorded(c, k), after));
                    }
                    assert forall|c: int, k: int|
                        0 <= c < self.xs@.len() - 1 && j < k < self.rows@.len() implies is_proximity(
                        self.cell(c, k),
                        #[trigger] self.recorded(c, k),
                        before.occupied@,
                    ) by {
                        assert(is_proximity(prev.cell(c, k), prev.recorded(c, k), before.occupied@));
                    }
                    assert forall|c: int| 0 <= c < i + 1 implies is_proximity(
                        self.cell(c, j as int),
                        #[trigger] self.recorded(c, j as int),
                        after,
                    ) by {
                        if c < i {
                            assert(is_proximity(
                                prev.cell(c, j as int),
                                prev.recorded(c, j as int),
                                after,
                            ));
                        }
                    }
                    assert forall|c: int| i + 1 <= c < self.xs@.len() - 1 implies is_proximity(
                        self.cell(c, j as int),
                        #[trigger] self.recorded(c, j as int),
                        before.occupied@,
                    ) by {
                        assert(is_proximity(
                            prev.cell(c, j as int),
                            prev.recorded(c, j as int),
                            before.occupied@,
                        ));
                    }
                }
                i += 1;
            }
            j += 1;
        }
        let ghost prev = *self;
        self.occupied = Ghost(after);
        proof {
            assert forall|i: int, j: int|
                0 <= i < self.xs@.len() - 1 && 0 <= j < self.ys@.len() - 1 implies is_proximity(
                self.cell(i, j),
                #[trigger] self.recorded(i, j),
                self.occupied@,
            ) by {
                assert(is_proximity(prev.cell(i, j), prev.recorded(i, j), after));
            }
        }
    }

    /// The cell of the grid in which the point lies, with the proximity
    /// recorded for it, or `None` when the point lies outside the grid.
    ///
    /// A proximity of `n` says that the cell can be widened by `n - 1` on
    /// every side without reaching an occupied cell, but not by `n`.
    pub fn proximity_at(&self, p: &Point) -> (r: Option<(AARectangle, u64)>)
        requires
            self.wf(),
        ensures
            r.is_some() == self.bbox()@.contains((p.0 as int, p.1 as int)),
            r.is_some() ==> {
                let (rect, n) = r.unwrap();
                &&& rect@.contains((p.0 as int, p.1 as int))
                &&& rect.wf()
                &&& rect@.subset_of(self.bbox()@)
                &&& is_proximity(rect, n, self@)
                &&& exists|i: int, j: int|
                    0 <= i < self.column_marks().len() - 1 && 0 <= j < self.row_marks().len() - 1
                        && rect == self.cell(i, j) && n == #[trigger] self.recorded(i, j)
            },
    {
        if p.0 < self.bbox.x_min || p.0 >= self.bbox.x_max || p.1 < self.bbox.y_min || p.1
            >= self.bbox.y_max {
            return None;
        }
        let n_marks = (self.xs.len(), self.ys.len());
        let i = locate(&self.xs, p.0);
        let j = locate(&self.ys, p.1);
        let rect = AARectangle {
            x_min: self.xs[i],
            y_min: self.ys[j],
            x_max: self.xs[i + 1],
            y_max: self.ys[j + 1],
        };
        let n = self.rows[j][i];
        proof {
            assert(rect == self.cell(i as int, j as int));
            assert(n == self.recorded(i as int, j as int));
            assert(self.xs@[0] <= self.xs@[i as int]);
            assert(self.xs@[i + 1] <= self.xs@[self.xs@.len() - 1]);
            assert(self.ys@[0] <= self.ys@[j as int]);
            assert(self.ys@[j + 1] <= self.ys@[self.ys@.len() - 1]);
        }
        Some((rect, n))
    }

    /// The rectangle that the grid covers.
    pub fn bounding_box(&self) -> (b: AARectangle)
        ensures
            b == self.bbox(),
    {
        self.bbox
    }

    /// How many columns and rows the grid has.
    pub fn dimensions(&self) -> (r: (usize, usize))
        requires
            self.wf(),
        ensures
            r.0 == self.column_marks().len() - 1,
            r.1 == self.row_marks().len() - 1,
    {
        (self.xs.len() - 1, self.ys.len() - 1)
    }
}

} // verus!
