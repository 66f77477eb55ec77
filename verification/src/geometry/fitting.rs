use vstd::prelude::*;
use crate::geometry::aa_rectangle::AARectangle;
use crate::geometry::cell::Cell;
use crate::geometry::circle::{
    disk_cells, lemma_disk_monotone, lemma_sq_monotone, reach, sq, Circle,
};
use crate::geometry::point::Point;
use crate::geometry::shape::Shape;

verus! {

/// Every cell of a shape is a cell of the grid.
pub proof fn lemma_cells_on_grid(shape: &Shape, c: Cell)
    requires
        shape@.contains(c),
    ensures
        i32::MIN <= c.0 < i32::MAX,
        i32::MIN <= c.1 < i32::MAX,
{
    let k = choose|k: int| 0 <= k < shape.boxes@.len() && (#[trigger] shape.boxes@[k])@.contains(c);
    assert(shape.boxes@[k]@.contains(c));
}

/// Whether a disk of radius `r` holds, in a row of cells whose farther side
/// is `ry` away from the center, exactly the `w` cells on either side of the
/// center.
pub open spec fn is_half_width(w: int, ry: int, r: int) -> bool {
    &&& 0 <= w
    &&& w > 0 ==> sq(w) + sq(ry) <= sq(r)
    &&& sq(w + 1) + sq(ry) > sq(r)
}

/// In a row, the cells of a disk are those at most a half width from the
/// center.
pub proof fn lemma_row_of_disk(cx: int, cy: int, r: int, c: Cell, w: int)
    requires
        is_half_width(w, reach(c.1, cy), r),
    ensures
        disk_cells(cx, cy, r).contains(c) == (cx - w <= c.0 < cx + w),
{
    let q = reach(c.0, cx);
    let ry = reach(c.1, cy);
    if q <= w {
        lemma_sq_monotone(q, w);
    } else {
        lemma_sq_monotone(w + 1, q);
    }
}

/// The square of a number below 2^33.
fn square(a: i64) -> (r: i128)
    requires
        0 <= a <= 0x2_0000_0000,
    ensures
        r == sq(a as int),
        0 <= r <= 0x2_0000_0000 * 0x2_0000_0000,
{
    assert(0 <= a * a <= 0x2_0000_0000 * 0x2_0000_0000) by (nonlinear_arith)
        requires
            0 <= a <= 0x2_0000_0000,
    ;
    (a as i128) * (a as i128)
}

/// How many cells, on either side of the center, a disk of radius `r`
/// holds in a row whose farther side is `ry` away from the center.
pub fn half_width(r: u32, ry: i64) -> (w: i64)
    requires
        1 <= ry <= 0x1_0000_0000,
    ensures
        is_half_width(w as int, ry as int, r as int),
        w <= r,
{
    let rr = square(r as i64);
    let yy = square(ry);
    let mut lo: i64 = 0;
    let mut hi: i64 = r as i64 + 1;
    proof {
        lemma_sq_monotone(r as int, r + 1);
        assert(sq(ry as int) > 0) by (nonlinear_arith)
            requires
                ry >= 1,
        ;
        assert(sq(r + 1) > sq(r as int)) by (nonlinear_arith)
            requires
                r >= 0,
        ;
    }
    while hi - lo > 1
        invariant
            0 <= lo < hi <= r + 1,
            rr == sq(r as int),
            yy == sq(ry as int),
            0 <= yy <= 0x2_0000_0000 * 0x2_0000_0000,
            lo > 0 ==> sq(lo as int) + yy <= rr,
            sq(hi as int) + yy > rr,
        decreases hi - lo,
    {
        let mid = lo + (hi - lo) / 2;
        if square(mid) + yy <= rr {
            lo = mid;
        } else {
            hi = mid;
        }
    }
    lo
}

/// Whether the disk lies in the shape: whether every cell of the disk is a
/// cell of the shape.
pub fn disk_fits(shape: &Shape, disk: &Circle) -> (r: bool)
    requires
        shape.wf(),
    ensures
        r == disk@.subset_of(shape@),
{
    let radius = disk.radius as i64;
    let cx = disk.center.0 as i64;
    let cy = disk.center.1 as i64;
    let mut j: i64 = cy - radius;
    proof {
        assert forall|c: Cell| disk@.contains(c) && c.1 < j implies #[trigger] shape@.contains(
            c,
        ) by {
            disk.lemma_cells_near_center(c);
        }
    }
    while j < cy + radius
        invariant
            shape.wf(),
            radius == disk.radius,
            cx == disk.center.0,
            cy == disk.center.1,
            cy - radius <= j <= cy + radius,
            forall|c: Cell| disk@.contains(c) && c.1 < j ==> #[trigger] shape@.contains(c),
        decreases cy + radius - j,
    {
        let ry = if j >= cy { j + 1 - cy } else { cy - j };
        let w = half_width(disk.radius, ry);
        proof {
            assert(ry == reach(j as int, cy as int));
            assert forall|c: Cell| c.1 == j implies #[trigger] disk@.contains(c) == (cx - w <= c.0
                < cx + w) by {
                lemma_row_of_disk(cx as int, cy as int, radius as int, c, w as int);
            }
        }
        if w > 0 {
            if j < i32::MIN as i64 || j >= i32::MAX as i64 || cx - w < i32::MIN as i64 || cx + w
                > i32::MAX as i64 {
                proof {
                    let first: Cell = (cx - w, j as int);
                    let last: Cell = (cx + w - 1, j as int);
                    assert(disk@.contains(first) && disk@.contains(last));
                    if shape@.contains(first) {
                        lemma_cells_on_grid(shape, first);
                    }
                    if shape@.contains(last) {
                        lemma_cells_on_grid(shape, last);
                    }
                }
                return false;
            }
            if !shape.covers_row((cx - w) as i32, (cx + w) as i32, j as i32) {
                proof {
                    let x = choose|x: int|
                        cx - w <= x < cx + w && !#[trigger] shape@.contains((x, j as int));
                    assert(disk@.contains((x, j as int)));
                }
                return false;
            }
        }
        proof {
            assert forall|c: Cell| disk@.contains(c) && c.1 < j + 1 implies #[trigger] shape@.contains(
                c,
            ) by {
                if c.1 == j {
                    assert(cx - w <= c.0 < cx + w);
                    assert(shape@.contains((c.0, j as int)));
                }
            }
        }
        j += 1;
    }
    proof {
        assert forall|c: Cell| disk@.contains(c) implies shape@.contains(c) by {
            disk.lemma_cells_near_center(c);
        }
    }
    true
}

/// Whether `disk` is the largest disk about its center that lies in the
/// region: it lies in it, and the disk of the next radius does not.
pub open spec fn is_largest_disk(region: Set<Cell>, disk: Circle) -> bool {
    &&& disk@.subset_of(region)
    &&& !disk_cells(disk.center.0 as int, disk.center.1 as int, disk.radius + 1).subset_of(region)
}

/// About a center there is one largest disk in a region.
pub proof fn lemma_largest_disk_unique(region: Set<Cell>, a: Circle, b: Circle)
    requires
        a.center == b.center,
        is_largest_disk(region, a),
        is_largest_disk(region, b),
    ensures
        a == b,
{
    let cx = a.center.0 as int;
    let cy = a.center.1 as int;
    if a.radius < b.radius {
        lemma_disk_monotone(cx, cy, a.radius + 1, b.radius as int);
    }
    if b.radius < a.radius {
        lemma_disk_monotone(cx, cy, b.radius + 1, a.radius as int);
    }
}

/// The largest disk about `center` that lies in the shape. Its radius is at
/// least 1, since the disks of radius 0 and 1 hold no cell.
pub fn largest_disk(shape: &Shape, center: Point) -> (disk: Circle)
    requires
        shape.wf(),
    ensures
        disk.center == center,
        1 <= disk.radius <= 0x8000_0000,
        is_largest_disk(shape@, disk),
{
    let ghost cx = center.0 as int;
    let ghost cy = center.1 as int;
    let width = shape.bbox.width();
    let mut lo: i64 = 1;
    let mut hi: i64 = width / 2 + 2;
    proof {
        assert(disk_cells(cx, cy, 1) =~= Set::<Cell>::empty()) by {
            assert forall|c: Cell| !disk_cells(cx, cy, 1).contains(c) by {
                assert(sq(reach(c.0, cx)) >= 1 && sq(reach(c.1, cy)) >= 1) by (nonlinear_arith)
                    requires
                        reach(c.0, cx) >= 1,
                        reach(c.1, cy) >= 1,
                ;
                assert(sq(1) == 1) by (nonlinear_arith);
            }
        }
        // the middle row of a disk of radius `hi` is wider than the shape
        let first: Cell = (cx - (hi - 1), cy);
        let last: Cell = (cx + hi - 2, cy);
        assert(sq(hi - 1) + sq(1) <= sq(hi as int)) by (nonlinear_arith)
            requires
                hi >= 1,
        ;
        assert(disk_cells(cx, cy, hi as int).contains(first));
        assert(disk_cells(cx, cy, hi as int).contains(last));
        if shape@.contains(first) && shape@.contains(last) {
            let a = choose|k: int|
                0 <= k < shape.boxes@.len() && (#[trigger] shape.boxes@[k])@.contains(first);
            let b = choose|k: int|
                0 <= k < shape.boxes@.len() && (#[trigger] shape.boxes@[k])@.contains(last);
            assert(shape.boxes@[a]@.subset_of(shape.bbox@));
            assert(shape.boxes@[b]@.subset_of(shape.bbox@));
            assert(shape.bbox@.contains(first) && shape.bbox@.contains(last));
        }
    }
    while hi - lo > 1
        invariant
            shape.wf(),
            cx == center.0,
            cy == center.1,
            1 <= lo < hi <= 0x8000_0001,
            disk_cells(cx, cy, lo as int).subset_of(shape@),
            !disk_cells(cx, cy, hi as int).subset_of(shape@),
        decreases hi - lo,
    {
        let mid = lo + (hi - lo) / 2;
        if disk_fits(shape, &Circle { center, radius: mid as u32 }) {
            lo = mid;
        } else {
            hi = mid;
        }
    }
    Circle { center, radius: lo as u32 }
}

/// Whether `run` is the longest stretch of cells of the region, one cell
/// high, that runs through the cell `c` along its row: it holds `c`, lies in
/// the region, and the cells next to its two ends do not.
pub open spec fn is_row_run(region: Set<Cell>, c: Cell, run: AARectangle) -> bool {
    &&& run.y_min == c.1 && run.y_max == c.1 + 1
    &&& run.x_min <= c.0 < run.x_max
    &&& run@.subset_of(region)
    &&& !region.contains((run.x_min - 1, c.1))
    &&& !region.contains((run.x_max as int, c.1))
}

/// Whether `run` is the longest stretch of cells of the region, one cell
/// wide, that runs through the cell `c` along its column.
pub open spec fn is_column_run(region: Set<Cell>, c: Cell, run: AARectangle) -> bool {
    &&& run.x_min == c.0 && run.x_max == c.0 + 1
    &&& run.y_min <= c.1 < run.y_max
    &&& run@.subset_of(region)
    &&& !region.contains((c.0, run.y_min - 1))
    &&& !region.contains((c.0, run.y_max as int))
}

/// The longest stretch of cells of the shape that runs through the cell
/// `(i, j)` along its row.
pub fn row_run(shape: &Shape, i: i32, j: i32) -> (run: AARectangle)
    requires
        shape.wf(),
        shape@.contains((i as int, j as int)),
    ensures
        run.wf(),
        is_row_run(shape@, (i as int, j as int), run),
{
    proof {
        lemma_cells_on_grid(shape, (i as int, j as int));
    }
    let x_min = shape.run_left(i, j);
    let x_max = shape.run_right(i, j);
    let run = AARectangle { x_min, y_min: j, x_max, y_max: j + 1 };
    proof {
        assert forall|c: Cell| run@.contains(c) implies shape@.contains(c) by {
            assert(shape@.contains((c.0, j as int)));
        }
    }
    run
}

/// The region mirrored at the diagonal.
pub open spec fn mirror(region: Set<Cell>) -> Set<Cell> {
    Set::new(|c: Cell| region.contains((c.1, c.0)))
}

/// The longest stretch of cells that runs through the cell `(i, j)` along
/// its column, in the region of which `mirrored` is the mirror image.
pub fn column_run(mirrored: &Shape, i: i32, j: i32) -> (run: AARectangle)
    requires
        mirrored.wf(),
        mirrored@.contains((j as int, i as int)),
    ensures
        run.wf(),
        is_column_run(mirror(mirrored@), (i as int, j as int), run),
{
    let along = row_run(mirrored, j, i);
    let run = AARectangle {
        x_min: along.y_min,
        y_min: along.x_min,
        x_max: along.y_max,
        y_max: along.x_max,
    };
    proof {
        assert forall|c: Cell| run@.contains(c) implies mirror(mirrored@).contains(c) by {
            assert(along@.contains((c.1, c.0)));
        }
    }
    run
}

} // verus!
