use vstd::prelude::*;
use crate::geometry::aa_rectangle::AARectangle;
use crate::geometry::cell::Cell;
use crate::geometry::circle::Circle;
use crate::geometry::fitting::{
    column_run, is_column_run, is_largest_disk, is_row_run, largest_disk, mirror, row_run,
};
use crate::geometry::point::Point;
use crate::geometry::shape::Shape;
use crate::util::config::SPSurrogateConfig;
use crate::util::select::{exhausts, is_selection, select_largest};

verus! {

/// The grid point in the middle of a rectangle (rounded down and to the
/// left). The cell to its upper right belongs to the rectangle.
pub open spec fn middle(b: AARectangle) -> Point {
    Point((b.x_min + b.spec_width() / 2) as i32, (b.y_min + b.spec_height() / 2) as i32)
}

/// Whether `disks` are the candidates for the poles of a shape: for each
/// rectangle of the shape, the largest disk about the middle of the
/// rectangle that lies in the shape.
pub open spec fn are_pole_candidates(shape: &Shape, disks: Seq<Circle>) -> bool {
    &&& disks.len() == shape.boxes@.len()
    &&& forall|k: int|
        0 <= k < disks.len() ==> (#[trigger] disks[k]).center == middle(shape.boxes@[k])
            && is_largest_disk(shape@, disks[k]) && disks[k].radius <= 0x8000_0000
}

/// Whether `runs` are the candidates for the piers of a shape: for each
/// rectangle of the shape, the longest stretch of cells of the shape through
/// the middle of the rectangle along its row, and then, for each rectangle,
/// the longest stretch along its column.
pub open spec fn are_pier_candidates(shape: &Shape, runs: Seq<AARectangle>) -> bool {
    let n = shape.boxes@.len() as int;
    &&& runs.len() == 2 * n
    &&& forall|k: int|
        0 <= k < n ==> is_row_run(
            shape@,
            (middle(shape.boxes@[k]).0 as int, middle(shape.boxes@[k]).1 as int),
            #[trigger] runs[k],
        )
    &&& forall|k: int|
        n <= k < 2 * n ==> is_column_run(
            shape@,
            (middle(shape.boxes@[k - n]).0 as int, middle(shape.boxes@[k - n]).1 as int),
            #[trigger] runs[k],
        )
    &&& forall|k: int| 0 <= k < runs.len() ==> (#[trigger] runs[k]).wf()
}

/// The rank of each candidate disk: its radius, or zero when the radius is
/// under 2 and the disk holds no cell.
pub open spec fn pole_keys(disks: Seq<Circle>) -> Seq<u64> {
    Seq::new(disks.len(), |k: int| if disks[k].radius >= 2 { disks[k].radius as u64 } else { 0 })
}

/// The rank of each candidate run: its length.
pub open spec fn pier_keys(runs: Seq<AARectangle>) -> Seq<u64> {
    Seq::new(
        runs.len(),
        |k: int|
            if runs[k].spec_width() >= runs[k].spec_height() {
                runs[k].spec_width() as u64
            } else {
                runs[k].spec_height() as u64
            },
    )
}

/// The area that a pole of this radius counts for: three times the square
/// of the radius, a little less than the area of the disk.
pub open spec fn pole_area(radius: int) -> int {
    3 * radius * radius
}

/// The area that the poles count for together.
pub open spec fn covered_area(poles: Seq<Circle>) -> int
    decreases poles.len(),
{
    if poles.len() == 0 {
        0
    } else {
        covered_area(poles.drop_last()) + pole_area(poles.last().radius as int)
    }
}

/// The sum of the areas of the rectangles.
pub open spec fn total_area(boxes: Seq<AARectangle>) -> int
    decreases boxes.len(),
{
    if boxes.len() == 0 {
        0
    } else {
        total_area(boxes.drop_last()) + boxes.last().spec_area()
    }
}

/// The area that the poles should cover: `goal` percent of `total`, and all
/// of it when `goal` is above 100.
pub open spec fn goal_area(total: int, goal: u8) -> int {
    if goal >= 100 {
        total
    } else {
        (goal * total) / 100
    }
}

/// Whether one of the poles holds the point.
pub open spec fn covers_point(poles: Seq<Circle>, p: Point) -> bool {
    exists|i: int| 0 <= i < poles.len() && (#[trigger] poles[i]).holds_point(p.0 as int, p.1 as int)
}

/// The poles chosen among the first `k` candidates in picking order.
///
/// The candidates are taken in turn, the largest first. A candidate becomes
/// a pole unless there are `max_poles` poles already, or the poles count for
/// the area `goal` already, or a pole chosen before holds its center.
pub open spec fn chosen_poles(
    disks: Seq<Circle>,
    order: Seq<usize>,
    max_poles: int,
    goal: int,
    k: int,
) -> Seq<Circle>
    decreases k,
{
    if k <= 0 {
        Seq::empty()
    } else {
        let before = chosen_poles(disks, order, max_poles, goal, k - 1);
        let next = disks[order[k - 1] as int];
        if before.len() >= max_poles || covered_area(before) >= goal || covers_point(
            before,
            next.center,
        ) {
            before
        } else {
            before.push(next)
        }
    }
}

/// The piers chosen among the first `k` candidates in picking order.
///
/// The candidates are taken in turn, the longest first. A candidate becomes
/// a pier unless there are `n_piers` piers already or it is one of them.
pub open spec fn chosen_piers(runs: Seq<AARectangle>, order: Seq<usize>, n_piers: int, k: int) -> Seq<
    AARectangle,
>
    decreases k,
{
    if k <= 0 {
        Seq::empty()
    } else {
        let before = chosen_piers(runs, order, n_piers, k - 1);
        let next = runs[order[k - 1] as int];
        if before.len() >= n_piers || before.contains(next) {
            before
        } else {
            before.push(next)
        }
    }
}

/// Every chosen pole is one of the candidates that were picked, and there
/// are at most `max_poles` of them.
pub proof fn lemma_chosen_poles(disks: Seq<Circle>, order: Seq<usize>, max_poles: int, goal: int, k: int)
    requires
        0 <= k <= order.len(),
        0 <= max_poles,
    ensures
        chosen_poles(disks, order, max_poles, goal, k).len() <= max_poles,
        chosen_poles(disks, order, max_poles, goal, k).len() <= k,
        forall|i: int|
            0 <= i < chosen_poles(disks, order, max_poles, goal, k).len() ==> exists|m: int|
                0 <= m < k && #[trigger] chosen_poles(disks, order, max_poles, goal, k)[i]
                    == disks[(#[trigger] order[m]) as int],
    decreases k,
{
    if k > 0 {
        lemma_chosen_poles(disks, order, max_poles, goal, k - 1);
        let before = chosen_poles(disks, order, max_poles, goal, k - 1);
        let now = chosen_poles(disks, order, max_poles, goal, k);
        assert forall|i: int| 0 <= i < now.len() implies exists|m: int|
            0 <= m < k && #[trigger] now[i] == disks[(#[trigger] order[m]) as int] by {
            if i < before.len() {
                let m = choose|m: int|
                    0 <= m < k - 1 && before[i] == disks[(#[trigger] order[m]) as int];
                assert(now[i] == disks[order[m] as int]);
            } else {
                assert(now[i] == disks[order[k - 1] as int]);
            }
        }
    }
}

/// Every chosen pier is one of the candidates that were picked, and there
/// are at most `n_piers` of them.
pub proof fn lemma_chosen_piers(runs: Seq<AARectangle>, order: Seq<usize>, n_piers: int, k: int)
    requires
        0 <= k <= order.len(),
        0 <= n_piers,
    ensures
        chosen_piers(runs, order, n_piers, k).len() <= n_piers,
        chosen_piers(runs, order, n_piers, k).len() <= k,
        forall|i: int|
            0 <= i < chosen_piers(runs, order, n_piers, k).len() ==> exists|m: int|
                0 <= m < k && #[trigger] chosen_piers(runs, order, n_piers, k)[i]
                    == runs[(#[trigger] order[m]) as int],
    decreases k,
{
    if k > 0 {
        lemma_chosen_piers(runs, order, n_piers, k - 1);
        let before = chosen_piers(runs, order, n_piers, k - 1);
        let now = chosen_piers(runs, order, n_piers, k);
        assert forall|i: int| 0 <= i < now.len() implies exists|m: int|
            0 <= m < k && #[trigger] now[i] == runs[(#[trigger] order[m]) as int] by {
            if i < before.len() {
                let m = choose|m: int| 0 <= m < k - 1 && before[i] == runs[(#[trigger] order[m]) as int];
                assert(now[i] == runs[order[m] as int]);
            } else {
                assert(now[i] == runs[order[k - 1] as int]);
            }
        }
    }
}

/// A coarse stand-in for the shape of an item: disks ("poles") and thin
/// strips ("piers") that lie in the shape. Whatever a pole or a pier
/// collides with, the shape collides with too.
#[derive(Clone, Debug, PartialEq, Eq)]
pub struct Surrogate {
    /// The poles, the largest first.
    pub poles: Vec<Circle>,
    /// The piers, the longest first.
    pub piers: Vec<AARectangle>,
    /// How many of the poles count as fail-fast poles.
    pub n_ff_poles: usize,
    /// The area that the poles count for.
    pub covered_area: u128,
    /// The sum of the areas of the shape's rectangles.
    pub shape_area: u128,
}

impl Surrogate {
    /// Every pier has positive area.
    pub open spec fn wf(&self) -> bool {
        forall|i: int| 0 <= i < self.piers@.len() ==> (#[trigger] self.piers@[i]).wf()
    }

    /// Every pole and every pier lies in `cells`.
    pub open spec fn is_within(&self, cells: Set<Cell>) -> bool {
        &&& forall|i: int| 0 <= i < self.poles@.len() ==> (#[trigger] self.poles@[i])@.subset_of(cells)
        &&& forall|i: int| 0 <= i < self.piers@.len() ==> (#[trigger] self.piers@[i])@.subset_of(cells)
    }

    /// Whether the surrogate is the one that `config` asks for, given the
    /// candidates for its poles and piers, each list with its picking order.
    pub open spec fn is_built_from(
        &self,
        shape: &Shape,
        config: SPSurrogateConfig,
        disks: Seq<Circle>,
        pole_order: Seq<usize>,
        runs: Seq<AARectangle>,
        pier_order: Seq<usize>,
    ) -> bool {
        &&& are_pole_candidates(shape, disks)
        &&& is_selection(pole_keys(disks), pole_order)
        &&& exhausts(pole_keys(disks), pole_order)
        &&& self.poles@ == chosen_poles(
            disks,
            pole_order,
            config.max_poles as int,
            goal_area(total_area(shape.boxes@), config.pole_coverage_goal),
            pole_order.len() as int,
        )
        &&& are_pier_candidates(shape, runs)
        &&& is_selection(pier_keys(runs), pier_order)
        &&& exhausts(pier_keys(runs), pier_order)
        &&& self.piers@ == chosen_piers(
            runs,
            pier_order,
            config.n_ff_piers as int,
            pier_order.len() as int,
        )
    }

    /// Whether this is the surrogate that `config` asks for, for `shape`.
    ///
    /// - The candidates for the poles are the largest disks in the shape
    ///   about the middles of its rectangles. They are taken in turn, the
    ///   largest first, and of equal ones the one of the earlier rectangle
    ///   first; disks of a radius under 2 are left out. A candidate becomes a
    ///   pole unless there are `max_poles` poles already, or the poles count
    ///   for the share of the shape's area that `pole_coverage_goal` asks
    ///   already, or a pole chosen before holds its center.
    /// - The candidates for the piers are the longest stretches of cells of
    ///   the shape through the middles of its rectangles, along the row and
    ///   along the column. They are taken in turn, the longest first, until
    ///   there are `n_ff_piers` piers; a stretch is taken once.
    /// - The first `n_ff_poles` poles are the fail-fast poles.
    pub open spec fn is_surrogate_of(&self, shape: &Shape, config: SPSurrogateConfig) -> bool {
        &&& exists|
            disks: Seq<Circle>,
            pole_order: Seq<usize>,
            runs: Seq<AARectangle>,
            pier_order: Seq<usize>,
        | #[trigger]
            self.is_built_from(shape, config, disks, pole_order, runs, pier_order)
        &&& self.n_ff_poles == if config.n_ff_poles <= self.poles@.len() {
            config.n_ff_poles as int
        } else {
            self.poles@.len() as int
        }
        &&& self.covered_area == covered_area(self.poles@)
        &&& self.shape_area == total_area(shape.boxes@)
    }

    /// The grid point in the middle of the rectangle.
    fn middle_of(b: &AARectangle) -> (p: Point)
        requires
            b.wf(),
        ensures
            p == middle(*b),
            b@.contains((p.0 as int, p.1 as int)),
    {
        let w = b.width();
        let h = b.height();
        Point((b.x_min as i64 + w / 2) as i32, (b.y_min as i64 + h / 2) as i32)
    }

    /// The sum of the areas of the shape's rectangles.
    fn area_of(shape: &Shape) -> (total: u128)
        requires
            shape.wf(),
        ensures
            total == total_area(shape.boxes@),
            total <= 0xffff_ffff_ffff_ffff * 0xffff_fffe_0000_0001,
    {
        let mut total: u128 = 0;
        let mut i: usize = 0;
        while i < shape.boxes.len()
            invariant
                i <= shape.boxes@.len(),
                shape.wf(),
                total == total_area(shape.boxes@.take(i as int)),
                total <= i * 0xffff_fffe_0000_0001,
            decreases shape.boxes@.len() - i,
        {
            let w = shape.boxes[i].width() as u64;
            let h = shape.boxes[i].height() as u64;
            assert(0 < w * h <= 0xffff_ffff * 0xffff_ffff) by (nonlinear_arith)
                requires
                    0 < w <= 0xffff_ffff,
                    0 < h <= 0xffff_ffff,
            ;
            proof {
                assert(shape.boxes@.take(i + 1).drop_last() =~= shape.boxes@.take(i as int));
                assert(shape.boxes@.take(i + 1).last() == shape.boxes@[i as int]);
            }
            total = total + (w * h) as u128;
            i += 1;
        }
        proof {
            assert(shape.boxes@.take(shape.boxes@.len() as int) =~= shape.boxes@);
        }
        total
    }

    /// The area that the poles should cover.
    fn goal_of(total: u128, goal: u8) -> (r: u128)
        ensures
            r == goal_area(total as int, goal),
            r <= total,
    {
        if goal >= 100 {
            return total;
        }
        let g = goal as u128;
        let q = total / 100;
        let rem = total % 100;
        assert(g * q <= 99 * q && g * rem <= 99 * 99 && g * rem <= 99 * rem && g * total == 100 * (g * q)
            + g * rem) by (nonlinear_arith)
            requires
                0 <= g <= 99,
                0 <= q,
                0 <= rem <= 99,
                total == 100 * q + rem,
        ;
        g * q + g * rem / 100
    }

    /// The candidates for the poles of a shape.
    pub fn pole_candidates(shape: &Shape) -> (disks: Vec<Circle>)
        requires
            shape.wf(),
        ensures
            are_pole_candidates(shape, disks@),
    {
        let mut disks: Vec<Circle> = Vec::new();
        let mut k: usize = 0;
        while k < shape.boxes.len()
            invariant
                k <= shape.boxes@.len(),
                shape.wf(),
                disks@.len() == k,
                forall|m: int|
                    0 <= m < k ==> (#[trigger] disks@[m]).center == middle(shape.boxes@[m])
                        && is_largest_disk(shape@, disks@[m]) && disks@[m].radius <= 0x8000_0000,
            decreases shape.boxes@.len() - k,
        {
            let center = Self::middle_of(&shape.boxes[k]);
            disks.push(largest_disk(shape, center));
            k += 1;
        }
        disks
    }

    /// The candidates for the piers of a shape.
    pub fn pier_candidates(shape: &Shape) -> (runs: Vec<AARectangle>)
        requires
            shape.wf(),
        ensures
            are_pier_candidates(shape, runs@),
    {
        let ghost n = shape.boxes@.len() as int;
        let mut runs: Vec<AARectangle> = Vec::new();
        let mut k: usize = 0;
        while k < shape.boxes.len()
            invariant
                k <= shape.boxes@.len(),
                shape.wf(),
                runs@.len() == k,
                forall|m: int|
                    0 <= m < k ==> is_row_run(
                        shape@,
                        (middle(shape.boxes@[m]).0 as int, middle(shape.boxes@[m]).1 as int),
                        #[trigger] runs@[m],
                    ) && runs@[m].wf(),
            decreases shape.boxes@.len() - k,
        {
            let center = Self::middle_of(&shape.boxes[k]);
            proof {
                assert(shape.boxes@[k as int]@.contains((center.0 as int, center.1 as int)));
            }
            runs.push(row_run(shape, center.0, center.1));
            k += 1;
        }
        let mirrored = shape.transposed();
        proof {
            assert(mirror(mirrored@) =~= shape@);
        }
        let mut k: usize = 0;
        while k < shape.boxes.len()
            invariant
                k <= shape.boxes@.len(),
                n == shape.boxes@.len(),
                shape.wf(),
                mirrored.wf(),
                mirror(mirrored@) == shape@,
                runs@.len() == n + k,
                forall|m: int|
                    0 <= m < n ==> is_row_run(
                        shape@,
                        (middle(shape.boxes@[m]).0 as int, middle(shape.boxes@[m]).1 as int),
                        #[trigger] runs@[m],
                    ),
                forall|m: int|
                    n <= m < n + k ==> is_column_run(
                        shape@,
                        (middle(shape.boxes@[m - n]).0 as int, middle(shape.boxes@[m - n]).1 as int),
                        #[trigger] runs@[m],
                    ),
                forall|m: int| 0 <= m < runs@.len() ==> (#[trigger] runs@[m]).wf(),
            decreases shape.boxes@.len() - k,
        {
            let center = Self::middle_of(&shape.boxes[k]);
            proof {
                assert(shape.boxes@[k as int]@.contains((center.0 as int, center.1 as int)));
                assert(shape@.contains((center.0 as int, center.1 as int)));
            }
            runs.push(column_run(&mirrored, center.0, center.1));
            k += 1;
        }
        runs
    }

    /// The rank of each candidate disk.
    fn keys_of_poles(disks: &Vec<Circle>) -> (keys: Vec<u64>)
        ensures
            keys@ == pole_keys(disks@),
    {
        let mut keys: Vec<u64> = Vec::new();
        let mut k: usize = 0;
        while k < disks.len()
            invariant
                k <= disks@.len(),
                keys@ =~= pole_keys(disks@.take(k as int)),
            decreases disks@.len() - k,
        {
            let r = disks[k].radius;
            keys.push(if r >= 2 { r as u64 } else { 0 });
            k += 1;
        }
        proof {
            assert(disks@.take(disks@.len() as int) =~= disks@);
        }
        keys
    }

    /// The rank of each candidate run.
    fn keys_of_piers(runs: &Vec<AARectangle>) -> (keys: Vec<u64>)
        requires
            forall|k: int| 0 <= k < runs@.len() ==> (#[trigger] runs@[k]).wf(),
        ensures
            keys@ == pier_keys(runs@),
    {
        let mut keys: Vec<u64> = Vec::new();
        let mut k: usize = 0;
        while k < runs.len()
            invariant
                k <= runs@.len(),
                forall|m: int| 0 <= m < runs@.len() ==> (#[trigger] runs@[m]).wf(),
                keys@ =~= pier_keys(runs@.take(k as int)),
            decreases runs@.len() - k,
        {
            let w = runs[k].width();
            let h = runs[k].height();
            keys.push(if w >= h { w as u64 } else { h as u64 });
            k += 1;
        }
        proof {
            assert(runs@.take(runs@.len() as int) =~= runs@);
        }
        keys
    }

    /// Whether one of the poles holds the point.
    fn covers(poles: &Vec<Circle>, p: &Point) -> (r: bool)
        ensures
            r == covers_point(poles@, *p),
    {
        let mut i: usize = 0;
        while i < poles.len()
            invariant
                i <= poles@.len(),
                forall|m: int| 0 <= m < i ==> !(#[trigger] poles@[m]).holds_point(p.0 as int, p.1 as int),
            decreases poles@.len() - i,
        {
            if poles[i].contains_point(p) {
                return true;
            }
            i += 1;
        }
        false
    }

    /// Whether the rectangle is among the piers.
    fn has_pier(piers: &Vec<AARectangle>, run: &AARectangle) -> (r: bool)
        ensures
            r == piers@.contains(*run),
    {
        let mut i: usize = 0;
        while i < piers.len()
            invariant
                i <= piers@.len(),
                forall|m: int| 0 <= m < i ==> piers@[m] != *run,
            decreases piers@.len() - i,
        {
            if piers[i] == *run {
                return true;
            }
            i += 1;
        }
        false
    }

    /// Chooses the poles among the candidates, which are taken in the given
    /// order. Returns the poles and the area that they count for.
    pub fn choose_poles(disks: &Vec<Circle>, order: &Vec<usize>, max_poles: usize, goal: u128) -> (r: (
        Vec<Circle>,
        u128,
    ))
        requires
            forall|k: int| 0 <= k < order@.len() ==> (#[trigger] order@[k]) < disks@.len(),
            forall|k: int| 0 <= k < disks@.len() ==> (#[trigger] disks@[k]).radius <= 0x8000_0000,
            goal <= 0xffff_ffff_ffff_ffff * 0xffff_fffe_0000_0001,
        ensures
            r.0@ == chosen_poles(disks@, order@, max_poles as int, goal as int, order@.len() as int),
            r.1 == covered_area(r.0@),
    {
        let mut poles: Vec<Circle> = Vec::new();
        let mut covered: u128 = 0;
        let mut k: usize = 0;
        while k < order.len()
            invariant
                k <= order@.len(),
                forall|m: int| 0 <= m < order@.len() ==> (#[trigger] order@[m]) < disks@.len(),
                forall|m: int| 0 <= m < disks@.len() ==> (#[trigger] disks@[m]).radius <= 0x8000_0000,
                goal <= 0xffff_ffff_ffff_ffff * 0xffff_fffe_0000_0001,
                poles@ == chosen_poles(disks@, order@, max_poles as int, goal as int, k as int),
                covered == covered_area(poles@),
                covered <= goal + 3 * 0x8000_0000 * 0x8000_0000,
            decreases order@.len() - k,
        {
            let next = disks[order[k]];
            if poles.len() < max_poles && covered < goal && !Self::covers(&poles, &next.center) {
                let radius = next.radius as u128;
                assert(3 * radius * radius <= 3 * 0x8000_0000 * 0x8000_0000) by (nonlinear_arith)
                    requires
                        0 <= radius <= 0x8000_0000,
                ;
                let ghost before = poles@;
                poles.push(next);
                proof {
                    assert(poles@.drop_last() =~= before);
                }
                covered = covered + 3 * radius * radius;
            }
            k += 1;
        }
        (poles, covered)
    }

    /// Chooses the piers among the candidates, which are taken in the given
    /// order.
    pub fn choose_piers(runs: &Vec<AARectangle>, order: &Vec<usize>, n_piers: usize) -> (piers: Vec<
        AARectangle,
    >)
        requires
            forall|k: int| 0 <= k < order@.len() ==> (#[trigger] order@[k]) < runs@.len(),
        ensures
            piers@ == chosen_piers(runs@, order@, n_piers as int, order@.len() as int),
    {
        let mut piers: Vec<AARectangle> = Vec::new();
        let mut k: usize = 0;
        while k < order.len()
            invariant
                k <= order@.len(),
                forall|m: int| 0 <= m < order@.len() ==> (#[trigger] order@[m]) < runs@.len(),
                piers@ == chosen_piers(runs@, order@, n_piers as int, k as int),
            decreases order@.len() - k,
        {
            let next = runs[order[k]];
            if piers.len() < n_piers && !Self::has_pier(&piers, &next) {
                piers.push(next);
            }
            k += 1;
        }
        piers
    }

    /// Builds the surrogate of a shape.
    pub fn new(shape: &Shape, config: SPSurrogateConfig) -> (s: Surrogate)
        requires
            shape.wf(),
        ensures
            s.wf(),
            s.is_within(shape@),
            s.is_surrogate_of(shape, config),
            s.poles@.len() <= config.max_poles,
            s.piers@.len() <= config.n_ff_piers,
            forall|i: int| 0 <= i < s.poles@.len() ==> (#[trigger] s.poles@[i]).radius >= 2,
    {
        let total = Self::area_of(shape);
        let goal = Self::goal_of(total, config.pole_coverage_goal);

        let disks = Self::pole_candidates(shape);
        let pole_keys = Self::keys_of_poles(&disks);
        let pole_order = select_largest(&pole_keys, pole_keys.len());
        let (poles, covered) = Self::choose_poles(&disks, &pole_order, config.max_poles, goal);

        let runs = Self::pier_candidates(shape);
        let pier_keys = Self::keys_of_piers(&runs);
        let pier_order = select_largest(&pier_keys, pier_keys.len());
        let piers = Self::choose_piers(&runs, &pier_order, config.n_ff_piers);

        let n_ff_poles = if config.n_ff_poles <= poles.len() {
            config.n_ff_poles
        } else {
            poles.len()
        };
        let s = Surrogate { poles, piers, n_ff_poles, covered_area: covered, shape_area: total };
        proof {
            crate::util::select::lemma_full_selection(pole_keys@, pole_order@);
            crate::util::select::lemma_full_selection(pier_keys@, pier_order@);
            assert(s.is_built_from(shape, config, disks@, pole_order@, runs@, pier_order@));
            lemma_chosen_poles(
                disks@,
                pole_order@,
                config.max_poles as int,
                goal as int,
                pole_order@.len() as int,
            );
            lemma_chosen_piers(runs@, pier_order@, config.n_ff_piers as int, pier_order@.len() as int);
            assert forall|i: int| 0 <= i < s.poles@.len() implies (#[trigger] s.poles@[i])@.subset_of(
                shape@,
            ) && s.poles@[i].radius >= 2 by {
                let m = choose|m: int|
                    0 <= m < pole_order@.len() && s.poles@[i] == disks@[(#[trigger] pole_order@[m]) as int];
                assert(pole_keys@[pole_order@[m] as int] > 0);
            }
            assert forall|i: int| 0 <= i < s.piers@.len() implies (#[trigger] s.piers@[i])@.subset_of(
                shape@,
            ) && s.piers@[i].wf() by {
                let m = choose|m: int|
                    0 <= m < pier_order@.len() && s.piers@[i] == runs@[(#[trigger] pier_order@[m]) as int];
                let k = pier_order@[m] as int;
                assert(runs@[k].wf());
                if k < shape.boxes@.len() {
                    assert(is_row_run(
                        shape@,
                        (middle(shape.boxes@[k]).0 as int, middle(shape.boxes@[k]).1 as int),
                        runs@[k],
                    ));
                } else {
                    let n = shape.boxes@.len() as int;
                    assert(is_column_run(
                        shape@,
                        (middle(shape.boxes@[k - n]).0 as int, middle(shape.boxes@[k - n]).1 as int),
                        runs@[k],
                    ));
                }
            }
        }
        s
    }
}

} // verus!
