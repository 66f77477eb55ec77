use vstd::prelude::*;

verus! {

/// A unit square of the grid, named by its lower left corner:
/// cell `(i, j)` is the square `[i, i + 1] x [j, j + 1]`.
///
/// Every region of the plane that this library handles is a set of cells, so
/// its area is the number of its cells.
pub type Cell = (int, int);

/// Two regions overlap when they share a cell, that is, when their
/// intersection has positive area. Regions that only share boundary points
/// share no cell and do not overlap.
pub open spec fn overlap(a: Set<Cell>, b: Set<Cell>) -> bool {
    exists|c: Cell| #[trigger] a.contains(c) && b.contains(c)
}

/// The part of a region that lies in a window.
pub open spec fn clip(region: Set<Cell>, window: Set<Cell>) -> Set<Cell> {
    region.intersect(window)
}

/// Overlap is symmetric.
pub proof fn lemma_overlap_symmetric(a: Set<Cell>, b: Set<Cell>)
    ensures
        overlap(a, b) == overlap(b, a),
{
    if overlap(a, b) {
        let c = choose|c: Cell| #[trigger] a.contains(c) && b.contains(c);
        assert(b.contains(c) && a.contains(c));
    }
    if overlap(b, a) {
        let c = choose|c: Cell| #[trigger] b.contains(c) && a.contains(c);
        assert(a.contains(c) && b.contains(c));
    }
}

} // verus!
