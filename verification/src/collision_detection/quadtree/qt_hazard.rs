use vstd::prelude::*;
use crate::collision_detection::hazard::HazardEntity;
use crate::collision_detection::quadtree::qt_traits::{collides_with_any, QTQueryable};
use crate::geometry::aa_rectangle::AARectangle;
use crate::geometry::cell::{overlap, Cell};
use crate::geometry::shape::region;

verus! {

/// What a node of the quadtree records of one hazard: the parts of the
/// hazard that lie in the node's box, and whether the hazard is known to
/// cover the whole box.
#[derive(Clone, Debug, PartialEq, Eq)]
pub struct QTHazard {
    pub entity: HazardEntity,
    pub parts: Vec<AARectangle>,
    pub entire: bool,
}

impl QTHazard {
    /// The cells of the hazard inside the node's box.
    pub open spec fn cells(&self) -> Set<Cell> {
        region(self.parts@)
    }

    /// The record fits a node with box `bbox`: it has at least one part,
    /// each part has positive area and lies in the box, and if the record
    /// says that the hazard covers the box, it does.
    pub open spec fn wf(&self, bbox: AARectangle) -> bool {
        &&& self.parts@.len() > 0
        &&& forall|k: int|
            0 <= k < self.parts@.len() ==> (#[trigger] self.parts@[k]).wf()
                && self.parts@[k]@.subset_of(bbox@)
        &&& self.entire ==> self.cells() == bbox@
    }

    /// Builds the record of `entity` for a node with box `bbox` from the
    /// parts of the hazard inside that box.
    pub fn new(entity: HazardEntity, parts: Vec<AARectangle>, bbox: &AARectangle) -> (r: QTHazard)
        requires
            parts@.len() > 0,
            forall|k: int|
                0 <= k < parts@.len() ==> (#[trigger] parts@[k]).wf() && parts@[k]@.subset_of(
                    bbox@,
                ),
        ensures
            r.wf(*bbox),
            r.entity == entity,
            r.parts == parts,
            r.entire == parts@.contains(*bbox),
    {
        let mut entire = false;
        let mut k: usize = 0;
        while k < parts.len()
            invariant
                k <= parts@.len(),
                entire == exists|j: int| 0 <= j < k && (#[trigger] parts@[j]) == *bbox,
            decreases parts@.len() - k,
        {
            if parts[k] == *bbox {
                entire = true;
            }
            k += 1;
        }
        proof {
            if parts@.contains(*bbox) {
                let j = choose|j: int| 0 <= j < parts@.len() && parts@[j] == *bbox;
                assert(parts@[j] == *bbox);
            }
            if entire {
                let j = choose|j: int| 0 <= j < parts@.len() && (#[trigger] parts@[j]) == *bbox;
                assert forall|c: Cell| region(parts@).contains(c) == bbox@.contains(c) by {
                    if bbox@.contains(c) {
                        assert(parts@[j]@.contains(c));
                    }
                    if region(parts@).contains(c) {
                        let i = choose|i: int| 0 <= i < parts@.len() && (#[trigger] parts@[i])@.contains(c);
                        assert(parts@[i]@.subset_of(bbox@));
                    }
                }
                assert(region(parts@) =~= bbox@);
            }
        }
        QTHazard { entity, parts, entire }
    }

    /// Whether `probe` shares a cell with the recorded parts.
    pub fn collides_with<P: QTQueryable>(&self, probe: &P) -> (r: bool)
        requires
            probe.valid(),
        ensures
            r == overlap(probe.cells(), self.cells()),
    {
        collides_with_any(probe, &self.parts)
    }
}

} // verus!
