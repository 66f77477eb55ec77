use vstd::prelude::*;
use crate::geometry::shape::Shape;

verus! {

/// Identity of a region in which nothing may be placed.
///
/// Two entities are equal when they are the same variant with the same ids;
/// the shape that an entity occupies plays no part in the comparison.
#[derive(Clone, Copy, Debug, PartialEq, Eq, Structural, Hash)]
pub enum HazardEntity {
    /// The footprint of one placed item, named by its placement id.
    PlacedItem(usize),
    /// Everything outside the bin.
    BinExterior,
    /// A hole in the bin.
    BinHole { id: usize },
    /// A zone of the bin whose quality is below the best.
    QualityZoneInferior { quality: usize, id: usize },
}

/// A region in which nothing may be placed: who occupies it, and where.
#[derive(Clone, Debug, PartialEq, Eq)]
pub struct Hazard {
    pub entity: HazardEntity,
    pub shape: Shape,
}

impl Hazard {
    pub open spec fn wf(&self) -> bool {
        self.shape.wf()
    }

    pub fn new(entity: HazardEntity, shape: Shape) -> (h: Hazard)
        ensures
            h.entity == entity,
            h.shape == shape,
    {
        Hazard { entity, shape }
    }
}

/// Whether `entity` occurs in the list.
pub fn contains_entity(entities: &Vec<HazardEntity>, entity: &HazardEntity) -> (r: bool)
    ensures
        r == entities@.contains(*entity),
{
    let mut i: usize = 0;
    while i < entities.len()
        invariant
            i <= entities@.len(),
            forall|j: int| 0 <= j < i ==> entities@[j] != *entity,
        decreases entities@.len() - i,
    {
        if entities[i] == *entity {
            return true;
        }
        i += 1;
    }
    false
}

} // verus!
