use vstd::prelude::*;
use crate::collision_detection::hazard_filter::QZHazardFilter;
use crate::geometry::shape::Shape;
use crate::geometry::surrogate::Surrogate;
use crate::geometry::transformation::Rotation;
use crate::util::config::SPSurrogateConfig;

verus! {

/// A kind of item to be placed: its shape, in its own coordinates, with
/// the surrogate that stands in for the shape in fast queries.
///
/// The surrogate is built once, with the item, and serves every placement
/// of it.
#[derive(Debug)]
pub struct Item {
    pub id: usize,
    pub shape: Shape,
    pub surrogate: Surrogate,
    /// The rotations in which the item may be placed.
    pub allowed_rotations: Vec<Rotation>,
    /// The quality that the item asks of the zone it lies in, if any.
    pub base_quality: Option<usize>,
    pub value: u64,
    /// The zones that the item need not avoid: those of at least its base
    /// quality.
    pub hazard_filter: Option<QZHazardFilter>,
}

impl Item {
    /// An item is well formed when its shape is, its surrogate lies in the
    /// shape, and its filter is the one that goes with its base quality.
    pub open spec fn wf(&self) -> bool {
        &&& self.shape.wf()
        &&& self.surrogate.wf()
        &&& self.surrogate.is_within(self.shape@)
        &&& self.hazard_filter == Self::filter_for(self.base_quality)
    }

    /// The filter that goes with a base quality.
    pub open spec fn filter_for(base_quality: Option<usize>) -> Option<QZHazardFilter> {
        match base_quality {
            Some(q) => Some(QZHazardFilter { cutoff_quality: q }),
            None => None,
        }
    }

    pub fn new(
        id: usize,
        shape: Shape,
        allowed_rotations: Vec<Rotation>,
        base_quality: Option<usize>,
        value: u64,
        surrogate_config: SPSurrogateConfig,
    ) -> (item: Item)
        requires
            shape.wf(),
        ensures
            item.wf(),
            item.id == id,
            item.shape == shape,
            item.allowed_rotations == allowed_rotations,
            item.base_quality == base_quality,
            item.value == value,
            item.surrogate.is_surrogate_of(&shape, surrogate_config),
    {
        let surrogate = Surrogate::new(&shape, surrogate_config);
        let hazard_filter = match base_quality {
            Some(q) => Some(QZHazardFilter { cutoff_quality: q }),
            None => None,
        };
        Item { id, shape, surrogate, allowed_rotations, base_quality, value, hazard_filter }
    }

    /// Whether the item may be placed in this rotation.
    pub fn allows_rotation(&self, rotation: Rotation) -> (r: bool)
        ensures
            r == self.allowed_rotations@.contains(rotation),
    {
        let mut i: usize = 0;
        while i < self.allowed_rotations.len()
            invariant
                i <= self.allowed_rotations@.len(),
                forall|j: int| 0 <= j < i ==> self.allowed_rotations@[j] != rotation,
            decreases self.allowed_rotations@.len() - i,
        {
            if self.allowed_rotations[i] == rotation {
                return true;
            }
            i += 1;
        }
        false
    }
}

} // verus!
