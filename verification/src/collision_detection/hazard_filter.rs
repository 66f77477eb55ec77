use itertools::Itertools;
use vstd::prelude::*;
use crate::collision_detection::hazard::{contains_entity, Hazard, HazardEntity};

verus! {

/// A rule that marks some hazards as irrelevant for one query, so that the
/// query ignores them.
///
/// A filter never changes the index: the same index answers any number of
/// differently filtered queries.
pub trait HazardFilter {
    /// Whether the filter marks `entity` as irrelevant.
    spec fn irrelevant(&self, entity: HazardEntity) -> bool;

    fn is_irrelevant(&self, entity: &HazardEntity) -> (r: bool)
        ensures
            r == self.irrelevant(*entity),
    ;
}

/// What `get_irrelevant_hazard_entities` keeps of one hazard.
pub open spec fn irrelevant_entity<F: HazardFilter>(filter: &F, hazard: Hazard) -> Option<
    HazardEntity,
> {
    if filter.irrelevant(hazard.entity) {
        Some(hazard.entity)
    } else {
        None
    }
}

/// The entities of `hazards`, in order. The items are gathered by
/// `itertools::Itertools::collect_vec`, which collects an iterator into a
/// `Vec` and keeps the order of its items.
#[verifier::external_body]
fn collect_entities(hazards: &[Hazard]) -> (entities: Vec<HazardEntity>)
    ensures
        entities@ == hazards@.map_values(|h: Hazard| h.entity),
{
    hazards.iter().map(|h| h.entity).collect_vec()
}

/// The entities, among those of `hazards`, that `filter` marks as
/// irrelevant, in the order of `hazards`.
pub fn get_irrelevant_hazard_entities<F: HazardFilter>(filter: &F, hazards: &[Hazard]) -> (r: Vec<
    HazardEntity,
>)
    ensures
        r@ == hazards@.filter_map(|h: Hazard| irrelevant_entity(filter, h)),
{
    let entities = collect_entities(hazards);
    let ghost keep = |h: Hazard| irrelevant_entity(filter, h);
    let mut out: Vec<HazardEntity> = Vec::new();
    let mut i: usize = 0;
    while i < entities.len()
        invariant
            i <= entities@.len(),
            entities@ == hazards@.map_values(|h: Hazard| h.entity),
            keep == |h: Hazard| irrelevant_entity(filter, h),
            out@ == hazards@.take(i as int).filter_map(keep),
        decreases entities@.len() - i,
    {
        let entity = entities[i];
        proof {
            assert(hazards@.take(i + 1).drop_last() =~= hazards@.take(i as int));
            assert(hazards@.take(i + 1).last() == hazards@[i as int]);
            assert(entity == hazards@[i as int].entity);
        }
        if filter.is_irrelevant(&entity) {
            out.push(entity);
            proof {
                assert(out@ =~= hazards@.take(i as int).filter_map(keep) + seq![entity]);
            }
        }
        i += 1;
    }
    proof {
        assert(hazards@.take(hazards@.len() as int) =~= hazards@);
    }
    out
}

/// Marks nothing: every hazard stays relevant.
#[derive(Clone, Copy, Debug)]
pub struct NoHazardFilter;

impl HazardFilter for NoHazardFilter {
    open spec fn irrelevant(&self, entity: HazardEntity) -> bool {
        false
    }

    fn is_irrelevant(&self, entity: &HazardEntity) -> (r: bool) {
        false
    }
}

/// Marks every hazard that the bin itself brings: its exterior, its holes
/// and its quality zones. Only placed items stay relevant.
#[derive(Clone, Copy, Debug)]
pub struct BinHazardFilter;

/// Marks the quality zones whose quality is at least `cutoff_quality`.
#[derive(Clone, Copy, Debug)]
pub struct QZHazardFilter {
    pub cutoff_quality: usize,
}

/// Marks what any one of its filters marks.
pub struct CombinedHazardFilter<'a> {
    pub filters: Vec<Box<&'a dyn HazardFilter>>,
}

/// Marks the entities of a list.
#[derive(Debug)]
pub struct EntityHazardFilter {
    pub entities: Vec<HazardEntity>,
}

impl HazardFilter for BinHazardFilter {
    open spec fn irrelevant(&self, entity: HazardEntity) -> bool {
        !(entity is PlacedItem)
    }

    fn is_irrelevant(&self, entity: &HazardEntity) -> (r: bool) {
        match entity {
            HazardEntity::PlacedItem(_) => false,
            HazardEntity::BinExterior => true,
            HazardEntity::BinHole { .. } => true,
            HazardEntity::QualityZoneInferior { .. } => true,
        }
    }
}

impl<'a> HazardFilter for CombinedHazardFilter<'a> {
    open spec fn irrelevant(&self, entity: HazardEntity) -> bool {
        exists|i: int|
            0 <= i < self.filters@.len() && (#[trigger] self.filters@[i]).irrelevant(entity)
    }

    fn is_irrelevant(&self, entity: &HazardEntity) -> (r: bool) {
        let mut i: usize = 0;
        while i < self.filters.len()
            invariant
                i <= self.filters@.len(),
                forall|j: int| 0 <= j < i ==> !(#[trigger] self.filters@[j]).irrelevant(*entity),
            decreases self.filters@.len() - i,
        {
            if self.filters[i].is_irrelevant(entity) {
                return true;
            }
            i += 1;
        }
        false
    }
}

impl HazardFilter for EntityHazardFilter {
    open spec fn irrelevant(&self, entity: HazardEntity) -> bool {
        self.entities@.contains(entity)
    }

    fn is_irrelevant(&self, entity: &HazardEntity) -> (r: bool) {
        contains_entity(&self.entities, entity)
    }
}

impl HazardFilter for QZHazardFilter {
    open spec fn irrelevant(&self, entity: HazardEntity) -> bool {
        match entity {
            HazardEntity::QualityZoneInferior { quality, .. } => quality >= self.cutoff_quality,
            _ => false,
        }
    }

    fn is_irrelevant(&self, entity: &HazardEntity) -> (r: bool) {
        match entity {
            HazardEntity::QualityZoneInferior { quality, .. } => *quality >= self.cutoff_quality,
            _ => false,
        }
    }
}

impl EntityHazardFilter {
    /// The filter that marks nothing.
    pub fn new() -> (r: Self)
        ensures
            r.entities@ == Seq::<HazardEntity>::empty(),
            forall|e: HazardEntity| !r.irrelevant(e),
    {
        Self { entities: vec![] }
    }

    /// The filter that marks `entity` besides what this one marks.
    pub fn add(self, entity: HazardEntity) -> (r: Self)
        ensures
            r.entities@ == self.entities@.push(entity),
            forall|e: HazardEntity| r.irrelevant(e) == (self.irrelevant(e) || e == entity),
    {
        let ghost before = self.entities@;
        let mut filter = self;
        filter.entities.push(entity);
        proof {
            assert forall|e: HazardEntity|
                filter.entities@.contains(e) == (before.contains(e) || e == entity) by {
                if before.contains(e) {
                    let j = choose|j: int| 0 <= j < before.len() && before[j] == e;
                    assert(filter.entities@[j] == e);
                }
                if e == entity {
                    assert(filter.entities@[before.len() as int] == e);
                }
            }
        }
        filter
    }

    /// Whether the filter leaves `entity` relevant.
    pub fn is_relevant(&self, entity: &HazardEntity) -> (r: bool)
        ensures
            r == !self.irrelevant(*entity),
    {
        !self.is_irrelevant(entity)
    }

    pub fn entities(&self) -> (r: &Vec<HazardEntity>)
        ensures
            r@ == self.entities@,
    {
        &self.entities
    }

    pub fn drain(self) -> (r: Vec<HazardEntity>)
        ensures
            r@ == self.entities@,
    {
        self.entities
    }
}

} // verus!
