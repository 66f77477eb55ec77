use vstd::prelude::*;
use crate::collision_detection::haz_prox_grid::{grown, is_proximity, HazardProximityGrid};
use crate::collision_detection::hazard::{contains_entity, Hazard, HazardEntity};
use crate::collision_detection::hazard_filter::HazardFilter;
use crate::collision_detection::hazard_map::{
    as_map, clip_map, collides_in, distinct, hit, lemma_as_map_lookup, lemma_as_map_prepend,
    lemma_as_map_push, lemma_as_map_remove, lemma_clip_remove, occupied, registered, Entries,
    HazardMap,
};
use crate::collision_detection::quadtree::qt_node::QTNode;
use crate::collision_detection::quadtree::qt_traits::{collides_with_any, QTQueryable};
use crate::geometry::aa_rectangle::AARectangle;
use crate::geometry::cell::{overlap, Cell};
use crate::geometry::point::Point;
use crate::geometry::shape::Shape;
use crate::geometry::surrogate::Surrogate;
use crate::geometry::transformation::Transformation;
use crate::util::config::{CDEConfig, HazProxConfig};

verus! {

/// Why the engine refused to register or deregister a hazard.
#[derive(Clone, Copy, Debug, PartialEq, Eq, Structural)]
pub enum CDEError {
    /// A hazard with this entity is registered already.
    AlreadyRegistered(HazardEntity),
    /// No hazard with this entity is registered.
    NotRegistered(HazardEntity),
}

/// A list of hazards, as entities with their cells.
pub open spec fn hazard_entries(hazards: Seq<Hazard>) -> Entries {
    Seq::new(hazards.len(), |k: int| (hazards[k].entity, hazards[k].shape@))
}

/// The collision detection engine of one layout.
///
/// The engine holds every hazard of the layout, those that the bin brings
/// and those of the placed items, and a quadtree over the bin's bounding
/// box that indexes them. Its view maps each registered entity to the cells
/// that its hazard occupies.
///
/// If the configuration asks for it, the engine also keeps a grid of
/// proximities to the nearest hazard. The grid is a cache beside the index:
/// it is told of every hazard that is registered, grows stale when one is
/// deregistered, and is brought up to date on request.
pub struct CDEngine {
    quadtree: QTNode,
    hazards: Vec<Hazard>,
    haz_prox_grid: Option<HazardProximityGrid>,
    haz_prox_fresh: bool,
    config: CDEConfig,
}

impl View for CDEngine {
    type V = HazardMap;

    closed spec fn view(&self) -> HazardMap {
        as_map(hazard_entries(self.hazards@))
    }
}

impl CDEngine {
    /// The rectangle that the quadtree covers.
    pub closed spec fn bbox(&self) -> AARectangle {
        self.quadtree.bbox()
    }

    /// The invariant of the engine: no entity is registered twice, every
    /// registered shape is well formed, and the quadtree is well formed and
    /// records exactly what is seen of the registered hazards through its
    /// rectangle.
    pub closed spec fn wf(&self) -> bool {
        &&& self.quadtree.wf()
        &&& distinct(hazard_entries(self.hazards@))
        &&& forall|k: int| 0 <= k < self.hazards@.len() ==> (#[trigger] self.hazards@[k]).shape.wf()
        &&& self.quadtree@ == clip_map(self@, self.quadtree.bbox()@)
        &&& self.haz_prox_grid.is_some() == (self.config.haz_prox is Enabled)
        &&& match self.haz_prox_grid {
            Some(grid) => {
                &&& grid.wf()
                &&& grid.bbox() == self.quadtree.bbox()
                &&& occupied(self@).subset_of(grid@)
                &&& self.haz_prox_fresh ==> grid@ == occupied(self@)
            },
            None => true,
        }
    }

    /// Whether the grid of proximities knows of the registered hazards and
    /// of no others. It does not when there is no grid, or when a hazard was
    /// deregistered since the grid was last brought up to date.
    pub closed spec fn proximity_is_fresh(&self) -> bool {
        self.haz_prox_grid.is_some() && self.haz_prox_fresh
    }

    /// Whether the engine keeps a grid of proximities.
    pub open spec fn has_proximity_grid(&self) -> bool {
        self.config().haz_prox is Enabled
    }

    /// Whether `probe` shares a cell with a registered hazard that `filter`
    /// leaves relevant.
    pub open spec fn collides_spec<F: HazardFilter>(&self, probe: Set<Cell>, filter: &F) -> bool {
        collides_in(self@, probe, filter)
    }

    proof fn lemma_entry(&self, k: int)
        requires
            self.wf(),
            0 <= k < self.hazards@.len(),
        ensures
            self@.dom().contains(self.hazards@[k].entity),
            self@[self.hazards@[k].entity] == self.hazards@[k].shape@,
    {
        let entries = hazard_entries(self.hazards@);
        assert(entries[k].0 == self.hazards@[k].entity);
        lemma_as_map_lookup(entries, k);
    }

    proof fn lemma_dom(&self, e: HazardEntity) -> (k: int)
        requires
            self@.dom().contains(e),
        ensures
            0 <= k < self.hazards@.len(),
            self.hazards@[k].entity == e,
    {
        let entries = hazard_entries(self.hazards@);
        let k = choose|k: int| 0 <= k < entries.len() && (#[trigger] entries[k]).0 == e;
        k
    }

    /// Where the hazard of `entity` is stored, if it is registered.
    fn find(&self, entity: &HazardEntity) -> (r: Option<usize>)
        ensures
            r.is_some() == self@.dom().contains(*entity),
            r.is_some() ==> r.unwrap() < self.hazards@.len() && self.hazards@[r.unwrap() as int].entity
                == *entity,
    {
        let mut k: usize = 0;
        while k < self.hazards.len()
            invariant
                k <= self.hazards@.len(),
                forall|j: int| 0 <= j < k ==> (#[trigger] self.hazards@[j]).entity != *entity,
            decreases self.hazards@.len() - k,
        {
            if self.hazards[k].entity == *entity {
                proof {
                    assert(hazard_entries(self.hazards@)[k as int].0 == *entity);
                }
                return Some(k);
            }
            k += 1;
        }
        proof {
            if self@.dom().contains(*entity) {
                let j = self.lemma_dom(*entity);
                assert(self.hazards@[j].entity == *entity);
            }
        }
        None
    }

    /// An engine over `bbox` with no hazard registered.
    pub fn empty(bbox: AARectangle, config: CDEConfig) -> (cde: CDEngine)
        requires
            bbox.wf(),
        ensures
            cde.wf(),
            cde@ == Map::<HazardEntity, Set<Cell>>::empty(),
            cde.bbox() == bbox,
            cde.config() == config,
            cde.proximity_is_fresh() == cde.has_proximity_grid(),
    {
        let quadtree = QTNode::new(bbox, config.quadtree.depth());
        let haz_prox_grid = match config.haz_prox {
            HazProxConfig::Enabled { n_cells } => Some(HazardProximityGrid::new(bbox, n_cells)),
            HazProxConfig::Disabled => None,
        };
        let cde = CDEngine {
            quadtree,
            hazards: Vec::new(),
            haz_prox_grid,
            haz_prox_fresh: true,
            config,
        };
        proof {
            let nothing = Map::<HazardEntity, Set<Cell>>::empty();
            assert(cde@ =~= nothing);
            assert(clip_map(nothing, bbox@) =~= nothing);
            assert(occupied(nothing) =~= Set::<Cell>::empty());
        }
        cde
    }

    /// An engine over `bbox` in which the given hazards are registered.
    ///
    /// Fails exactly when two of the hazards have the same entity, and then
    /// names that entity.
    pub fn new(bbox: AARectangle, static_hazards: Vec<Hazard>, config: CDEConfig) -> (r: Result<
        CDEngine,
        CDEError,
    >)
        requires
            bbox.wf(),
            forall|k: int| 0 <= k < static_hazards@.len() ==> (#[trigger] static_hazards@[k]).shape.wf(),
        ensures
            r.is_ok() == distinct(hazard_entries(static_hazards@)),
            r.is_ok() ==> {
                &&& r->Ok_0.wf()
                &&& r->Ok_0@ == as_map(hazard_entries(static_hazards@))
                &&& r->Ok_0.bbox() == bbox
                &&& r->Ok_0.config() == config
                &&& r->Ok_0.proximity_is_fresh() == r->Ok_0.has_proximity_grid()
            },
            r.is_err() ==> exists|i: int, j: int|
                0 <= i < j < static_hazards@.len() && (#[trigger] static_hazards@[i]).entity == (
                #[trigger] static_hazards@[j]).entity && r->Err_0 == CDEError::AlreadyRegistered(
                    static_hazards@[i].entity,
                ),
    {
        let ghost all = static_hazards@;
        let mut rest = static_hazards;
        let mut cde = CDEngine::empty(bbox, config);
        proof {
            assert(hazard_entries(all.subrange(all.len() as int, all.len() as int)) =~= Seq::empty());
            assert(as_map(Seq::<(HazardEntity, Set<Cell>)>::empty()) =~= Map::<
                HazardEntity,
                Set<Cell>,
            >::empty());
        }
        while rest.len() > 0
            invariant
                all == static_hazards@,
                rest@.len() <= all.len(),
                rest@ == all.take(rest@.len() as int),
                forall|k: int| 0 <= k < all.len() ==> (#[trigger] all[k]).shape.wf(),
                cde.wf(),
                cde.bbox() == bbox,
                cde.config() == config,
                cde.proximity_is_fresh() == cde.has_proximity_grid(),
                distinct(hazard_entries(all.subrange(rest@.len() as int, all.len() as int))),
                cde@ == as_map(hazard_entries(all.subrange(rest@.len() as int, all.len() as int))),
            decreases rest@.len(),
        {
            let ghost m = rest@.len() as int;
            let ghost done = hazard_entries(all.subrange(m, all.len() as int));
            let hazard = rest.pop().unwrap();
            proof {
                assert(hazard == all[m - 1]);
                assert(rest@ =~= all.take(m - 1));
                assert(hazard_entries(all.subrange(m - 1, all.len() as int)) =~= seq![
                    (hazard.entity, hazard.shape@),
                ] + done);
                if cde@.dom().contains(hazard.entity) {
                    let k = choose|k: int| 0 <= k < done.len() && (#[trigger] done[k]).0 == hazard.entity;
                    assert(all[m + k].entity == hazard.entity);
                } else {
                    lemma_as_map_prepend(done, hazard.entity, hazard.shape@);
                }
            }
            match cde.register_hazard(hazard) {
                Ok(_) => {},
                Err(e) => {
                    proof {
                        let entries = hazard_entries(all);
                        let k = choose|k: int| 0 <= k < done.len() && (#[trigger] done[k]).0 == hazard.entity;
                        assert(all[m - 1].entity == all[m + k].entity);
                        assert(entries[m - 1].0 == entries[m + k].0);
                    }
                    return Err(e);
                },
            }
        }
        proof {
            assert(all.subrange(0, all.len() as int) =~= all);
        }
        Ok(cde)
    }

    /// The configuration that the engine was built with.
    pub closed spec fn config(&self) -> CDEConfig {
        self.config
    }

    /// Whether a hazard with this entity is registered.
    pub fn is_registered(&self, entity: &HazardEntity) -> (r: bool)
        ensures
            r == self@.dom().contains(*entity),
    {
        self.find(entity).is_some()
    }

    /// Registers a hazard.
    ///
    /// Fails, and leaves the engine as it was, exactly when a hazard with the
    /// same entity is registered already.
    pub fn register_hazard(&mut self, hazard: Hazard) -> (r: Result<(), CDEError>)
        requires
            old(self).wf(),
            hazard.shape.wf(),
        ensures
            final(self).wf(),
            final(self).bbox() == old(self).bbox(),
            final(self).config() == old(self).config(),
            final(self).proximity_is_fresh() == old(self).proximity_is_fresh(),
            r.is_err() == old(self)@.dom().contains(hazard.entity),
            r.is_err() ==> r == Err::<(), CDEError>(CDEError::AlreadyRegistered(hazard.entity))
                && final(self)@ == old(self)@,
            r.is_ok() ==> final(self)@ == old(self)@.insert(hazard.entity, hazard.shape@),
    {
        if self.is_registered(&hazard.entity) {
            return Err(CDEError::AlreadyRegistered(hazard.entity));
        }
        let ghost before = *self;
        proof {
            assert(!self.quadtree@.dom().contains(hazard.entity));
            lemma_as_map_push(hazard_entries(self.hazards@), hazard.entity, hazard.shape@);
            lemma_occupied_insert(before@, hazard.entity, hazard.shape@);
        }
        self.quadtree.register_hazard(hazard.entity, &hazard.shape);
        match &mut self.haz_prox_grid {
            Some(grid) => {
                grid.register(&hazard.shape);
            },
            None => {},
        }
        self.hazards.push(hazard);
        proof {
            assert(hazard_entries(self.hazards@) =~= hazard_entries(before.hazards@).push(
                (hazard.entity, hazard.shape@),
            ));
            assert(clip_map(self@, self.quadtree.bbox()@) =~~= registered(
                clip_map(before@, self.quadtree.bbox()@),
                hazard.entity,
                hazard.shape@,
                self.quadtree.bbox()@,
            ));
        }
        Ok(())
    }

    /// Deregisters the hazard of `entity` and returns it.
    ///
    /// Fails, and leaves the engine as it was, exactly when no hazard with
    /// this entity is registered.
    pub fn deregister_hazard(&mut self, entity: HazardEntity) -> (r: Result<Hazard, CDEError>)
        requires
            old(self).wf(),
        ensures
            final(self).wf(),
            final(self).bbox() == old(self).bbox(),
            final(self).config() == old(self).config(),
            r.is_err() == !old(self)@.dom().contains(entity),
            r.is_err() ==> r.unwrap_err() == CDEError::NotRegistered(entity) && final(self)@ == old(
                self,
            )@ && final(self).proximity_is_fresh() == old(self).proximity_is_fresh(),
            r.is_ok() ==> !final(self).proximity_is_fresh(),
            r.is_ok() ==> {
                &&& final(self)@ == old(self)@.remove(entity)
                &&& r.unwrap().entity == entity
                &&& r.unwrap().shape.wf()
                &&& r.unwrap().shape@ == old(self)@[entity]
            },
    {
        let ghost before = *self;
        match self.find(&entity) {
            None => Err(CDEError::NotRegistered(entity)),
            Some(k) => {
                proof {
                    self.lemma_entry(k as int);
                    lemma_as_map_remove(hazard_entries(self.hazards@), k as int);
                    lemma_clip_remove(before@, entity, self.quadtree.bbox()@);
                }
                self.quadtree.deregister_hazard(entity);
                let hazard = self.hazards.remove(k);
                self.haz_prox_fresh = false;
                proof {
                    assert(hazard_entries(self.hazards@) =~= hazard_entries(before.hazards@).remove(
                        k as int,
                    ));
                    lemma_occupied_remove(before@, entity);
                }
                Ok(hazard)
            },
        }
    }

    /// Registers the footprint of a placed item under its placement id.
    ///
    /// Fails, and leaves the engine as it was, exactly when the id is
    /// registered already.
    pub fn insert_placed_item(&mut self, id: usize, shape: Shape) -> (r: Result<(), CDEError>)
        requires
            old(self).wf(),
            shape.wf(),
        ensures
            final(self).wf(),
            final(self).bbox() == old(self).bbox(),
            final(self).config() == old(self).config(),
            r.is_err() == old(self)@.dom().contains(HazardEntity::PlacedItem(id)),
            r.is_err() ==> r == Err::<(), CDEError>(
                CDEError::AlreadyRegistered(HazardEntity::PlacedItem(id)),
            ) && final(self)@ == old(self)@,
            r.is_ok() ==> final(self)@ == with_placed_item(old(self)@, id, shape@),
            final(self).proximity_is_fresh() == old(self).proximity_is_fresh(),
    {
        self.register_hazard(Hazard { entity: HazardEntity::PlacedItem(id), shape })
    }

    /// Deregisters the footprint of the placed item with this placement id.
    ///
    /// Fails, and leaves the engine as it was, exactly when the id is not
    /// registered.
    pub fn remove_placed_item(&mut self, id: usize) -> (r: Result<(), CDEError>)
        requires
            old(self).wf(),
        ensures
            final(self).wf(),
            final(self).bbox() == old(self).bbox(),
            final(self).config() == old(self).config(),
            r.is_err() == !old(self)@.dom().contains(HazardEntity::PlacedItem(id)),
            r.is_err() ==> r == Err::<(), CDEError>(
                CDEError::NotRegistered(HazardEntity::PlacedItem(id)),
            ) && final(self)@ == old(self)@,
            r.is_ok() ==> final(self)@ == without_placed_item(old(self)@, id),
            r.is_ok() ==> !final(self).proximity_is_fresh(),
            r.is_err() ==> final(self).proximity_is_fresh() == old(self).proximity_is_fresh(),
    {
        match self.deregister_hazard(HazardEntity::PlacedItem(id)) {
            Ok(_) => Ok(()),
            Err(e) => Err(e),
        }
    }

    /// The test against every registered hazard in turn, without the index.
    fn collides_unindexed<P: QTQueryable, F: HazardFilter>(&self, probe: &P, filter: &F) -> (r: bool)
        requires
            self.wf(),
            probe.valid(),
        ensures
            r == self.collides_spec(probe.cells(), filter),
    {
        let mut k: usize = 0;
        while k < self.hazards.len()
            invariant
                k <= self.hazards@.len(),
                self.wf(),
                probe.valid(),
                forall|j: int|
                    0 <= j < k ==> filter.irrelevant((#[trigger] self.hazards@[j]).entity)
                        || !overlap(probe.cells(), self.hazards@[j].shape@),
            decreases self.hazards@.len() - k,
        {
            if !filter.is_irrelevant(&self.hazards[k].entity) {
                if collides_with_any(probe, &self.hazards[k].shape.boxes) {
                    proof {
                        self.lemma_entry(k as int);
                    }
                    return true;
                }
            }
            k += 1;
        }
        proof {
            if collides_in(self@, probe.cells(), filter) {
                let e = choose|e: HazardEntity|
                    #[trigger] self@.dom().contains(e) && !filter.irrelevant(e) && overlap(
                        probe.cells(),
                        self@[e],
                    );
                let j = self.lemma_dom(e);
                self.lemma_entry(j);
            }
        }
        false
    }

    /// Whether `probe` shares a cell with a registered hazard that `filter`
    /// leaves relevant.
    ///
    /// A probe that lies in the quadtree's rectangle is answered by the
    /// quadtree, any other by a test against each hazard in turn.
    pub fn collides<P: QTQueryable, F: HazardFilter>(&self, probe: &P, filter: &F) -> (r: bool)
        requires
            self.wf(),
            probe.valid(),
        ensures
            r == self.collides_spec(probe.cells(), filter),
    {
        if probe.lies_within(&self.quadtree.bounding_box()) {
            proof {
                lemma_collides_within(self@, probe.cells(), filter, self.quadtree.bbox()@);
            }
            self.quadtree.collides(probe, filter)
        } else {
            self.collides_unindexed(probe, filter)
        }
    }

    /// The exact query: whether the intersection of `shape` with a
    /// registered hazard that `filter` leaves relevant has positive area.
    /// Shapes that only touch a hazard along edges or at corners do not
    /// collide with it.
    pub fn shape_collides<F: HazardFilter>(&self, shape: &Shape, filter: &F) -> (r: bool)
        requires
            self.wf(),
            shape.wf(),
        ensures
            r == self.collides_spec(shape@, filter),
    {
        self.collides(shape, filter)
    }

    /// Whether a pier or a pole of `surrogate`, moved by `t`, shares a cell
    /// with a registered hazard that `filter` leaves relevant. A pier or pole
    /// that `t` would move off the grid takes no part.
    pub open spec fn surrogate_collides_spec<F: HazardFilter>(
        &self,
        surrogate: &Surrogate,
        t: &Transformation,
        filter: &F,
    ) -> bool {
        ||| exists|i: int|
            0 <= i < surrogate.piers@.len() && t.fits_rect(#[trigger] surrogate.piers@[i])
                && collides_in(self@, t.image(surrogate.piers@[i]@), filter)
        ||| exists|i: int|
            0 <= i < surrogate.poles@.len() && t.fits_point((#[trigger] surrogate.poles@[i]).center)
                && collides_in(self@, t.image(surrogate.poles@[i]@), filter)
    }

    /// The fast query: whether the surrogate of an item, moved by
    /// `transform`, collides. The piers are tested first, then the poles,
    /// the largest first, and the first collision ends the query.
    ///
    /// An answer of `true` is certain for any shape that holds the
    /// surrogate. An answer of `false` says nothing about the shape.
    pub fn surrogate_collides<F: HazardFilter>(
        &self,
        surrogate: &Surrogate,
        transform: &Transformation,
        filter: &F,
    ) -> (r: bool)
        requires
            self.wf(),
            surrogate.wf(),
        ensures
            r == self.surrogate_collides_spec(surrogate, transform, filter),
    {
        let mut i: usize = 0;
        while i < surrogate.piers.len()
            invariant
                i <= surrogate.piers@.len(),
                self.wf(),
                surrogate.wf(),
                forall|j: int|
                    0 <= j < i ==> !(transform.fits_rect(#[trigger] surrogate.piers@[j])
                        && collides_in(self@, transform.image(surrogate.piers@[j]@), filter)),
            decreases surrogate.piers@.len() - i,
        {
            match transform.transform_rect(&surrogate.piers[i]) {
                Some(pier) => {
                    if self.collides(&pier, filter) {
                        return true;
                    }
                },
                None => {},
            }
            i += 1;
        }
        let mut k: usize = 0;
        while k < surrogate.poles.len()
            invariant
                k <= surrogate.poles@.len(),
                self.wf(),
                forall|j: int|
                    0 <= j < surrogate.piers@.len() ==> !(transform.fits_rect(
                        #[trigger] surrogate.piers@[j],
                    ) && collides_in(self@, transform.image(surrogate.piers@[j]@), filter)),
                forall|j: int|
                    0 <= j < k ==> !(transform.fits_point((#[trigger] surrogate.poles@[j]).center)
                        && collides_in(self@, transform.image(surrogate.poles@[j]@), filter)),
            decreases surrogate.poles@.len() - k,
        {
            match surrogate.poles[k].transform(transform) {
                Some(pole) => {
                    if self.collides(&pole, filter) {
                        return true;
                    }
                },
                None => {},
            }
            k += 1;
        }
        false
    }

    /// Every registered hazard that `filter` leaves relevant and that shares
    /// a cell with `shape`, each of them once.
    pub fn hazards_within<F: HazardFilter>(&self, shape: &Shape, filter: &F) -> (r: Vec<
        HazardEntity,
    >)
        requires
            self.wf(),
            shape.wf(),
        ensures
            r@.no_duplicates(),
            forall|e: HazardEntity| r@.contains(e) == hit(self@, shape@, filter, e),
    {
        let mut out: Vec<HazardEntity> = Vec::new();
        if shape.lies_within(&self.quadtree.bounding_box()) {
            proof {
                assert forall|e: HazardEntity|
                    hit(self.quadtree@, shape@, filter, e) == hit(self@, shape@, filter, e) by {
                    lemma_hit_within(self@, shape@, filter, self.quadtree.bbox()@, e);
                }
            }
            self.quadtree.collect_collisions(shape, filter, &mut out);
            return out;
        }
        let mut k: usize = 0;
        while k < self.hazards.len()
            invariant
                k <= self.hazards@.len(),
                self.wf(),
                shape.wf(),
                out@.no_duplicates(),
                forall|e: HazardEntity| out@.contains(e) ==> hit(self@, shape@, filter, e),
                forall|j: int|
                    0 <= j < k && hit(self@, shape@, filter, (#[trigger] self.hazards@[j]).entity)
                        ==> out@.contains(self.hazards@[j].entity),
            decreases self.hazards@.len() - k,
        {
            let hazard = &self.hazards[k];
            proof {
                self.lemma_entry(k as int);
            }
            if !filter.is_irrelevant(&hazard.entity) && !contains_entity(&out, &hazard.entity) {
                if shape.collides_with(&hazard.shape) {
                    let ghost before = out@;
                    out.push(hazard.entity);
                    proof {
                        assert forall|e: HazardEntity|
                            out@.contains(e) == (before.contains(e) || e == hazard.entity) by {
                            if before.contains(e) {
                                let j = choose|j: int| 0 <= j < before.len() && before[j] == e;
                                assert(out@[j] == e);
                            }
                            if e == hazard.entity {
                                assert(out@[before.len() as int] == e);
                            }
                        }
                        assert forall|e: HazardEntity| out@.contains(e) implies hit(
                            self@,
                            shape@,
                            filter,
                            e,
                        ) by {
                            if e != hazard.entity {
                                assert(before.contains(e));
                            }
                        }
                    }
                }
            }
            k += 1;
        }
        proof {
            assert forall|e: HazardEntity| hit(self@, shape@, filter, e) implies out@.contains(
                e,
            ) by {
                let j = self.lemma_dom(e);
                assert(self.hazards@[j].entity == e);
            }
        }
        out
    }

    /// Brings the grid of proximities up to date: the grid forgets what it
    /// knew and is told of every registered hazard anew. Does nothing when the
    /// engine keeps no grid.
    pub fn flush_haz_prox_grid(&mut self)
        requires
            old(self).wf(),
        ensures
            final(self).wf(),
            final(self)@ == old(self)@,
            final(self).bbox() == old(self).bbox(),
            final(self).config() == old(self).config(),
            final(self).proximity_is_fresh() == final(self).has_proximity_grid(),
    {
        let ghost before = *self;
        match &mut self.haz_prox_grid {
            None => {},
            Some(grid) => {
                grid.reset();
                proof {
                    assert(hazard_entries(before.hazards@.take(0)) =~= Seq::empty());
                    assert(as_map(hazard_entries(before.hazards@.take(0))) =~= Map::<
                        HazardEntity,
                        Set<Cell>,
                    >::empty());
                    assert(occupied(Map::<HazardEntity, Set<Cell>>::empty()) =~= Set::<Cell>::empty());
                }
                let mut k: usize = 0;
                while k < self.hazards.len()
                    invariant
                        k <= self.hazards@.len(),
                        before.wf(),
                        self.hazards == before.hazards,
                        grid.wf(),
                        grid.bbox() == before.quadtree.bbox(),
                        grid@ == occupied(as_map(hazard_entries(before.hazards@.take(k as int)))),
                    decreases self.hazards@.len() - k,
                {
                    proof {
                        lemma_entries_take(before.hazards@, k as int);
                        lemma_occupied_insert(
                            as_map(hazard_entries(before.hazards@.take(k as int))),
                            before.hazards@[k as int].entity,
                            before.hazards@[k as int].shape@,
                        );
                    }
                    grid.register(&self.hazards[k].shape);
                    k += 1;
                }
                proof {
                    assert(before.hazards@.take(before.hazards@.len() as int) =~= before.hazards@);
                }
            },
        }
        self.haz_prox_fresh = true;
    }

    /// The cell of the proximity grid in which the point lies, with its
    /// proximity to the nearest hazard; or `None` when the engine keeps no
    /// grid or the point lies outside the engine's rectangle.
    ///
    /// A proximity of `n` says that the cell can be widened by `n - 1` on
    /// every side without reaching a registered hazard. If the grid is
    /// fresh, the cell cannot be widened by `n` without reaching one, unless
    /// `n` is the greatest value of its type.
    pub fn proximity(&self, p: &Point) -> (r: Option<(AARectangle, u64)>)
        requires
            self.wf(),
        ensures
            r.is_some() == (self.has_proximity_grid() && self.bbox()@.contains(
                (p.0 as int, p.1 as int),
            )),
            r.is_some() ==> {
                let (rect, n) = r.unwrap();
                &&& rect.wf()
                &&& rect@.contains((p.0 as int, p.1 as int))
                &&& rect@.subset_of(self.bbox()@)
                &&& n > 0 ==> !overlap(grown(rect, n - 1), occupied(self@))
                &&& self.proximity_is_fresh() ==> is_proximity(rect, n, occupied(self@))
            },
    {
        match &self.haz_prox_grid {
            None => None,
            Some(grid) => {
                let r = grid.proximity_at(p);
                proof {
                    if r.is_some() {
                        let (rect, n) = r.unwrap();
                        if n > 0 && overlap(grown(rect, n - 1), occupied(self@)) {
                            let c = choose|c: Cell| #[trigger]
                                grown(rect, n - 1).contains(c) && occupied(self@).contains(c);
                            assert(grown(rect, n - 1).contains(c) && grid@.contains(c));
                        }
                    }
                }
                r
            },
        }
    }

    /// The rectangle that the quadtree covers.
    pub fn bounding_box(&self) -> (b: AARectangle)
        ensures
            b == self.bbox(),
    {
        self.quadtree.bounding_box()
    }

    /// The configuration that the engine was built with.
    pub fn get_config(&self) -> (c: CDEConfig)
        ensures
            c == self.config(),
    {
        self.config
    }

    /// The registered hazards, in no particular order.
    pub fn all_hazards(&self) -> (r: &Vec<Hazard>)
        requires
            self.wf(),
        ensures
            as_map(hazard_entries(r@)) == self@,
            distinct(hazard_entries(r@)),
            forall|k: int| 0 <= k < r@.len() ==> (#[trigger] r@[k]).shape.wf(),
    {
        &self.hazards
    }

    /// The quadtree, for reading.
    pub fn quadtree(&self) -> (r: &QTNode)
        requires
            self.wf(),
        ensures
            r.wf(),
            r.bbox() == self.bbox(),
            r@ == clip_map(self@, self.bbox()@),
    {
        &self.quadtree
    }
}

/// The hazards after the footprint of a placed item was registered.
pub open spec fn with_placed_item(hazards: HazardMap, id: usize, cells: Set<Cell>) -> HazardMap {
    hazards.insert(HazardEntity::PlacedItem(id), cells)
}

/// The hazards after the footprint of a placed item was deregistered.
pub open spec fn without_placed_item(hazards: HazardMap, id: usize) -> HazardMap {
    hazards.remove(HazardEntity::PlacedItem(id))
}

/// A newly registered hazard adds its cells to the occupied cells.
pub proof fn lemma_occupied_insert(hazards: HazardMap, entity: HazardEntity, cells: Set<Cell>)
    requires
        !hazards.dom().contains(entity),
    ensures
        occupied(hazards.insert(entity, cells)) == occupied(hazards).union(cells),
{
    let after = hazards.insert(entity, cells);
    assert forall|c: Cell| occupied(after).contains(c) == occupied(hazards).union(cells).contains(
        c,
    ) by {
        if occupied(after).contains(c) {
            let e = choose|e: HazardEntity| #[trigger] after.dom().contains(e) && after[e].contains(c);
            if e != entity {
                assert(hazards.dom().contains(e) && hazards[e].contains(c));
            }
        }
        if occupied(hazards).contains(c) {
            let e = choose|e: HazardEntity| #[trigger]
                hazards.dom().contains(e) && hazards[e].contains(c);
            assert(after.dom().contains(e) && after[e].contains(c));
        }
        if cells.contains(c) {
            assert(after.dom().contains(entity) && after[entity].contains(c));
        }
    }
    assert(occupied(after) =~= occupied(hazards).union(cells));
}

/// Deregistering a hazard adds nothing to the occupied cells.
pub proof fn lemma_occupied_remove(hazards: HazardMap, entity: HazardEntity)
    ensures
        occupied(hazards.remove(entity)).subset_of(occupied(hazards)),
{
    let after = hazards.remove(entity);
    assert forall|c: Cell| occupied(after).contains(c) implies occupied(hazards).contains(c) by {
        let e = choose|e: HazardEntity| #[trigger] after.dom().contains(e) && after[e].contains(c);
        assert(hazards.dom().contains(e) && hazards[e].contains(c));
    }
}

/// The first `k + 1` hazards of a list without repetition are the first
/// `k`, and one more that is not among them.
pub proof fn lemma_entries_take(hazards: Seq<Hazard>, k: int)
    requires
        distinct(hazard_entries(hazards)),
        0 <= k < hazards.len(),
    ensures
        !as_map(hazard_entries(hazards.take(k))).dom().contains(hazards[k].entity),
        as_map(hazard_entries(hazards.take(k + 1))) == as_map(hazard_entries(hazards.take(k))).insert(
            hazards[k].entity,
            hazards[k].shape@,
        ),
{
    let all = hazard_entries(hazards);
    let first = hazard_entries(hazards.take(k));
    assert forall|i: int, j: int| 0 <= i < j < first.len() implies (#[trigger] first[i]).0 != (
    #[trigger] first[j]).0 by {
        assert(first[i] == all[i] && first[j] == all[j]);
    }
    if as_map(first).dom().contains(hazards[k].entity) {
        let i = choose|i: int| 0 <= i < first.len() && (#[trigger] first[i]).0 == hazards[k].entity;
        assert(first[i] == all[i]);
        assert(all[i].0 != all[k].0);
    }
    lemma_as_map_push(first, hazards[k].entity, hazards[k].shape@);
    assert(hazard_entries(hazards.take(k + 1)) =~= first.push((hazards[k].entity, hazards[k].shape@)));
}

/// The hazards that `filter` leaves relevant.
pub open spec fn relevant<F: HazardFilter>(hazards: HazardMap, filter: &F) -> HazardMap {
    hazards.restrict(Set::new(|e: HazardEntity| !filter.irrelevant(e)))
}

/// A probe collides exactly when it shares a cell with the union of the
/// hazards that the filter leaves relevant, that is, when its intersection
/// with that union has positive area.
pub proof fn lemma_collides_iff_overlaps_union<F: HazardFilter>(
    hazards: HazardMap,
    probe: Set<Cell>,
    filter: &F,
)
    ensures
        collides_in(hazards, probe, filter) == overlap(probe, occupied(relevant(hazards, filter))),
{
    let kept = relevant(hazards, filter);
    if collides_in(hazards, probe, filter) {
        let e = choose|e: HazardEntity|
            #[trigger] hazards.dom().contains(e) && !filter.irrelevant(e) && overlap(
                probe,
                hazards[e],
            );
        let c = choose|c: Cell| #[trigger] probe.contains(c) && hazards[e].contains(c);
        assert(kept.dom().contains(e) && kept[e].contains(c));
        assert(probe.contains(c) && occupied(kept).contains(c));
    }
    if overlap(probe, occupied(kept)) {
        let c = choose|c: Cell| #[trigger] probe.contains(c) && occupied(kept).contains(c);
        let e = choose|e: HazardEntity| #[trigger] kept.dom().contains(e) && kept[e].contains(c);
        assert(probe.contains(c) && hazards[e].contains(c));
        assert(hazards.dom().contains(e));
    }
}

/// Under a filter that marks nothing, a probe collides exactly when its
/// intersection with the union of all registered hazards has positive area.
pub proof fn lemma_unfiltered_query_exact<F: HazardFilter>(
    hazards: HazardMap,
    probe: Set<Cell>,
    filter: &F,
)
    requires
        forall|e: HazardEntity| !filter.irrelevant(e),
    ensures
        collides_in(hazards, probe, filter) == overlap(probe, occupied(hazards)),
{
    lemma_collides_iff_overlaps_union(hazards, probe, filter);
    assert(relevant(hazards, filter) =~= hazards);
}

/// A collision of the surrogate is a collision of every shape that holds
/// the surrogate: the fast query never reports a collision that the exact
/// query would not report. The converse does not hold.
pub proof fn lemma_surrogate_one_sided<F: HazardFilter>(
    cde: &CDEngine,
    surrogate: &Surrogate,
    shape: Set<Cell>,
    t: &Transformation,
    filter: &F,
)
    requires
        surrogate.is_within(shape),
    ensures
        cde.surrogate_collides_spec(surrogate, t, filter) ==> cde.collides_spec(
            t.image(shape),
            filter,
        ),
{
    if cde.surrogate_collides_spec(surrogate, t, filter) {
        let part: Set<Cell> = if exists|i: int|
            0 <= i < surrogate.piers@.len() && t.fits_rect(#[trigger] surrogate.piers@[i])
                && collides_in(cde@, t.image(surrogate.piers@[i]@), filter) {
            let i = choose|i: int|
                0 <= i < surrogate.piers@.len() && t.fits_rect(#[trigger] surrogate.piers@[i])
                    && collides_in(cde@, t.image(surrogate.piers@[i]@), filter);
            surrogate.piers@[i]@
        } else {
            let i = choose|i: int|
                0 <= i < surrogate.poles@.len() && t.fits_point(
                    (#[trigger] surrogate.poles@[i]).center,
                ) && collides_in(cde@, t.image(surrogate.poles@[i]@), filter);
            surrogate.poles@[i]@
        };
        assert(part.subset_of(shape));
        assert(collides_in(cde@, t.image(part), filter));
        t.lemma_image_monotone(part, shape);
        lemma_collides_monotone(cde@, t.image(part), t.image(shape), filter);
    }
}

/// What collides with a part of a probe collides with the probe.
pub proof fn lemma_collides_monotone<F: HazardFilter>(
    hazards: HazardMap,
    part: Set<Cell>,
    probe: Set<Cell>,
    filter: &F,
)
    requires
        part.subset_of(probe),
        collides_in(hazards, part, filter),
    ensures
        collides_in(hazards, probe, filter),
{
    let e = choose|e: HazardEntity|
        #[trigger] hazards.dom().contains(e) && !filter.irrelevant(e) && overlap(part, hazards[e]);
    let c = choose|c: Cell| #[trigger] part.contains(c) && hazards[e].contains(c);
    assert(probe.contains(c) && hazards[e].contains(c));
}

/// Registering the footprint of a placed item and deregistering it again
/// leaves the hazards as they were, so that every query, for every probe
/// and filter, is answered as before.
pub proof fn lemma_insert_remove_inverse<F: HazardFilter>(
    hazards: HazardMap,
    id: usize,
    cells: Set<Cell>,
    probe: Set<Cell>,
    filter: &F,
)
    requires
        !hazards.dom().contains(HazardEntity::PlacedItem(id)),
    ensures
        without_placed_item(with_placed_item(hazards, id, cells), id) == hazards,
        collides_in(without_placed_item(with_placed_item(hazards, id, cells), id), probe, filter)
            == collides_in(hazards, probe, filter),
        forall|e: HazardEntity|
            hit(without_placed_item(with_placed_item(hazards, id, cells), id), probe, filter, e)
                == hit(hazards, probe, filter, e),
{
    assert(without_placed_item(with_placed_item(hazards, id, cells), id) =~= hazards);
}

/// A filter that marks more leaves fewer collisions: what collides under
/// the filter that marks more collides under the one that marks less.
pub proof fn lemma_filter_monotone<F1: HazardFilter, F2: HazardFilter>(
    hazards: HazardMap,
    probe: Set<Cell>,
    less: &F1,
    more: &F2,
)
    requires
        forall|e: HazardEntity| less.irrelevant(e) ==> more.irrelevant(e),
    ensures
        collides_in(hazards, probe, more) ==> collides_in(hazards, probe, less),
{
    if collides_in(hazards, probe, more) {
        let e = choose|e: HazardEntity|
            #[trigger] hazards.dom().contains(e) && !more.irrelevant(e) && overlap(
                probe,
                hazards[e],
            );
        assert(hazards.dom().contains(e) && !less.irrelevant(e) && overlap(probe, hazards[e]));
    }
}

/// For a probe that lies in a window, what is seen of the hazards through
/// the window decides whether the probe collides.
pub proof fn lemma_collides_within<F: HazardFilter>(
    hazards: HazardMap,
    probe: Set<Cell>,
    filter: &F,
    window: Set<Cell>,
)
    requires
        probe.subset_of(window),
    ensures
        collides_in(clip_map(hazards, window), probe, filter) == collides_in(
            hazards,
            probe,
            filter,
        ),
{
    crate::collision_detection::hazard_map::lemma_collides_clipped(hazards, probe, filter, window);
    if collides_in(hazards, probe, filter) {
        let e = choose|e: HazardEntity|
            #[trigger] hazards.dom().contains(e) && !filter.irrelevant(e) && overlap(
                probe,
                hazards[e],
            );
        let c = choose|c: Cell| #[trigger] probe.contains(c) && hazards[e].contains(c);
        crate::collision_detection::hazard_map::lemma_seen_through(
            hazards,
            probe,
            filter,
            window,
            e,
            c,
        );
    }
}

/// For a probe that lies in a window, what is seen of a hazard through the
/// window decides whether the probe hits it.
pub proof fn lemma_hit_within<F: HazardFilter>(
    hazards: HazardMap,
    probe: Set<Cell>,
    filter: &F,
    window: Set<Cell>,
    e: HazardEntity,
)
    requires
        probe.subset_of(window),
    ensures
        hit(clip_map(hazards, window), probe, filter, e) == hit(hazards, probe, filter, e),
{
    crate::collision_detection::hazard_map::lemma_hit_clipped(hazards, probe, filter, window, e);
    if hit(hazards, probe, filter, e) {
        let c = choose|c: Cell| #[trigger] probe.contains(c) && hazards[e].contains(c);
        assert(hazards[e].contains(c) && window.contains(c));
        assert(probe.contains(c) && clip_map(hazards, window)[e].contains(c));
    }
}

} // verus!
