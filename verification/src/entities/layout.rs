use vstd::prelude::*;
use crate::collision_detection::cd_engine::{
    lemma_surrogate_one_sided, with_placed_item, without_placed_item, CDEngine,
};
use crate::collision_detection::hazard::HazardEntity;
use crate::collision_detection::hazard_filter::{BinHazardFilter, HazardFilter, NoHazardFilter};
use crate::collision_detection::hazard_map::{collides_in, hit, HazardMap};
use crate::entities::bin::Bin;
use crate::entities::item::Item;
use crate::geometry::cell::Cell;
use crate::geometry::transformation::Transformation;
use crate::util::config::CDEConfig;

verus! {

/// One placed item: which item it is, and where it lies.
#[derive(Clone, Copy, Debug, PartialEq, Eq, Structural)]
pub struct PlacedItem {
    /// The id of the placement, under which its footprint is registered.
    pub id: usize,
    /// The id of the item.
    pub item_id: usize,
    pub transformation: Transformation,
}

/// Why a layout refused to place or remove an item.
#[derive(Clone, Copy, Debug, PartialEq, Eq, Structural)]
pub enum LayoutError {
    /// The transformation would move the item off the grid.
    OffGrid,
    /// The layout has given out every placement id.
    IdsExhausted,
    /// No item is placed under this id.
    UnknownPlacement(usize),
}

/// A bin with the items placed in it and the engine that answers collision
/// queries for it.
pub struct Layout {
    bin: Bin,
    cde: CDEngine,
    placed_items: Vec<PlacedItem>,
    next_id: usize,
}

impl Layout {
    /// The registered hazards: those of the bin and the footprints of the
    /// placed items.
    pub closed spec fn hazards(&self) -> HazardMap {
        self.cde@
    }

    /// The placed items, in the order in which they were placed.
    pub closed spec fn placements(&self) -> Seq<PlacedItem> {
        self.placed_items@
    }

    /// The bin of the layout.
    pub closed spec fn spec_bin(&self) -> Bin {
        self.bin
    }

    /// The id that the next placement gets.
    pub closed spec fn next_placement_id(&self) -> usize {
        self.next_id
    }

    /// Whether an item is placed under this id.
    pub open spec fn is_placed(&self, id: usize) -> bool {
        exists|k: int| 0 <= k < self.placements().len() && (#[trigger] self.placements()[k]).id == id
    }

    /// The invariant of a layout.
    ///
    /// - The bin is well formed and its hazards are registered as the bin
    ///   gives them: placing and removing items never changes them.
    /// - The footprints registered besides are those of the placed items,
    ///   one for each placement id.
    /// - No two placements have the same id, and every id in use is below
    ///   the next one to be given out.
    pub closed spec fn wf(&self) -> bool {
        &&& self.bin.wf()
        &&& self.cde.wf()
        &&& self.cde.bbox() == self.bin.outer
        &&& forall|e: HazardEntity|
            !(e is PlacedItem) ==> (#[trigger] self.cde@.dom().contains(e))
                == self.bin.hazard_map().dom().contains(e)
        &&& forall|e: HazardEntity|
            !(e is PlacedItem) && #[trigger] self.cde@.dom().contains(e) ==> self.cde@[e]
                == self.bin.hazard_map()[e]
        &&& forall|id: usize| #[trigger]
            self.cde@.dom().contains(HazardEntity::PlacedItem(id)) == self.is_placed(id)
        &&& forall|i: int, j: int|
            0 <= i < j < self.placed_items@.len() ==> (#[trigger] self.placed_items@[i]).id != (
            #[trigger] self.placed_items@[j]).id
        &&& forall|k: int|
            0 <= k < self.placed_items@.len() ==> (#[trigger] self.placed_items@[k]).id
                < self.next_id
    }

    /// In a well-formed layout the hazards of the bin are registered as the
    /// bin gives them, and the placed items are the other hazards.
    pub proof fn lemma_hazards(&self)
        requires
            self.wf(),
        ensures
            self.spec_bin().wf(),
            forall|e: HazardEntity|
                !(e is PlacedItem) ==> (#[trigger] self.hazards().dom().contains(e))
                    == self.spec_bin().hazard_map().dom().contains(e),
            forall|e: HazardEntity|
                !(e is PlacedItem) && #[trigger] self.hazards().dom().contains(e)
                    ==> self.hazards()[e] == self.spec_bin().hazard_map()[e],
            forall|id: usize| #[trigger]
                self.hazards().dom().contains(HazardEntity::PlacedItem(id)) == self.is_placed(id),
            forall|id: usize| self.is_placed(id) ==> id < self.next_placement_id(),
    {
    }

    /// The layout of an empty bin. Its hazards are those of the bin and no
    /// others. The first placement gets the id 0.
    pub fn new(bin: Bin, config: CDEConfig) -> (layout: Layout)
        requires
            bin.wf(),
        ensures
            layout.wf(),
            layout.spec_bin() == bin,
            layout.hazards() == bin.hazard_map(),
            layout.placements() == Seq::<PlacedItem>::empty(),
            layout.next_placement_id() == 0,
    {
        Self::starting_at(bin, config, 0)
    }

    /// The layout of an empty bin in which the first placement gets the id
    /// `first_id`.
    pub fn starting_at(bin: Bin, config: CDEConfig, first_id: usize) -> (layout: Layout)
        requires
            bin.wf(),
        ensures
            layout.wf(),
            layout.spec_bin() == bin,
            layout.hazards() == bin.hazard_map(),
            layout.placements() == Seq::<PlacedItem>::empty(),
            layout.next_placement_id() == first_id,
    {
        let hazards = bin.hazards();
        let cde = match CDEngine::new(bin.outer, hazards, config) {
            Ok(cde) => cde,
            Err(_) => vstd::pervasive::unreached(),
        };
        Layout { bin, cde, placed_items: Vec::new(), next_id: first_id }
    }

    /// Whether the item, moved by `transformation`, collides with a hazard
    /// that `filter` leaves relevant. An item that the transformation would
    /// move off the grid collides.
    ///
    /// The surrogate of the item is tested first; only when it finds no
    /// collision is the shape itself moved and tested.
    pub fn item_collides<F: HazardFilter>(
        &self,
        item: &Item,
        transformation: &Transformation,
        filter: &F,
    ) -> (r: bool)
        requires
            self.wf(),
            item.wf(),
        ensures
            r == (!transformation.fits_rect(item.shape.bbox) || collides_in(
                self.hazards(),
                transformation.image(item.shape@),
                filter,
            )),
    {
        if self.cde.surrogate_collides(&item.surrogate, transformation, filter) {
            proof {
                lemma_item_surrogate_one_sided(&self.cde, item, transformation, filter);
            }
            return true;
        }
        match transformation.transform_shape(&item.shape) {
            Some(shape) => self.cde.shape_collides(&shape, filter),
            None => true,
        }
    }

    /// Whether the item can lie where `transformation` takes it: on the
    /// grid, and clear of every hazard but the zones whose quality is at
    /// least the item's base quality.
    pub fn can_place(&self, item: &Item, transformation: &Transformation) -> (r: bool)
        requires
            self.wf(),
            item.wf(),
        ensures
            r == (transformation.fits_rect(item.shape.bbox) && !(match item.hazard_filter {
                Some(filter) => collides_in(
                    self.hazards(),
                    transformation.image(item.shape@),
                    &filter,
                ),
                None => collides_in(
                    self.hazards(),
                    transformation.image(item.shape@),
                    &NoHazardFilter,
                ),
            })),
    {
        match &item.hazard_filter {
            Some(filter) => !self.item_collides(item, transformation, filter),
            None => !self.item_collides(item, transformation, &NoHazardFilter),
        }
    }

    /// Places the item where `transformation` takes it, registers its
    /// footprint and returns the id of the placement.
    ///
    /// Fails, and leaves the layout as it was, when the transformation would
    /// move the item off the grid, or else when no placement id is left.
    /// Whether the item collides there is not tested: see `can_place`.
    pub fn place_item(&mut self, item: &Item, transformation: Transformation) -> (r: Result<
        usize,
        LayoutError,
    >)
        requires
            old(self).wf(),
            item.wf(),
        ensures
            final(self).wf(),
            final(self).spec_bin() == old(self).spec_bin(),
            r == Err::<usize, LayoutError>(LayoutError::OffGrid) <==> !transformation.fits_rect(
                item.shape.bbox,
            ),
            r == Err::<usize, LayoutError>(LayoutError::IdsExhausted) <==> transformation.fits_rect(
                item.shape.bbox,
            ) && old(self).next_placement_id() == usize::MAX,
            r.is_err() ==> final(self).hazards() == old(self).hazards() && final(self).placements()
                == old(self).placements() && final(self).next_placement_id() == old(self).next_placement_id() && (r.unwrap_err() == LayoutError::OffGrid || r.unwrap_err()
                == LayoutError::IdsExhausted),
            r.is_ok() ==> {
                let id = r.unwrap();
                &&& id == old(self).next_placement_id()
                &&& final(self).next_placement_id() == id + 1
                &&& !old(self).is_placed(id)
                &&& final(self).hazards() == with_placed_item(
                    old(self).hazards(),
                    id,
                    transformation.image(item.shape@),
                )
                &&& final(self).placements() == old(self).placements().push(
                    PlacedItem { id, item_id: item.id, transformation },
                )
            },
    {
        let shape = match transformation.transform_shape(&item.shape) {
            Some(shape) => shape,
            None => {
                return Err(LayoutError::OffGrid);
            },
        };
        if self.next_id == usize::MAX {
            return Err(LayoutError::IdsExhausted);
        }
        let id = self.next_id;
        let ghost before = *self;
        proof {
            if before.is_placed(id) {
                let k = choose|k: int|
                    0 <= k < before.placements().len() && (#[trigger] before.placements()[k]).id
                        == id;
                assert(before.placed_items@[k].id < before.next_id);
            }
            assert(!before.cde@.dom().contains(HazardEntity::PlacedItem(id)));
        }
        match self.cde.insert_placed_item(id, shape) {
            Ok(_) => {},
            Err(_) => {
                assert(false);
            },
        }
        self.placed_items.push(PlacedItem { id, item_id: item.id, transformation });
        self.next_id = id + 1;
        proof {
            assert forall|other: usize| #[trigger]
                self.cde@.dom().contains(HazardEntity::PlacedItem(other)) == self.is_placed(
                    other,
                ) by {
                if before.is_placed(other) {
                    let k = choose|k: int|
                        0 <= k < before.placements().len() && (#[trigger] before.placements()[k]).id
                            == other;
                    assert(self.placements()[k].id == other);
                }
                if other == id {
                    assert(self.placements()[before.placed_items@.len() as int].id == id);
                }
                if self.is_placed(other) && other != id {
                    let k = choose|k: int|
                        0 <= k < self.placements().len() && (#[trigger] self.placements()[k]).id
                            == other;
                    assert(before.placements()[k].id == other);
                }
            }
        }
        Ok(id)
    }

    /// Where the placement with this id stands in the list, if there is
    /// one.
    fn find_placement(&self, id: usize) -> (r: Option<usize>)
        ensures
            r.is_some() == self.is_placed(id),
            r.is_some() ==> r.unwrap() < self.placed_items@.len() && self.placed_items@[r.unwrap() as int].id
                == id,
    {
        let mut k: usize = 0;
        while k < self.placed_items.len()
            invariant
                k <= self.placed_items@.len(),
                forall|j: int| 0 <= j < k ==> (#[trigger] self.placed_items@[j]).id != id,
            decreases self.placed_items@.len() - k,
        {
            if self.placed_items[k].id == id {
                proof {
                    assert(self.placements()[k as int].id == id);
                }
                return Some(k);
            }
            k += 1;
        }
        None
    }

    /// Removes the item placed under `id`, deregisters its footprint and
    /// returns the placement.
    ///
    /// Fails, and leaves the layout as it was, exactly when no item is
    /// placed under `id`.
    pub fn remove_item(&mut self, id: usize) -> (r: Result<PlacedItem, LayoutError>)
        requires
            old(self).wf(),
        ensures
            final(self).wf(),
            final(self).spec_bin() == old(self).spec_bin(),
            final(self).next_placement_id() == old(self).next_placement_id(),
            r.is_err() == !old(self).is_placed(id),
            r.is_err() ==> r.unwrap_err() == LayoutError::UnknownPlacement(id) && final(self).hazards() == old(self).hazards() && final(self).placements() == old(self).placements(),
            r.is_ok() ==> {
                &&& r.unwrap().id == id
                &&& old(self).placements().contains(r.unwrap())
                &&& final(self).hazards() == without_placed_item(old(self).hazards(), id)
                &&& exists|k: int|
                    0 <= k < old(self).placements().len() && old(self).placements()[k]
                        == r.unwrap() && final(self).placements() == old(self).placements().remove(k)
            },
    {
        let ghost before = *self;
        let k = match self.find_placement(id) {
            Some(k) => k,
            None => {
                return Err(LayoutError::UnknownPlacement(id));
            },
        };
        match self.cde.remove_placed_item(id) {
            Ok(_) => {},
            Err(_) => {
                assert(false);
            },
        }
        let placed = self.placed_items.remove(k);
        proof {
            assert forall|other: usize| #[trigger]
                self.cde@.dom().contains(HazardEntity::PlacedItem(other)) == self.is_placed(
                    other,
                ) by {
                if before.is_placed(other) && other != id {
                    let j = choose|j: int|
                        0 <= j < before.placements().len() && (#[trigger] before.placements()[j]).id
                            == other;
                    let j2 = if j < k { j } else { j - 1 };
                    assert(self.placements()[j2].id == other);
                }
                if self.is_placed(other) {
                    let j = choose|j: int|
                        0 <= j < self.placements().len() && (#[trigger] self.placements()[j]).id
                            == other;
                    let j0 = if j < k { j } else { j + 1 };
                    assert(before.placements()[j0].id == other);
                    if j0 < k {
                        assert(before.placed_items@[j0].id != before.placed_items@[k as int].id);
                    } else {
                        assert(before.placed_items@[k as int].id != before.placed_items@[j0].id);
                    }
                }
            }
            assert forall|i: int, j: int| 0 <= i < j < self.placed_items@.len() implies (
            #[trigger] self.placed_items@[i]).id != (#[trigger] self.placed_items@[j]).id by {
                let i0 = if i < k { i } else { i + 1 };
                let j0 = if j < k { j } else { j + 1 };
                assert(before.placed_items@[i0].id != before.placed_items@[j0].id);
            }
            assert forall|j: int| 0 <= j < self.placed_items@.len() implies (
            #[trigger] self.placed_items@[j]).id < self.next_id by {
                let j0 = if j < k { j } else { j + 1 };
                assert(before.placed_items@[j0].id < before.next_id);
            }
        }
        Ok(placed)
    }

    /// Every hazard that `filter` leaves relevant and that the item, moved
    /// by `transformation`, would collide with, each of them once; or `None`
    /// when the transformation would move the item off the grid.
    pub fn hazards_hit<F: HazardFilter>(
        &self,
        item: &Item,
        transformation: &Transformation,
        filter: &F,
    ) -> (r: Option<Vec<HazardEntity>>)
        requires
            self.wf(),
            item.wf(),
        ensures
            r.is_some() == transformation.fits_rect(item.shape.bbox),
            r.is_some() ==> r.unwrap()@.no_duplicates() && forall|e: HazardEntity|
                r.unwrap()@.contains(e) == hit(
                    self.hazards(),
                    transformation.image(item.shape@),
                    filter,
                    e,
                ),
    {
        match transformation.transform_shape(&item.shape) {
            Some(shape) => Some(self.cde.hazards_within(&shape, filter)),
            None => None,
        }
    }

    /// The bin of the layout.
    pub fn bin(&self) -> (b: &Bin)
        ensures
            *b == self.spec_bin(),
    {
        &self.bin
    }

    /// The engine of the layout, for queries.
    pub fn cde(&self) -> (cde: &CDEngine)
        requires
            self.wf(),
        ensures
            cde.wf(),
            cde@ == self.hazards(),
    {
        &self.cde
    }

    /// The placed items, in the order in which they were placed.
    pub fn placed_items(&self) -> (r: &Vec<PlacedItem>)
        ensures
            r@ == self.placements(),
    {
        &self.placed_items
    }
}

/// Whatever the surrogate of an item collides with, the item collides with
/// too, wherever the item is moved.
pub proof fn lemma_item_surrogate_one_sided<F: HazardFilter>(
    cde: &CDEngine,
    item: &Item,
    t: &Transformation,
    filter: &F,
)
    requires
        item.wf(),
    ensures
        cde.surrogate_collides_spec(&item.surrogate, t, filter) ==> cde.collides_spec(
            t.image(item.shape@),
            filter,
        ),
{
    lemma_surrogate_one_sided(cde, &item.surrogate, item.shape@, t, filter);
}

/// In the layout of an empty bin, a query meets only the hazards that the
/// bin brings: it collides with no placed item, and under the filter that
/// marks the bin's hazards it does not collide at all.
pub proof fn lemma_empty_layout_collides_with_bin_only<F: HazardFilter>(
    bin: &Bin,
    probe: Set<Cell>,
    filter: &F,
)
    ensures
        forall|e: HazardEntity|
            hit(bin.hazard_map(), probe, filter, e) ==> !(e is PlacedItem) && #[trigger] bin.hazard_map().dom().contains(e),
        !collides_in(bin.hazard_map(), probe, &BinHazardFilter),
{
}

} // verus!
