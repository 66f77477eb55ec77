use vstd::prelude::*;
use crate::collision_detection::cd_engine::hazard_entries;
use crate::collision_detection::hazard::{Hazard, HazardEntity};
use crate::collision_detection::hazard_map::{as_map, distinct, lemma_as_map_lookup, HazardMap};
use crate::geometry::aa_rectangle::AARectangle;
use crate::geometry::cell::Cell;
use crate::geometry::shape::{lemma_region_push, region, Shape};

verus! {

/// The whole grid: every rectangle and every shape lies in it.
pub open spec fn grid() -> AARectangle {
    AARectangle { x_min: i32::MIN, y_min: i32::MIN, x_max: i32::MAX, y_max: i32::MAX }
}

/// A zone of a bin whose quality is below the best. An item that asks for
/// more than `quality` may not reach into it.
#[derive(Clone, Debug, PartialEq, Eq)]
pub struct InferiorQualityZone {
    pub quality: usize,
    pub shape: Shape,
}

/// A container in which items are placed: a rectangle, with holes and with
/// zones of inferior quality.
///
/// A bin of another outline is given as its bounding rectangle with holes
/// where the rectangle reaches beyond the outline.
#[derive(Clone, Debug, PartialEq, Eq)]
pub struct Bin {
    pub id: usize,
    pub outer: AARectangle,
    pub holes: Vec<Shape>,
    pub quality_zones: Vec<InferiorQualityZone>,
}

impl Bin {
    /// A bin is well formed when its rectangle has positive area and its
    /// holes and zones are well-formed shapes.
    pub open spec fn wf(&self) -> bool {
        &&& self.outer.wf()
        &&& forall|i: int| 0 <= i < self.holes@.len() ==> (#[trigger] self.holes@[i]).wf()
        &&& forall|i: int|
            0 <= i < self.quality_zones@.len() ==> (#[trigger] self.quality_zones@[i]).shape.wf()
    }

    /// The cells of the grid outside the bin's rectangle.
    pub open spec fn exterior(&self) -> Set<Cell> {
        grid()@.difference(self.outer@)
    }

    /// The hazards that the bin brings, which stay as they are for as long as
    /// the bin is in use:
    /// - its exterior, unless the bin fills the grid;
    /// - each of its holes, named by its place in the list of holes;
    /// - each of its zones of inferior quality, named by its quality and its
    ///   place in the list of zones.
    pub open spec fn hazard_map(&self) -> HazardMap {
        Map::new(
            |e: HazardEntity|
                match e {
                    HazardEntity::PlacedItem(_) => false,
                    HazardEntity::BinExterior => self.outer != grid(),
                    HazardEntity::BinHole { id } => id < self.holes@.len(),
                    HazardEntity::QualityZoneInferior { quality, id } => id
                        < self.quality_zones@.len() && self.quality_zones@[id as int].quality
                        == quality,
                },
            |e: HazardEntity|
                match e {
                    HazardEntity::PlacedItem(_) => Set::empty(),
                    HazardEntity::BinExterior => self.exterior(),
                    HazardEntity::BinHole { id } => self.holes@[id as int]@,
                    HazardEntity::QualityZoneInferior { quality, id } => self.quality_zones@[id as int].shape@,
                },
        )
    }

    pub fn new(id: usize, outer: AARectangle, holes: Vec<Shape>, quality_zones: Vec<InferiorQualityZone>) -> (bin: Bin)
        ensures
            bin.id == id,
            bin.outer == outer,
            bin.holes == holes,
            bin.quality_zones == quality_zones,
    {
        Bin { id, outer, holes, quality_zones }
    }

    /// The bin with the given outline. Its rectangle is the bounding box of
    /// the outline; if the outline leaves cells of that box out, they become
    /// the first hole of the bin, before the given holes.
    pub fn from_outline(
        id: usize,
        outline: &Shape,
        holes: Vec<Shape>,
        quality_zones: Vec<InferiorQualityZone>,
    ) -> (bin: Bin)
        requires
            outline.wf(),
            forall|i: int| 0 <= i < holes@.len() ==> (#[trigger] holes@[i]).wf(),
            forall|i: int| 0 <= i < quality_zones@.len() ==> (#[trigger] quality_zones@[i]).shape.wf(),
        ensures
            bin.wf(),
            bin.id == id,
            bin.outer == outline.bbox,
            bin.quality_zones == quality_zones,
            outline.bbox@.subset_of(outline@) ==> bin.holes@ == holes@,
            !outline.bbox@.subset_of(outline@) ==> {
                &&& bin.holes@.len() == holes@.len() + 1
                &&& bin.holes@[0]@ == outline.bbox@.difference(outline@)
                &&& forall|i: int| 0 <= i < holes@.len() ==> #[trigger] bin.holes@[i + 1] == holes@[i]
            },
    {
        let mut all = holes;
        match outline.complement_in(&outline.bbox) {
            Some(beyond) => {
                all.insert(0, beyond);
            },
            None => {},
        }
        Bin { id, outer: outline.bbox, holes: all, quality_zones }
    }

    /// The part of the grid outside the bin's rectangle, or `None` when the
    /// bin fills the grid.
    pub fn exterior_shape(&self) -> (r: Option<Shape>)
        requires
            self.outer.wf(),
        ensures
            r.is_some() == (self.outer != grid()),
            r.is_some() ==> r.unwrap().wf() && r.unwrap()@ == self.exterior(),
    {
        let o = self.outer;
        let mut boxes: Vec<AARectangle> = Vec::new();
        let ghost nothing = Set::<Cell>::empty();
        let ghost mut left = nothing;
        let ghost mut right = nothing;
        let ghost mut below = nothing;
        let ghost mut above = nothing;
        proof {
            assert(region(boxes@) =~= nothing);
        }
        if o.x_min > i32::MIN {
            let b = AARectangle { x_min: i32::MIN, y_min: i32::MIN, x_max: o.x_min, y_max: i32::MAX };
            proof {
                lemma_region_push(boxes@, b);
                left = b@;
            }
            boxes.push(b);
        }
        if o.x_max < i32::MAX {
            let b = AARectangle { x_min: o.x_max, y_min: i32::MIN, x_max: i32::MAX, y_max: i32::MAX };
            proof {
                lemma_region_push(boxes@, b);
                right = b@;
            }
            boxes.push(b);
        }
        if o.y_min > i32::MIN {
            let b = AARectangle { x_min: o.x_min, y_min: i32::MIN, x_max: o.x_max, y_max: o.y_min };
            proof {
                lemma_region_push(boxes@, b);
                below = b@;
            }
            boxes.push(b);
        }
        if o.y_max < i32::MAX {
            let b = AARectangle { x_min: o.x_min, y_min: o.y_max, x_max: o.x_max, y_max: i32::MAX };
            proof {
                lemma_region_push(boxes@, b);
                above = b@;
            }
            boxes.push(b);
        }
        proof {
            assert(region(boxes@) =~= left.union(right).union(below).union(above));
            assert(region(boxes@) =~= self.exterior());
        }
        if boxes.len() == 0 {
            return None;
        }
        let bbox = AARectangle {
            x_min: i32::MIN,
            y_min: i32::MIN,
            x_max: i32::MAX,
            y_max: i32::MAX,
        };
        Some(Shape { boxes, bbox })
    }

    /// What stands at place `k` of the list of the bin's hazards: first the
    /// exterior, if there is one, then the holes, then the zones.
    pub open spec fn hazard_at(&self, k: int) -> (HazardEntity, Set<Cell>) {
        let first: int = if self.outer != grid() { 1 } else { 0 };
        if k < first {
            (HazardEntity::BinExterior, self.exterior())
        } else if k < first + self.holes@.len() {
            (HazardEntity::BinHole { id: (k - first) as usize }, self.holes@[k - first]@)
        } else {
            let j = k - first - self.holes@.len();
            (
                HazardEntity::QualityZoneInferior {
                    quality: self.quality_zones@[j].quality,
                    id: j as usize,
                },
                self.quality_zones@[j].shape@,
            )
        }
    }

    /// The list of the bin's hazards names each of them once, and read as a
    /// map it is the bin's hazard map.
    pub proof fn lemma_hazard_list(&self, list: Seq<Hazard>)
        requires
            self.holes@.len() <= usize::MAX,
            self.quality_zones@.len() <= usize::MAX,
            list.len() == (if self.outer != grid() { 1int } else { 0int }) + self.holes@.len()
                + self.quality_zones@.len(),
            forall|k: int|
                0 <= k < list.len() ==> (#[trigger] list[k]).entity == self.hazard_at(k).0
                    && list[k].shape@ == self.hazard_at(k).1,
        ensures
            distinct(hazard_entries(list)),
            as_map(hazard_entries(list)) == self.hazard_map(),
    {
        let entries = hazard_entries(list);
        let first: int = if self.outer != grid() { 1 } else { 0 };
        let nh = self.holes@.len() as int;
        assert forall|k: int| 0 <= k < entries.len() implies #[trigger] entries[k] == self.hazard_at(
            k,
        ) by {
            assert(list[k].entity == self.hazard_at(k).0);
        }
        assert forall|i: int, j: int| 0 <= i < j < entries.len() implies (#[trigger] entries[i]).0 != (
        #[trigger] entries[j]).0 by {
            assert(entries[i] == self.hazard_at(i));
            assert(entries[j] == self.hazard_at(j));
        }
        let built = as_map(entries);
        let wanted = self.hazard_map();
        assert forall|e: HazardEntity| built.dom().contains(e) == wanted.dom().contains(e) by {
            if built.dom().contains(e) {
                let k = choose|k: int| 0 <= k < entries.len() && (#[trigger] entries[k]).0 == e;
                assert(entries[k] == self.hazard_at(k));
            }
            if wanted.dom().contains(e) {
                let k: int = match e {
                    HazardEntity::PlacedItem(_) => 0,
                    HazardEntity::BinExterior => 0,
                    HazardEntity::BinHole { id } => first + id,
                    HazardEntity::QualityZoneInferior { quality, id } => first + nh + id,
                };
                assert(entries[k] == self.hazard_at(k));
                assert(entries[k].0 == e);
            }
        }
        assert forall|e: HazardEntity| built.dom().contains(e) implies built[e] == wanted[e] by {
            let k = choose|k: int| 0 <= k < entries.len() && (#[trigger] entries[k]).0 == e;
            assert(entries[k] == self.hazard_at(k));
            lemma_as_map_lookup(entries, k);
        }
        assert(built =~= wanted);
    }

    /// The hazards that the bin brings: first its exterior, if there is one,
    /// then its holes, then its zones of inferior quality.
    pub fn hazards(&self) -> (list: Vec<Hazard>)
        requires
            self.wf(),
        ensures
            distinct(hazard_entries(list@)),
            as_map(hazard_entries(list@)) == self.hazard_map(),
            forall|k: int| 0 <= k < list@.len() ==> (#[trigger] list@[k]).shape.wf(),
    {
        let mut list: Vec<Hazard> = Vec::new();
        let ghost first: int = if self.outer != grid() { 1 } else { 0 };
        match self.exterior_shape() {
            Some(shape) => {
                list.push(Hazard { entity: HazardEntity::BinExterior, shape });
            },
            None => {},
        }
        let mut i: usize = 0;
        while i < self.holes.len()
            invariant
                i <= self.holes@.len(),
                self.wf(),
                first == (if self.outer != grid() { 1int } else { 0int }),
                list@.len() == first + i,
                forall|k: int|
                    0 <= k < list@.len() ==> (#[trigger] list@[k]).entity == self.hazard_at(k).0
                        && list@[k].shape@ == self.hazard_at(k).1 && list@[k].shape.wf(),
            decreases self.holes@.len() - i,
        {
            let shape = self.holes[i].duplicate();
            list.push(Hazard { entity: HazardEntity::BinHole { id: i }, shape });
            i += 1;
        }
        let mut j: usize = 0;
        while j < self.quality_zones.len()
            invariant
                j <= self.quality_zones@.len(),
                self.wf(),
                first == (if self.outer != grid() { 1int } else { 0int }),
                list@.len() == first + self.holes@.len() + j,
                forall|k: int|
                    0 <= k < list@.len() ==> (#[trigger] list@[k]).entity == self.hazard_at(k).0
                        && list@[k].shape@ == self.hazard_at(k).1 && list@[k].shape.wf(),
            decreases self.quality_zones@.len() - j,
        {
            let zone = &self.quality_zones[j];
            let shape = zone.shape.duplicate();
            list.push(
                Hazard {
                    entity: HazardEntity::QualityZoneInferior { quality: zone.quality, id: j },
                    shape,
                },
            );
            j += 1;
        }
        proof {
            self.lemma_hazard_list(list@);
        }
        list
    }
}

} // verus!
