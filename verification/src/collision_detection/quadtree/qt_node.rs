use vstd::prelude::*;
use crate::collision_detection::hazard::{contains_entity, HazardEntity};
use crate::collision_detection::hazard_filter::HazardFilter;
use crate::collision_detection::hazard_map::{
    as_map, clip_map, collides_in, distinct, hit, lemma_as_map_lookup, lemma_as_map_push,
    lemma_as_map_remove, lemma_clip_registered, lemma_clip_remove, lemma_collides_by_quarters,
    lemma_hit_by_quarters, registered, Entries, HazardMap,
};
use crate::collision_detection::quadtree::qt_hazard::QTHazard;
use crate::collision_detection::quadtree::qt_traits::QTQueryable;
use crate::geometry::aa_rectangle::{AARectangle, Quadrants};
use crate::geometry::cell::{overlap, Cell};
use crate::geometry::shape::{lemma_overlap_region, Shape};

verus! {

/// The records of a node, as a list of entities with their cells.
pub open spec fn entries_of(hazards: Seq<QTHazard>) -> Entries {
    Seq::new(hazards.len(), |k: int| (hazards[k].entity, hazards[k].cells()))
}

/// A node of the quadtree.
///
/// A node covers a rectangle of the grid and records every registered
/// hazard that reaches into it. Its view maps each such hazard to the cells
/// that the hazard occupies inside the rectangle. A node is either a leaf or
/// has four children that cover the four quarters of its rectangle; which of
/// the two is decided when the tree is built and never changes.
#[derive(Debug)]
pub struct QTNode {
    bbox: AARectangle,
    level: u8,
    hazards: Vec<QTHazard>,
    children: Option<Box<QTChildren>>,
}

/// The four children of an inner node.
#[derive(Debug)]
pub struct QTChildren {
    sw: QTNode,
    se: QTNode,
    nw: QTNode,
    ne: QTNode,
}

impl View for QTNode {
    type V = HazardMap;

    closed spec fn view(&self) -> HazardMap {
        as_map(entries_of(self.hazards@))
    }
}

impl QTNode {
    /// The rectangle that the node covers.
    pub closed spec fn bbox(&self) -> AARectangle {
        self.bbox
    }

    /// How many more times the node's rectangle may be cut in four.
    pub closed spec fn level(&self) -> u8 {
        self.level
    }

    /// Whether the node has no children.
    pub closed spec fn is_leaf(&self) -> bool {
        self.children.is_none()
    }

    /// The invariant of the tree below and including this node.
    ///
    /// - The node's rectangle has positive area.
    /// - No hazard is recorded twice, and each record fits the rectangle.
    /// - The node has children exactly when its level is above zero and its
    ///   rectangle is at least two cells wide and high.
    /// - The children's rectangles are the four quarters of the node's, each
    ///   child is one level below the node, and each child records exactly
    ///   what the node records, seen through the child's rectangle.
    pub closed spec fn wf(&self) -> bool
        decreases self.level(),
    {
        &&& self.bbox.wf()
        &&& distinct(entries_of(self.hazards@))
        &&& forall|k: int| 0 <= k < self.hazards@.len() ==> (#[trigger] self.hazards@[k]).wf(self.bbox)
        &&& self.children.is_some() == (self.level > 0 && self.bbox.splittable())
        &&& match self.children {
            None => true,
            Some(ch) => {
                &&& self.level > 0
                &&& (Quadrants {
                    sw: ch.sw.bbox,
                    se: ch.se.bbox,
                    nw: ch.nw.bbox,
                    ne: ch.ne.bbox,
                }).partitions(self.bbox)
                &&& ch.sw.level == self.level - 1 && ch.sw.wf() && ch.sw@ == clip_map(self@, ch.sw.bbox@)
                &&& ch.se.level == self.level - 1 && ch.se.wf() && ch.se@ == clip_map(self@, ch.se.bbox@)
                &&& ch.nw.level == self.level - 1 && ch.nw.wf() && ch.nw@ == clip_map(self@, ch.nw.bbox@)
                &&& ch.ne.level == self.level - 1 && ch.ne.wf() && ch.ne@ == clip_map(self@, ch.ne.bbox@)
            },
        }
    }

    /// Whether this node or a node below it records `entity`.
    pub closed spec fn mentions(&self, entity: HazardEntity) -> bool
        decreases self,
    {
        self@.dom().contains(entity) || match self.children {
            None => false,
            Some(ch) => ch.sw.mentions(entity) || ch.se.mentions(entity) || ch.nw.mentions(entity)
                || ch.ne.mentions(entity),
        }
    }

    /// What the node does not record, no node below it records: once a
    /// hazard is deregistered, no node of the tree mentions it.
    pub proof fn lemma_mentions(&self, entity: HazardEntity)
        requires
            self.wf(),
        ensures
            self.mentions(entity) == self@.dom().contains(entity),
        decreases self.level(),
    {
        match self.children {
            None => {},
            Some(ch) => {
                ch.sw.lemma_mentions(entity);
                ch.se.lemma_mentions(entity);
                ch.nw.lemma_mentions(entity);
                ch.ne.lemma_mentions(entity);
            },
        }
    }

    /// In a well-formed node, the rectangle has positive area, and every
    /// recorded hazard has at least one cell, all of them inside the
    /// rectangle.
    pub proof fn lemma_cells_in_bbox(&self)
        requires
            self.wf(),
        ensures
            self.bbox().wf(),
            forall|e: HazardEntity| #[trigger]
                self@.dom().contains(e) ==> self@[e].subset_of(self.bbox()@) && overlap(
                    self@[e],
                    self.bbox()@,
                ),
    {
        assert forall|e: HazardEntity| #[trigger] self@.dom().contains(e) implies self@[e].subset_of(
            self.bbox@,
        ) && overlap(self@[e], self.bbox@) by {
            let k = self.lemma_dom(e);
            self.lemma_entry(k);
        }
    }

    proof fn lemma_entry(&self, k: int)
        requires
            self.wf(),
            0 <= k < self.hazards@.len(),
        ensures
            self@.dom().contains(self.hazards@[k].entity),
            self@[self.hazards@[k].entity] == self.hazards@[k].cells(),
            self.hazards@[k].cells().subset_of(self.bbox@),
            overlap(self.hazards@[k].cells(), self.bbox@),
    {
        let entries = entries_of(self.hazards@);
        assert(entries[k].0 == self.hazards@[k].entity);
        lemma_as_map_lookup(entries, k);
        let h = self.hazards@[k];
        assert(h.wf(self.bbox));
        assert forall|c: Cell| h.cells().contains(c) implies self.bbox@.contains(c) by {
            let i = choose|i: int| 0 <= i < h.parts@.len() && (#[trigger] h.parts@[i])@.contains(c);
            assert(h.parts@[i]@.subset_of(self.bbox@));
        }
        let p = h.parts@[0];
        let c: Cell = (p.x_min as int, p.y_min as int);
        assert(p@.contains(c));
        assert(p@.subset_of(self.bbox@));
        assert(h.cells().contains(c) && self.bbox@.contains(c));
    }

    proof fn lemma_dom(&self, e: HazardEntity) -> (k: int)
        requires
            self@.dom().contains(e),
        ensures
            0 <= k < self.hazards@.len(),
            self.hazards@[k].entity == e,
    {
        let entries = entries_of(self.hazards@);
        let k = choose|k: int| 0 <= k < entries.len() && (#[trigger] entries[k]).0 == e;
        k
    }

    /// Builds the tree over `bbox`, cutting `depth` times at most, with no
    /// hazard registered.
    pub fn new(bbox: AARectangle, depth: u8) -> (node: QTNode)
        requires
            bbox.wf(),
        ensures
            node.wf(),
            node@ == Map::<HazardEntity, Set<Cell>>::empty(),
            node.bbox() == bbox,
            node.level() == depth,
        decreases depth,
    {
        let mut children: Option<Box<QTChildren>> = None;
        if depth > 0 {
            match bbox.quadrants() {
                Some(q) => {
                    children = Some(
                        Box::new(
                            QTChildren {
                                sw: QTNode::new(q.sw, depth - 1),
                                se: QTNode::new(q.se, depth - 1),
                                nw: QTNode::new(q.nw, depth - 1),
                                ne: QTNode::new(q.ne, depth - 1),
                            },
                        ),
                    );
                },
                None => {},
            }
        }
        let node = QTNode { bbox, level: depth, hazards: Vec::new(), children };
        proof {
            let empty = Map::<HazardEntity, Set<Cell>>::empty();
            assert(node@ =~= empty);
            assert forall|w: Set<Cell>| #[trigger] clip_map(empty, w) == empty by {
                assert(clip_map(empty, w) =~= empty);
            }
        }
        node
    }

    /// The rectangle that the node covers.
    pub fn bounding_box(&self) -> (b: AARectangle)
        ensures
            b == self.bbox(),
    {
        self.bbox
    }

    /// How many more times the node's rectangle may be cut in four.
    pub fn levels_left(&self) -> (l: u8)
        ensures
            l == self.level(),
    {
        self.level
    }

    /// The records of the node: one for each hazard that reaches into its
    /// rectangle.
    pub fn hazards(&self) -> (r: &Vec<QTHazard>)
        requires
            self.wf(),
        ensures
            as_map(entries_of(r@)) == self@,
            distinct(entries_of(r@)),
            forall|k: int| 0 <= k < r@.len() ==> (#[trigger] r@[k]).wf(self.bbox()),
    {
        &self.hazards
    }

    /// The four children of the node, in the order south-west, south-east,
    /// north-west, north-east, or `None` when the node is a leaf.
    pub fn children(&self) -> (r: Option<(&QTNode, &QTNode, &QTNode, &QTNode)>)
        requires
            self.wf(),
        ensures
            r.is_some() == !self.is_leaf(),
            r.is_some() == (self.level() > 0 && self.bbox().splittable()),
            r.is_some() ==> {
                let (sw, se, nw, ne) = r.unwrap();
                &&& (Quadrants {
                    sw: sw.bbox(),
                    se: se.bbox(),
                    nw: nw.bbox(),
                    ne: ne.bbox(),
                }).partitions(self.bbox())
                &&& sw.wf() && sw.level() == self.level() - 1 && sw@ == clip_map(self@, sw.bbox()@)
                &&& se.wf() && se.level() == self.level() - 1 && se@ == clip_map(self@, se.bbox()@)
                &&& nw.wf() && nw.level() == self.level() - 1 && nw@ == clip_map(self@, nw.bbox()@)
                &&& ne.wf() && ne.level() == self.level() - 1 && ne@ == clip_map(self@, ne.bbox()@)
            },
    {
        match &self.children {
            None => None,
            Some(ch) => Some((&ch.sw, &ch.se, &ch.nw, &ch.ne)),
        }
    }

    /// Whether nothing is registered in the node's rectangle.
    pub fn is_clear(&self) -> (r: bool)
        ensures
            r == (self@ == Map::<HazardEntity, Set<Cell>>::empty()),
    {
        let r = self.hazards.len() == 0;
        proof {
            if r {
                assert(self@ =~= Map::<HazardEntity, Set<Cell>>::empty());
            } else {
                let entries = entries_of(self.hazards@);
                assert(entries[0].0 == self.hazards@[0].entity);
                assert(self@.dom().contains(self.hazards@[0].entity));
            }
        }
        r
    }

    /// Where `entity` is recorded in this node, if it is.
    fn find(&self, entity: &HazardEntity) -> (r: Option<usize>)
        ensures
            r.is_some() == self@.dom().contains(*entity),
            r.is_some() ==> r.unwrap() < self.hazards@.len() && self.hazards@[r.unwrap() as int].entity
                == *entity,
    {
        let mut k: usize = 0;
        while k < self.hazards.len()
            invariant
                k <= self.hazards@.len(),
                forall|j: int| 0 <= j < k ==> (#[trigger] self.hazards@[j]).entity != *entity,
            decreases self.hazards@.len() - k,
        {
            if self.hazards[k].entity == *entity {
                proof {
                    assert(entries_of(self.hazards@)[k as int].0 == *entity);
                }
                return Some(k);
            }
            k += 1;
        }
        proof {
            if self@.dom().contains(*entity) {
                let j = self.lemma_dom(*entity);
                assert(self.hazards@[j].entity == *entity);
            }
        }
        None
    }

    /// Records the hazard in every node below and including this one whose
    /// rectangle the shape reaches into.
    pub fn register_hazard(&mut self, entity: HazardEntity, shape: &Shape)
        requires
            old(self).wf(),
            shape.wf(),
            !old(self)@.dom().contains(entity),
        ensures
            final(self).wf(),
            final(self).bbox() == old(self).bbox(),
            final(self).level() == old(self).level(),
            final(self).is_leaf() == old(self).is_leaf(),
            final(self)@ == registered(old(self)@, entity, shape@, old(self).bbox()@),
        decreases old(self).level(),
    {
        let parts = shape.clip_to(&self.bbox);
        if parts.len() == 0 {
            return ;
        }
        let record = QTHazard::new(entity, parts, &self.bbox);
        let ghost before = *self;
        let ghost cells = record.cells();
        proof {
            lemma_as_map_push(entries_of(self.hazards@), entity, cells);
        }
        self.hazards.push(record);
        proof {
            assert(entries_of(self.hazards@) =~= entries_of(before.hazards@).push((entity, cells)));
            assert(self@ == registered(before@, entity, shape@, before.bbox@));
        }
        match &mut self.children {
            Some(ch) => {
                proof {
                    let q = Quadrants {
                        sw: ch.sw.bbox,
                        se: ch.se.bbox,
                        nw: ch.nw.bbox,
                        ne: ch.ne.bbox,
                    };
                    q.lemma_quarters_within(before.bbox);
                    lemma_clip_registered(before@, entity, shape@, before.bbox@, ch.sw.bbox@);
                    lemma_clip_registered(before@, entity, shape@, before.bbox@, ch.se.bbox@);
                    lemma_clip_registered(before@, entity, shape@, before.bbox@, ch.nw.bbox@);
                    lemma_clip_registered(before@, entity, shape@, before.bbox@, ch.ne.bbox@);
                }
                ch.sw.register_hazard(entity, shape);
                ch.se.register_hazard(entity, shape);
                ch.nw.register_hazard(entity, shape);
                ch.ne.register_hazard(entity, shape);
            },
            None => {},
        }
    }

    /// Removes the hazard from every node below and including this one that
    /// records it. The tree is unchanged if the hazard is not registered.
    pub fn deregister_hazard(&mut self, entity: HazardEntity)
        requires
            old(self).wf(),
        ensures
            final(self).wf(),
            final(self).bbox() == old(self).bbox(),
            final(self).level() == old(self).level(),
            final(self).is_leaf() == old(self).is_leaf(),
            final(self)@ == old(self)@.remove(entity),
        decreases old(self).level(),
    {
        let ghost before = *self;
        match self.find(&entity) {
            None => {
                proof {
                    assert(before@.remove(entity) =~= before@);
                }
            },
            Some(k) => {
                proof {
                    assert(entries_of(self.hazards@)[k as int].0 == entity);
                    lemma_as_map_remove(entries_of(self.hazards@), k as int);
                }
                self.hazards.remove(k);
                proof {
                    assert(entries_of(self.hazards@) =~= entries_of(before.hazards@).remove(
                        k as int,
                    ));
                }
                match &mut self.children {
                    Some(ch) => {
                        proof {
                            lemma_clip_remove(before@, entity, ch.sw.bbox@);
                            lemma_clip_remove(before@, entity, ch.se.bbox@);
                            lemma_clip_remove(before@, entity, ch.nw.bbox@);
                            lemma_clip_remove(before@, entity, ch.ne.bbox@);
                        }
                        ch.sw.deregister_hazard(entity);
                        ch.se.deregister_hazard(entity);
                        ch.nw.deregister_hazard(entity);
                        ch.ne.deregister_hazard(entity);
                    },
                    None => {},
                }
            },
        }
    }

    /// Whether any record is relevant under `filter`, and whether a relevant
    /// record is known to cover the node's rectangle.
    fn scan<F: HazardFilter>(&self, filter: &F) -> (r: (bool, bool))
        ensures
            r.0 == exists|k: int|
                0 <= k < self.hazards@.len() && !filter.irrelevant(
                    (#[trigger] self.hazards@[k]).entity,
                ),
            r.1 ==> exists|k: int|
                0 <= k < self.hazards@.len() && !filter.irrelevant(
                    (#[trigger] self.hazards@[k]).entity,
                ) && self.hazards@[k].entire,
    {
        let mut relevant = false;
        let mut k: usize = 0;
        while k < self.hazards.len()
            invariant
                k <= self.hazards@.len(),
                relevant == exists|j: int|
                    0 <= j < k && !filter.irrelevant((#[trigger] self.hazards@[j]).entity),
            decreases self.hazards@.len() - k,
        {
            if !filter.is_irrelevant(&self.hazards[k].entity) {
                if self.hazards[k].entire {
                    return (true, true);
                }
                relevant = true;
            }
            k += 1;
        }
        (relevant, false)
    }

    /// The exact test at a leaf: `probe` against the recorded parts of each
    /// relevant hazard.
    fn leaf_collides<P: QTQueryable, F: HazardFilter>(&self, probe: &P, filter: &F) -> (r: bool)
        requires
            self.wf(),
            probe.valid(),
        ensures
            r == collides_in(self@, probe.cells(), filter),
    {
        let mut k: usize = 0;
        while k < self.hazards.len()
            invariant
                k <= self.hazards@.len(),
                self.wf(),
                probe.valid(),
                forall|j: int|
                    0 <= j < k ==> filter.irrelevant((#[trigger] self.hazards@[j]).entity)
                        || !overlap(probe.cells(), self.hazards@[j].cells()),
            decreases self.hazards@.len() - k,
        {
            if !filter.is_irrelevant(&self.hazards[k].entity) {
                if self.hazards[k].collides_with(probe) {
                    proof {
                        self.lemma_entry(k as int);
                    }
                    return true;
                }
            }
            k += 1;
        }
        proof {
            if collides_in(self@, probe.cells(), filter) {
                let e = choose|e: HazardEntity|
                    #[trigger] self@.dom().contains(e) && !filter.irrelevant(e) && overlap(
                        probe.cells(),
                        self@[e],
                    );
                let j = self.lemma_dom(e);
                self.lemma_entry(j);
            }
        }
        false
    }

    /// Whether `probe` shares a cell, inside the node's rectangle, with a
    /// hazard that `filter` leaves relevant.
    ///
    /// A node in which nothing relevant is registered answers at once,
    /// without a look at its children, and so does a node whose rectangle
    /// the probe does not reach, or one that a relevant hazard covers.
    pub fn collides<P: QTQueryable, F: HazardFilter>(&self, probe: &P, filter: &F) -> (r: bool)
        requires
            self.wf(),
            probe.valid(),
        ensures
            r == collides_in(self@, probe.cells(), filter),
        decreases self.level(),
    {
        if self.is_clear() {
            return false;
        }
        proof {
            self.lemma_cells_in_bbox();
        }
        if !probe.collides_with_rect(&self.bbox) {
            proof {
                if collides_in(self@, probe.cells(), filter) {
                    let e = choose|e: HazardEntity|
                        #[trigger] self@.dom().contains(e) && !filter.irrelevant(e) && overlap(
                            probe.cells(),
                            self@[e],
                        );
                    let c = choose|c: Cell| #[trigger]
                        probe.cells().contains(c) && self@[e].contains(c);
                    assert(probe.cells().contains(c) && self.bbox@.contains(c));
                }
            }
            return false;
        }
        let (relevant, covered) = self.scan(filter);
        if covered {
            proof {
                let k = choose|k: int|
                    0 <= k < self.hazards@.len() && !filter.irrelevant(
                        (#[trigger] self.hazards@[k]).entity,
                    ) && self.hazards@[k].entire;
                self.lemma_entry(k);
                assert(self.hazards@[k].wf(self.bbox));
            }
            return true;
        }
        if !relevant {
            proof {
                if collides_in(self@, probe.cells(), filter) {
                    let e = choose|e: HazardEntity|
                        #[trigger] self@.dom().contains(e) && !filter.irrelevant(e) && overlap(
                            probe.cells(),
                            self@[e],
                        );
                    let j = self.lemma_dom(e);
                    assert(!filter.irrelevant(self.hazards@[j].entity));
                }
            }
            return false;
        }
        match &self.children {
            None => self.leaf_collides(probe, filter),
            Some(ch) => {
                proof {
                    let q = Quadrants {
                        sw: ch.sw.bbox,
                        se: ch.se.bbox,
                        nw: ch.nw.bbox,
                        ne: ch.ne.bbox,
                    };
                    lemma_collides_by_quarters(self@, probe.cells(), filter, self.bbox, q);
                }
                ch.sw.collides(probe, filter) || ch.se.collides(probe, filter) || ch.nw.collides(
                    probe,
                    filter,
                ) || ch.ne.collides(probe, filter)
            },
        }
    }

    /// Adds to `out` every hazard that `filter` leaves relevant and that
    /// shares a cell with `probe` inside the node's rectangle. What `out`
    /// holds already stays, and no hazard is added twice.
    pub fn collect_collisions<P: QTQueryable, F: HazardFilter>(
        &self,
        probe: &P,
        filter: &F,
        out: &mut Vec<HazardEntity>,
    )
        requires
            self.wf(),
            probe.valid(),
            old(out)@.no_duplicates(),
        ensures
            final(out)@.no_duplicates(),
            forall|e: HazardEntity|
                final(out)@.contains(e) == (old(out)@.contains(e) || hit(
                    self@,
                    probe.cells(),
                    filter,
                    e,
                )),
        decreases self.level(),
    {
        if self.is_clear() {
            return ;
        }
        proof {
            self.lemma_cells_in_bbox();
        }
        if !probe.collides_with_rect(&self.bbox) {
            proof {
                assert forall|e: HazardEntity| !hit(self@, probe.cells(), filter, e) by {
                    if hit(self@, probe.cells(), filter, e) {
                        let c = choose|c: Cell| #[trigger]
                            probe.cells().contains(c) && self@[e].contains(c);
                        assert(probe.cells().contains(c) && self.bbox@.contains(c));
                    }
                }
            }
            return ;
        }
        let leaf = self.children.is_none();
        let mut pending = false;
        let mut k: usize = 0;
        while k < self.hazards.len()
            invariant
                k <= self.hazards@.len(),
                self.wf(),
                probe.valid(),
                leaf == self.children.is_none(),
                overlap(probe.cells(), self.bbox@),
                out@.no_duplicates(),
                forall|e: HazardEntity| old(out)@.contains(e) ==> out@.contains(e),
                forall|e: HazardEntity|
                    out@.contains(e) ==> old(out)@.contains(e) || hit(
                        self@,
                        probe.cells(),
                        filter,
                        e,
                    ),
                forall|j: int|
                    0 <= j < k && hit(
                        self@,
                        probe.cells(),
                        filter,
                        (#[trigger] self.hazards@[j]).entity,
                    ) ==> pending || out@.contains(self.hazards@[j].entity),
                leaf ==> !pending,
            decreases self.hazards@.len() - k,
        {
            let record = &self.hazards[k];
            proof {
                self.lemma_entry(k as int);
                assert(record.wf(self.bbox));
            }
            if !filter.is_irrelevant(&record.entity) && !contains_entity(out, &record.entity) {
                let found = if record.entire {
                    true
                } else if leaf {
                    record.collides_with(probe)
                } else {
                    pending = true;
                    false
                };
                if found {
                    let ghost before = out@;
                    out.push(record.entity);
                    proof {
                        assert forall|e: HazardEntity|
                            out@.contains(e) == (before.contains(e) || e == record.entity) by {
                            if before.contains(e) {
                                let j = choose|j: int| 0 <= j < before.len() && before[j] == e;
                                assert(out@[j] == e);
                            }
                            if e == record.entity {
                                assert(out@[before.len() as int] == e);
                            }
                        }
                    }
                }
            }
            k += 1;
        }
        proof {
            assert forall|e: HazardEntity| hit(self@, probe.cells(), filter, e) implies pending
                || out@.contains(e) by {
                let j = self.lemma_dom(e);
                assert(self.hazards@[j].entity == e);
            }
        }
        if !pending {
            return ;
        }
        match &self.children {
            None => {},
            Some(ch) => {
                proof {
                    let q = Quadrants {
                        sw: ch.sw.bbox,
                        se: ch.se.bbox,
                        nw: ch.nw.bbox,
                        ne: ch.ne.bbox,
                    };
                    assert forall|e: HazardEntity|
                        hit(self@, probe.cells(), filter, e) == (hit(
                            ch.sw@,
                            probe.cells(),
                            filter,
                            e,
                        ) || hit(ch.se@, probe.cells(), filter, e) || hit(
                            ch.nw@,
                            probe.cells(),
                            filter,
                            e,
                        ) || hit(ch.ne@, probe.cells(), filter, e)) by {
                        lemma_hit_by_quarters(self@, probe.cells(), filter, self.bbox, q, e);
                    }
                }
                ch.sw.collect_collisions(probe, filter, out);
                ch.se.collect_collisions(probe, filter, out);
                ch.nw.collect_collisions(probe, filter, out);
                ch.ne.collect_collisions(probe, filter, out);
            },
        }
    }
}

} // verus!
