use vstd::prelude::*;
use crate::collision_detection::hazard::HazardEntity;
use crate::collision_detection::hazard_filter::HazardFilter;
use crate::geometry::aa_rectangle::{AARectangle, Quadrants};
use crate::geometry::cell::{overlap, Cell};

verus! {

/// The model of a set of hazards: each registered entity with the cells it
/// occupies. An entity occurs at most once.
pub type HazardMap = Map<HazardEntity, Set<Cell>>;

/// Whether `probe` shares a cell with a hazard of `hazards` that `filter`
/// leaves relevant.
pub open spec fn collides_in<F: HazardFilter>(hazards: HazardMap, probe: Set<Cell>, filter: &F) -> bool {
    exists|e: HazardEntity|
        #[trigger] hazards.dom().contains(e) && !filter.irrelevant(e) && overlap(probe, hazards[e])
}

/// Whether `entity` is a hazard of `hazards` that `filter` leaves relevant
/// and that shares a cell with `probe`.
pub open spec fn hit<F: HazardFilter>(hazards: HazardMap, probe: Set<Cell>, filter: &F, entity: HazardEntity) -> bool {
    hazards.dom().contains(entity) && !filter.irrelevant(entity) && overlap(probe, hazards[entity])
}

/// The cells occupied by at least one hazard.
pub open spec fn occupied(hazards: HazardMap) -> Set<Cell> {
    Set::new(|c: Cell| exists|e: HazardEntity| #[trigger] hazards.dom().contains(e) && hazards[e].contains(c))
}

/// What is seen of a set of hazards through a window: the hazards that
/// reach into the window, each cut down to its part inside.
pub open spec fn clip_map(hazards: HazardMap, window: Set<Cell>) -> HazardMap {
    Map::new(
        |e: HazardEntity| hazards.dom().contains(e) && overlap(hazards[e], window),
        |e: HazardEntity| hazards[e].intersect(window),
    )
}

/// The hazards seen through a window after a new hazard was registered:
/// the hazard is added, cut down to the window, if it reaches into it.
pub open spec fn registered(seen: HazardMap, entity: HazardEntity, cells: Set<Cell>, window: Set<Cell>) -> HazardMap {
    if overlap(cells, window) {
        seen.insert(entity, cells.intersect(window))
    } else {
        seen
    }
}

/// A list of hazards, as the index stores them: entity and cells.
pub type Entries = Seq<(HazardEntity, Set<Cell>)>;

/// No entity occurs twice in the list.
pub open spec fn distinct(entries: Entries) -> bool {
    forall|i: int, j: int|
        0 <= i < j < entries.len() ==> (#[trigger] entries[i]).0 != (#[trigger] entries[j]).0
}

/// Where `entity` stands in the list.
pub open spec fn position(entries: Entries, entity: HazardEntity) -> int {
    choose|k: int| 0 <= k < entries.len() && (#[trigger] entries[k]).0 == entity
}

/// The list read as a map.
pub open spec fn as_map(entries: Entries) -> HazardMap {
    Map::new(
        |e: HazardEntity| exists|k: int| 0 <= k < entries.len() && (#[trigger] entries[k]).0 == e,
        |e: HazardEntity| entries[position(entries, e)].1,
    )
}

pub proof fn lemma_as_map_lookup(entries: Entries, k: int)
    requires
        distinct(entries),
        0 <= k < entries.len(),
    ensures
        as_map(entries).dom().contains(entries[k].0),
        as_map(entries)[entries[k].0] == entries[k].1,
        position(entries, entries[k].0) == k,
{
    let e = entries[k].0;
    let p = position(entries, e);
    assert(0 <= p < entries.len() && entries[p].0 == e);
    if p < k {
        assert(entries[p].0 != entries[k].0);
    } else if k < p {
        assert(entries[k].0 != entries[p].0);
    }
}

pub proof fn lemma_as_map_push(entries: Entries, entity: HazardEntity, cells: Set<Cell>)
    requires
        distinct(entries),
        !as_map(entries).dom().contains(entity),
    ensures
        distinct(entries.push((entity, cells))),
        as_map(entries.push((entity, cells))) == as_map(entries).insert(entity, cells),
{
    let after = entries.push((entity, cells));
    assert forall|i: int, j: int| 0 <= i < j < after.len() implies (#[trigger] after[i]).0 != (
    #[trigger] after[j]).0 by {
        assert(after[i] == entries[i]);
        if j < entries.len() {
            assert(after[j] == entries[j]);
        } else {
            assert(as_map(entries).dom().contains(entries[i].0));
        }
    }
    assert forall|e: HazardEntity|
        as_map(after).dom().contains(e) == as_map(entries).insert(entity, cells).dom().contains(
            e,
        ) by {
        if as_map(after).dom().contains(e) {
            let k = choose|k: int| 0 <= k < after.len() && (#[trigger] after[k]).0 == e;
            if k < entries.len() {
                assert(entries[k].0 == e);
            }
        }
        if as_map(entries).dom().contains(e) {
            let k = choose|k: int| 0 <= k < entries.len() && (#[trigger] entries[k]).0 == e;
            assert(after[k].0 == e);
        }
        if e == entity {
            assert(after[entries.len() as int].0 == e);
        }
    }
    assert forall|e: HazardEntity| as_map(after).dom().contains(e) implies as_map(after)[e]
        == as_map(entries).insert(entity, cells)[e] by {
        let k = position(after, e);
        assert(0 <= k < after.len() && after[k].0 == e);
        lemma_as_map_lookup(after, k);
        if k < entries.len() {
            assert(entries[k] == after[k]);
            lemma_as_map_lookup(entries, k);
        }
    }
    assert(as_map(after) =~= as_map(entries).insert(entity, cells));
}

pub proof fn lemma_as_map_prepend(entries: Entries, entity: HazardEntity, cells: Set<Cell>)
    requires
        distinct(entries),
        !as_map(entries).dom().contains(entity),
    ensures
        distinct(seq![(entity, cells)] + entries),
        as_map(seq![(entity, cells)] + entries) == as_map(entries).insert(entity, cells),
{
    let after = seq![(entity, cells)] + entries;
    assert forall|i: int, j: int| 0 <= i < j < after.len() implies (#[trigger] after[i]).0 != (
    #[trigger] after[j]).0 by {
        assert(after[j] == entries[j - 1]);
        if i > 0 {
            assert(after[i] == entries[i - 1]);
        } else {
            assert(as_map(entries).dom().contains(entries[j - 1].0));
        }
    }
    assert forall|e: HazardEntity|
        as_map(after).dom().contains(e) == as_map(entries).insert(entity, cells).dom().contains(
            e,
        ) by {
        if as_map(after).dom().contains(e) {
            let k = choose|k: int| 0 <= k < after.len() && (#[trigger] after[k]).0 == e;
            if k > 0 {
                assert(entries[k - 1].0 == e);
            }
        }
        if as_map(entries).dom().contains(e) {
            let k = choose|k: int| 0 <= k < entries.len() && (#[trigger] entries[k]).0 == e;
            assert(after[k + 1].0 == e);
        }
        if e == entity {
            assert(after[0].0 == e);
        }
    }
    assert forall|e: HazardEntity| as_map(after).dom().contains(e) implies as_map(after)[e]
        == as_map(entries).insert(entity, cells)[e] by {
        let k = position(after, e);
        assert(0 <= k < after.len() && after[k].0 == e);
        lemma_as_map_lookup(after, k);
        if k > 0 {
            assert(entries[k - 1] == after[k]);
            lemma_as_map_lookup(entries, k - 1);
        }
    }
    assert(as_map(after) =~= as_map(entries).insert(entity, cells));
}

pub proof fn lemma_as_map_remove(entries: Entries, k: int)
    requires
        distinct(entries),
        0 <= k < entries.len(),
    ensures
        distinct(entries.remove(k)),
        as_map(entries.remove(k)) == as_map(entries).remove(entries[k].0),
{
    let after = entries.remove(k);
    let gone = entries[k].0;
    assert forall|i: int, j: int| 0 <= i < j < after.len() implies (#[trigger] after[i]).0 != (
    #[trigger] after[j]).0 by {
        let i0 = if i < k { i } else { i + 1 };
        let j0 = if j < k { j } else { j + 1 };
        assert(after[i] == entries[i0]);
        assert(after[j] == entries[j0]);
    }
    assert forall|e: HazardEntity|
        as_map(after).dom().contains(e) == as_map(entries).remove(gone).dom().contains(e) by {
        if as_map(after).dom().contains(e) {
            let i = choose|i: int| 0 <= i < after.len() && (#[trigger] after[i]).0 == e;
            let i0 = if i < k { i } else { i + 1 };
            assert(entries[i0] == after[i]);
            if i0 < k {
                assert(entries[i0].0 != entries[k].0);
            } else {
                assert(entries[k].0 != entries[i0].0);
            }
        }
        if as_map(entries).remove(gone).dom().contains(e) {
            let i0 = choose|i: int| 0 <= i < entries.len() && (#[trigger] entries[i]).0 == e;
            let i = if i0 < k { i0 } else { i0 - 1 };
            assert(after[i] == entries[i0]);
        }
    }
    assert forall|e: HazardEntity| as_map(after).dom().contains(e) implies as_map(after)[e]
        == as_map(entries).remove(gone)[e] by {
        let i = position(after, e);
        assert(0 <= i < after.len() && after[i].0 == e);
        lemma_as_map_lookup(after, i);
        let i0 = if i < k { i } else { i + 1 };
        assert(entries[i0] == after[i]);
        lemma_as_map_lookup(entries, i0);
    }
    assert(as_map(after) =~= as_map(entries).remove(gone));
}

/// Seen through a smaller window inside the first, a newly registered
/// hazard shows as it would have if it were registered there directly.
pub proof fn lemma_clip_registered(all: HazardMap, entity: HazardEntity, cells: Set<Cell>, outer: Set<Cell>, inner: Set<Cell>)
    requires
        inner.subset_of(outer),
        !all.dom().contains(entity),
    ensures
        clip_map(registered(all, entity, cells, outer), inner) == registered(
            clip_map(all, inner),
            entity,
            cells,
            inner,
        ),
{
    let lhs = clip_map(registered(all, entity, cells, outer), inner);
    let rhs = registered(clip_map(all, inner), entity, cells, inner);
    if overlap(cells, inner) {
        let c = choose|c: Cell| #[trigger] cells.contains(c) && inner.contains(c);
        assert(cells.contains(c) && outer.contains(c));
        assert(cells.intersect(outer).contains(c) && inner.contains(c));
        assert(overlap(cells.intersect(outer), inner));
    }
    if overlap(cells, outer) && overlap(cells.intersect(outer), inner) {
        let c = choose|c: Cell| #[trigger]
            cells.intersect(outer).contains(c) && inner.contains(c);
        assert(cells.contains(c) && inner.contains(c));
    }
    assert(cells.intersect(outer).intersect(inner) =~= cells.intersect(inner));
    assert(lhs =~~= rhs);
}

/// Seen through a window, a deregistered hazard is gone and the others are
/// as before.
pub proof fn lemma_clip_remove(all: HazardMap, entity: HazardEntity, window: Set<Cell>)
    ensures
        clip_map(all.remove(entity), window) == clip_map(all, window).remove(entity),
{
    assert(clip_map(all.remove(entity), window) =~~= clip_map(all, window).remove(entity));
}

/// A probe collides with hazards that lie in a rectangle exactly when it
/// collides with what is seen of them through one of the rectangle's
/// quarters.
pub proof fn lemma_collides_by_quarters<F: HazardFilter>(
    hazards: HazardMap,
    probe: Set<Cell>,
    filter: &F,
    whole: AARectangle,
    q: Quadrants,
)
    requires
        q.partitions(whole),
        forall|e: HazardEntity| #[trigger] hazards.dom().contains(e) ==> hazards[e].subset_of(whole@),
    ensures
        collides_in(hazards, probe, filter) == (collides_in(clip_map(hazards, q.sw@), probe, filter)
            || collides_in(clip_map(hazards, q.se@), probe, filter) || collides_in(
            clip_map(hazards, q.nw@),
            probe,
            filter,
        ) || collides_in(clip_map(hazards, q.ne@), probe, filter)),
{
    if collides_in(hazards, probe, filter) {
        let e = choose|e: HazardEntity|
            #[trigger] hazards.dom().contains(e) && !filter.irrelevant(e) && overlap(
                probe,
                hazards[e],
            );
        let c = choose|c: Cell| #[trigger] probe.contains(c) && hazards[e].contains(c);
        assert(whole@.contains(c));
        if q.sw@.contains(c) {
            lemma_seen_through(hazards, probe, filter, q.sw@, e, c);
        } else if q.se@.contains(c) {
            lemma_seen_through(hazards, probe, filter, q.se@, e, c);
        } else if q.nw@.contains(c) {
            lemma_seen_through(hazards, probe, filter, q.nw@, e, c);
        } else {
            lemma_seen_through(hazards, probe, filter, q.ne@, e, c);
        }
    }
    lemma_collides_clipped(hazards, probe, filter, q.sw@);
    lemma_collides_clipped(hazards, probe, filter, q.se@);
    lemma_collides_clipped(hazards, probe, filter, q.nw@);
    lemma_collides_clipped(hazards, probe, filter, q.ne@);
}

/// A collision in a cell of the window is seen through the window.
pub proof fn lemma_seen_through<F: HazardFilter>(
    hazards: HazardMap,
    probe: Set<Cell>,
    filter: &F,
    window: Set<Cell>,
    e: HazardEntity,
    c: Cell,
)
    requires
        hazards.dom().contains(e),
        !filter.irrelevant(e),
        probe.contains(c),
        hazards[e].contains(c),
        window.contains(c),
    ensures
        collides_in(clip_map(hazards, window), probe, filter),
{
    let seen = clip_map(hazards, window);
    assert(hazards[e].contains(c) && window.contains(c));
    assert(seen.dom().contains(e));
    assert(probe.contains(c) && seen[e].contains(c));
}

/// A collision seen through a window is a collision.
pub proof fn lemma_collides_clipped<F: HazardFilter>(
    hazards: HazardMap,
    probe: Set<Cell>,
    filter: &F,
    window: Set<Cell>,
)
    ensures
        collides_in(clip_map(hazards, window), probe, filter) ==> collides_in(
            hazards,
            probe,
            filter,
        ),
{
    let seen = clip_map(hazards, window);
    if collides_in(seen, probe, filter) {
        let e = choose|e: HazardEntity|
            #[trigger] seen.dom().contains(e) && !filter.irrelevant(e) && overlap(probe, seen[e]);
        let c = choose|c: Cell| #[trigger] probe.contains(c) && seen[e].contains(c);
        assert(hazards.dom().contains(e));
        assert(probe.contains(c) && hazards[e].contains(c));
    }
}

/// A probe hits a hazard that lies in a rectangle exactly when it hits what
/// is seen of the hazard through one of the rectangle's quarters.
pub proof fn lemma_hit_by_quarters<F: HazardFilter>(
    hazards: HazardMap,
    probe: Set<Cell>,
    filter: &F,
    whole: AARectangle,
    q: Quadrants,
    e: HazardEntity,
)
    requires
        q.partitions(whole),
        hazards.dom().contains(e) ==> hazards[e].subset_of(whole@),
    ensures
        hit(hazards, probe, filter, e) == (hit(clip_map(hazards, q.sw@), probe, filter, e) || hit(
            clip_map(hazards, q.se@),
            probe,
            filter,
            e,
        ) || hit(clip_map(hazards, q.nw@), probe, filter, e) || hit(
            clip_map(hazards, q.ne@),
            probe,
            filter,
            e,
        )),
{
    if hit(hazards, probe, filter, e) {
        let c = choose|c: Cell| #[trigger] probe.contains(c) && hazards[e].contains(c);
        assert(whole@.contains(c));
        let w = if q.sw@.contains(c) {
            q.sw@
        } else if q.se@.contains(c) {
            q.se@
        } else if q.nw@.contains(c) {
            q.nw@
        } else {
            q.ne@
        };
        assert(hazards[e].contains(c) && w.contains(c));
        assert(probe.contains(c) && clip_map(hazards, w)[e].contains(c));
        assert(hit(clip_map(hazards, w), probe, filter, e));
    }
    lemma_hit_clipped(hazards, probe, filter, q.sw@, e);
    lemma_hit_clipped(hazards, probe, filter, q.se@, e);
    lemma_hit_clipped(hazards, probe, filter, q.nw@, e);
    lemma_hit_clipped(hazards, probe, filter, q.ne@, e);
}

/// A hit seen through a window is a hit.
pub proof fn lemma_hit_clipped<F: HazardFilter>(
    hazards: HazardMap,
    probe: Set<Cell>,
    filter: &F,
    window: Set<Cell>,
    e: HazardEntity,
)
    ensures
        hit(clip_map(hazards, window), probe, filter, e) ==> hit(hazards, probe, filter, e),
{
    let seen = clip_map(hazards, window);
    if hit(seen, probe, filter, e) {
        let c = choose|c: Cell| #[trigger] probe.contains(c) && seen[e].contains(c);
        assert(probe.contains(c) && hazards[e].contains(c));
    }
}

} // verus!
