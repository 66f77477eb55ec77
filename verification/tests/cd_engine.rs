use jagua_rs::collision_detection::cd_engine::{CDEError, CDEngine};
use jagua_rs::collision_detection::hazard::{Hazard, HazardEntity};
use jagua_rs::collision_detection::hazard_filter::{
    BinHazardFilter, CombinedHazardFilter, EntityHazardFilter, NoHazardFilter, QZHazardFilter,
};
use jagua_rs::entities::item::Item;
use jagua_rs::geometry::aa_rectangle::AARectangle;
use jagua_rs::geometry::point::Point;
use jagua_rs::geometry::shape::Shape;
use jagua_rs::geometry::transformation::{Rotation, Transformation};
use jagua_rs::util::config::{CDEConfig, HazProxConfig, QuadTreeConfig, SPSurrogateConfig};

fn rect(x_min: i32, y_min: i32, x_max: i32, y_max: i32) -> AARectangle {
    AARectangle::new(x_min, y_min, x_max, y_max).unwrap()
}

fn square(x: i32, y: i32, side: i32) -> Shape {
    Shape::from_rect(rect(x, y, x + side, y + side))
}

fn config(depth: u8) -> CDEConfig {
    CDEConfig {
        quadtree: QuadTreeConfig::FixedDepth(depth),
        haz_prox: HazProxConfig::Disabled,
        item_surrogate_config: SPSurrogateConfig {
            pole_coverage_goal: 90,
            max_poles: 10,
            n_ff_poles: 1,
            n_ff_piers: 1,
        },
    }
}

fn sorted(mut entities: Vec<HazardEntity>) -> Vec<HazardEntity> {
    entities.sort_by_key(|e| format!("{:?}", e));
    entities
}

/// The hazards of a 20x20 bin with a hole of 4x4 in its middle and a zone of
/// quality 3 in its upper right corner.
fn bin_hazards() -> Vec<Hazard> {
    let exterior = Shape::new(vec![
        rect(i32::MIN, i32::MIN, 0, i32::MAX),
        rect(20, i32::MIN, i32::MAX, i32::MAX),
        rect(0, i32::MIN, 20, 0),
        rect(0, 20, 20, i32::MAX),
    ])
    .unwrap();
    vec![
        Hazard::new(HazardEntity::BinExterior, exterior),
        Hazard::new(HazardEntity::BinHole { id: 0 }, square(8, 8, 4)),
        Hazard::new(HazardEntity::QualityZoneInferior { quality: 3, id: 0 }, square(15, 15, 5)),
    ]
}

fn engine(depth: u8) -> CDEngine {
    CDEngine::new(rect(0, 0, 20, 20), bin_hazards(), config(depth)).ok().unwrap()
}

#[test]
fn engine_refuses_two_hazards_of_one_entity() {
    let mut hazards = bin_hazards();
    hazards.push(Hazard::new(HazardEntity::BinHole { id: 0 }, square(1, 1, 1)));
    assert_eq!(
        CDEngine::new(rect(0, 0, 20, 20), hazards, config(3)).err(),
        Some(CDEError::AlreadyRegistered(HazardEntity::BinHole { id: 0 }))
    );
    let cde = CDEngine::new(rect(0, 0, 20, 20), vec![], config(3)).ok().unwrap();
    assert!(cde.all_hazards().is_empty());
    assert_eq!(cde.bounding_box(), rect(0, 0, 20, 20));
    assert_eq!(cde.get_config(), config(3));
}

#[test]
fn insert_twice_and_remove_unknown_fail() {
    let mut cde = engine(3);
    assert_eq!(cde.insert_placed_item(4, square(1, 1, 2)), Ok(()));
    assert!(cde.is_registered(&HazardEntity::PlacedItem(4)));
    assert_eq!(
        cde.insert_placed_item(4, square(5, 5, 2)),
        Err(CDEError::AlreadyRegistered(HazardEntity::PlacedItem(4)))
    );
    // the failed insertion changed nothing
    assert!(!cde.shape_collides(&square(5, 5, 2), &NoHazardFilter));
    assert!(cde.shape_collides(&square(1, 1, 2), &NoHazardFilter));
    assert_eq!(
        cde.remove_placed_item(5),
        Err(CDEError::NotRegistered(HazardEntity::PlacedItem(5)))
    );
    assert_eq!(cde.remove_placed_item(4), Ok(()));
    assert!(!cde.is_registered(&HazardEntity::PlacedItem(4)));
    assert_eq!(
        cde.remove_placed_item(4),
        Err(CDEError::NotRegistered(HazardEntity::PlacedItem(4)))
    );
    assert_eq!(cde.all_hazards().len(), 3);
    let hole = cde.deregister_hazard(HazardEntity::BinHole { id: 0 }).unwrap();
    assert_eq!(hole.entity, HazardEntity::BinHole { id: 0 });
    assert_eq!(hole.shape.boxes, vec![rect(8, 8, 12, 12)]);
    assert!(!cde.shape_collides(&square(9, 9, 2), &NoHazardFilter));
}

#[test]
fn unit_square_in_a_bin_with_a_hole() {
    // The bin is [0,10]x[0,10] with the hole [4,6]x[4,6], on a grid of
    // half units: a unit square is two cells wide.
    for depth in 0..6 {
        let mut cde = engine(depth);
        let unit_at_origin = square(0, 0, 2);
        let unit_in_hole = square(9, 9, 2);
        assert!(!cde.shape_collides(&unit_at_origin, &NoHazardFilter));
        assert!(cde.hazards_within(&unit_at_origin, &NoHazardFilter).is_empty());
        assert!(cde.shape_collides(&unit_in_hole, &NoHazardFilter));
        assert_eq!(
            cde.hazards_within(&unit_in_hole, &NoHazardFilter),
            vec![HazardEntity::BinHole { id: 0 }]
        );
        // place the square in the hole, and remove it again
        assert_eq!(cde.insert_placed_item(0, unit_in_hole.duplicate()), Ok(()));
        assert!(cde.shape_collides(&unit_in_hole, &BinHazardFilter));
        assert_eq!(
            sorted(cde.hazards_within(&unit_in_hole, &NoHazardFilter)),
            vec![HazardEntity::BinHole { id: 0 }, HazardEntity::PlacedItem(0)]
        );
        assert_eq!(cde.remove_placed_item(0), Ok(()));
        // no collision with the removed placement is left
        assert!(!cde.shape_collides(&unit_in_hole, &BinHazardFilter));
        // the hole stays where it was
        assert_eq!(
            cde.hazards_within(&unit_in_hole, &NoHazardFilter),
            vec![HazardEntity::BinHole { id: 0 }]
        );
        assert!(!cde.shape_collides(&unit_at_origin, &NoHazardFilter));
    }
}

#[test]
fn placements_that_share_an_edge_do_not_collide() {
    for depth in 0..6 {
        let mut cde = engine(depth);
        assert_eq!(cde.insert_placed_item(0, square(0, 0, 2)), Ok(()));
        // shares the edge x = 2
        assert!(!cde.shape_collides(&square(2, 0, 2), &NoHazardFilter));
        // overlaps in a strip of 1x2
        assert!(cde.shape_collides(&square(1, 0, 2), &NoHazardFilter));
        assert_eq!(
            cde.hazards_within(&square(1, 0, 2), &NoHazardFilter),
            vec![HazardEntity::PlacedItem(0)]
        );
        assert_eq!(cde.insert_placed_item(1, square(2, 0, 2)), Ok(()));
        let own = EntityHazardFilter::new().add(HazardEntity::PlacedItem(1));
        assert!(!cde.shape_collides(&square(2, 0, 2), &own));
        assert!(cde.shape_collides(&square(2, 0, 2), &NoHazardFilter));
        // shares the corner (2, 2) with the first and an edge with the second
        assert!(!cde.shape_collides(&square(2, 2, 2), &NoHazardFilter));
    }
}

#[test]
fn shape_outside_the_bin_collides_with_the_exterior() {
    for depth in [0u8, 3] {
        let cde = engine(depth);
        assert!(cde.shape_collides(&square(19, 0, 2), &NoHazardFilter));
        assert_eq!(
            cde.hazards_within(&square(19, 0, 2), &NoHazardFilter),
            vec![HazardEntity::BinExterior]
        );
        assert!(cde.shape_collides(&square(100, 100, 2), &NoHazardFilter));
        assert!(!cde.shape_collides(&square(100, 100, 2), &BinHazardFilter));
        assert!(!cde.shape_collides(&square(18, 0, 2), &NoHazardFilter));
        let far = Shape::from_rect(rect(i32::MIN, i32::MIN, i32::MIN + 1, i32::MIN + 1));
        assert!(cde.shape_collides(&far, &NoHazardFilter));
    }
}

#[test]
fn placed_item_outside_the_tree_is_still_found() {
    let mut cde = engine(3);
    assert_eq!(cde.insert_placed_item(9, square(30, 30, 4)), Ok(()));
    assert!(cde.shape_collides(&square(32, 32, 4), &BinHazardFilter));
    assert!(!cde.shape_collides(&square(34, 34, 4), &BinHazardFilter));
    assert_eq!(
        cde.hazards_within(&square(32, 32, 4), &BinHazardFilter),
        vec![HazardEntity::PlacedItem(9)]
    );
    assert!(!cde.shape_collides(&square(2, 2, 4), &BinHazardFilter));
}

#[test]
fn quality_zones_are_filtered_by_the_cutoff() {
    let cde = engine(4);
    let probe = square(16, 16, 2);
    assert!(cde.shape_collides(&probe, &NoHazardFilter));
    assert!(cde.shape_collides(&probe, &QZHazardFilter { cutoff_quality: 4 }));
    assert!(!cde.shape_collides(&probe, &QZHazardFilter { cutoff_quality: 3 }));
    assert!(!cde.shape_collides(&probe, &QZHazardFilter { cutoff_quality: 0 }));
    assert!(!cde.shape_collides(&probe, &BinHazardFilter));
    assert_eq!(
        cde.hazards_within(&probe, &QZHazardFilter { cutoff_quality: 4 }),
        vec![HazardEntity::QualityZoneInferior { quality: 3, id: 0 }]
    );
}

#[test]
fn unfiltered_query_sees_the_union_of_all_hazards() {
    // every cell of a probe grid collides exactly when a hazard covers it
    let mut cde = engine(4);
    assert_eq!(cde.insert_placed_item(0, square(2, 12, 3)), Ok(()));
    for x in -2..23 {
        for y in -2..23 {
            let in_bin = 0 <= x && x < 20 && 0 <= y && y < 20;
            let in_hole = 8 <= x && x < 12 && 8 <= y && y < 12;
            let in_zone = 15 <= x && x < 20 && 15 <= y && y < 20;
            let in_item = 2 <= x && x < 5 && 12 <= y && y < 15;
            let covered = !in_bin || in_hole || in_zone || in_item;
            assert_eq!(cde.shape_collides(&square(x, y, 1), &NoHazardFilter), covered);
            assert_eq!(cde.shape_collides(&square(x, y, 1), &BinHazardFilter), in_item);
        }
    }
}

#[test]
fn insert_then_remove_restores_every_answer() {
    let mut cde = engine(4);
    assert_eq!(cde.insert_placed_item(0, square(2, 12, 3)), Ok(()));
    let own = EntityHazardFilter::new().add(HazardEntity::PlacedItem(0));
    let mut before = vec![];
    for x in -2..23 {
        for y in -2..23 {
            let probe = square(x, y, 2);
            before.push((
                cde.shape_collides(&probe, &NoHazardFilter),
                cde.shape_collides(&probe, &BinHazardFilter),
                cde.shape_collides(&probe, &own),
                sorted(cde.hazards_within(&probe, &NoHazardFilter)),
            ));
        }
    }
    let l = Shape::new(vec![rect(1, 1, 3, 18), rect(3, 1, 18, 3)]).unwrap();
    assert_eq!(cde.insert_placed_item(1, l), Ok(()));
    assert!(cde.shape_collides(&square(1, 5, 1), &BinHazardFilter));
    assert_eq!(cde.remove_placed_item(1), Ok(()));
    let mut after = vec![];
    for x in -2..23 {
        for y in -2..23 {
            let probe = square(x, y, 2);
            after.push((
                cde.shape_collides(&probe, &NoHazardFilter),
                cde.shape_collides(&probe, &BinHazardFilter),
                cde.shape_collides(&probe, &own),
                sorted(cde.hazards_within(&probe, &NoHazardFilter)),
            ));
        }
    }
    assert_eq!(before, after);
}

#[test]
fn filter_that_marks_more_finds_no_more() {
    let mut cde = engine(4);
    assert_eq!(cde.insert_placed_item(0, square(2, 12, 3)), Ok(()));
    assert_eq!(cde.insert_placed_item(1, square(12, 2, 3)), Ok(()));
    let less = EntityHazardFilter::new().add(HazardEntity::PlacedItem(0));
    let bin = BinHazardFilter;
    let more = CombinedHazardFilter { filters: vec![Box::new(&less), Box::new(&bin)] };
    for x in -2..23 {
        for y in -2..23 {
            let probe = square(x, y, 2);
            if cde.shape_collides(&probe, &more) {
                assert!(cde.shape_collides(&probe, &less));
                assert!(cde.shape_collides(&probe, &bin));
                assert!(cde.shape_collides(&probe, &NoHazardFilter));
            }
        }
    }
    assert!(cde.shape_collides(&square(12, 2, 1), &more));
    assert!(!cde.shape_collides(&square(2, 12, 1), &more));
    assert!(cde.shape_collides(&square(2, 12, 1), &bin));
}

#[test]
fn fresh_engine_collides_with_the_bin_only() {
    let cde = engine(4);
    for x in -2..23 {
        for y in -2..23 {
            let probe = square(x, y, 3);
            assert!(!cde.shape_collides(&probe, &BinHazardFilter));
            let found = cde.hazards_within(&probe, &NoHazardFilter);
            for (i, e) in found.iter().enumerate() {
                assert!(!matches!(e, HazardEntity::PlacedItem(_)));
                assert!(!found[..i].contains(e));
            }
            assert_eq!(found.is_empty(), !cde.shape_collides(&probe, &NoHazardFilter));
        }
    }
}

#[test]
fn surrogate_never_reports_what_the_shape_does_not() {
    let mut cde = engine(4);
    assert_eq!(cde.insert_placed_item(0, square(2, 12, 3)), Ok(()));
    let shape = Shape::new(vec![rect(0, 0, 6, 6), rect(6, 2, 12, 4)]).unwrap();
    let item = Item::new(0, shape, vec![Rotation::R0], None, 1, config(4).item_surrogate_config);
    assert!(!item.surrogate.poles.is_empty());
    assert!(!item.surrogate.piers.is_empty());
    let mut hits = 0;
    let mut misses = 0;
    for rotation in [Rotation::R0, Rotation::R90, Rotation::R180, Rotation::R270] {
        for dx in -8..28 {
            for dy in -8..28 {
                let t = Transformation { rotation, translation: Point(dx, dy) };
                let exact = cde.shape_collides(&t.transform_shape(&item.shape).unwrap(), &NoHazardFilter);
                let fast = cde.surrogate_collides(&item.surrogate, &t, &NoHazardFilter);
                if fast {
                    assert!(exact);
                    hits += 1;
                } else if exact {
                    misses += 1;
                }
            }
        }
    }
    // the surrogate finds collisions, and misses some that the shape has
    assert!(hits > 0);
    assert!(misses > 0);
}

#[test]
fn surrogate_collides_where_its_pole_or_pier_does() {
    let mut cde = CDEngine::new(rect(0, 0, 64, 64), vec![], config(4)).ok().unwrap();
    assert_eq!(cde.insert_placed_item(0, square(30, 30, 4)), Ok(()));
    // a 10x10 square: the pole has radius 5 about (5, 5), the pier is the row y = 5
    let item = Item::new(0, square(0, 0, 10), vec![], None, 1, config(4).item_surrogate_config);
    // the pier, then the row y = 31 from x = 21 to x = 31, reaches the hazard;
    // the pole, about (26, 31), does not
    assert!(cde.surrogate_collides(&item.surrogate, &Transformation::translation(21, 26), &NoHazardFilter));
    // the corner of the square overlaps, but neither pole nor pier does
    assert!(!cde.surrogate_collides(&item.surrogate, &Transformation::translation(21, 21), &NoHazardFilter));
    assert!(cde.shape_collides(&square(21, 21, 10), &NoHazardFilter));
    // the pole reaches the hazard from below, the pier does not
    assert!(cde.surrogate_collides(&item.surrogate, &Transformation::translation(27, 24), &NoHazardFilter));
    // moved off the grid, the surrogate takes no part
    assert!(!cde.surrogate_collides(&item.surrogate, &Transformation::translation(i32::MAX, 0), &NoHazardFilter));
    let own = EntityHazardFilter::new().add(HazardEntity::PlacedItem(0));
    assert!(!cde.surrogate_collides(&item.surrogate, &Transformation::translation(21, 26), &own));
}
