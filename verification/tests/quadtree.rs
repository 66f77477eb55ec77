use jagua_rs::collision_detection::hazard::{contains_entity, HazardEntity};
use jagua_rs::collision_detection::hazard_filter::{
    BinHazardFilter, EntityHazardFilter, NoHazardFilter,
};
use jagua_rs::collision_detection::quadtree::qt_hazard::QTHazard;
use jagua_rs::collision_detection::quadtree::qt_node::QTNode;
use jagua_rs::collision_detection::quadtree::qt_traits::collides_with_any;
use jagua_rs::geometry::aa_rectangle::AARectangle;
use jagua_rs::geometry::circle::Circle;
use jagua_rs::geometry::point::Point;
use jagua_rs::geometry::shape::Shape;

fn rect(x_min: i32, y_min: i32, x_max: i32, y_max: i32) -> AARectangle {
    AARectangle::new(x_min, y_min, x_max, y_max).unwrap()
}

fn square(x: i32, y: i32, side: i32) -> Shape {
    Shape::from_rect(rect(x, y, x + side, y + side))
}

#[test]
fn record_knows_whether_the_hazard_covers_the_node() {
    let bbox = rect(0, 0, 4, 4);
    let partial = QTHazard::new(
        HazardEntity::BinHole { id: 1 },
        vec![rect(0, 0, 4, 2), rect(0, 2, 2, 4)],
        &bbox,
    );
    assert_eq!(partial.entity, HazardEntity::BinHole { id: 1 });
    assert!(!partial.entire);
    assert!(partial.collides_with(&square(1, 3, 1)));
    assert!(!partial.collides_with(&square(2, 2, 2)));
    let entire = QTHazard::new(HazardEntity::BinExterior, vec![rect(0, 0, 1, 1), bbox], &bbox);
    assert!(entire.entire);
    assert!(collides_with_any(&square(3, 3, 1), &entire.parts));
    assert!(!collides_with_any(&square(4, 3, 1), &entire.parts));
    assert!(!collides_with_any(&square(0, 0, 1), &vec![]));
}

#[test]
fn entity_is_found_in_a_list() {
    let list = vec![HazardEntity::PlacedItem(2), HazardEntity::BinHole { id: 2 }];
    assert!(contains_entity(&list, &HazardEntity::PlacedItem(2)));
    assert!(contains_entity(&list, &HazardEntity::BinHole { id: 2 }));
    assert!(!contains_entity(&list, &HazardEntity::PlacedItem(3)));
    assert!(!contains_entity(&list, &HazardEntity::QualityZoneInferior { quality: 2, id: 2 }));
    assert!(!contains_entity(&vec![], &HazardEntity::BinExterior));
}

#[test]
fn new_tree_is_clear() {
    for depth in 0..5 {
        let tree = QTNode::new(rect(0, 0, 16, 16), depth);
        assert!(tree.is_clear());
        assert_eq!(tree.bounding_box(), rect(0, 0, 16, 16));
        assert!(!tree.collides(&square(0, 0, 16), &NoHazardFilter));
    }
}

#[test]
fn registered_hazard_is_found_at_every_depth() {
    for depth in 0..6 {
        let mut tree = QTNode::new(rect(0, 0, 16, 16), depth);
        tree.register_hazard(HazardEntity::PlacedItem(1), &square(4, 4, 3));
        assert!(!tree.is_clear());
        assert!(tree.collides(&square(6, 6, 1), &NoHazardFilter));
        assert!(tree.collides(&square(0, 0, 16), &NoHazardFilter));
        assert!(tree.collides(&square(3, 3, 2), &NoHazardFilter));
        // touching along an edge or at a corner is no collision
        assert!(!tree.collides(&square(7, 4, 3), &NoHazardFilter));
        assert!(!tree.collides(&square(4, 7, 3), &NoHazardFilter));
        assert!(!tree.collides(&square(7, 7, 3), &NoHazardFilter));
        assert!(!tree.collides(&square(1, 1, 3), &NoHazardFilter));
        assert!(!tree.collides(&square(12, 12, 4), &NoHazardFilter));
        // a filtered hazard is not seen
        let own = EntityHazardFilter::new().add(HazardEntity::PlacedItem(1));
        assert!(!tree.collides(&square(4, 4, 3), &own));
        assert!(tree.collides(&square(4, 4, 3), &BinHazardFilter));
    }
}

#[test]
fn deregistered_hazard_is_gone_from_every_node() {
    for depth in 0..6 {
        let mut tree = QTNode::new(rect(0, 0, 16, 16), depth);
        tree.register_hazard(HazardEntity::PlacedItem(1), &square(0, 0, 16));
        tree.register_hazard(HazardEntity::PlacedItem(2), &square(2, 2, 2));
        tree.deregister_hazard(HazardEntity::PlacedItem(1));
        assert!(!tree.collides(&square(8, 8, 8), &NoHazardFilter));
        assert!(tree.collides(&square(3, 3, 8), &NoHazardFilter));
        // unknown entity: nothing changes
        tree.deregister_hazard(HazardEntity::PlacedItem(7));
        assert!(tree.collides(&square(3, 3, 8), &NoHazardFilter));
        tree.deregister_hazard(HazardEntity::PlacedItem(2));
        assert!(tree.is_clear());
        assert!(!tree.collides(&square(0, 0, 16), &NoHazardFilter));
    }
}

#[test]
fn tree_can_be_walked() {
    let mut tree = QTNode::new(rect(0, 0, 16, 8), 2);
    tree.register_hazard(HazardEntity::PlacedItem(1), &square(0, 0, 4));
    assert_eq!(tree.levels_left(), 2);
    assert_eq!(tree.hazards().len(), 1);
    assert_eq!(tree.hazards()[0].entity, HazardEntity::PlacedItem(1));
    assert_eq!(tree.hazards()[0].parts, vec![rect(0, 0, 4, 4)]);
    assert!(!tree.hazards()[0].entire);
    let (sw, se, nw, ne) = tree.children().unwrap();
    assert_eq!(sw.bounding_box(), rect(0, 0, 8, 4));
    assert_eq!(se.bounding_box(), rect(8, 0, 16, 4));
    assert_eq!(nw.bounding_box(), rect(0, 4, 8, 8));
    assert_eq!(ne.bounding_box(), rect(8, 4, 16, 8));
    assert_eq!(sw.levels_left(), 1);
    assert!(!sw.is_clear());
    assert!(se.is_clear() && nw.is_clear() && ne.is_clear());
    let (first, second, _, _) = sw.children().unwrap();
    assert_eq!(first.bounding_box(), rect(0, 0, 4, 2));
    assert!(first.hazards()[0].entire);
    assert!(second.is_clear());
    assert!(first.children().is_none());
    // a rectangle one cell high cannot be cut
    let flat = QTNode::new(rect(0, 0, 16, 1), 3);
    assert!(flat.children().is_none());
    assert!(QTNode::new(rect(0, 0, 16, 16), 0).children().is_none());
}

#[test]
fn hazard_outside_the_tree_is_not_recorded() {
    let mut tree = QTNode::new(rect(0, 0, 16, 16), 3);
    tree.register_hazard(HazardEntity::BinExterior, &square(16, 0, 5));
    assert!(tree.is_clear());
    tree.register_hazard(HazardEntity::BinHole { id: 0 }, &square(15, 15, 5));
    assert!(!tree.is_clear());
    // only the part inside the tree's rectangle is seen
    assert!(tree.collides(&square(15, 15, 1), &NoHazardFilter));
    assert!(!tree.collides(&square(16, 16, 2), &NoHazardFilter));
}

#[test]
fn collisions_are_collected_once() {
    for depth in 0..5 {
        let mut tree = QTNode::new(rect(0, 0, 16, 16), depth);
        tree.register_hazard(HazardEntity::PlacedItem(1), &square(0, 0, 16));
        tree.register_hazard(HazardEntity::BinHole { id: 3 }, &square(2, 2, 2));
        tree.register_hazard(HazardEntity::PlacedItem(2), &square(12, 12, 2));
        let mut out = vec![HazardEntity::BinExterior];
        tree.collect_collisions(&square(1, 1, 6), &NoHazardFilter, &mut out);
        out.sort_by_key(|e| format!("{:?}", e));
        assert_eq!(
            out,
            vec![
                HazardEntity::BinExterior,
                HazardEntity::BinHole { id: 3 },
                HazardEntity::PlacedItem(1),
            ]
        );
        let mut all = vec![];
        tree.collect_collisions(&square(0, 0, 16), &BinHazardFilter, &mut all);
        all.sort_by_key(|e| format!("{:?}", e));
        assert_eq!(all, vec![HazardEntity::PlacedItem(1), HazardEntity::PlacedItem(2)]);
        // what is there already is not added again
        tree.collect_collisions(&square(0, 0, 16), &NoHazardFilter, &mut all);
        assert_eq!(all.len(), 3);
    }
}

#[test]
fn disks_and_rectangles_query_the_tree() {
    let mut tree = QTNode::new(rect(0, 0, 32, 32), 4);
    tree.register_hazard(HazardEntity::PlacedItem(1), &square(20, 20, 4));
    assert!(tree.collides(&rect(23, 23, 30, 30), &NoHazardFilter));
    assert!(!tree.collides(&rect(24, 20, 30, 30), &NoHazardFilter));
    // the disk of radius 5 about (16, 16) holds the cell (19, 18) but not (20, 20)
    assert!(!tree.collides(&Circle { center: Point(16, 16), radius: 5 }, &NoHazardFilter));
    // radius 7: 5^2 + 5^2 = 50 > 49
    assert!(!tree.collides(&Circle { center: Point(16, 16), radius: 7 }, &NoHazardFilter));
    // radius 8: 50 <= 64
    assert!(tree.collides(&Circle { center: Point(16, 16), radius: 8 }, &NoHazardFilter));
    assert!(tree.collides(&Point(20, 23), &NoHazardFilter));
    assert!(!tree.collides(&Point(24, 23), &NoHazardFilter));
}

/// A small generator of numbers, the same on every run.
struct Numbers(u64);

impl Numbers {
    fn next(&mut self, below: i32) -> i32 {
        self.0 = self.0.wrapping_mul(6364136223846793005).wrapping_add(1442695040888963407);
        ((self.0 >> 33) % below as u64) as i32
    }

    fn rect_in(&mut self, size: i32) -> AARectangle {
        let x = self.next(size - 1);
        let y = self.next(size - 1);
        let w = 1 + self.next((size - x).min(9));
        let h = 1 + self.next((size - y).min(9));
        rect(x, y, x + w, y + h)
    }
}

#[test]
fn tree_agrees_with_the_test_against_each_hazard() {
    let mut numbers = Numbers(7);
    for round in 0..20 {
        let depth = (round % 6) as u8;
        let mut tree = QTNode::new(rect(0, 0, 40, 40), depth);
        let mut hazards: Vec<(usize, Shape)> = vec![];
        for id in 0..12 {
            let shape = Shape::new(vec![numbers.rect_in(40), numbers.rect_in(40)]).unwrap();
            tree.register_hazard(HazardEntity::PlacedItem(id), &shape);
            hazards.push((id, shape));
        }
        for gone in [3usize, 8] {
            tree.deregister_hazard(HazardEntity::PlacedItem(gone));
            hazards.retain(|(id, _)| *id != gone);
        }
        let filter = EntityHazardFilter::new().add(HazardEntity::PlacedItem(5));
        for _ in 0..200 {
            let probe = Shape::new(vec![numbers.rect_in(40), numbers.rect_in(40)]).unwrap();
            let expected: Vec<usize> = hazards
                .iter()
                .filter(|(_, shape)| shape.collides_with(&probe))
                .map(|(id, _)| *id)
                .collect();
            assert_eq!(tree.collides(&probe, &NoHazardFilter), !expected.is_empty());
            assert_eq!(
                tree.collides(&probe, &filter),
                expected.iter().any(|id| *id != 5)
            );
            let mut found = vec![];
            tree.collect_collisions(&probe, &NoHazardFilter, &mut found);
            let mut ids: Vec<usize> = found
                .iter()
                .map(|e| match e {
                    HazardEntity::PlacedItem(id) => *id,
                    _ => unreachable!(),
                })
                .collect();
            ids.sort();
            assert_eq!(ids, expected);
        }
    }
}
