use jagua_rs::collision_detection::cd_engine::CDEngine;
use jagua_rs::collision_detection::haz_prox_grid::{
    grid_side, locate, partition, proximity_to_shape, separation_of, HazardProximityGrid,
};
use jagua_rs::collision_detection::hazard::HazardEntity;
use jagua_rs::geometry::aa_rectangle::AARectangle;
use jagua_rs::geometry::point::Point;
use jagua_rs::geometry::shape::Shape;
use jagua_rs::util::config::{CDEConfig, HazProxConfig, QuadTreeConfig, SPSurrogateConfig};

fn rect(x_min: i32, y_min: i32, x_max: i32, y_max: i32) -> AARectangle {
    AARectangle::new(x_min, y_min, x_max, y_max).unwrap()
}

fn square(x: i32, y: i32, side: i32) -> Shape {
    Shape::from_rect(rect(x, y, x + side, y + side))
}

fn config(haz_prox: HazProxConfig) -> CDEConfig {
    CDEConfig {
        quadtree: QuadTreeConfig::FixedDepth(3),
        haz_prox,
        item_surrogate_config: SPSurrogateConfig {
            pole_coverage_goal: 90,
            max_poles: 10,
            n_ff_poles: 1,
            n_ff_piers: 1,
        },
    }
}

#[test]
fn separation_counts_the_cells_between() {
    let a = rect(0, 0, 4, 4);
    assert_eq!(separation_of(&a, &rect(2, 2, 6, 6)), 0);
    assert_eq!(separation_of(&a, &rect(0, 0, 4, 4)), 0);
    assert_eq!(separation_of(&a, &rect(4, 0, 6, 4)), 1);
    assert_eq!(separation_of(&a, &rect(4, 4, 6, 6)), 1);
    assert_eq!(separation_of(&a, &rect(5, 0, 6, 4)), 2);
    assert_eq!(separation_of(&a, &rect(-3, 10, -1, 12)), 7);
    assert_eq!(separation_of(&a, &rect(10, -20, 12, -8)), 9);
    let low = rect(i32::MIN, i32::MIN, i32::MIN + 1, i32::MIN + 1);
    let high = rect(i32::MAX - 1, i32::MAX - 1, i32::MAX, i32::MAX);
    assert_eq!(separation_of(&low, &high), 4294967294);
    let l = Shape::new(vec![rect(10, 0, 12, 20), rect(12, 0, 30, 2)]).unwrap();
    assert_eq!(proximity_to_shape(&rect(20, 10, 22, 12), &l), 9);
    assert_eq!(proximity_to_shape(&rect(14, 3, 15, 4), &l), 2);
    assert_eq!(proximity_to_shape(&rect(11, 3, 15, 4), &l), 0);
}

#[test]
fn range_is_cut_into_equal_steps() {
    assert_eq!(partition(0, 10, 1), vec![0, 10]);
    assert_eq!(partition(0, 10, 2), vec![0, 5, 10]);
    assert_eq!(partition(0, 10, 3), vec![0, 4, 8, 10]);
    assert_eq!(partition(0, 10, 4), vec![0, 3, 6, 9, 10]);
    assert_eq!(partition(-5, -2, 100), vec![-5, -4, -3, -2]);
    assert_eq!(partition(i32::MIN, i32::MAX, 2), vec![i32::MIN, 0, i32::MAX]);
    let marks = vec![0, 3, 6, 9, 10];
    assert_eq!(locate(&marks, 0), 0);
    assert_eq!(locate(&marks, 2), 0);
    assert_eq!(locate(&marks, 3), 1);
    assert_eq!(locate(&marks, 8), 2);
    assert_eq!(locate(&marks, 9), 3);
    assert_eq!(locate(&vec![-7, 1], 0), 0);
}

#[test]
fn grid_side_is_the_root_rounded_down() {
    assert_eq!(grid_side(0), 1);
    assert_eq!(grid_side(1), 1);
    assert_eq!(grid_side(3), 1);
    assert_eq!(grid_side(4), 2);
    assert_eq!(grid_side(99), 9);
    assert_eq!(grid_side(100), 10);
    assert_eq!(grid_side(10000), 100);
}

#[test]
fn grid_records_the_nearest_hazard() {
    let mut grid = HazardProximityGrid::new(rect(0, 0, 20, 20), 16);
    assert_eq!(grid.dimensions(), (4, 4));
    assert_eq!(grid.bounding_box(), rect(0, 0, 20, 20));
    assert_eq!(grid.proximity_at(&Point(0, 0)), Some((rect(0, 0, 5, 5), u64::MAX)));
    assert_eq!(grid.proximity_at(&Point(19, 19)), Some((rect(15, 15, 20, 20), u64::MAX)));
    assert_eq!(grid.proximity_at(&Point(20, 19)), None);
    assert_eq!(grid.proximity_at(&Point(-1, 0)), None);
    grid.register(&square(12, 12, 2));
    assert_eq!(grid.proximity_at(&Point(11, 11)), Some((rect(10, 10, 15, 15), 0)));
    assert_eq!(grid.proximity_at(&Point(7, 12)), Some((rect(5, 10, 10, 15), 3)));
    assert_eq!(grid.proximity_at(&Point(1, 1)), Some((rect(0, 0, 5, 5), 8)));
    assert_eq!(grid.proximity_at(&Point(16, 3)), Some((rect(15, 0, 20, 5), 8)));
    // a nearer hazard lowers the proximity, a farther one does not
    grid.register(&square(5, 5, 1));
    assert_eq!(grid.proximity_at(&Point(1, 1)), Some((rect(0, 0, 5, 5), 1)));
    assert_eq!(grid.proximity_at(&Point(7, 12)), Some((rect(5, 10, 10, 15), 3)));
    grid.register(&square(40, 40, 1));
    assert_eq!(grid.proximity_at(&Point(16, 3)), Some((rect(15, 0, 20, 5), 8)));
    grid.reset();
    assert_eq!(grid.proximity_at(&Point(11, 11)), Some((rect(10, 10, 15, 15), u64::MAX)));
    let one = HazardProximityGrid::new(rect(0, 0, 20, 20), 0);
    assert_eq!(one.dimensions(), (1, 1));
    let narrow = HazardProximityGrid::new(rect(0, 0, 2, 30), 100);
    assert_eq!(narrow.dimensions(), (2, 10));
}

#[test]
fn engine_keeps_the_grid_when_asked() {
    let without = CDEngine::new(rect(0, 0, 20, 20), vec![], config(HazProxConfig::Disabled)).ok().unwrap();
    assert_eq!(without.proximity(&Point(1, 1)), None);
    let mut cde = CDEngine::new(
        rect(0, 0, 20, 20),
        vec![],
        config(HazProxConfig::Enabled { n_cells: 16 }),
    )
    .ok()
    .unwrap();
    assert_eq!(cde.proximity(&Point(1, 1)), Some((rect(0, 0, 5, 5), u64::MAX)));
    assert_eq!(cde.proximity(&Point(30, 1)), None);
    assert_eq!(cde.insert_placed_item(0, square(12, 12, 2)), Ok(()));
    assert_eq!(cde.insert_placed_item(1, square(5, 5, 1)), Ok(()));
    assert_eq!(cde.proximity(&Point(1, 1)), Some((rect(0, 0, 5, 5), 1)));
    // a removal leaves the grid stale: its answer is still a lower bound
    assert_eq!(cde.remove_placed_item(1), Ok(()));
    assert_eq!(cde.proximity(&Point(1, 1)), Some((rect(0, 0, 5, 5), 1)));
    cde.flush_haz_prox_grid();
    assert_eq!(cde.proximity(&Point(1, 1)), Some((rect(0, 0, 5, 5), 8)));
    assert_eq!(cde.proximity(&Point(11, 11)), Some((rect(10, 10, 15, 15), 0)));
    assert!(cde.is_registered(&HazardEntity::PlacedItem(0)));
    without.all_hazards();
}
