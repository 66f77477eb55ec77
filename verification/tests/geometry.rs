use jagua_rs::collision_detection::quadtree::qt_traits::QTQueryable;
use jagua_rs::geometry::aa_rectangle::AARectangle;
use jagua_rs::geometry::circle::Circle;
use jagua_rs::geometry::point::Point;
use jagua_rs::geometry::shape::Shape;
use jagua_rs::geometry::transformation::{Rotation, Transformation};

fn rect(x_min: i32, y_min: i32, x_max: i32, y_max: i32) -> AARectangle {
    AARectangle::new(x_min, y_min, x_max, y_max).unwrap()
}

#[test]
fn rectangle_without_area_is_refused() {
    assert!(AARectangle::new(0, 0, 0, 5).is_none());
    assert!(AARectangle::new(0, 0, 5, 0).is_none());
    assert!(AARectangle::new(3, 0, 2, 5).is_none());
    assert!(AARectangle::new(0, 7, 2, 5).is_none());
    let r = AARectangle::new(-1, -2, 3, 4).unwrap();
    assert_eq!((r.x_min, r.y_min, r.x_max, r.y_max), (-1, -2, 3, 4));
}

#[test]
fn rectangle_measures() {
    let r = rect(-3, 2, 4, 5);
    assert_eq!(r.width(), 7);
    assert_eq!(r.height(), 3);
    assert_eq!(r.area(), 21);
    let whole = rect(i32::MIN, i32::MIN, i32::MAX, i32::MAX);
    assert_eq!(whole.width(), 4294967295);
    assert_eq!(whole.area(), 4294967295u64 * 4294967295u64);
}

#[test]
fn rectangles_that_touch_do_not_collide() {
    let a = rect(0, 0, 2, 2);
    assert!(!a.collides_with(&rect(2, 0, 4, 2)));
    assert!(!a.collides_with(&rect(0, 2, 2, 4)));
    assert!(!a.collides_with(&rect(2, 2, 4, 4)));
    assert!(!a.collides_with(&rect(-2, -2, 0, 0)));
    assert!(a.collides_with(&rect(1, 0, 3, 2)));
    assert!(a.collides_with(&rect(1, 1, 2, 2)));
    assert!(a.collides_with(&rect(-5, -5, 5, 5)));
    assert!(a.collides_with(&a));
    assert!(!a.collides_with(&rect(10, 10, 11, 11)));
}

#[test]
fn rectangle_containment_intersection_and_hull() {
    let a = rect(0, 0, 10, 10);
    assert!(a.contains_rect(&rect(0, 0, 10, 10)));
    assert!(a.contains_rect(&rect(2, 3, 4, 5)));
    assert!(!a.contains_rect(&rect(2, 3, 11, 5)));
    assert!(!a.contains_rect(&rect(-1, 3, 4, 5)));
    assert_eq!(a.intersection(&rect(5, -5, 15, 5)), Some(rect(5, 0, 10, 5)));
    assert_eq!(a.intersection(&rect(10, 0, 15, 5)), None);
    assert_eq!(a.intersection(&rect(2, 2, 3, 3)), Some(rect(2, 2, 3, 3)));
    assert_eq!(a.hull(&rect(5, -5, 15, 5)), rect(0, -5, 15, 10));
    assert_eq!(a.hull(&rect(2, 2, 3, 3)), a);
}

#[test]
fn quadrants_cover_the_rectangle_once() {
    let a = rect(0, 0, 5, 4);
    let q = a.quadrants().unwrap();
    assert_eq!(q.sw, rect(0, 0, 2, 2));
    assert_eq!(q.se, rect(2, 0, 5, 2));
    assert_eq!(q.nw, rect(0, 2, 2, 4));
    assert_eq!(q.ne, rect(2, 2, 5, 4));
    assert_eq!(q.sw.area() + q.se.area() + q.nw.area() + q.ne.area(), a.area());
    assert!(rect(0, 0, 1, 9).quadrants().is_none());
    assert!(rect(0, 0, 9, 1).quadrants().is_none());
    assert!(rect(-7, -7, -5, -5).quadrants().is_some());
    let whole = rect(i32::MIN, i32::MIN, i32::MAX, i32::MAX);
    let q = whole.quadrants().unwrap();
    assert_eq!(q.sw, rect(i32::MIN, i32::MIN, -1, -1));
    assert_eq!(q.ne, rect(-1, -1, i32::MAX, i32::MAX));
}

#[test]
fn shape_needs_rectangles_with_area() {
    assert!(Shape::new(vec![]).is_none());
    let flat = AARectangle { x_min: 0, y_min: 0, x_max: 4, y_max: 0 };
    assert!(Shape::new(vec![flat]).is_none());
    assert!(Shape::new(vec![rect(0, 0, 1, 1), flat]).is_none());
    let s = Shape::new(vec![rect(0, 0, 2, 1), rect(-3, 4, 1, 6), rect(1, -2, 5, 0)]).unwrap();
    assert_eq!(s.bbox, rect(-3, -2, 5, 6));
    assert_eq!(s.boxes.len(), 3);
    let one = Shape::from_rect(rect(1, 2, 3, 4));
    assert_eq!(one.bbox, rect(1, 2, 3, 4));
    assert_eq!(one.boxes, vec![rect(1, 2, 3, 4)]);
}

#[test]
fn shape_collisions_are_exact() {
    // an L: the column [0,2]x[0,6] and the foot [2,6]x[0,2]
    let l = Shape::new(vec![rect(0, 0, 2, 6), rect(2, 0, 6, 2)]).unwrap();
    // fits into the corner of the L without overlap
    let inner = Shape::from_rect(rect(2, 2, 6, 6));
    assert!(!l.collides_with(&inner));
    assert!(!inner.collides_with(&l));
    assert!(!l.collides_with_rect(&rect(2, 2, 6, 6)));
    let nudged = Shape::from_rect(rect(1, 2, 5, 6));
    assert!(l.collides_with(&nudged));
    assert!(nudged.collides_with(&l));
    assert!(l.collides_with_rect(&rect(5, 1, 9, 9)));
    assert!(!l.collides_with_rect(&rect(6, 0, 9, 9)));
    assert!(l.collides_with(&l));
}

#[test]
fn clip_keeps_the_parts_inside_the_window() {
    let l = Shape::new(vec![rect(0, 0, 2, 6), rect(2, 0, 6, 2)]).unwrap();
    assert_eq!(l.clip_to(&rect(1, 1, 4, 4)), vec![rect(1, 1, 2, 4), rect(2, 1, 4, 2)]);
    assert_eq!(l.clip_to(&rect(3, 0, 10, 10)), vec![rect(3, 0, 6, 2)]);
    assert_eq!(l.clip_to(&rect(2, 2, 6, 6)), Vec::<AARectangle>::new());
    assert_eq!(l.clip_to(&rect(-5, -5, 50, 50)), vec![rect(0, 0, 2, 6), rect(2, 0, 6, 2)]);
}

#[test]
fn complement_holds_the_cells_left_out() {
    let l = Shape::new(vec![rect(0, 0, 2, 6), rect(2, 0, 6, 2)]).unwrap();
    assert_eq!(
        l.complement_in(&rect(0, 0, 6, 3)).unwrap().boxes,
        vec![rect(2, 2, 6, 3)]
    );
    assert_eq!(
        l.complement_in(&rect(-1, 1, 7, 3)).unwrap().boxes,
        vec![rect(-1, 1, 0, 2), rect(6, 1, 7, 2), rect(-1, 2, 0, 3), rect(2, 2, 7, 3)]
    );
    assert!(l.complement_in(&rect(0, 0, 2, 6)).is_none());
    assert!(l.complement_in(&rect(1, 0, 5, 2)).is_none());
    assert_eq!(
        l.complement_in(&rect(10, 10, 12, 11)).unwrap().boxes,
        vec![rect(10, 10, 12, 11)]
    );
    assert_eq!(l.gap_right(2, 3, 100), 100);
    assert_eq!(l.gap_right(-5, 3, 100), 0);
    assert_eq!(l.gap_right(-5, 3, -2), -2);
    // the complement of the complement is the shape again, cell by cell
    let window = rect(-2, -2, 8, 8);
    let outside = l.complement_in(&window).unwrap();
    let inside = outside.complement_in(&window).unwrap();
    for x in -3..9 {
        for y in -3..9 {
            assert_eq!(inside.holds_cell(x, y), l.holds_cell(x, y));
            assert_eq!(
                outside.holds_cell(x, y),
                !l.holds_cell(x, y) && -2 <= x && x < 8 && -2 <= y && y < 8
            );
        }
    }
}

#[test]
fn difference_holds_the_cells_that_the_other_leaves() {
    let square = Shape::from_rect(rect(0, 0, 6, 6));
    let hole = Shape::from_rect(rect(2, 2, 4, 4));
    let ring = square.difference(&hole).unwrap();
    assert_eq!(ring.bbox, rect(0, 0, 6, 6));
    for x in -1..7 {
        for y in -1..7 {
            assert_eq!(ring.holds_cell(x, y), square.holds_cell(x, y) && !hole.holds_cell(x, y));
        }
    }
    assert!(!ring.collides_with(&hole));
    assert!(ring.collides_with_rect(&rect(1, 1, 3, 3)));
    assert!(hole.difference(&square).is_none());
    assert!(square.difference(&square).is_none());
    let apart = Shape::from_rect(rect(10, 10, 12, 12));
    assert_eq!(square.difference(&apart).unwrap().boxes.len(), 6);
    let l = Shape::new(vec![rect(0, 0, 2, 6), rect(0, 0, 6, 2)]).unwrap();
    let rest = l.difference(&Shape::from_rect(rect(0, 0, 2, 2))).unwrap();
    for x in -1..7 {
        for y in -1..7 {
            assert_eq!(rest.holds_cell(x, y), l.holds_cell(x, y) && !(x < 2 && y < 2));
        }
    }
}

#[test]
fn duplicate_is_equal_to_the_original() {
    let l = Shape::new(vec![rect(0, 0, 2, 6), rect(2, 0, 6, 2)]).unwrap();
    let copy = l.duplicate();
    assert_eq!(copy.boxes, l.boxes);
    assert_eq!(copy.bbox, l.bbox);
}

#[test]
fn rotations_take_cells_to_cells() {
    let r = rect(1, 2, 4, 3);
    let turn = |rotation| Transformation { rotation, translation: Point(0, 0) };
    assert_eq!(turn(Rotation::R0).transform_rect(&r), Some(rect(1, 2, 4, 3)));
    assert_eq!(turn(Rotation::R90).transform_rect(&r), Some(rect(-3, 1, -2, 4)));
    assert_eq!(turn(Rotation::R180).transform_rect(&r), Some(rect(-4, -3, -1, -2)));
    assert_eq!(turn(Rotation::R270).transform_rect(&r), Some(rect(2, -4, 3, -1)));
    let moved = Transformation { rotation: Rotation::R90, translation: Point(10, -10) };
    assert_eq!(moved.transform_rect(&r), Some(rect(7, -9, 8, -6)));
    assert_eq!(moved.transform_point(&Point(1, 2)), Some(Point(8, -9)));
    assert_eq!(Transformation::identity().transform_rect(&r), Some(r));
    assert_eq!(Transformation::translation(5, 6).transform_rect(&r), Some(rect(6, 8, 9, 9)));
}

#[test]
fn transformation_off_the_grid_is_refused() {
    let r = rect(i32::MAX - 2, 0, i32::MAX, 1);
    assert_eq!(Transformation::translation(1, 0).transform_rect(&r), None);
    assert_eq!(
        Transformation::translation(0, 1).transform_rect(&r),
        Some(rect(i32::MAX - 2, 1, i32::MAX, 2))
    );
    let low = rect(i32::MIN, i32::MIN, i32::MIN + 1, i32::MIN + 1);
    let half = Transformation { rotation: Rotation::R180, translation: Point(0, 0) };
    assert_eq!(half.transform_rect(&low), None);
    assert_eq!(half.transform_point(&Point(i32::MIN, 0)), None);
    let half_back = Transformation { rotation: Rotation::R180, translation: Point(-1, -1) };
    assert_eq!(
        half_back.transform_rect(&low),
        Some(rect(i32::MAX - 1, i32::MAX - 1, i32::MAX, i32::MAX))
    );
    let s = Shape::new(vec![rect(0, 0, 1, 1), r]).unwrap();
    assert!(Transformation::translation(1, 0).transform_shape(&s).is_none());
    assert!(Transformation::translation(-1, 0).transform_shape(&s).is_some());
}

#[test]
fn shape_is_transformed_rectangle_by_rectangle() {
    let l = Shape::new(vec![rect(0, 0, 2, 6), rect(2, 0, 6, 2)]).unwrap();
    let t = Transformation { rotation: Rotation::R90, translation: Point(10, 0) };
    let image = t.transform_shape(&l).unwrap();
    assert_eq!(image.boxes, vec![rect(4, 0, 10, 2), rect(8, 2, 10, 6)]);
    assert_eq!(image.bbox, rect(4, 0, 10, 6));
    // four quarter turns bring the shape back
    let quarter = Transformation { rotation: Rotation::R90, translation: Point(0, 0) };
    let mut s = l.duplicate();
    for _ in 0..4 {
        s = quarter.transform_shape(&s).unwrap();
    }
    assert_eq!(s.boxes, l.boxes);
    assert_eq!(s.bbox, l.bbox);
}

#[test]
fn disk_holds_whole_cells_only() {
    // radius 1 holds no whole cell
    let tiny = Circle { center: Point(0, 0), radius: 1 };
    assert!(!tiny.collides_with_rect(&rect(-5, -5, 5, 5)));
    // radius 2 holds the four cells about the center
    let small = Circle { center: Point(0, 0), radius: 2 };
    assert!(small.collides_with_rect(&rect(0, 0, 1, 1)));
    assert!(small.collides_with_rect(&rect(-1, -1, 0, 0)));
    assert!(small.collides_with_rect(&rect(-1, 0, 0, 1)));
    assert!(small.collides_with_rect(&rect(0, -1, 1, 0)));
    assert!(!small.collides_with_rect(&rect(1, 0, 2, 1)));
    assert!(!small.collides_with_rect(&rect(1, 1, 9, 9)));
    assert!(small.collides_with_rect(&rect(-9, -9, 9, 9)));
    // radius 5: 3^2 + 4^2 = 25, so the cell (2, 3) is in and (3, 3) is not
    let disk = Circle { center: Point(10, 10), radius: 5 };
    assert!(disk.collides_with_rect(&rect(12, 13, 13, 14)));
    assert!(!disk.collides_with_rect(&rect(13, 13, 14, 14)));
    // the farthest corner of the cell (4, 0) is (5, 1), beyond the radius
    assert!(disk.collides_with_rect(&rect(13, 10, 14, 11)));
    assert!(!disk.collides_with_rect(&rect(14, 10, 15, 11)));
    assert!(!disk.collides_with_rect(&rect(14, 0, 20, 20)));
    assert!(disk.collides_with_rect(&rect(13, 0, 20, 20)));
    let flat = AARectangle { x_min: 0, y_min: 10, x_max: 20, y_max: 10 };
    assert!(!disk.collides_with_rect(&flat));
}

#[test]
fn disk_lies_within_a_rectangle_that_holds_its_square() {
    let disk = Circle { center: Point(10, 10), radius: 5 };
    assert!(disk.lies_within(&rect(5, 5, 15, 15)));
    assert!(!disk.lies_within(&rect(6, 5, 15, 15)));
    let far = Circle { center: Point(i32::MAX, i32::MIN), radius: u32::MAX };
    assert!(!far.lies_within(&rect(i32::MIN, i32::MIN, i32::MAX, i32::MAX)));
    assert!(far.collides_with_rect(&rect(i32::MIN, i32::MIN, i32::MAX, i32::MAX)));
}

#[test]
fn disk_moves_with_its_center() {
    let disk = Circle { center: Point(3, 1), radius: 4 };
    let t = Transformation { rotation: Rotation::R90, translation: Point(10, 20) };
    assert_eq!(disk.transform(&t), Some(Circle { center: Point(9, 23), radius: 4 }));
    let off = Transformation::translation(i32::MAX, 0);
    assert_eq!(disk.transform(&off), None);
}
