use jagua_rs::geometry::aa_rectangle::AARectangle;
use jagua_rs::geometry::circle::Circle;
use jagua_rs::geometry::fitting::{column_run, disk_fits, half_width, largest_disk, row_run};
use jagua_rs::geometry::point::Point;
use jagua_rs::geometry::shape::Shape;
use jagua_rs::geometry::simple_polygon::SimplePolygon;
use jagua_rs::geometry::surrogate::Surrogate;
use jagua_rs::util::config::{CDEConfig, HazProxConfig, QuadTreeConfig, SPSurrogateConfig};
use jagua_rs::util::select::select_largest;

fn rect(x_min: i32, y_min: i32, x_max: i32, y_max: i32) -> AARectangle {
    AARectangle::new(x_min, y_min, x_max, y_max).unwrap()
}

fn config(goal: u8, max_poles: usize, n_ff_poles: usize, n_ff_piers: usize) -> SPSurrogateConfig {
    SPSurrogateConfig { pole_coverage_goal: goal, max_poles, n_ff_poles, n_ff_piers }
}

fn disk(x: i32, y: i32, radius: u32) -> Circle {
    Circle { center: Point(x, y), radius }
}

#[test]
fn default_config_values() {
    let c = CDEConfig::default();
    assert_eq!(c.quadtree, QuadTreeConfig::FixedDepth(4));
    assert_eq!(c.quadtree.depth(), 4);
    assert_eq!(c.haz_prox, HazProxConfig::Enabled { n_cells: 10000 });
    assert_eq!(c.item_surrogate_config, config(90, 10, 1, 1));
}

#[test]
fn largest_keys_are_picked_first() {
    let keys = vec![3, 0, 7, 7, 1, 0, 9];
    assert_eq!(select_largest(&keys, 0), Vec::<usize>::new());
    assert_eq!(select_largest(&keys, 1), vec![6]);
    assert_eq!(select_largest(&keys, 3), vec![6, 2, 3]);
    assert_eq!(select_largest(&keys, 5), vec![6, 2, 3, 0, 4]);
    // keys of zero are never picked
    assert_eq!(select_largest(&keys, 100), vec![6, 2, 3, 0, 4]);
    assert_eq!(select_largest(&vec![0, 0], 2), Vec::<usize>::new());
    assert_eq!(select_largest(&vec![], 2), Vec::<usize>::new());
    assert_eq!(select_largest(&vec![5, 5, 5], 2), vec![0, 1]);
}

#[test]
fn cells_and_runs_of_a_shape() {
    // an L with a gap in its foot
    let l = Shape::new(vec![rect(0, 0, 2, 6), rect(2, 0, 4, 2), rect(5, 0, 9, 2)]).unwrap();
    assert!(l.holds_cell(0, 0));
    assert!(l.holds_cell(3, 1));
    assert!(!l.holds_cell(4, 1));
    assert!(!l.holds_cell(2, 2));
    assert_eq!(l.find_box(6, 1), Some(2));
    assert_eq!(l.find_box(9, 1), None);
    assert_eq!(l.run_right(0, 1), 4);
    assert_eq!(l.run_right(3, 0), 4);
    assert_eq!(l.run_right(4, 0), 4);
    assert_eq!(l.run_right(5, 0), 9);
    assert_eq!(l.run_right(0, 3), 2);
    assert_eq!(l.run_left(3, 1), 0);
    assert_eq!(l.run_left(8, 1), 5);
    assert!(l.covers_row(0, 4, 1));
    assert!(!l.covers_row(0, 5, 1));
    assert!(l.covers_row(7, 7, 40));
    assert_eq!(row_run(&l, 1, 1), rect(0, 1, 4, 2));
    assert_eq!(row_run(&l, 7, 0), rect(5, 0, 9, 1));
    let mirrored = l.transposed();
    assert_eq!(mirrored.boxes, vec![rect(0, 0, 6, 2), rect(0, 2, 2, 4), rect(0, 5, 2, 9)]);
    assert_eq!(column_run(&mirrored, 1, 1), rect(1, 0, 2, 6));
    assert_eq!(column_run(&mirrored, 3, 1), rect(3, 0, 4, 2));
    let edge = Shape::from_rect(rect(i32::MIN, 0, i32::MAX, 1));
    assert_eq!(edge.run_right(0, 0), i32::MAX);
    assert_eq!(edge.run_left(0, 0), i32::MIN);
}

#[test]
fn half_width_of_a_row_of_a_disk() {
    // radius 5: 4^2 + 3^2 = 25
    assert_eq!(half_width(5, 1), 4);
    assert_eq!(half_width(5, 3), 4);
    assert_eq!(half_width(5, 4), 3);
    assert_eq!(half_width(5, 5), 0);
    assert_eq!(half_width(5, 6), 0);
    assert_eq!(half_width(1, 1), 0);
    assert_eq!(half_width(2, 1), 1);
    assert_eq!(half_width(0, 1), 0);
    assert_eq!(half_width(u32::MAX, 1), 4294967294);
}

#[test]
fn largest_disk_about_a_point() {
    let square = Shape::from_rect(rect(0, 0, 10, 10));
    // the disk of radius 6 about the middle holds whole cells of the square only
    assert!(disk_fits(&square, &disk(5, 5, 6)));
    assert!(!disk_fits(&square, &disk(5, 5, 7)));
    assert_eq!(largest_disk(&square, Point(5, 5)), disk(5, 5, 6));
    assert_eq!(largest_disk(&square, Point(2, 5)), disk(2, 5, 3));
    assert_eq!(largest_disk(&square, Point(0, 0)), disk(0, 0, 1));
    assert_eq!(largest_disk(&square, Point(50, 50)), disk(50, 50, 1));
    // a disk may reach over several rectangles of a shape
    let rows = Shape::new(vec![rect(0, 0, 10, 3), rect(0, 3, 10, 7), rect(0, 7, 10, 10)]).unwrap();
    assert_eq!(largest_disk(&rows, Point(5, 5)), disk(5, 5, 6));
    let bar = Shape::from_rect(rect(-10, 0, 10, 5));
    assert_eq!(largest_disk(&bar, Point(0, 2)), disk(0, 2, 3));
    let whole = Shape::from_rect(rect(i32::MIN, i32::MIN, i32::MAX, i32::MAX));
    assert!(disk_fits(&whole, &disk(0, 0, 1000)));
    assert!(!disk_fits(&whole, &disk(i32::MAX, 0, 2)));
}

#[test]
fn surrogate_of_a_square() {
    let square = Shape::from_rect(rect(0, 0, 10, 10));
    let s = Surrogate::new(&square, config(90, 10, 1, 2));
    assert_eq!(s.poles, vec![disk(5, 5, 6)]);
    assert_eq!(s.piers, vec![rect(0, 5, 10, 6), rect(5, 0, 6, 10)]);
    assert_eq!(s.n_ff_poles, 1);
    assert_eq!(s.shape_area, 100);
    assert_eq!(s.covered_area, 108);
    let one = Surrogate::new(&square, config(90, 10, 3, 1));
    assert_eq!(one.piers, vec![rect(0, 5, 10, 6)]);
    assert_eq!(one.n_ff_poles, 1);
    let none = Surrogate::new(&square, config(0, 10, 1, 0));
    assert!(none.poles.is_empty());
    assert!(none.piers.is_empty());
    assert_eq!(none.n_ff_poles, 0);
    assert_eq!(none.covered_area, 0);
    let no_poles = Surrogate::new(&square, config(90, 0, 1, 1));
    assert!(no_poles.poles.is_empty());
}

#[test]
fn surrogate_of_a_bar_and_of_a_cell() {
    let bar = Shape::from_rect(rect(-10, 0, 10, 5));
    let s = Surrogate::new(&bar, config(90, 10, 1, 3));
    assert_eq!(s.poles, vec![disk(0, 2, 3)]);
    assert_eq!(s.piers, vec![rect(-10, 2, 10, 3), rect(0, 0, 1, 5)]);
    assert_eq!(s.covered_area, 27);
    let cell = Surrogate::new(&Shape::from_rect(rect(0, 0, 1, 1)), config(90, 10, 1, 2));
    assert!(cell.poles.is_empty());
    // the stretch along the row and the one along the column are the same cell
    assert_eq!(cell.piers, vec![rect(0, 0, 1, 1)]);
}

#[test]
fn poles_are_chosen_largest_first_and_apart() {
    // rectangles of 4x20, 10x10, 6x7 and 3x30, side by side
    let shape = Shape::new(vec![
        rect(0, 0, 4, 20),
        rect(4, 0, 14, 10),
        rect(14, 0, 20, 7),
        rect(20, 0, 23, 30),
    ])
    .unwrap();
    let disks = Surrogate::pole_candidates(&shape);
    // the disk about (2, 10) reaches into the second rectangle
    assert_eq!(disks, vec![disk(2, 10, 3), disk(9, 5, 6), disk(17, 3, 4), disk(21, 15, 2)]);
    let s = Surrogate::new(&shape, config(100, 10, 2, 2));
    assert_eq!(s.poles, vec![disk(9, 5, 6), disk(17, 3, 4), disk(2, 10, 3), disk(21, 15, 2)]);
    assert_eq!(s.n_ff_poles, 2);
    assert_eq!(s.shape_area, 80 + 100 + 42 + 90);
    assert_eq!(s.covered_area, 3 * 36 + 3 * 16 + 3 * 9 + 3 * 4);
    assert_eq!(s.piers, vec![rect(21, 0, 22, 30), rect(0, 5, 23, 6)]);
    let two = Surrogate::new(&shape, config(100, 2, 5, 0));
    assert_eq!(two.poles, vec![disk(9, 5, 6), disk(17, 3, 4)]);
    assert_eq!(two.n_ff_poles, 2);
    // the area is 312; 34 percent of it is 106, which the first pole (108) reaches
    let low = Surrogate::new(&shape, config(34, 10, 1, 1));
    assert_eq!(low.poles, vec![disk(9, 5, 6)]);
    // 35 percent is 109, which takes a second pole
    let more = Surrogate::new(&shape, config(35, 10, 1, 1));
    assert_eq!(more.poles, vec![disk(9, 5, 6), disk(17, 3, 4)]);
    let over = Surrogate::new(&shape, config(255, 10, 1, 1));
    assert_eq!(over.poles.len(), 4);
}

#[test]
fn candidate_whose_center_is_covered_is_left_out() {
    // two rectangles that make one square: the middles lie close together
    let shape = Shape::new(vec![rect(0, 0, 10, 5), rect(0, 5, 10, 10)]).unwrap();
    let disks = Surrogate::pole_candidates(&shape);
    assert_eq!(disks, vec![disk(5, 2, 3), disk(5, 7, 4)]);
    let s = Surrogate::new(&shape, config(100, 10, 1, 4));
    // the disk about (5, 7) holds the point (5, 2)? it does not: 5 > 4
    assert_eq!(s.poles, vec![disk(5, 7, 4), disk(5, 2, 3)]);
    let close = Shape::new(vec![rect(0, 0, 10, 10), rect(4, 4, 8, 8)]).unwrap();
    assert_eq!(Surrogate::pole_candidates(&close), vec![disk(5, 5, 6), disk(6, 6, 5)]);
    let s = Surrogate::new(&close, config(100, 10, 1, 4));
    assert_eq!(s.poles, vec![disk(5, 5, 6)]);
    assert_eq!(
        s.piers,
        vec![rect(0, 5, 10, 6), rect(0, 6, 10, 7), rect(5, 0, 6, 10), rect(6, 0, 7, 10)]
    );
}

#[test]
fn surrogate_of_a_polygon_lies_in_it() {
    let diamond = SimplePolygon::new(vec![Point(12, 0), Point(24, 12), Point(12, 24), Point(0, 12)])
        .unwrap()
        .to_shape()
        .unwrap();
    let s = Surrogate::new(&diamond, config(90, 5, 1, 2));
    assert!(!s.poles.is_empty());
    assert!(s.poles.len() <= 5);
    for (i, pole) in s.poles.iter().enumerate() {
        assert!(pole.radius >= 2);
        assert!(disk_fits(&diamond, pole));
        assert!(!disk_fits(&diamond, &disk(pole.center.0, pole.center.1, pole.radius + 1)));
        if i > 0 {
            assert!(s.poles[i - 1].radius >= pole.radius);
        }
        for earlier in &s.poles[..i] {
            assert!(!earlier.contains_point(&pole.center));
        }
    }
    assert_eq!(s.poles[0].radius, 9);
    assert_eq!(s.piers.len(), 2);
    for pier in &s.piers {
        assert!(pier.width() == 1 || pier.height() == 1);
        for x in pier.x_min..pier.x_max {
            for y in pier.y_min..pier.y_max {
                assert!(diamond.holds_cell(x, y));
            }
        }
    }
    assert_eq!(s.piers[0].width().max(s.piers[0].height()), 24);
}
