use town_layout::geometry::calculate_circumcenter;
use town_layout::geometry::circumcenter_within;
use town_layout::geometry::line_segment_intersection;
use town_layout::geometry::point_in_polygon;
use town_layout::geometry::polygon_area;
use town_layout::geometry::polygon_centroid;
use town_layout::geometry::Point;

const ONE: i32 = 65536;

fn pt(x: i32, y: i32) -> Point {
    Point::new(x, y)
}

fn metres(x: i32, y: i32) -> Point {
    Point::new(x * ONE, y * ONE)
}

fn unit_square() -> Vec<Point> {
    vec![metres(0, 0), metres(1, 0), metres(1, 1), metres(0, 1)]
}

#[test]
fn area_of_unit_square_is_one() {
    let square = unit_square();
    assert_eq!(polygon_area(&square), 2 * (ONE as i128) * (ONE as i128));
}

#[test]
fn area_negates_under_reversal() {
    let mut square = unit_square();
    let forward = polygon_area(&square);
    square.reverse();
    assert_eq!(polygon_area(&square), -forward);
}

#[test]
fn area_is_the_same_for_every_rotation() {
    let mut ring = vec![pt(3, 1), pt(40, -7), pt(55, 30), pt(20, 60), pt(-11, 25)];
    let area = polygon_area(&ring);
    assert_eq!(area, 5298);
    for _ in 0..ring.len() {
        ring.rotate_left(1);
        assert_eq!(polygon_area(&ring), area);
    }
}

#[test]
fn area_of_fewer_than_three_vertices_is_zero() {
    assert_eq!(polygon_area(&vec![]), 0);
    assert_eq!(polygon_area(&vec![pt(1, 2)]), 0);
    assert_eq!(polygon_area(&vec![pt(1, 2), pt(30, 40)]), 0);
}

#[test]
fn centroid_of_a_square_round_the_origin_is_the_origin() {
    let square = vec![metres(-2, -2), metres(2, -2), metres(2, 2), metres(-2, 2)];
    let area = polygon_area(&square);
    assert_eq!(polygon_centroid(&square, area), pt(0, 0));
}

#[test]
fn centroid_of_a_regular_hexagon_is_near_the_origin() {
    let mut ring = Vec::new();
    for i in 0..6 {
        let angle = (i as f64) * std::f64::consts::TAU / 6.0;
        ring.push(pt(
            (angle.cos() * 10.0 * 65536.0).round() as i32,
            (angle.sin() * 10.0 * 65536.0).round() as i32,
        ));
    }
    let area = polygon_area(&ring);
    let c = polygon_centroid(&ring, area);
    assert!(c.x.abs() <= 2 && c.y.abs() <= 2);
}

#[test]
fn centroid_of_a_rectangle() {
    let ring = vec![pt(0, 0), pt(60, 0), pt(60, 30), pt(0, 30)];
    assert_eq!(polygon_centroid(&ring, polygon_area(&ring)), pt(30, 15));
    let mut back = ring.clone();
    back.reverse();
    assert_eq!(polygon_centroid(&back, polygon_area(&back)), pt(30, 15));
}

#[test]
fn centroid_without_area_is_the_origin() {
    let ring = vec![pt(5, 5), pt(10, 10), pt(20, 20)];
    assert_eq!(polygon_centroid(&ring, polygon_area(&ring)), pt(0, 0));
    assert_eq!(polygon_centroid(&vec![pt(5, 5), pt(9, 9)], 7), pt(0, 0));
}

#[test]
fn crossing_segments_meet_in_the_middle() {
    let hit = line_segment_intersection(metres(0, 0), metres(2, 2), metres(0, 2), metres(2, 0));
    assert_eq!(hit, Some(metres(1, 1)));
}

#[test]
fn parallel_segments_do_not_meet() {
    let hit = line_segment_intersection(metres(0, 0), metres(2, 0), metres(0, 1), metres(2, 1));
    assert_eq!(hit, None);
}

#[test]
fn segments_that_stop_short_do_not_meet() {
    let hit = line_segment_intersection(metres(0, 0), metres(1, 1), metres(0, 3), metres(3, 0));
    assert_eq!(hit, None);
}

#[test]
fn segments_meet_at_an_end_point() {
    let hit = line_segment_intersection(metres(0, 0), metres(2, 0), metres(2, 0), metres(2, 5));
    assert_eq!(hit, Some(metres(2, 0)));
}

#[test]
fn circumcenter_of_a_right_triangle_is_the_middle_of_the_hypotenuse() {
    let c = calculate_circumcenter(metres(0, 0), metres(4, 0), metres(0, 2));
    assert_eq!(c, metres(2, 1));
}

#[test]
fn circumcenter_of_an_equilateral_triangle_is_equidistant() {
    let s = 10.0 * 65536.0_f64;
    let a = pt(0, 0);
    let b = pt(s as i32, 0);
    let c = pt((s / 2.0) as i32, (s * 3.0_f64.sqrt() / 2.0).round() as i32);
    let u = calculate_circumcenter(a, b, c);
    let dist = |p: Point| {
        let dx = (p.x - u.x) as f64;
        let dy = (p.y - u.y) as f64;
        (dx * dx + dy * dy).sqrt()
    };
    assert!((dist(a) - dist(b)).abs() <= 2.0);
    assert!((dist(b) - dist(c)).abs() <= 2.0);
}

#[test]
fn circumcenter_of_collinear_points_is_the_centroid() {
    let c = calculate_circumcenter(pt(0, 0), pt(30, 30), pt(60, 60));
    assert_eq!(c, pt(30, 30));
}

#[test]
fn circumcenter_beyond_the_bound_is_the_centroid() {
    let a = pt(0, 0);
    let b = pt(3000, 1);
    let c = pt(6000, 0);
    assert_eq!(circumcenter_within(a, b, c, 1000), pt(3000, 0));
    assert_eq!(circumcenter_within(a, b, c, 10_000_000), pt(3000, -4_500_000));
}

#[test]
fn point_inside_and_outside_a_square() {
    let square = vec![metres(0, 0), metres(4, 0), metres(4, 4), metres(0, 4)];
    assert!(point_in_polygon(&metres(2, 2), &square));
    assert!(point_in_polygon(&metres(1, 3), &square));
    assert!(!point_in_polygon(&metres(5, 2), &square));
    assert!(!point_in_polygon(&metres(-1, 2), &square));
    assert!(!point_in_polygon(&metres(2, 7), &square));
}

#[test]
fn point_in_a_concave_polygon() {
    let ring = vec![
        metres(0, 0),
        metres(6, 0),
        metres(6, 6),
        metres(3, 2),
        metres(0, 6),
    ];
    assert!(point_in_polygon(&metres(1, 2), &ring));
    assert!(point_in_polygon(&metres(5, 2), &ring));
    assert!(!point_in_polygon(&metres(3, 4), &ring));
}

#[test]
fn nothing_is_inside_fewer_than_three_vertices() {
    assert!(!point_in_polygon(&pt(0, 0), &vec![pt(-5, -5), pt(5, 5)]));
}

#[test]
fn circumcenter_far_from_the_origin_is_kept() {
    let c = calculate_circumcenter(metres(3000, 0), metres(3004, 0), metres(3000, 3));
    assert_eq!(c, pt(3002 * ONE, 3 * ONE / 2));
}

#[test]
fn circumcenter_with_a_negative_bound_is_the_centroid() {
    assert_eq!(circumcenter_within(pt(0, 0), pt(6, 0), pt(0, 6), -1), pt(2, 2));
    assert_eq!(circumcenter_within(pt(0, 0), pt(6, 0), pt(0, 6), 0), pt(2, 2));
    assert_eq!(circumcenter_within(pt(0, 0), pt(6, 0), pt(0, 6), 2), pt(3, 3));
}

#[test]
fn centroid_of_a_regular_polygon_with_even_sides_is_the_origin() {
    for sides in [4usize, 6, 8, 12, 30] {
        let mut ring = Vec::new();
        for i in 0..sides {
            let angle = 0.3 + (i as f64) * std::f64::consts::TAU / sides as f64;
            ring.push(pt(
                (angle.cos() * 75.0 * 65536.0).round() as i32,
                (angle.sin() * 75.0 * 65536.0).round() as i32,
            ));
        }
        for i in 0..sides / 2 {
            let mirror = ring[i];
            ring[i + sides / 2] = pt(-mirror.x, -mirror.y);
        }
        let area = polygon_area(&ring);
        assert!(area > 0);
        assert_eq!(polygon_centroid(&ring, area), pt(0, 0));
    }
}

#[test]
fn centroid_of_a_regular_polygon_with_odd_sides_is_near_the_origin() {
    for sides in [3usize, 5, 7, 9] {
        let mut ring = Vec::new();
        for i in 0..sides {
            let angle = 0.3 + (i as f64) * std::f64::consts::TAU / sides as f64;
            ring.push(pt(
                (angle.cos() * 75.0 * 65536.0).round() as i32,
                (angle.sin() * 75.0 * 65536.0).round() as i32,
            ));
        }
        let c = polygon_centroid(&ring, polygon_area(&ring));
        assert!(c.x.abs() <= 2 && c.y.abs() <= 2);
    }
}
