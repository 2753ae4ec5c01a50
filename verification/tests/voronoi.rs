use spade::DelaunayTriangulation;
use spade::Point2;
use spade::Triangulation;
use town_layout::geometry::Point;
use town_layout::voronoi::merge_centers;
use town_layout::voronoi::sort_by_angle;
use town_layout::voronoi::vpoly;
use town_layout::voronoi::vpoly_on_canvas;
use town_layout::voronoi::Triangle;

const ONE: i32 = 65536;

fn at(x: i32, y: i32) -> Point {
    Point::new(x * ONE, y * ONE)
}

fn grid(p: Point2<f64>) -> Point {
    Point::new(p.x as i32, p.y as i32)
}

fn delaunay(points: &[Point]) -> Vec<Triangle> {
    let mut net: DelaunayTriangulation<Point2<f64>> = DelaunayTriangulation::new();
    for p in points {
        let _ = net.insert(Point2::new(p.x as f64, p.y as f64));
    }
    let mut faces = Vec::new();
    for face in net.inner_faces() {
        let [a, b, c] = face.vertices();
        let on_hull = face.adjacent_edges().iter().any(|e| e.rev().face().is_outer());
        faces.push(Triangle {
            a: grid(a.position()),
            b: grid(b.position()),
            c: grid(c.position()),
            on_hull,
        });
    }
    faces
}

fn lattice(from: i32, to: i32, step: i32) -> Vec<Point> {
    let mut points = Vec::new();
    let mut y = from;
    while y <= to {
        let mut x = from;
        while x <= to {
            points.push(at(x, y + (x / step) % 2));
            x += step;
        }
        y += step;
    }
    points
}

#[test]
fn merging_joins_the_first_cluster_within_reach() {
    let centers = vec![
        Point::new(0, 0),
        Point::new(100, 0),
        Point::new(8, 0),
        Point::new(15, 0),
        Point::new(104, 6),
    ];
    let (points, mapping) = merge_centers(&centers, 10);
    assert_eq!(points, vec![Point::new(4, 0), Point::new(102, 3), Point::new(15, 0)]);
    assert_eq!(mapping, vec![0, 1, 0, 2, 1]);
}

#[test]
fn merging_depends_on_the_order() {
    let centers = vec![Point::new(8, 0), Point::new(0, 0), Point::new(15, 0)];
    let (points, mapping) = merge_centers(&centers, 10);
    assert_eq!(points, vec![Point::new(7, 0)]);
    assert_eq!(mapping, vec![0, 0, 0]);
}

#[test]
fn merging_can_leave_means_closer_than_the_threshold() {
    let centers = vec![
        Point::new(0, 0),
        Point::new(99, 0),
        Point::new(99, 0),
        Point::new(99, 0),
        Point::new(100, 0),
    ];
    let (points, mapping) = merge_centers(&centers, 100);
    assert_eq!(points, vec![Point::new(74, 0), Point::new(100, 0)]);
    assert_eq!(mapping, vec![0, 0, 0, 0, 1]);
}

#[test]
fn merging_without_threshold_keeps_every_corner() {
    let centers = vec![Point::new(0, 0), Point::new(0, 0), Point::new(1, 0)];
    let (points, mapping) = merge_centers(&centers, 0);
    assert_eq!(points, centers);
    assert_eq!(mapping, vec![0, 1, 2]);
    let (points, mapping) = merge_centers(&centers, 1);
    assert_eq!(points, vec![Point::new(0, 0), Point::new(1, 0)]);
    assert_eq!(mapping, vec![0, 0, 1]);
    let (points, mapping) = merge_centers(&Vec::new(), 5);
    assert!(points.is_empty() && mapping.is_empty());
}

#[test]
fn corners_are_sorted_by_angle() {
    let points = vec![at(1, 0), at(0, 1), at(-1, 0), at(0, -1), at(1, 1), at(-1, -1)];
    let sorted = sort_by_angle(&vec![0, 1, 2, 3, 4, 5], &points, at(0, 0));
    assert_eq!(sorted, vec![5, 3, 0, 4, 1, 2]);
}

#[test]
fn sorting_follows_the_arc_tangent() {
    let points = vec![
        Point::new(37, -12),
        Point::new(-5, 44),
        Point::new(-61, -3),
        Point::new(9, 9),
        Point::new(-20, -35),
        Point::new(50, 1),
        Point::new(3, -70),
    ];
    let centre = Point::new(2, -4);
    let sorted = sort_by_angle(&vec![0, 1, 2, 3, 4, 5, 6], &points, centre);
    let mut expected: Vec<usize> = (0..7).collect();
    expected.sort_by(|&a, &b| {
        let angle = |i: usize| {
            ((points[i].y - centre.y) as f64).atan2((points[i].x - centre.x) as f64)
        };
        angle(a).partial_cmp(&angle(b)).unwrap()
    });
    assert_eq!(sorted, expected);
}

#[test]
fn corners_of_the_same_angle_keep_their_order() {
    let points = vec![at(2, 0), at(1, 0), at(0, 0), at(3, 0)];
    let sorted = sort_by_angle(&vec![0, 1, 2, 3], &points, at(0, 0));
    assert_eq!(sorted, vec![0, 1, 2, 3]);
    assert!(sort_by_angle(&Vec::new(), &points, at(0, 0)).is_empty());
}

#[test]
fn diagram_of_a_lattice() {
    let generators = lattice(-20, 20, 10);
    let faces = delaunay(&generators);
    let boundary = vec![at(-100, -100), at(100, -100), at(100, 100), at(-100, 100)];
    let data = vpoly(generators.clone(), &faces, &boundary, 655);
    assert_eq!(data.generator_points, generators);
    assert_eq!(data.boundary_polygon, boundary);
    assert_eq!(data.boundary_vertex_offsets, vec![Point::new(0, 0); 4]);
    assert!(data.road_path.is_empty());
    assert!(!data.cells.is_empty());
    assert!(data.cells.len() <= 9);
    for cell in data.cells.iter() {
        assert!(cell.len() >= 3);
        for &corner in cell.iter() {
            assert!(corner < data.points.len());
        }
    }
    assert!(data.is_valid());
}

#[test]
fn cells_of_generators_outside_the_boundary_are_dropped() {
    let generators = lattice(-20, 20, 10);
    let faces = delaunay(&generators);
    let wide = vec![at(-100, -100), at(100, -100), at(100, 100), at(-100, 100)];
    let narrow = vec![at(-5, -5), at(5, -5), at(5, 5), at(-5, 5)];
    let away = vec![at(50, 50), at(60, 50), at(60, 60), at(50, 60)];
    let all = vpoly(generators.clone(), &faces, &wide, 655).cells.len();
    let few = vpoly(generators.clone(), &faces, &narrow, 655).cells.len();
    let none = vpoly(generators.clone(), &faces, &away, 655).cells.len();
    assert!(few >= 1 && few < all);
    assert_eq!(none, 0);
}

#[test]
fn cells_at_the_hull_are_dropped() {
    let generators = vec![at(0, 0), at(-10, -10), at(10, -10), at(10, 10), at(-10, 10)];
    let faces = delaunay(&generators);
    assert!(faces.iter().all(|f| f.on_hull));
    let boundary = vec![at(-100, -100), at(100, -100), at(100, 100), at(-100, 100)];
    let data = vpoly(generators.clone(), &faces, &boundary, 655);
    assert!(data.cells.is_empty());
    let inner: Vec<Triangle> = faces.iter().map(|f| Triangle { on_hull: false, ..*f }).collect();
    let data = vpoly(generators, &inner, &boundary, 655);
    assert_eq!(data.cells.len(), 1);
    assert_eq!(data.cells[0].len(), 4);
}

#[test]
fn cells_with_far_corners_are_dropped() {
    let generators = vec![at(0, 0), at(-10, -10), at(10, -10), at(10, 10), at(-10, 10)];
    let faces: Vec<Triangle> =
        delaunay(&generators).iter().map(|f| Triangle { on_hull: false, ..*f }).collect();
    let boundary = vec![at(-100, -100), at(100, -100), at(100, 100), at(-100, 100)];
    let kept = vpoly_on_canvas(generators.clone(), &faces, &boundary, 655, 20 * ONE, 20 * ONE);
    assert_eq!(kept.cells.len(), 1);
    let dropped = vpoly_on_canvas(generators, &faces, &boundary, 655, 2 * ONE, 2 * ONE);
    assert!(dropped.cells.is_empty());
}

#[test]
fn cells_come_in_the_order_of_the_generators() {
    let generators = lattice(-30, 30, 10);
    let faces: Vec<Triangle> = delaunay(&generators);
    let boundary = vec![at(-100, -100), at(100, -100), at(100, 100), at(-100, 100)];
    let data = vpoly(generators.clone(), &faces, &boundary, 655);
    let mut reversed = generators.clone();
    reversed.reverse();
    let mirror = vpoly(reversed, &faces, &boundary, 655);
    assert_eq!(data.points, mirror.points);
    let mut cells = mirror.cells.clone();
    cells.reverse();
    assert_eq!(data.cells, cells);
}

#[test]
fn diagram_without_faces_is_empty() {
    let boundary = vec![at(-100, -100), at(100, -100), at(100, 100), at(-100, 100)];
    let data = vpoly(vec![at(0, 0), at(1, 1)], &Vec::new(), &boundary, 655);
    assert!(data.points.is_empty());
    assert!(data.cells.is_empty());
    assert!(!data.is_valid());
}
