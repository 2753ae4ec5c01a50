use rand::rngs::StdRng;
use rand::Rng;
use rand::SeedableRng;
use spade::DelaunayTriangulation;
use spade::Point2;
use spade::Triangulation;
use town_layout::geometry::point_in_polygon;
use town_layout::geometry::polygon_area;
use town_layout::geometry::Point;
use town_layout::point_gen::boundary_corner;
use town_layout::point_gen::boundary_from;
use town_layout::point_gen::generate_boundary_generators;
use town_layout::point_gen::spiral_from;
use town_layout::point_gen::spiral_vertex;
use town_layout::point_gen::generate_boundary_polygon;
use town_layout::point_gen::generate_road_generators;
use town_layout::point_gen::pgen;
use town_layout::point_gen::prelax;
use town_layout::voronoi::Triangle;

const ONE: i32 = 65536;

fn at(x: i32, y: i32) -> Point {
    Point::new(x * ONE, y * ONE)
}

fn in_metres(p: Point) -> (f32, f32) {
    (p.x as f32 / 65536.0, p.y as f32 / 65536.0)
}

fn grid(p: Point2<f64>) -> Point {
    Point::new(p.x as i32, p.y as i32)
}

fn delaunay(points: &[Point]) -> Vec<Triangle> {
    let mut net: DelaunayTriangulation<Point2<f64>> = DelaunayTriangulation::new();
    for p in points {
        let _ = net.insert(Point2::new(p.x as f64, p.y as f64));
    }
    let mut faces = Vec::new();
    for face in net.inner_faces() {
        let [a, b, c] = face.vertices();
        let on_hull = face.adjacent_edges().iter().any(|e| e.rev().face().is_outer());
        faces.push(Triangle {
            a: grid(a.position()),
            b: grid(b.position()),
            c: grid(c.position()),
            on_hull,
        });
    }
    faces
}

#[test]
fn spiral_follows_its_formula() {
    let seed = 1512086461918454205;
    let points = pgen(30, 500 * ONE, 500 * ONE, 3 * ONE, seed);
    assert_eq!(points.len(), 30);
    let mut rng = StdRng::seed_from_u64(seed);
    for (i, p) in points.iter().enumerate() {
        let t = i as f32;
        let angle = t * 0.5 + rng.random_range(-0.3f32..0.3f32);
        let radius = t * 3.0 + rng.random_range(-0.6f32..0.6f32);
        let (x, y) = in_metres(*p);
        assert!((x - angle.cos() * radius).abs() < 0.01);
        assert!((y - angle.sin() * radius).abs() < 0.01);
    }
}

#[test]
fn spiral_is_the_same_for_the_same_seed() {
    let a = pgen(40, 500 * ONE, 500 * ONE, 3 * ONE, 77);
    let b = pgen(40, 500 * ONE, 500 * ONE, 3 * ONE, 77);
    let c = pgen(40, 500 * ONE, 500 * ONE, 3 * ONE, 78);
    assert_eq!(a, b);
    assert_ne!(a, c);
}

#[test]
fn spiral_stays_on_the_canvas() {
    let points = pgen(60, 20 * ONE, 10 * ONE, 3 * ONE, 5);
    assert_eq!(points.len(), 60);
    for p in points.iter() {
        assert!(p.x.abs() <= 20 * ONE);
        assert!(p.y.abs() <= 10 * ONE);
    }
    assert!(points.iter().any(|p| p.x.abs() == 20 * ONE));
    assert!(pgen(0, ONE, ONE, ONE, 5).is_empty());
}

#[test]
fn spiral_without_spread_stays_at_the_origin() {
    let points = pgen(5, 500 * ONE, 500 * ONE, 0, 9);
    assert_eq!(points, vec![Point::new(0, 0); 5]);
}

#[test]
fn boundary_follows_its_formula() {
    let seed = 99;
    let ring = generate_boundary_polygon(7, 75 * ONE, seed);
    assert_eq!(ring.len(), 7);
    let mut rng = StdRng::seed_from_u64(seed);
    for (i, p) in ring.iter().enumerate() {
        let angle = (i as f32 / 7.0) * std::f32::consts::TAU;
        let radius = 75.0 * (1.0 + rng.random_range(-0.2f32..0.2f32));
        let (x, y) = in_metres(*p);
        assert!((x - angle.cos() * radius).abs() < 0.01);
        assert!((y - angle.sin() * radius).abs() < 0.01);
    }
}

#[test]
fn boundary_vertices_lie_within_a_fifth_of_the_radius() {
    for seed in 0..40u64 {
        for count in 3..9usize {
            let ring = generate_boundary_polygon(count, 75 * ONE, seed);
            assert_eq!(ring.len(), count);
            for p in ring.iter() {
                let d = ((p.x as f64).powi(2) + (p.y as f64).powi(2)).sqrt() / 65536.0;
                assert!(d >= 75.0 * 0.8 && d <= 75.0 * 1.2);
            }
        }
    }
}

#[test]
fn boundary_turns_counter_clockwise() {
    let ring = generate_boundary_polygon(6, 50 * ONE, 3);
    assert!(polygon_area(&ring) > 0);
    assert_eq!(ring, generate_boundary_polygon(6, 50 * ONE, 3));
    assert!(generate_boundary_polygon(0, 50 * ONE, 3).is_empty());
}

#[test]
fn boundary_generators_round_a_square() {
    let ring = vec![at(0, 0), at(24, 0), at(24, 24), at(0, 24)];
    let found = generate_boundary_generators(&ring, 12 * ONE, ONE);
    assert_eq!(
        found,
        vec![
            at(6, 1),
            at(6, -2),
            at(18, 1),
            at(18, -2),
            at(23, 6),
            at(26, 6),
            at(23, 18),
            at(26, 18),
            at(18, 23),
            at(18, 26),
            at(6, 23),
            at(6, 26),
            at(1, 18),
            at(-2, 18),
            at(1, 6),
            at(-2, 6),
        ]
    );
}

#[test]
fn boundary_generators_find_the_inside_of_a_clockwise_ring() {
    let ring = vec![at(0, 24), at(24, 24), at(24, 0), at(0, 0)];
    let found = generate_boundary_generators(&ring, 12 * ONE, ONE);
    assert_eq!(found.len(), 16);
    assert_eq!(found[0], at(6, 23));
    assert_eq!(found[1], at(6, 26));
    for pair in found.chunks(2) {
        assert!(point_in_polygon(&pair[0], &ring));
        assert!(!point_in_polygon(&pair[1], &ring));
    }
}

#[test]
fn boundary_generators_give_a_short_edge_one_pair() {
    let ring = vec![at(0, 0), at(4, 0), at(4, 4), at(0, 4)];
    let found = generate_boundary_generators(&ring, 12 * ONE, ONE);
    assert_eq!(found.len(), 8);
    assert_eq!(found[0], at(2, 1));
    assert_eq!(found[1], at(2, -2));
    let none = generate_boundary_generators(&vec![], 12 * ONE, ONE);
    assert!(none.is_empty());
    let point = generate_boundary_generators(&vec![at(1, 1), at(1, 1), at(1, 1)], 12 * ONE, ONE);
    assert!(point.is_empty());
}

#[test]
fn road_generators_along_one_segment() {
    let road = vec![at(0, 0), at(14, 0)];
    let found = generate_road_generators(&road);
    let side = 6554;
    assert_eq!(
        found,
        vec![
            Point::new(0, side),
            Point::new(0, -side),
            Point::new(7 * ONE, side),
            Point::new(7 * ONE, -side),
            Point::new(14 * ONE, side),
            Point::new(14 * ONE, -side),
        ]
    );
}

#[test]
fn road_generators_keep_clear_of_corners() {
    let road = vec![at(0, 0), at(16, 0), at(16, 3), at(16, 20)];
    let found = generate_road_generators(&road);
    let side = 6554;
    assert_eq!(found.len(), 6 + 0 + 8);
    assert_eq!(found[0], Point::new(0, side));
    assert_eq!(found[4], Point::new(14 * ONE, side));
    assert_eq!(found[6], Point::new(16 * ONE - side, 5 * ONE));
    assert_eq!(found[7], Point::new(16 * ONE + side, 5 * ONE));
    assert_eq!(found[12], Point::new(16 * ONE - side, 20 * ONE));
}

#[test]
fn road_generators_need_a_segment() {
    assert!(generate_road_generators(&vec![]).is_empty());
    assert!(generate_road_generators(&vec![at(3, 3)]).is_empty());
    assert!(generate_road_generators(&vec![at(3, 3), at(3, 3)]).is_empty());
}

#[test]
fn relaxation_keeps_the_fixed_points() {
    let regular = pgen(20, 500 * ONE, 500 * ONE, 3 * ONE, 11);
    let ring = generate_boundary_polygon(5, 75 * ONE, 11);
    let fixed = generate_boundary_generators(&ring, 12 * ONE, ONE);
    let mut all = regular.clone();
    all.extend(fixed.iter().copied());
    let faces = delaunay(&all);
    let after = prelax(regular.clone(), fixed.clone(), &faces, 500 * ONE, 500 * ONE);
    assert_eq!(after.len(), regular.len() + fixed.len());
    assert_eq!(&after[regular.len()..], &fixed[..]);
    assert_ne!(&after[..regular.len()], &regular[..]);
}

#[test]
fn relaxation_moves_a_point_to_the_centroid_of_its_cell() {
    let regular = vec![at(1, 1)];
    let fixed = vec![at(-10, -10), at(10, -10), at(10, 10), at(-10, 10)];
    let mut all = regular.clone();
    all.extend(fixed.iter().copied());
    let faces = delaunay(&all);
    assert_eq!(faces.len(), 4);
    let after = prelax(regular, fixed.clone(), &faces, 500 * ONE, 500 * ONE);
    assert_eq!(&after[1..], &fixed[..]);
    let (x, y) = in_metres(after[0]);
    assert!(x.abs() < 1.0 && y.abs() < 1.0);
    assert_ne!(after[0], at(1, 1));
}

#[test]
fn relaxation_without_faces_changes_nothing() {
    let regular = vec![at(1, 1), at(2, 5)];
    let fixed = vec![at(9, 9)];
    let after = prelax(regular, fixed, &Vec::new(), 500 * ONE, 500 * ONE);
    assert_eq!(after, vec![at(1, 1), at(2, 5), at(9, 9)]);
}

#[test]
fn relaxation_limits_points_to_the_canvas() {
    let regular = vec![at(1, 1)];
    let fixed = vec![at(-10, -10), at(30, -10), at(30, 30), at(-10, 30)];
    let mut all = regular.clone();
    all.extend(fixed.iter().copied());
    let faces = delaunay(&all);
    let after = prelax(regular, fixed, &faces, 2 * ONE, 3 * ONE);
    assert!(after[0].x.abs() <= 2 * ONE);
    assert!(after[0].y.abs() <= 3 * ONE);
}

#[test]
fn spiral_points_follow_from_the_words() {
    assert_eq!(spiral_vertex(0, 500 * ONE, 500 * ONE, 3 * ONE, 0x8000_0000, 0x8000_0000), at(0, 0));
    assert_eq!(
        spiral_vertex(4, 500 * ONE, 500 * ONE, ONE, 0x8000_0000, 0x8000_0000),
        Point::new(-109_091, 238_366)
    );
    let seed = 321;
    let points = pgen(12, 500 * ONE, 500 * ONE, 3 * ONE, seed);
    let mut rng = StdRng::seed_from_u64(seed);
    for (i, p) in points.iter().enumerate() {
        let w1 = rand::RngCore::next_u32(&mut rng);
        let w2 = rand::RngCore::next_u32(&mut rng);
        assert_eq!(*p, spiral_vertex(i, 500 * ONE, 500 * ONE, 3 * ONE, w1, w2));
    }
}

#[test]
fn spiral_is_drawn_from_the_generator_it_is_given() {
    let mut rng = StdRng::seed_from_u64(55);
    let mut twin = StdRng::seed_from_u64(55);
    let first = spiral_from(&mut rng, 6, 500 * ONE, 500 * ONE, 3 * ONE);
    assert_eq!(first, pgen(6, 500 * ONE, 500 * ONE, 3 * ONE, 55));
    for _ in 0..12 {
        let _ = rand::RngCore::next_u32(&mut twin);
    }
    assert_eq!(rand::RngCore::next_u32(&mut rng), rand::RngCore::next_u32(&mut twin));
}

#[test]
fn boundary_vertices_follow_from_the_words() {
    assert_eq!(boundary_corner(0, 4, 75 * ONE, 0x8000_0000), at(75, 0));
    assert_eq!(boundary_corner(1, 4, 75 * ONE, 0x8000_0000), at(0, 75));
    assert_eq!(boundary_corner(2, 4, 75 * ONE, 0), Point::new(-3_932_175, 0));
    assert_eq!(boundary_corner(3, 4, 75 * ONE, u32::MAX), Point::new(0, -5_898_150));
    let ring = generate_boundary_polygon(5, 75 * ONE, 8);
    let mut rng = StdRng::seed_from_u64(8);
    for (i, p) in ring.iter().enumerate() {
        assert_eq!(*p, boundary_corner(i, 5, 75 * ONE, rand::RngCore::next_u32(&mut rng)));
    }
    let mut rng = StdRng::seed_from_u64(8);
    assert_eq!(boundary_from(&mut rng, 5, 75 * ONE), ring);
}

#[test]
fn small_boundaries_lie_within_a_fifth_give_or_take() {
    for radius in [0, 1, 7, 40, 1000, 65536, 25 * ONE, 30 * ONE] {
        for seed in 0..20u64 {
            let ring = generate_boundary_polygon(7, radius, seed);
            for p in ring.iter() {
                let d = ((p.x as f64).powi(2) + (p.y as f64).powi(2)).sqrt();
                let r = radius as f64;
                assert!(d <= 1.2 * r + 32.0 && d >= 0.8 * r - 32.0);
                if radius >= 25 * ONE {
                    assert!(d <= 1.2 * r && d >= 0.8 * r);
                }
            }
        }
    }
}
