use rand::rngs::StdRng;
use rand::SeedableRng;
use town_layout::geometry::polygon_area;
use town_layout::geometry::Point;
use town_layout::geometry::Wide;
use town_layout::subdivision::bisect_poly;
use town_layout::subdivision::point_to_line_distance;
use town_layout::subdivision::push_polygon_from_line;
use town_layout::subdivision::subdivide_to_plots;
use town_layout::subdivision::vlongest_edge;

const UNIT_M: i32 = 65536;
const SQ: i128 = 65536 * 65536;

fn at(x: i32, y: i32) -> Point {
    Point::new(x * UNIT_M, y * UNIT_M)
}

fn square(side: i32) -> Vec<Point> {
    vec![at(0, 0), at(side, 0), at(side, side), at(0, side)]
}

#[test]
fn longest_edge_is_the_first_of_the_longest() {
    let ring = vec![at(0, 0), at(3, 0), at(3, 8), at(0, 8)];
    assert_eq!(vlongest_edge(&ring), Some((1, at(3, 0), 8 * 65536)));
    assert_eq!(vlongest_edge(&square(5)), Some((0, at(0, 0), 5 * 65536)));
}

#[test]
fn longest_edge_needs_two_vertices() {
    assert_eq!(vlongest_edge(&vec![at(1, 1)]), None);
    assert_eq!(vlongest_edge(&vec![]), None);
    assert_eq!(vlongest_edge(&vec![at(0, 0), at(3, 4)]), Some((0, at(0, 0), 5 * 65536)));
}

#[test]
fn distance_to_a_segment() {
    let a = Wide { x: 0, y: 0 };
    let b = Wide { x: 10 * 65536, y: 0 };
    assert_eq!(point_to_line_distance(at(5, 3), a, b), 3 * 65536);
    assert_eq!(point_to_line_distance(at(13, 4), a, b), 5 * 65536);
    assert_eq!(point_to_line_distance(at(-3, -4), a, b), 5 * 65536);
    assert_eq!(point_to_line_distance(at(3, 4), a, a), 5 * 65536);
}

#[test]
fn bisect_square_through_the_middle() {
    let halves = bisect_poly(&square(20), 0, 32768, 0, 0);
    assert_eq!(halves.len(), 2);
    assert_eq!(halves[0], vec![at(10, 0), at(20, 0), at(20, 20), at(10, 20)]);
    assert_eq!(halves[1], vec![at(10, 20), at(0, 20), at(0, 0), at(10, 0)]);
}

#[test]
fn bisect_with_separation_opens_a_gap() {
    let halves = bisect_poly(&square(20), 0, 32768, 0, 2 * UNIT_M);
    assert_eq!(halves.len(), 2);
    assert_eq!(halves[0], vec![at(11, 0), at(20, 0), at(20, 20), at(11, 20)]);
    assert_eq!(halves[1], vec![at(9, 20), at(0, 20), at(0, 0), at(9, 0)]);
}

#[test]
fn bisect_gives_back_what_it_cannot_cut() {
    let thin = vec![at(0, 0), at(5, 0)];
    assert_eq!(bisect_poly(&thin, 0, 32768, 0, 0), vec![thin.clone()]);
    let ring = square(4);
    assert_eq!(bisect_poly(&ring, 9, 32768, 0, 0), vec![ring.clone()]);
}

#[test]
fn bisect_cuts_a_clockwise_square() {
    let clockwise = vec![at(0, 20), at(20, 20), at(20, 0), at(0, 0)];
    let halves = bisect_poly(&clockwise, 0, 32768, 0, 0);
    assert_eq!(halves.len(), 2);
    assert_eq!(halves[0], vec![at(10, 20), at(20, 20), at(20, 0), at(10, 0)]);
    assert_eq!(halves[1], vec![at(10, 0), at(0, 0), at(0, 20), at(10, 20)]);
    assert_eq!(polygon_area(&halves[0]), -2 * 200 * SQ);
    assert_eq!(polygon_area(&halves[1]), -2 * 200 * SQ);
}

#[test]
fn bisect_drops_a_piece_without_area() {
    let ring = vec![at(0, 0), at(20, 0), at(20, 20), at(0, 20)];
    let halves = bisect_poly(&ring, 0, 1, 0, 0);
    assert_eq!(halves.len(), 1);
    assert_eq!(halves[0].len(), 4);
    assert!(polygon_area(&halves[0]) < 2 * 400 * SQ);
}

#[test]
fn bisect_at_an_angle_keeps_the_area() {
    let ring = square(20);
    let halves = bisect_poly(&ring, 0, 20000, 9000, 0);
    assert_eq!(halves.len(), 2);
    let total: i128 = halves.iter().map(|h| polygon_area(h)).sum();
    let whole = polygon_area(&ring);
    assert!((total - whole).abs() < 200 * 65536);
    assert!(halves[0][0].x != halves[0][halves[0].len() - 1].x);
}

#[test]
fn push_moves_the_near_side_only() {
    let ring = vec![at(0, 1), at(10, 1), at(10, 9), at(0, 9)];
    let pushed = push_polygon_from_line(&ring, at(-5, 0), at(15, 0), UNIT_M);
    assert_eq!(pushed, vec![at(0, 2), at(10, 2), at(10, 9), at(0, 9)]);
}

#[test]
fn push_is_given_up_where_the_area_collapses() {
    let ring = vec![at(0, 1), at(10, 1), at(10, 2), at(0, 2)];
    let pushed = push_polygon_from_line(&ring, at(-5, 0), at(15, 0), UNIT_M);
    assert_eq!(pushed, ring);
}

#[test]
fn push_leaves_short_rings_alone() {
    let ring = vec![at(0, 1), at(10, 1)];
    assert_eq!(push_polygon_from_line(&ring, at(-5, 0), at(15, 0), UNIT_M), ring);
}

#[test]
fn subdivide_square_without_chaos() {
    let ring = square(20);
    let mut rng = StdRng::seed_from_u64(7);
    let plots = subdivide_to_plots(&ring, 15 * UNIT_M, 0, 0, 0, 0, &mut rng, 10, 0, 0);
    assert_eq!(plots.len(), 16);
    for plot in plots.iter() {
        assert_eq!(plot.len(), 4);
        assert_eq!(polygon_area(plot), 2 * 25 * SQ);
    }
    let total: i128 = plots.iter().map(|p| polygon_area(p)).sum();
    assert_eq!(total, 2 * 400 * SQ);
}

#[test]
fn subdivide_is_the_same_for_the_same_seed() {
    let ring = square(40);
    let mut first = StdRng::seed_from_u64(99);
    let mut second = StdRng::seed_from_u64(99);
    let a = subdivide_to_plots(&ring, 15 * UNIT_M, 22938, 16384, 3277, 0, &mut first, 10, 52429, 52429);
    let b = subdivide_to_plots(&ring, 15 * UNIT_M, 22938, 16384, 3277, 0, &mut second, 10, 52429, 52429);
    assert_eq!(a, b);
    assert!(a.len() > 4);
}

#[test]
fn subdivide_stops_beyond_the_greatest_depth() {
    let ring = square(20);
    let mut rng = StdRng::seed_from_u64(1);
    let plots = subdivide_to_plots(&ring, 15 * UNIT_M, 0, 0, 0, 3, &mut rng, 2, 0, 0);
    assert_eq!(plots, vec![ring.clone()]);
    let mut rng = StdRng::seed_from_u64(1);
    let shallow = subdivide_to_plots(&ring, 15 * UNIT_M, 0, 0, 0, 0, &mut rng, 1, 0, 0);
    assert_eq!(shallow.len(), 4);
}

#[test]
fn subdivide_returns_a_small_polygon_as_it_is() {
    let ring = square(3);
    let mut rng = StdRng::seed_from_u64(5);
    let plots = subdivide_to_plots(&ring, 15 * UNIT_M, 22938, 16384, 3277, 0, &mut rng, 10, 52429, 52429);
    assert_eq!(plots, vec![ring]);
}

#[test]
fn subdivide_draws_from_the_generator() {
    let ring = square(40);
    let mut rng = StdRng::seed_from_u64(3);
    let mut untouched = StdRng::seed_from_u64(3);
    let _ = subdivide_to_plots(&ring, 15 * UNIT_M, 22938, 16384, 3277, 0, &mut rng, 10, 52429, 52429);
    assert_ne!(rng, untouched);
    let _ = rand::RngCore::next_u32(&mut untouched);
    assert_ne!(rng, StdRng::seed_from_u64(3));
}

#[test]
fn subdivide_keeps_within_its_levels() {
    let ring = square(60);
    let whole = polygon_area(&ring);
    for levels in 0..6usize {
        for seed in 0..8u64 {
            let mut rng = StdRng::seed_from_u64(seed);
            let plots =
                subdivide_to_plots(&ring, 15 * UNIT_M, 65536, 65536, 0, 0, &mut rng, levels, 52429, 52429);
            assert!(plots.len() <= 1 << (levels + 1));
            for plot in plots.iter() {
                let area = polygon_area(plot);
                assert!(*plot == ring || 5 * area.abs() > 858_993_459);
                assert!(area <= whole);
            }
        }
    }
}

#[test]
fn subdivide_returns_a_square_metre_as_it_is() {
    let ring = square(1);
    let mut rng = StdRng::seed_from_u64(5);
    let mut twin = StdRng::seed_from_u64(5);
    let plots = subdivide_to_plots(&ring, 15 * UNIT_M, 65536, 65536, 0, 0, &mut rng, 10, 52429, 52429);
    assert_eq!(plots, vec![ring]);
    assert_eq!(rand::RngCore::next_u32(&mut rng), rand::RngCore::next_u32(&mut twin));
}

#[test]
fn subdivide_can_leave_plots_empty() {
    let ring = square(40);
    let mut rng = StdRng::seed_from_u64(17);
    let none = subdivide_to_plots(&ring, 15 * UNIT_M, 0, 0, 65536, 0, &mut rng, 10, 0, 0);
    assert!(none.is_empty());
}

#[test]
fn push_moves_a_clockwise_ring_too() {
    let ring = vec![at(0, 9), at(10, 9), at(10, 1), at(0, 1)];
    let pushed = push_polygon_from_line(&ring, at(-5, 0), at(15, 0), UNIT_M);
    assert_eq!(pushed, vec![at(0, 9), at(10, 9), at(10, 2), at(0, 2)]);
}

#[test]
fn push_of_a_clockwise_ring_is_given_up_where_the_area_collapses() {
    let ring = vec![at(0, 2), at(10, 2), at(10, 1), at(0, 1)];
    let pushed = push_polygon_from_line(&ring, at(-5, 0), at(15, 0), UNIT_M);
    assert_eq!(pushed, ring);
}

#[test]
fn subdivide_clockwise_square_without_chaos() {
    let ring = vec![at(0, 20), at(20, 20), at(20, 0), at(0, 0)];
    let mut rng = StdRng::seed_from_u64(7);
    let plots = subdivide_to_plots(&ring, 15 * UNIT_M, 0, 0, 0, 0, &mut rng, 10, 0, 0);
    assert_eq!(plots.len(), 16);
    for plot in plots.iter() {
        assert_eq!(polygon_area(plot), -2 * 25 * SQ);
    }
}

#[test]
fn subdivide_without_chaos_is_the_same_for_every_seed() {
    let ring = square(20);
    let mut first = StdRng::seed_from_u64(1);
    let expected = subdivide_to_plots(&ring, 15 * UNIT_M, 0, 0, 0, 0, &mut first, 10, 0, 52429);
    for seed in 2..20u64 {
        let mut rng = StdRng::seed_from_u64(seed);
        let plots = subdivide_to_plots(&ring, 15 * UNIT_M, 0, 0, 0, 0, &mut rng, 10, 0, 52429);
        assert_eq!(plots, expected);
    }
    assert_eq!(expected[0], vec![at(15, 20), at(10, 20), at(10, 15), at(15, 15)]);
}

#[test]
fn alleys_open_below_a_cut_without_one() {
    let ring = square(40);
    let whole = polygon_area(&ring);
    let mut with_gaps = 0;
    for seed in 0..40u64 {
        let mut rng = StdRng::seed_from_u64(seed);
        let mut twin = StdRng::seed_from_u64(seed);
        let _ = rand::RngCore::next_u32(&mut twin);
        let _ = rand::RngCore::next_u32(&mut twin);
        let third = rand::RngCore::next_u32(&mut twin) >> 16;
        let plots = subdivide_to_plots(&ring, 15 * UNIT_M, 0, 0, 0, 0, &mut rng, 10, 58982, 65536);
        let parts: i128 = plots.iter().map(|p| polygon_area(p)).sum();
        if third >= 58982 && parts < whole {
            with_gaps += 1;
        }
    }
    assert!(with_gaps > 0);
}
