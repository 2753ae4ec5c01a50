use rand::rngs::StdRng;
use rand::SeedableRng;
use spade::DelaunayTriangulation;
use spade::Point2;
use spade::Triangulation;
use town_layout::config::CANVAS_HEIGHT;
use town_layout::config::CANVAS_WIDTH;
use town_layout::config::INITIAL_SEED;
use town_layout::config::SPIRAL_SPREAD;
use town_layout::geometry::point_in_polygon;
use town_layout::geometry::polygon_area;
use town_layout::geometry::Point;
use town_layout::point_gen::generate_boundary_generators;
use town_layout::point_gen::generate_boundary_polygon;
use town_layout::point_gen::generate_road_generators;
use town_layout::point_gen::pgen;
use town_layout::point_gen::prelax;
use town_layout::skeleton::Params;
use town_layout::skeleton::SkeletonData;
use town_layout::subdivision::carve_road;
use town_layout::subdivision::constrain_road_generator_cells;
use town_layout::subdivision::nearest_point;
use town_layout::subdivision::subdivide_to_plots;
use town_layout::town::block_plots;
use town_layout::town::block_polygons;
use town_layout::voronoi::vpoly;
use town_layout::voronoi::Triangle;

const ONE: i32 = 65536;

fn at(x: i32, y: i32) -> Point {
    Point::new(x * ONE, y * ONE)
}

fn grid(p: Point2<f64>) -> Point {
    Point::new(p.x as i32, p.y as i32)
}

fn delaunay(points: &[Point]) -> Vec<Triangle> {
    let mut net: DelaunayTriangulation<Point2<f64>> = DelaunayTriangulation::new();
    for p in points {
        let _ = net.insert(Point2::new(p.x as f64, p.y as f64));
    }
    let mut faces = Vec::new();
    for face in net.inner_faces() {
        let [a, b, c] = face.vertices();
        let on_hull = face.adjacent_edges().iter().any(|e| e.rev().face().is_outer());
        faces.push(Triangle {
            a: grid(a.position()),
            b: grid(b.position()),
            c: grid(c.position()),
            on_hull,
        });
    }
    faces
}

fn relax(regular: Vec<Point>, fixed: Vec<Point>, steps: usize) -> Vec<Point> {
    let count = regular.len();
    let mut all = regular;
    all.extend(fixed.iter().copied());
    for _ in 0..steps {
        let faces = delaunay(&all);
        let moving = all[..count].to_vec();
        all = prelax(moving, fixed.clone(), &faces, CANVAS_WIDTH, CANVAS_HEIGHT);
    }
    all
}

fn skeleton(seed: u64, params: &Params) -> SkeletonData {
    let boundary =
        generate_boundary_polygon(params.boundary_vertex_count, params.boundary_scale, seed);
    let fixed = generate_boundary_generators(
        &boundary,
        params.boundary_spacing,
        params.boundary_inner_offset,
    );
    let regular = pgen(params.generator_count, CANVAS_WIDTH, CANVAS_HEIGHT, SPIRAL_SPREAD, seed);
    let all = relax(regular, fixed, 4);
    let faces = delaunay(&all);
    vpoly(all, &faces, &boundary, params.circumcenter_merge_threshold)
}

#[test]
fn default_town_has_valid_cells_inside_its_boundary() {
    let params = Params::default();
    let data = skeleton(INITIAL_SEED, &params);
    assert_eq!(data.boundary_polygon.len(), 4);
    assert!(!data.cells.is_empty());
    assert!(data.is_valid());
    let inside = data.cells.iter().any(|cell| {
        cell.iter().all(|&corner| point_in_polygon(&data.points[corner], &data.boundary_polygon))
    });
    assert!(inside);
}

#[test]
fn same_seed_gives_the_same_town() {
    let params = Params::default();
    let first = skeleton(31337, &params);
    let second = skeleton(31337, &params);
    assert_eq!(first.generator_points, second.generator_points);
    assert_eq!(first.points, second.points);
    assert_eq!(first.cells, second.cells);
    let other = skeleton(31338, &params);
    assert_ne!(first.generator_points, other.generator_points);
}

#[test]
fn towns_of_many_seeds_are_well_formed() {
    let params = Params::default();
    for seed in 1..12u64 {
        let data = skeleton(seed * 7919, &params);
        for cell in data.cells.iter() {
            assert!(cell.len() >= 3);
            assert!(cell.iter().all(|&corner| corner < data.points.len()));
        }
    }
}

#[test]
fn blocks_are_the_polygons_of_the_cells() {
    let data = skeleton(INITIAL_SEED, &Params::default());
    let blocks = block_polygons(&data);
    assert_eq!(blocks.len(), data.cells.len());
    for (block, cell) in blocks.iter().zip(data.cells.iter()) {
        let ring: Vec<Point> = cell.iter().map(|&corner| data.points[corner]).collect();
        assert_eq!(block, &ring);
    }
}

#[test]
fn blocks_along_the_road_are_carved() {
    let data = SkeletonData {
        generator_points: Vec::new(),
        points: vec![at(0, 1), at(10, 1), at(10, 9), at(0, 9), at(0, -1), at(10, -1), at(10, -9), at(0, -9)],
        cells: vec![vec![0, 1, 2, 3], vec![7, 6, 5, 4]],
        road_path: vec![at(-5, 0), at(15, 0)],
        boundary_polygon: Vec::new(),
        boundary_vertex_offsets: Vec::new(),
    };
    assert!(generate_road_generators(&data.road_path).len() >= 2);
    let blocks = block_polygons(&data);
    assert_eq!(blocks[0], vec![at(0, 3), at(10, 3), at(10, 9), at(0, 9)]);
    assert_eq!(blocks[1], vec![at(0, -9), at(10, -9), at(10, -3), at(0, -3)]);
}

#[test]
fn carving_skips_short_segments() {
    let ring = vec![at(0, 1), at(10, 1), at(10, 9), at(0, 9)];
    let short = vec![at(5, 0), Point::new(5 * ONE + 100, 0)];
    assert_eq!(carve_road(ring.clone(), &short, 2 * ONE), ring);
    assert_eq!(carve_road(ring.clone(), &vec![at(5, 0)], 2 * ONE), ring);
    let long = vec![at(-5, 0), at(15, 0)];
    assert_eq!(
        carve_road(ring, &long, 2 * ONE),
        vec![at(0, 3), at(10, 3), at(10, 9), at(0, 9)]
    );
}

#[test]
fn nearest_point_is_the_first_of_the_nearest() {
    let points = vec![at(0, 0), at(4, 0), at(0, 4), at(4, 0)];
    assert_eq!(nearest_point(at(3, 1), &points), 1);
    assert_eq!(nearest_point(at(-1, -1), &points), 0);
    assert_eq!(nearest_point(at(2, 2), &points), 0);
    assert_eq!(nearest_point(at(1, 5), &points), 2);
}

#[test]
fn road_cells_snap_to_the_nearest_points() {
    let points = vec![
        at(0, 1),
        at(10, 1),
        at(10, 9),
        at(0, 9),
        at(0, 3),
        at(10, 3),
    ];
    let cells = vec![vec![0, 1, 2, 3], vec![0, 1, 2, 3]];
    let road = vec![at(-5, 0), at(15, 0)];
    let moved = constrain_road_generator_cells(cells.clone(), &points, &road, 1);
    assert_eq!(moved, vec![vec![4, 5, 2, 3], vec![0, 1, 2, 3]]);
    assert_eq!(constrain_road_generator_cells(cells.clone(), &points, &road, 0), cells);
    assert_eq!(constrain_road_generator_cells(cells.clone(), &points, &vec![at(0, 0)], 2), cells);
}

#[test]
fn block_plots_draw_from_the_seed_of_the_block() {
    let params = Params::default();
    let ring = vec![at(0, 0), at(40, 0), at(40, 30), at(0, 30)];
    let (plots, mut after) = block_plots(&ring, &params, 1000, 3);
    let mut rng = StdRng::seed_from_u64(1003);
    let expected = subdivide_to_plots(
        &ring,
        params.min_sq,
        params.grid_chaos,
        params.size_chaos,
        params.empty_prob,
        0,
        &mut rng,
        params.max_recursion_depth,
        params.alley_chance,
        params.alley_width,
    );
    assert_eq!(plots, expected);
    assert_eq!(rand::RngCore::next_u64(&mut after), rand::RngCore::next_u64(&mut rng));
    let (wrapped, _) = block_plots(&ring, &params, u64::MAX, 2);
    let (direct, _) = block_plots(&ring, &params, 1, 0);
    assert_eq!(wrapped, direct);
}

#[test]
fn plots_of_a_town_have_area() {
    let params = Params::default();
    let data = skeleton(INITIAL_SEED, &params);
    let blocks = block_polygons(&data);
    let mut count = 0;
    for (index, block) in blocks.iter().enumerate() {
        let (plots, _) = block_plots(block, &params, INITIAL_SEED, index);
        for plot in plots.iter() {
            assert!(plot.len() >= 3);
            count += 1;
        }
        let whole = polygon_area(block);
        if whole > 0 {
            let parts: i128 = plots.iter().map(|p| polygon_area(p)).sum();
            assert!(parts <= whole + 4 * 65536 * 65536);
        }
    }
    assert!(count >= blocks.len());
}
