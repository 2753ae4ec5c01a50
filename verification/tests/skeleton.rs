use town_layout::geometry::Point;
use town_layout::point_gen::generate_boundary_polygon;
use town_layout::skeleton::cell_polygon;
use town_layout::skeleton::plan_regeneration;
use town_layout::skeleton::rebuild_boundary_with_offsets;
use town_layout::skeleton::EditMode;
use town_layout::skeleton::GenerationMode;
use town_layout::skeleton::Params;
use town_layout::skeleton::Regeneration;
use town_layout::skeleton::SkeletonData;

const ONE: i32 = 65536;

fn at(x: i32, y: i32) -> Point {
    Point::new(x * ONE, y * ONE)
}

fn sample() -> SkeletonData {
    SkeletonData {
        generator_points: vec![at(5, 5)],
        points: vec![at(0, 0), at(10, 0), at(10, 10), at(0, 10)],
        cells: vec![vec![0, 1, 2, 3]],
        road_path: Vec::new(),
        boundary_polygon: vec![at(-1, -1), at(11, -1), at(11, 11), at(-1, 11)],
        boundary_vertex_offsets: vec![Point::new(0, 0); 4],
    }
}

#[test]
fn sound_diagram_is_valid() {
    assert!(sample().is_valid());
}

#[test]
fn empty_diagram_is_not_valid() {
    let mut data = sample();
    data.cells.clear();
    assert!(!data.is_valid());
    let mut data = sample();
    data.points.clear();
    data.cells.clear();
    assert!(!data.is_valid());
}

#[test]
fn short_cell_is_not_valid() {
    let mut data = sample();
    data.cells.push(vec![0, 1]);
    assert!(!data.is_valid());
}

#[test]
fn index_out_of_bounds_is_not_valid() {
    let mut data = sample();
    data.cells.push(vec![0, 1, 4]);
    assert!(!data.is_valid());
}

#[test]
fn cell_without_area_is_not_valid() {
    let mut data = sample();
    data.points.push(at(20, 0));
    data.cells.push(vec![0, 1, 4]);
    assert!(!data.is_valid());
    let mut data = sample();
    data.points = vec![Point::new(0, 0), Point::new(100, 0), Point::new(50, 10)];
    data.cells = vec![vec![0, 1, 2]];
    assert!(!data.is_valid());
    data.points[2] = Point::new(50, 11);
    assert!(data.is_valid());
    data.cells = vec![vec![2, 1, 0]];
    assert!(data.is_valid());
}

#[test]
fn points_too_close_together_are_not_valid() {
    let mut data = sample();
    data.points.push(Point::new(6, 2));
    assert!(!data.is_valid());
    data.points[4] = Point::new(6, 3);
    assert!(data.is_valid());
}

#[test]
fn boundary_vertices_can_be_read_and_moved() {
    let mut data = sample();
    assert_eq!(data.boundary_vertex_count(), 4);
    assert_eq!(data.get_boundary_vertex(1), Some(at(11, -1)));
    assert_eq!(data.get_boundary_vertex(4), None);
    data.set_boundary_vertex(1, at(20, -3));
    assert_eq!(data.get_boundary_vertex(1), Some(at(20, -3)));
    assert_eq!(data.get_boundary_vertex(0), Some(at(-1, -1)));
    data.set_boundary_vertex(9, at(1, 1));
    assert_eq!(data.boundary_polygon, vec![at(-1, -1), at(20, -3), at(11, 11), at(-1, 11)]);
}

#[test]
fn cell_polygon_follows_the_indices() {
    let data = sample();
    assert_eq!(
        cell_polygon(&vec![3, 0, 2], &data.points),
        vec![at(0, 10), at(0, 0), at(10, 10)]
    );
}

#[test]
fn default_settings() {
    let p = Params::default();
    assert_eq!(p.max_recursion_depth, 10);
    assert_eq!(p.min_sq, 15 * ONE);
    assert_eq!(p.grid_chaos, 22938);
    assert_eq!(p.size_chaos, 16384);
    assert_eq!(p.empty_prob, 3277);
    assert_eq!(p.alley_width, 52429);
    assert_eq!(p.alley_chance, 52429);
    assert_eq!(p.boundary_spacing, 12 * ONE);
    assert_eq!(p.boundary_vertex_count, 4);
    assert_eq!(p.boundary_inner_offset, ONE);
    assert_eq!(p.boundary_scale, 75 * ONE);
    assert_eq!(p.generator_count, 30);
    assert_eq!(p.circumcenter_merge_threshold, 655);
    assert_eq!(p.min_wall_height, 2 * ONE);
    assert_eq!(p.max_wall_height, 6 * ONE);
    assert_eq!(GenerationMode::default(), GenerationMode::Auto);
    assert_eq!(EditMode::default(), EditMode::Boundary);
}

#[test]
fn automatic_mode_follows_the_seed() {
    for edit in [EditMode::Boundary, EditMode::Generators, EditMode::Circumcenters, EditMode::Roads] {
        for user in [false, true] {
            assert_eq!(
                plan_regeneration(GenerationMode::Auto, edit, true, user),
                Regeneration::Generators
            );
            assert_eq!(
                plan_regeneration(GenerationMode::Auto, edit, false, user),
                Regeneration::Keep
            );
        }
    }
}

#[test]
fn manual_mode_follows_what_is_edited() {
    let manual = GenerationMode::Manual;
    for seed in [false, true] {
        for user in [false, true] {
            assert_eq!(
                plan_regeneration(manual, EditMode::Boundary, seed, user),
                Regeneration::Boundary
            );
            assert_eq!(
                plan_regeneration(manual, EditMode::Roads, seed, user),
                Regeneration::Generators
            );
        }
        assert_eq!(
            plan_regeneration(manual, EditMode::Generators, seed, true),
            Regeneration::Diagram
        );
        assert_eq!(
            plan_regeneration(manual, EditMode::Generators, seed, false),
            Regeneration::Generators
        );
        assert_eq!(
            plan_regeneration(manual, EditMode::Circumcenters, seed, true),
            Regeneration::Keep
        );
        assert_eq!(
            plan_regeneration(manual, EditMode::Circumcenters, seed, false),
            Regeneration::Diagram
        );
    }
}

#[test]
fn boundary_is_rebuilt_with_the_offsets() {
    let base = generate_boundary_polygon(5, 75 * ONE, 21);
    let offsets = vec![at(1, 2), at(0, 0), at(-3, 4)];
    let moved = rebuild_boundary_with_offsets(5, 75 * ONE, 21, &offsets);
    assert_eq!(moved.len(), 5);
    assert_eq!(moved[0], Point::new(base[0].x + ONE, base[0].y + 2 * ONE));
    assert_eq!(moved[1], base[1]);
    assert_eq!(moved[2], Point::new(base[2].x - 3 * ONE, base[2].y + 4 * ONE));
    assert_eq!(moved[3], base[3]);
    assert_eq!(moved[4], base[4]);
    let many = vec![at(1, 1); 9];
    assert_eq!(rebuild_boundary_with_offsets(2, 75 * ONE, 21, &many).len(), 2);
    assert_eq!(rebuild_boundary_with_offsets(5, 75 * ONE, 21, &Vec::new()), base);
}
