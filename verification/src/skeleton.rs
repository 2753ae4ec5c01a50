//! The data that one generation pass produces, the settings it reads,
//! and the decision which parts of it a change makes stale.
use vstd::prelude::*;
use crate::fixed::clamp_i32;
use crate::fixed::lemma_product_bound;
use crate::fixed::magnitude;
use crate::fixed::prod;
use crate::geometry::on_grid;
use crate::geometry::polygon_area;
use crate::geometry::twice_area;
use crate::geometry::Point;
use crate::point_gen::boundary_ring;
use crate::point_gen::generate_boundary_polygon;
use crate::point_gen::ring_of;
use crate::point_gen::NO_AREA;
use crate::rng::seeded_stream;
use crate::voronoi::dist_sq;

verus! {

/// Two corners whose squared distance is below this count as one: they
/// lie closer together than a ten-thousandth of a metre.
pub const TOO_CLOSE: i128 = 43;

/// The generators, the Voronoi diagram built from them, and the boundary
/// and road that constrain it.
#[derive(Debug)]
pub struct SkeletonData {
    /// The generator points: the regular ones first, then the fixed ones.
    pub generator_points: Vec<Point>,
    /// The corners of the cells: merged circumcentres.
    pub points: Vec<Point>,
    /// The cells, each a ring of indices into `points`.
    pub cells: Vec<Vec<usize>>,
    /// The road, as a path of points.
    pub road_path: Vec<Point>,
    /// The boundary of the settlement.
    pub boundary_polygon: Vec<Point>,
    /// The offset of each boundary vertex from its generated position.
    pub boundary_vertex_offsets: Vec<Point>,
}

/// Whether generation runs by itself or by hand.
#[derive(Clone, Copy, PartialEq, Eq, Structural, Debug)]
pub enum GenerationMode {
    Auto,
    Manual,
}

/// What the user edits in manual mode.
#[derive(Clone, Copy, PartialEq, Eq, Structural, Debug)]
pub enum EditMode {
    /// The vertices of the boundary polygon.
    Boundary,
    /// The generator points.
    Generators,
    /// The corners of the cells.
    Circumcenters,
    /// The points of the road.
    Roads,
}

impl Default for GenerationMode {
    fn default() -> (m: GenerationMode)
        ensures
            m == GenerationMode::Auto,
    {
        GenerationMode::Auto
    }
}

impl Default for EditMode {
    fn default() -> (m: EditMode)
        ensures
            m == EditMode::Boundary,
    {
        EditMode::Boundary
    }
}

/// The settings of one generation pass. Lengths are in steps, areas in
/// square metres and ratios in parts of 65536.
#[derive(Clone, Copy, PartialEq, Eq, Structural, Debug)]
pub struct Params {
    pub max_recursion_depth: usize,
    pub min_sq: i32,
    pub grid_chaos: i32,
    pub size_chaos: i32,
    pub empty_prob: i32,
    pub alley_width: i32,
    pub alley_chance: i32,
    pub min_wall_height: i32,
    pub max_wall_height: i32,
    pub min_roof_height: i32,
    pub max_roof_height: i32,
    pub boundary_spacing: i32,
    pub boundary_vertex_count: usize,
    pub boundary_inner_offset: i32,
    pub boundary_scale: i32,
    pub generator_count: usize,
    pub circumcenter_merge_threshold: i32,
}

/// The settings that a pass starts with.
pub open spec fn default_params() -> Params {
    Params {
        max_recursion_depth: crate::config::MAX_RECURSION_DEPTH,
        min_sq: crate::config::BUILDING_AREA_MIN,
        grid_chaos: crate::config::GRID_CHAOS,
        size_chaos: crate::config::SIZE_CHAOS,
        empty_prob: crate::config::EMPTY_PROB,
        alley_width: crate::config::ALLEY_WIDTH,
        alley_chance: crate::config::ALLEY_CHANCE,
        min_wall_height: crate::config::MIN_WALL_HEIGHT,
        max_wall_height: crate::config::MAX_WALL_HEIGHT,
        min_roof_height: crate::config::MIN_ROOF_HEIGHT,
        max_roof_height: crate::config::MAX_ROOF_HEIGHT,
        boundary_spacing: crate::config::BOUNDARY_GENERATOR_SPACING,
        boundary_vertex_count: 4,
        boundary_inner_offset: crate::config::BOUNDARY_GENERATOR_INNER_OFFSET,
        boundary_scale: 4_915_200,
        generator_count: crate::config::POINT_COUNT,
        circumcenter_merge_threshold: crate::config::CIRCUMCENTER_MERGE_THRESHOLD,
    }
}

impl Default for Params {
    fn default() -> (p: Params)
        ensures
            p == default_params(),
    {
        Params {
            max_recursion_depth: crate::config::MAX_RECURSION_DEPTH,
            min_sq: crate::config::BUILDING_AREA_MIN,
            grid_chaos: crate::config::GRID_CHAOS,
            size_chaos: crate::config::SIZE_CHAOS,
            empty_prob: crate::config::EMPTY_PROB,
            alley_width: crate::config::ALLEY_WIDTH,
            alley_chance: crate::config::ALLEY_CHANCE,
            min_wall_height: crate::config::MIN_WALL_HEIGHT,
            max_wall_height: crate::config::MAX_WALL_HEIGHT,
            min_roof_height: crate::config::MIN_ROOF_HEIGHT,
            max_roof_height: crate::config::MAX_ROOF_HEIGHT,
            boundary_spacing: crate::config::BOUNDARY_GENERATOR_SPACING,
            boundary_vertex_count: 4,
            boundary_inner_offset: crate::config::BOUNDARY_GENERATOR_INNER_OFFSET,
            boundary_scale: 4_915_200,
            generator_count: crate::config::POINT_COUNT,
            circumcenter_merge_threshold: crate::config::CIRCUMCENTER_MERGE_THRESHOLD,
        }
    }
}

/// Every index of the cell is an index into `points`.
pub open spec fn in_bounds(cell: Seq<usize>, points: Seq<Point>) -> bool {
    forall|i: int| 0 <= i < cell.len() ==> cell[i] < points.len()
}

/// The cell is sound: it has three corners, every index is in bounds,
/// and its polygon has an area.
pub open spec fn sound_cell(cell: Seq<usize>, points: Seq<Point>) -> bool {
    &&& cell.len() >= 3
    &&& in_bounds(cell, points)
    &&& magnitude(twice_area(ring_of(cell, points))) >= NO_AREA
}

/// No two of the points lie too close together.
pub open spec fn all_apart(points: Seq<Point>) -> bool {
    forall|i: int, j: int| 0 <= i < j < points.len() ==> dist_sq(points[i], points[j]) >= TOO_CLOSE
}

/// The polygon of a cell: its corners in their order.
pub fn cell_polygon(cell: &Vec<usize>, points: &Vec<Point>) -> (ring: Vec<Point>)
    requires
        in_bounds(cell@, points@),
    ensures
        ring@ == ring_of(cell@, points@),
{
    let mut ring: Vec<Point> = Vec::new();
    let mut i: usize = 0;
    while i < cell.len()
        invariant
            i <= cell.len(),
            in_bounds(cell@, points@),
            ring@.len() == i,
            forall|k: int| 0 <= k < i ==> ring@[k] == points@[cell@[k] as int],
        decreases cell.len() - i,
    {
        ring.push(points[cell[i]]);
        i = i + 1;
    }
    proof {
        assert(ring@ =~= ring_of(cell@, points@));
    }
    ring
}

fn cell_in_bounds(cell: &Vec<usize>, points: &Vec<Point>) -> (r: bool)
    ensures
        r == in_bounds(cell@, points@),
{
    let mut i: usize = 0;
    while i < cell.len()
        invariant
            i <= cell.len(),
            forall|k: int| 0 <= k < i ==> cell@[k] < points@.len(),
        decreases cell.len() - i,
    {
        if cell[i] >= points.len() {
            return false;
        }
        i = i + 1;
    }
    true
}

fn cell_is_sound(cell: &Vec<usize>, points: &Vec<Point>) -> (r: bool)
    ensures
        r == sound_cell(cell@, points@),
{
    if cell.len() < 3 || !cell_in_bounds(cell, points) {
        return false;
    }
    let ring = cell_polygon(cell, points);
    let area = polygon_area(&ring);
    !(area < NO_AREA && area > -NO_AREA)
}

fn points_apart(points: &Vec<Point>) -> (r: bool)
    ensures
        r == all_apart(points@),
{
    let n = points.len();
    let mut i: usize = 0;
    while i < n
        invariant
            n == points.len(),
            i <= n,
            forall|a: int, b: int|
                0 <= a < i && a < b < n ==> dist_sq(points@[a], points@[b]) >= TOO_CLOSE,
        decreases n - i,
    {
        let mut j: usize = i + 1;
        while j < n
            invariant
                n == points.len(),
                i < n,
                i + 1 <= j <= n,
                forall|a: int, b: int|
                    0 <= a < i && a < b < n ==> dist_sq(points@[a], points@[b]) >= TOO_CLOSE,
                forall|b: int| i < b < j ==> dist_sq(points@[i as int], points@[b]) >= TOO_CLOSE,
            decreases n - j,
        {
            let dx: i64 = points[i].x as i64 - points[j].x as i64;
            let dy: i64 = points[i].y as i64 - points[j].y as i64;
            proof {
                lemma_product_bound(dx as int, dx as int, 0x1_0000_0000, 0x1_0000_0000);
                lemma_product_bound(dy as int, dy as int, 0x1_0000_0000, 0x1_0000_0000);
            }
            if prod(dx, dx) + prod(dy, dy) < TOO_CLOSE {
                proof {
                    assert(dist_sq(points@[i as int], points@[j as int]) < TOO_CLOSE);
                }
                return false;
            }
            j = j + 1;
        }
        i = i + 1;
    }
    true
}

impl SkeletonData {
    /// Every cell has at least three corners, and each of them is an
    /// index into `points`.
    pub open spec fn indexed(self) -> bool {
        forall|c: int|
            0 <= c < self.cells@.len() ==> (#[trigger] self.cells@[c])@.len() >= 3 && in_bounds(
                self.cells@[c]@,
                self.points@,
            )
    }

    /// The diagram is sound: there are points and cells, every cell is
    /// sound, and no two points lie too close together.
    pub open spec fn valid(self) -> bool {
        &&& self.points@.len() > 0
        &&& self.cells@.len() > 0
        &&& forall|c: int|
            0 <= c < self.cells@.len() ==> sound_cell((#[trigger] self.cells@[c])@, self.points@)
        &&& all_apart(self.points@)
    }

    /// The boundary vertex at `idx`, if there is one.
    pub fn get_boundary_vertex(&self, idx: usize) -> (v: Option<Point>)
        ensures
            v == if idx < self.boundary_polygon@.len() {
                Some(self.boundary_polygon@[idx as int])
            } else {
                None
            },
    {
        if idx < self.boundary_polygon.len() {
            Some(self.boundary_polygon[idx])
        } else {
            None
        }
    }

    /// Moves the boundary vertex at `idx` to `pos`, if there is one.
    pub fn set_boundary_vertex(&mut self, idx: usize, pos: Point)
        ensures
            final(self).boundary_polygon@ == if idx < old(self).boundary_polygon@.len() {
                old(self).boundary_polygon@.update(idx as int, pos)
            } else {
                old(self).boundary_polygon@
            },
            final(self).generator_points == old(self).generator_points,
            final(self).points == old(self).points,
            final(self).cells == old(self).cells,
            final(self).road_path == old(self).road_path,
            final(self).boundary_vertex_offsets == old(self).boundary_vertex_offsets,
    {
        if idx < self.boundary_polygon.len() {
            self.boundary_polygon.set(idx, pos);
        }
    }

    /// The number of boundary vertices.
    pub fn boundary_vertex_count(&self) -> (n: usize)
        ensures
            n == self.boundary_polygon@.len(),
    {
        self.boundary_polygon.len()
    }

    /// Whether the diagram is sound.
    pub fn is_valid(&self) -> (r: bool)
        ensures
            r == self.valid(),
    {
        if self.points.len() == 0 || self.cells.len() == 0 {
            return false;
        }
        let mut c: usize = 0;
        while c < self.cells.len()
            invariant
                c <= self.cells.len(),
                forall|k: int|
                    0 <= k < c ==> sound_cell((#[trigger] self.cells@[k])@, self.points@),
            decreases self.cells.len() - c,
        {
            if !cell_is_sound(&self.cells[c], &self.points) {
                return false;
            }
            c = c + 1;
        }
        points_apart(&self.points)
    }
}

/// What a change makes stale.
#[derive(Clone, Copy, PartialEq, Eq, Structural, Debug)]
pub enum Regeneration {
    /// Nothing: the town is rebuilt from the diagram as it is.
    Keep,
    /// The diagram: it is rebuilt from the generators as they are.
    Diagram,
    /// The generators, and with them the diagram.
    Generators,
    /// The boundary, and with it the generators and the diagram.
    Boundary,
}

/// What has to be generated anew after a change.
///
/// In automatic mode a new seed renews the generators and nothing else
/// renews anything. In manual mode it depends on what is being edited:
/// the boundary renews everything; the road renews the generators; the
/// generators are kept where the user moved one and renewed otherwise,
/// and the diagram follows; the corners are kept where the user moved
/// one, and the diagram is renewed otherwise.
pub open spec fn planned(
    mode: GenerationMode,
    editing: EditMode,
    seed_changed: bool,
    user_edit: bool,
) -> Regeneration {
    match mode {
        GenerationMode::Auto => if seed_changed {
            Regeneration::Generators
        } else {
            Regeneration::Keep
        },
        GenerationMode::Manual => match editing {
            EditMode::Boundary => Regeneration::Boundary,
            EditMode::Roads => Regeneration::Generators,
            EditMode::Generators => if user_edit {
                Regeneration::Diagram
            } else {
                Regeneration::Generators
            },
            EditMode::Circumcenters => if user_edit {
                Regeneration::Keep
            } else {
                Regeneration::Diagram
            },
        },
    }
}

/// Decides what has to be generated anew after a change.
pub fn plan_regeneration(
    mode: GenerationMode,
    editing: EditMode,
    seed_changed: bool,
    user_edit: bool,
) -> (plan: Regeneration)
    ensures
        plan == planned(mode, editing, seed_changed, user_edit),
{
    if mode == GenerationMode::Auto {
        if seed_changed {
            Regeneration::Generators
        } else {
            Regeneration::Keep
        }
    } else if editing == EditMode::Boundary {
        Regeneration::Boundary
    } else if editing == EditMode::Roads {
        Regeneration::Generators
    } else if editing == EditMode::Generators {
        if user_edit {
            Regeneration::Diagram
        } else {
            Regeneration::Generators
        }
    } else if user_edit {
        Regeneration::Keep
    } else {
        Regeneration::Diagram
    }
}

/// The vertex `v` moved by `offset`, limited to the grid.
pub open spec fn moved_by(v: Point, offset: Point) -> Point {
    Point { x: on_grid(v.x + offset.x), y: on_grid(v.y + offset.y) }
}

/// The ring with each vertex moved by the offset of the same index,
/// where there is one.
pub open spec fn with_offsets(base: Seq<Point>, offsets: Seq<Point>) -> Seq<Point> {
    Seq::new(
        base.len(),
        |i: int|
            if i < offsets.len() {
                moved_by(base[i], offsets[i])
            } else {
                base[i]
            },
    )
}

/// The generated boundary with the user's offsets applied.
pub fn rebuild_boundary_with_offsets(
    vertex_count: usize,
    scale: i32,
    seed: u64,
    offsets: &Vec<Point>,
) -> (r: Vec<Point>)
    ensures
        r@ == with_offsets(
            boundary_ring(vertex_count as nat, scale as int, seeded_stream(seed)),
            offsets@,
        ),
{
    let mut base = generate_boundary_polygon(vertex_count, scale, seed);
    let ghost start = base@;
    let mut i: usize = 0;
    while i < offsets.len() && i < base.len()
        invariant
            base@.len() == start.len(),
            i <= base@.len(),
            i <= offsets@.len(),
            forall|k: int| 0 <= k < i ==> base@[k] == moved_by(start[k], offsets@[k]),
            forall|k: int| i <= k < base@.len() ==> base@[k] == start[k],
        decreases base.len() - i,
    {
        let v = base[i];
        let o = offsets[i];
        base.set(
            i,
            Point {
                x: clamp_i32(v.x as i128 + o.x as i128),
                y: clamp_i32(v.y as i128 + o.y as i128),
            },
        );
        i = i + 1;
    }
    proof {
        assert(base@ =~= with_offsets(start, offsets@));
    }
    base
}

} // verus!
