//! The blocks of a town and the plots into which each is divided.
use vstd::prelude::*;
use crate::config::ROAD_WIDTH;
use crate::geometry::Point;
use crate::point_gen::generate_road_generators;
use crate::point_gen::ring_of;
use crate::point_gen::road_generators;
use crate::rng::advanced;
use crate::rng::seeded;
use crate::rng::seeded_stream;
use crate::rng::upcoming;
use crate::skeleton::cell_polygon;
use crate::skeleton::in_bounds;
use crate::skeleton::Params;
use crate::skeleton::SkeletonData;
use crate::subdivision::carve_road;
use crate::subdivision::carved_along;
use crate::subdivision::plots;
use crate::subdivision::rings;
use crate::subdivision::subdivide_to_plots;
use rand::rngs::StdRng;

verus! {

/// The polygon of block `c`: that of its cell, with the corridor of the
/// road carved out where the cell belongs to a road generator. The cells
/// of the road generators come first, one for each generator along the
/// road.
pub open spec fn block_ring(data: SkeletonData, c: int) -> Seq<Point> {
    let ring = ring_of(data.cells@[c]@, data.points@);
    if c < road_generators(data.road_path@).len() {
        carved_along(ring, data.road_path@, ROAD_WIDTH / 2)
    } else {
        ring
    }
}

/// The polygons of all blocks, in the order of the cells.
pub open spec fn block_rings(data: SkeletonData) -> Seq<Seq<Point>> {
    Seq::new(data.cells@.len(), |c: int| block_ring(data, c))
}

/// The polygons of the blocks of a town: one for each cell, with the
/// corridor of the road carved out of the cells of the road generators.
pub fn block_polygons(data: &SkeletonData) -> (blocks: Vec<Vec<Point>>)
    requires
        forall|c: int|
            0 <= c < data.cells@.len() ==> in_bounds((#[trigger] data.cells@[c])@, data.points@)
                && data.cells@[c]@.len() <= 0xffff_ffff,
    ensures
        rings(blocks@) == block_rings(*data),
{
    let count = generate_road_generators(&data.road_path).len();
    let mut blocks: Vec<Vec<Point>> = Vec::new();
    let mut c: usize = 0;
    while c < data.cells.len()
        invariant
            c <= data.cells.len(),
            count == road_generators(data.road_path@).len(),
            forall|k: int|
                0 <= k < data.cells@.len() ==> in_bounds(
                    (#[trigger] data.cells@[k])@,
                    data.points@,
                ) && data.cells@[k]@.len() <= 0xffff_ffff,
            blocks@.len() == c,
            forall|k: int| 0 <= k < c ==> (#[trigger] blocks@[k])@ == block_ring(*data, k),
        decreases data.cells.len() - c,
    {
        let ring = cell_polygon(&data.cells[c], &data.points);
        if c < count {
            blocks.push(carve_road(ring, &data.road_path, ROAD_WIDTH / 2));
        } else {
            blocks.push(ring);
        }
        c = c + 1;
    }
    proof {
        assert(rings(blocks@) =~= block_rings(*data));
    }
    blocks
}

/// The seed of the generator of block `block_idx`: the seed of the town
/// plus the index, wrapping round.
pub open spec fn block_seed(seed: u64, block_idx: usize) -> u64 {
    seed.wrapping_add(block_idx as u64)
}

/// The plots of one block. The draws come from a generator of the
/// block's own, seeded with the seed of the town plus the index of the
/// block; the generator comes back for the draws that follow.
pub fn block_plots(polygon: &Vec<Point>, params: &Params, seed: u64, block_idx: usize) -> (r: (
    Vec<Vec<Point>>,
    StdRng,
))
    requires
        polygon.len() + params.max_recursion_depth < 0xffff_ffff,
    ensures
        ({
            let stream = seeded_stream(block_seed(seed, block_idx));
            let p = plots(
                polygon@,
                params.min_sq as int,
                params.grid_chaos as int,
                params.size_chaos as int,
                params.empty_prob as int,
                0,
                params.max_recursion_depth as int,
                params.alley_chance as int,
                params.alley_width as int,
                stream,
            );
            rings(r.0@) == p.0 && upcoming(r.1) == advanced(stream, p.1)
        }),
{
    let mut rng = seeded(seed.wrapping_add(block_idx as u64));
    let found = subdivide_to_plots(
        polygon,
        params.min_sq,
        params.grid_chaos,
        params.size_chaos,
        params.empty_prob,
        0,
        &mut rng,
        params.max_recursion_depth,
        params.alley_chance,
        params.alley_width,
    );
    (found, rng)
}

} // verus!
