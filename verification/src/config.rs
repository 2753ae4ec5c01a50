//! Default settings. Lengths are in steps, areas in square metres and
//! ratios in parts of `ONE`, that is of 65536.
use vstd::prelude::*;

verus! {

/// Half the width of the working area: 500 m.
pub const CANVAS_WIDTH: i32 = 32_768_000;

/// Half the height of the working area: 500 m.
pub const CANVAS_HEIGHT: i32 = 32_768_000;

pub const INITIAL_SEED: u64 = 1512086461918454205;

pub const POINT_COUNT: usize = 30;

/// Radial growth of the seed spiral per point: 3 m.
pub const SPIRAL_SPREAD: i32 = 196_608;

/// Smallest building footprint: 15 square metres.
pub const BUILDING_AREA_MIN: i32 = 983_040;

/// Circumcentres closer than this are merged: 0.01 m.
pub const CIRCUMCENTER_MERGE_THRESHOLD: i32 = 655;

/// Geometric irregularity: 0.35.
pub const GRID_CHAOS: i32 = 22_938;

/// Variation of the building size: 0.25.
pub const SIZE_CHAOS: i32 = 16_384;

/// Probability that a plot stays empty: 0.05.
pub const EMPTY_PROB: i32 = 3_277;

/// Spacing of the generators along the boundary: 12 m.
pub const BOUNDARY_GENERATOR_SPACING: i32 = 786_432;

/// Offset of the inner boundary generators: 1 m.
pub const BOUNDARY_GENERATOR_INNER_OFFSET: i32 = 65_536;

/// Offset of the outer boundary generators: 2 m.
pub const BOUNDARY_GENERATOR_OUTER_OFFSET: i32 = 131_072;

pub const MAX_RECURSION_DEPTH: usize = 10;

/// Default alley width: 0.8 m.
pub const ALLEY_WIDTH: i32 = 52_429;

/// Probability that a cut becomes an alley: 0.8.
pub const ALLEY_CHANCE: i32 = 52_429;

/// Spacing of the generators along a road: 7 m.
pub const ROAD_GENERATOR_SPACING: i32 = 458_752;

/// Offset of the road generators to either side: 0.1 m.
pub const ROAD_GENERATOR_OFFSET: i32 = 6_554;

/// Distance kept free of generators around a road corner: 2 m.
pub const CORNER_CONSTRAINT_DISTANCE: i32 = 131_072;

/// Width of the road corridor: 4 m.
pub const ROAD_WIDTH: i32 = 262_144;

/// Lowest wall: 2 m.
pub const MIN_WALL_HEIGHT: i32 = 131_072;

/// Highest wall: 6 m.
pub const MAX_WALL_HEIGHT: i32 = 393_216;

/// Lowest roof: 0.7 m.
pub const MIN_ROOF_HEIGHT: i32 = 45_875;

/// Highest roof: 1 m.
pub const MAX_ROOF_HEIGHT: i32 = 65_536;

/// A circumcentre further than this from the centroid of its triangle is
/// replaced by the centroid: five canvas widths.
pub const CIRCUMCENTER_BOUND: i32 = 163_840_000;

} // verus!
