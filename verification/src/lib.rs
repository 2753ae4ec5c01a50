//! Settlement layout on a fixed-point grid: seed points, constrained
//! relaxation, Voronoi cells and recursive plot subdivision.
//!
//! Every length is an integer count of steps, 65536 steps to the metre.
pub mod config;
pub mod fixed;
pub mod geometry;
pub mod trig;
pub mod point_gen;
pub mod rng;
pub mod subdivision;
pub mod town;
pub mod skeleton;
pub mod voronoi;
