//! Box-counting fractal dimension and lacunarity of 3-D occupancy fields.
//!
//! The library turns one frame of a 4-D (time x space) integer grid into a
//! per-frame morphological summary: a binary occupancy mask ([`threshold`]),
//! a multiscale Z-order key per voxel ([`encode`]), sorted keys ([`sort`]),
//! per-scale box counts and mass statistics ([`aggregate`]), and a
//! fixed-point log-log regression that yields the fractal dimension
//! ([`estimate`]).  The [`driver`] module runs that pipeline per frame and
//! over all frames of the grid, in frame order.
use vstd::prelude::*;

pub mod aggregate;
pub mod driver;
pub mod encode;
pub mod estimate;
pub mod grid;
pub mod sort;
pub mod threshold;

verus! {

/// Fixed-point scale shared by every fractional quantity the library
/// reports: a value `v` stands for the real number `v / FIXED_ONE`.
pub const FIXED_ONE: u64 = 65536;

} // verus!
