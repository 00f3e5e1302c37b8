//! Frame geometry: spatial extents and the flat-index layout of one frame.
//!
//! A frame of extents `(x, y, z)` is stored as one flat vector in which the
//! `z` coordinate varies fastest: voxel `(a, b, c)` lives at index
//! `(a * y + b) * z + c`.  This matches a row-major (C-order) 4-D array whose
//! axes are `(frame, x, y, z)`.
use vstd::prelude::*;

verus! {

use vstd::arithmetic::div_mod::{
    lemma_multiply_divide_lt,
    lemma_mod_division_less_than_divisor,
};
use vstd::arithmetic::mul::lemma_mul_is_associative;

/// Spatial extents of one frame.
#[derive(Clone, Copy, Debug, PartialEq, Eq, Structural)]
pub struct Dims {
    pub x: usize,
    pub y: usize,
    pub z: usize,
}

impl Dims {
    /// Number of voxels of one frame.
    pub open spec fn volume(self) -> int {
        (self.x as int) * (self.y as int) * (self.z as int)
    }

    /// Extents are positive and the frame is small enough for the
    /// aggregator's 64-bit mass accumulators (squares of run lengths must
    /// fit, so the voxel count is kept below `2^32`).
    pub open spec fn valid(self) -> bool {
        self.x >= 1 && self.y >= 1 && self.z >= 1 && self.volume() < 0x1_0000_0000
    }

    /// The smallest of the three extents; it bounds the scale levels at
    /// which box edges are no smaller than one voxel.
    pub open spec fn min_extent(self) -> int {
        if self.x <= self.y && self.x <= self.z {
            self.x as int
        } else if self.y <= self.z {
            self.y as int
        } else {
            self.z as int
        }
    }
}

/// `x` coordinate of the voxel at flat index `i`.
pub open spec fn coord_x(i: int, d: Dims) -> int {
    i / ((d.y as int) * (d.z as int))
}

/// `y` coordinate of the voxel at flat index `i`.
pub open spec fn coord_y(i: int, d: Dims) -> int {
    (i / (d.z as int)) % (d.y as int)
}

/// `z` coordinate of the voxel at flat index `i`.
pub open spec fn coord_z(i: int, d: Dims) -> int {
    i % (d.z as int)
}

/// Decodes a flat index into `(x, y, z)` coordinates, each strictly below
/// its extent.
pub fn decode_index(i: usize, d: Dims) -> (r: (usize, usize, usize))
    requires
        d.valid(),
        (i as int) < d.volume(),
    ensures
        r.0 as int == coord_x(i as int, d),
        r.1 as int == coord_y(i as int, d),
        r.2 as int == coord_z(i as int, d),
        r.0 < d.x,
        r.1 < d.y,
        r.2 < d.z,
{
    proof {
        let xi = d.x as int;
        let yi = d.y as int;
        let zi = d.z as int;
        assert(1 <= yi * zi && yi * zi <= xi * (yi * zi) && xi * (yi * zi) == (yi * zi) * xi)
            by (nonlinear_arith)
            requires
                xi >= 1 && yi >= 1 && zi >= 1,
        ;
        lemma_mul_is_associative(xi, yi, zi);
        lemma_multiply_divide_lt(i as int, (d.y as int) * (d.z as int), d.x as int);
        lemma_mod_division_less_than_divisor(i as int / (d.z as int), d.y as int);
        lemma_mod_division_less_than_divisor(i as int, d.z as int);
    }
    let yz: usize = d.y * d.z;
    let xc: usize = i / yz;
    let yc: usize = (i / d.z) % d.y;
    let zc: usize = i % d.z;
    (xc, yc, zc)
}

} // verus!
