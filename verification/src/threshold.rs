//! Thresholder: turns a raw integer intensity grid into a binary occupancy
//! grid of the same shape.
//!
//! A voxel is occupied exactly when its intensity is at least [`CUTOFF`];
//! the cutoff is inclusive on the occupied side, so intensity 2 is occupied
//! and intensity 1 is empty.  Occupied voxels map to the maximal byte value
//! so that the occupancy field carries a set bit at every depth of the
//! interleaved key.
use vstd::prelude::*;

verus! {

/// Intensity cutoff: intensities at or above it are occupied.
pub const CUTOFF: i32 = 2;

/// Occupancy byte of an occupied voxel.
pub const OCCUPIED: u8 = 255;

/// Occupancy byte of an empty voxel.
pub const EMPTY: u8 = 0;

/// Occupancy byte derived from one intensity.
pub open spec fn occupancy_spec(v: i32) -> u8 {
    if v >= CUTOFF {
        OCCUPIED
    } else {
        EMPTY
    }
}

/// Classifies one intensity.
pub fn occupancy(v: i32) -> (r: u8)
    ensures
        r == occupancy_spec(v),
        r == OCCUPIED <==> v >= CUTOFF,
        r == EMPTY <==> v < CUTOFF,
{
    if v < CUTOFF {
        EMPTY
    } else {
        OCCUPIED
    }
}

/// Occupancy mask of a whole grid: the same shape, one byte per voxel.
pub fn occupancy_mask(data: &Vec<i32>) -> (r: Vec<u8>)
    ensures
        r@.len() == data@.len(),
        forall|i: int| 0 <= i < data@.len() ==> r@[i] == occupancy_spec(data@[i]),
{
    let mut r: Vec<u8> = Vec::new();
    let mut i: usize = 0;
    while i < data.len()
        invariant
            i <= data@.len(),
            r@.len() == i,
            forall|j: int| 0 <= j < i ==> r@[j] == occupancy_spec(data@[j]),
        decreases data@.len() - i,
    {
        r.push(occupancy(data[i]));
        i += 1;
    }
    r
}

} // verus!
