//! Frame driver: the per-frame pipeline — threshold, encode, sort,
//! aggregate, regress — and the loop over the frames of the 4-D grid.
//!
//! The result of a frame is pinned to the frame's data alone, so the
//! sequential and the data-parallel key-generation strategies are
//! interchangeable by contract: both hand the same keys to the same
//! aggregation.
use vstd::prelude::*;

verus! {

use crate::grid::{Dims, coord_x, coord_y, coord_z};
use crate::encode::{KeyStrategy, keys, keys_spec, sample_key, lemma_key_occupancy, lemma_key_prefix_bound};
use crate::encode::{norm_spec, key_spec, bit_of};
use crate::threshold::occupancy_spec;
use crate::sort::{sorted_keys, sort_keys, key_le, lemma_key_le_total};
use crate::aggregate::{
    box_count,
    box_masses,
    seq_sum,
    seq_sq_sum,
    occupied_pred,
    filter_occupied,
    level_stats,
    lemma_box_count_le_len,
    lemma_box_count_monotone,
    lemma_boundary_count_nonneg,
    lemma_box_masses_wf,
    lemma_level0_single_box,
    lemma_mass_conservation,
    lemma_sq_sum_bound,
};
use vstd::seq_lib::{to_multiset_len, to_multiset_contains};
use vstd::arithmetic::power2::{pow2, lemma2_to64};
use vstd::arithmetic::div_mod::{lemma_div_pos_is_pos, lemma_mod_division_less_than_divisor};
use crate::aggregate::occupied_key;
use crate::estimate::{
    AnalysisError,
    log2,
    dim_fixed_spec,
    estimate_dimension,
    lacunarity_spec,
    lacunarity_fixed,
    floor_log2_u128,
};

/// The per-frame outcome: the frame's index, its fixed-point fractal
/// dimension (0 for a frame without occupied voxels), and the fixed-point
/// lacunarity curve over all boxes, one entry per scale level `0..=8`.
#[derive(Debug)]
pub struct FrameResult {
    /// Index of the frame within the 4-D grid.
    pub frame: usize,
    /// Fractal dimension scaled by [`crate::FIXED_ONE`].
    pub dimension_fp: u64,
    /// Lacunarity per scale level, scaled by [`crate::FIXED_ONE`].
    pub lacunarity_fp: Vec<u64>,
}

/// All keys of a frame, in ascending order.
pub open spec fn all_sorted_spec(g: Seq<i32>, d: Dims) -> Seq<u32> {
    sorted_keys(keys_spec(g, d))
}

/// The sorted keys of the occupied voxels alone.
pub open spec fn occ_sorted_spec(g: Seq<i32>, d: Dims) -> Seq<u32> {
    all_sorted_spec(g, d).filter(occupied_pred())
}

/// Finest scale level whose box edge is at least one voxel of the
/// smallest axis: `min(8, floor(log2(min extent)))`.
pub open spec fn level_cap(d: Dims) -> int {
    if log2(d.min_extent()) > 8 {
        8int
    } else {
        log2(d.min_extent())
    }
}

/// Occupied-box counts of the frame, one per level `0..=level_cap`.
pub open spec fn counts_spec(g: Seq<i32>, d: Dims) -> Seq<u64> {
    Seq::new((level_cap(d) + 1) as nat, |l: int| box_count(occ_sorted_spec(g, d), l) as u64)
}

/// What analysing one frame yields: the sentinel dimension 0 for a frame
/// without occupied voxels, an error where fewer than two scale levels
/// exist, and otherwise the regression estimate.
pub open spec fn frame_spec(g: Seq<i32>, d: Dims) -> Result<u64, AnalysisError> {
    if occ_sorted_spec(g, d).len() == 0 {
        Ok(0u64)
    } else if level_cap(d) < 1 {
        Err(AnalysisError::Numerical)
    } else {
        Ok(dim_fixed_spec(counts_spec(g, d)) as u64)
    }
}

/// Fixed-point lacunarity of the frame at level `l`, over all boxes.
pub open spec fn lacunarity_at(g: Seq<i32>, d: Dims, l: int) -> int {
    lacunarity_spec(
        box_count(all_sorted_spec(g, d), l),
        seq_sq_sum(box_masses(all_sorted_spec(g, d), l)),
        g.len() as int,
    )
}

/// Sorting the keys keeps their number: a frame of `n` voxels has `n`
/// sorted keys.
proof fn lemma_all_sorted_len(g: Seq<i32>, d: Dims)
    ensures
        all_sorted_spec(g, d).len() == g.len(),
{
    lemma_key_le_total();
    keys_spec(g, d).lemma_sort_by_ensures(key_le());
    to_multiset_len(keys_spec(g, d));
    to_multiset_len(all_sorted_spec(g, d));
}

/// Mass conservation at frame level: at every scale level the per-box
/// masses of a frame's keys sum to the frame's voxel count.
pub proof fn lemma_frame_mass_conservation(g: Seq<i32>, d: Dims, l: int)
    ensures
        seq_sum(box_masses(all_sorted_spec(g, d), l)) == g.len(),
{
    lemma_all_sorted_len(g, d);
    lemma_mass_conservation(all_sorted_spec(g, d), l);
}

/// Scale monotonicity at frame level: as the level coarsens, the number
/// of occupied boxes never grows.
pub proof fn lemma_frame_boxes_monotone(g: Seq<i32>, d: Dims, l1: int, l2: int)
    requires
        0 <= l1 <= l2 <= 8,
    ensures
        box_count(occ_sorted_spec(g, d), l1) <= box_count(occ_sorted_spec(g, d), l2),
{
    lemma_box_count_monotone(occ_sorted_spec(g, d), l1, l2);
}

/// A non-empty frame forms exactly one box at the coarsest scale.
pub proof fn lemma_frame_whole_grid_one_box(g: Seq<i32>, d: Dims)
    requires
        g.len() >= 1,
    ensures
        box_count(all_sorted_spec(g, d), 0) == 1,
{
    lemma_all_sorted_len(g, d);
    lemma_level0_single_box(all_sorted_spec(g, d));
}

/// A voxel's key carries its occupancy: the key's occupancy bit is set
/// exactly when the voxel's intensity reaches the cutoff.
proof fn lemma_sample_key_occupancy(d: Dims, i: int, v: i32)
    requires
        d.valid(),
        0 <= i,
    ensures
        occupied_key(sample_key(d, i, v) as u32) <==> occupancy_spec(v) == crate::threshold::OCCUPIED,
{
    let e_x = d.x as int;
    let e_y = d.y as int;
    let e_z = d.z as int;
    let cx = coord_x(i, d);
    let cy = coord_y(i, d);
    let cz = coord_z(i, d);
    lemma2_to64();
    assert(e_y * e_z >= 1) by (nonlinear_arith)
        requires
            e_y >= 1 && e_z >= 1,
    ;
    lemma_div_pos_is_pos(i, e_y * e_z);
    lemma_mod_division_less_than_divisor(i / e_z, e_y);
    lemma_mod_division_less_than_divisor(i, e_z);
    lemma_div_pos_is_pos(cx * 256, e_x);
    lemma_div_pos_is_pos(cy * 256, e_y);
    lemma_div_pos_is_pos(cz * 256, e_z);
    assert(cx * 256 >= 0 && cy * 256 >= 0 && cz * 256 >= 0) by (nonlinear_arith)
        requires
            cx >= 0 && cy >= 0 && cz >= 0,
    ;
    let nx = norm_spec(cx, e_x);
    let ny = norm_spec(cy, e_y);
    let nz = norm_spec(cz, e_z);
    let o = occupancy_spec(v) as int;
    lemma_key_prefix_bound(nx, ny, nz, o, 8);
    lemma_key_occupancy(nx, ny, nz, o);
    assert(sample_key(d, i, v) as u32 as int == key_spec(nx, ny, nz, o));
    assert(bit_of(255, 7) == 1);
    assert(bit_of(0, 7) == 0);
}

/// The sentinel case is exactly the empty frame: a frame has no occupied
/// key if and only if every voxel's intensity is below the cutoff.
pub proof fn lemma_sentinel_iff_empty(g: Seq<i32>, d: Dims)
    requires
        d.valid(),
        g.len() == d.volume(),
    ensures
        (occ_sorted_spec(g, d).len() == 0) <==> (forall|i: int|
            0 <= i < g.len() ==> #[trigger] g[i] < crate::threshold::CUTOFF),
{
    let ks = keys_spec(g, d);
    let sorted = all_sorted_spec(g, d);
    lemma_key_le_total();
    ks.lemma_sort_by_ensures(key_le());
    if forall|i: int| 0 <= i < g.len() ==> #[trigger] g[i] < crate::threshold::CUTOFF {
        assert forall|j: int| 0 <= j < sorted.len() implies !(occupied_pred()(sorted[j])) by {
            to_multiset_contains(sorted, sorted[j]);
            to_multiset_contains(ks, sorted[j]);
            assert(sorted.contains(sorted[j]));
            assert(ks.contains(sorted[j]));
            let idx = choose|idx: int| 0 <= idx < ks.len() && ks[idx] == sorted[j];
            lemma_sample_key_occupancy(d, idx, g[idx]);
        }
        sorted.lemma_all_neg_filter_empty(occupied_pred());
    } else {
        let i = choose|i: int| 0 <= i < g.len() && !(g[i] < crate::threshold::CUTOFF);
        lemma_sample_key_occupancy(d, i, g[i]);
        to_multiset_contains(ks, ks[i]);
        to_multiset_contains(sorted, ks[i]);
        assert(ks.contains(ks[i]));
        assert(sorted.contains(ks[i]));
        let j = choose|j: int| 0 <= j < sorted.len() && sorted[j] == ks[i];
        sorted.lemma_filter_contains(occupied_pred(), j);
        assert(occ_sorted_spec(g, d).contains(ks[i]));
    }
}

/// Computes the scale-level cap of a frame's extents.
pub fn level_cap_exec(d: Dims) -> (r: usize)
    requires
        d.valid(),
    ensures
        r as int == level_cap(d),
        r <= 8,
{
    let m: usize = if d.x <= d.y && d.x <= d.z {
        d.x
    } else if d.y <= d.z {
        d.y
    } else {
        d.z
    };
    let k = floor_log2_u128(m as u128);
    if k > 8 {
        8
    } else {
        k as usize
    }
}

/// Analyses one frame: occupancy, keys, one sorted pass per scale, and
/// the log-log regression.  The result is a function of the frame data
/// and extents alone — in particular it does not depend on the key
/// generation strategy.
pub fn analyze_frame(g: &Vec<i32>, d: Dims, frame: usize, strategy: KeyStrategy) -> (r: Result<
    FrameResult,
    AnalysisError,
>)
    requires
        d.valid(),
        g@.len() == d.volume(),
    ensures
        (r is Ok) == (frame_spec(g@, d) is Ok),
        r is Ok ==> (r->Ok_0).frame == frame,
        r is Ok ==> (r->Ok_0).dimension_fp == frame_spec(g@, d)->Ok_0,
        r is Ok ==> (r->Ok_0).lacunarity_fp@.len() == 9,
        r is Ok ==> forall|l: int|
            0 <= l < 9 ==> #[trigger] ((r->Ok_0).lacunarity_fp@[l]) as int == lacunarity_at(
                g@,
                d,
                l,
            ),
        !(r is Ok) ==> r == Err::<FrameResult, AnalysisError>(AnalysisError::Numerical),
{
    proof {
        let xi = d.x as int;
        let yi = d.y as int;
        let zi = d.z as int;
        assert(xi * yi * zi >= 1) by (nonlinear_arith)
            requires
                xi >= 1 && yi >= 1 && zi >= 1,
        ;
    }
    let mut ks = keys(g, d, strategy);
    sort_keys(&mut ks);
    let total: u64 = g.len() as u64;
    let mut lac: Vec<u64> = Vec::new();
    let mut l: usize = 0;
    while l < 9
        invariant
            d.valid(),
            g@.len() == d.volume(),
            1 <= g@.len() < 0x1_0000_0000,
            total as int == g@.len(),
            ks@ == all_sorted_spec(g@, d),
            ks@.len() == g@.len(),
            l <= 9,
            lac@.len() == l,
            forall|j: int| 0 <= j < l ==> #[trigger] (lac@[j]) as int == lacunarity_at(g@, d, j),
        decreases 9 - l,
    {
        let (b, sq) = level_stats(&ks, l);
        proof {
            lemma_box_count_le_len(ks@, l as int);
            lemma_boundary_count_nonneg(ks@, l as int);
            lemma_box_masses_wf(ks@, l as int);
            lemma_mass_conservation(ks@, l as int);
            lemma_sq_sum_bound(box_masses(ks@, l as int));
        }
        lac.push(lacunarity_fixed(b, sq, total));
        l += 1;
    }
    let occ = filter_occupied(&ks);
    if occ.len() == 0 {
        return Ok(FrameResult { frame, dimension_fp: 0, lacunarity_fp: lac });
    }
    let cap = level_cap_exec(d);
    if cap < 1 {
        return Err(AnalysisError::Numerical);
    }
    proof {
        ks@.lemma_filter_len(occupied_pred());
    }
    let mut counts: Vec<u64> = Vec::new();
    let mut cl: usize = 0;
    while cl <= cap
        invariant
            1 <= cap <= 8,
            cap as int == level_cap(d),
            cl <= cap + 1,
            occ@ == occ_sorted_spec(g@, d),
            1 <= occ@.len() < 0x1_0000_0000,
            counts@.len() == cl,
            forall|j: int| 0 <= j < cl ==> #[trigger] (counts@[j]) as int == box_count(occ@, j),
            forall|j: int| 0 <= j < cl ==> 1 <= #[trigger] (counts@[j]) < 0x1_0000_0000,
        decreases cap + 1 - cl,
    {
        let (b, _sq) = level_stats(&occ, cl);
        proof {
            lemma_box_count_le_len(occ@, cl as int);
            lemma_boundary_count_nonneg(occ@, cl as int);
        }
        counts.push(b);
        cl += 1;
    }
    proof {
        assert(counts@ =~= counts_spec(g@, d));
    }
    match estimate_dimension(&counts) {
        Ok(dim) => Ok(FrameResult { frame, dimension_fp: dim, lacunarity_fp: lac }),
        Err(e) => {
            proof {
                assert(false);
            }
            Err(e)
        },
    }
}

/// The shape of the 4-D input: a frame count and the spatial extents.
#[derive(Clone, Copy, Debug, PartialEq, Eq, Structural)]
pub struct Shape4 {
    pub frames: usize,
    pub dims: Dims,
}

impl Shape4 {
    /// Valid extents, and a total size the machine can index.
    pub open spec fn wf(self) -> bool {
        self.dims.valid() && (self.frames as int) * self.dims.volume() <= usize::MAX as int
    }
}

/// A shape is acceptable when it has exactly four axes, positive spatial
/// extents, frames of fewer than `2^32` voxels, and a total size the
/// machine can index.
pub open spec fn shape_ok(shape: Seq<u64>) -> bool {
    &&& shape.len() == 4
    &&& 1 <= shape[1]
    &&& 1 <= shape[2]
    &&& 1 <= shape[3]
    &&& (shape[1] as int) * (shape[2] as int) * (shape[3] as int) < 0x1_0000_0000
    &&& (shape[0] as int) * ((shape[1] as int) * (shape[2] as int) * (shape[3] as int))
        <= usize::MAX as int
}

/// Validates the axis list of the input array: the first axis is time,
/// the rest are spatial.  Anything but an acceptable 4-axis shape is an
/// input-format error.
pub fn validate_shape(shape: &Vec<u64>) -> (r: Result<Shape4, AnalysisError>)
    ensures
        (r is Ok) == shape_ok(shape@),
        r is Ok ==> ({
            let s = r->Ok_0;
            s.wf() && s.frames as int == shape@[0] as int && s.dims.x as int == shape@[1] as int
                && s.dims.y as int == shape@[2] as int && s.dims.z as int == shape@[3] as int
        }),
        !(r is Ok) ==> r == Err::<Shape4, AnalysisError>(AnalysisError::InputFormat),
{
    if shape.len() != 4 {
        return Err(AnalysisError::InputFormat);
    }
    let t = shape[0];
    let x = shape[1];
    let y = shape[2];
    let z = shape[3];
    if x < 1 || y < 1 || z < 1 {
        return Err(AnalysisError::InputFormat);
    }
    proof {
        let xi = x as int;
        let yi = y as int;
        let zi = z as int;
        assert(xi <= xi * yi && xi * yi <= xi * yi * zi && yi <= xi * yi * zi && zi <= xi * yi * zi
            && xi * yi * zi == xi * (yi * zi)) by (nonlinear_arith)
            requires
                xi >= 1 && yi >= 1 && zi >= 1,
        ;
    }
    proof {
        assert((x as int) * (y as int) < 0x1_0000_0000_0000_0000_0000_0000_0000_0000)
            by (nonlinear_arith)
            requires
                x <= 0xFFFF_FFFF_FFFF_FFFFu64 && y <= 0xFFFF_FFFF_FFFF_FFFFu64,
        ;
    }
    let xy: u128 = (x as u128) * (y as u128);
    if xy >= 0x1_0000_0000 {
        return Err(AnalysisError::InputFormat);
    }
    proof {
        assert((xy as int) * (z as int) < 0x1_0000_0000_0000_0000_0000_0000_0000_0000)
            by (nonlinear_arith)
            requires
                xy < 0x1_0000_0000u128 && z <= 0xFFFF_FFFF_FFFF_FFFFu64,
        ;
    }
    let vol: u128 = xy * (z as u128);
    if vol >= 0x1_0000_0000 {
        return Err(AnalysisError::InputFormat);
    }
    proof {
        assert((t as int) * (vol as int) < 0x1_0000_0000_0000_0000_0000_0000_0000_0000)
            by (nonlinear_arith)
            requires
                t <= 0xFFFF_FFFF_FFFF_FFFFu64 && vol < 0x1_0000_0000u128,
        ;
    }
    let tot: u128 = (t as u128) * vol;
    if tot > (usize::MAX as u128) {
        return Err(AnalysisError::InputFormat);
    }
    proof {
        assert((t as int) <= (t as int) * ((x as int) * (y as int) * (z as int)) || t == 0)
            by (nonlinear_arith)
            requires
                x >= 1 && y >= 1 && z >= 1 && t >= 0,
        ;
    }
    Ok(Shape4 { frames: t as usize, dims: Dims { x: x as usize, y: y as usize, z: z as usize } })
}

/// The voxels of frame `f` within the flat, row-major 4-D data.
pub open spec fn frame_slice(g: Seq<i32>, s: Shape4, f: int) -> Seq<i32> {
    g.subrange(f * s.dims.volume(), (f + 1) * s.dims.volume())
}

/// Copies one frame's voxels out of the flat 4-D data.
pub fn frame_at(g: &Vec<i32>, s: Shape4, f: usize) -> (r: Vec<i32>)
    requires
        s.wf(),
        g@.len() == (s.frames as int) * s.dims.volume(),
        f < s.frames,
    ensures
        r@ == frame_slice(g@, s, f as int),
{
    proof {
        let xi = s.dims.x as int;
        let yi = s.dims.y as int;
        let zi = s.dims.z as int;
        assert(1 <= xi * yi && xi * yi <= xi * yi * zi && 1 <= xi * yi * zi) by (nonlinear_arith)
            requires
                xi >= 1 && yi >= 1 && zi >= 1,
        ;
        let fi = f as int;
        let vol = s.dims.volume();
        let fr = s.frames as int;
        assert(0 <= fi * vol && fi * vol <= (fi + 1) * vol && (fi + 1) * vol <= fr * vol && (fi + 1)
            * vol - fi * vol == vol) by (nonlinear_arith)
            requires
                0 <= fi && fi + 1 <= fr && vol >= 1,
        ;
    }
    let vol: usize = s.dims.x * s.dims.y * s.dims.z;
    let start: usize = f * vol;
    let n = g.len();
    let mut r: Vec<i32> = Vec::new();
    let mut j: usize = 0;
    while j < vol
        invariant
            j <= vol,
            vol == s.dims.volume(),
            n == g@.len(),
            (start + vol) as int <= g@.len(),
            start as int == (f as int) * s.dims.volume(),
            r@ == g@.subrange(start as int, start as int + j as int),
        decreases vol - j,
    {
        proof {
            assert((start as int) + (j as int) < g@.len());
            assert(g@.subrange(start as int, start as int + j as int + 1) =~= g@.subrange(
                start as int,
                start as int + j as int,
            ).push(g@[start as int + j as int]));
        }
        r.push(g[start + j]);
        j += 1;
    }
    proof {
        assert(r@ =~= frame_slice(g@, s, f as int));
    }
    r
}

/// Analyses every frame of the 4-D grid in ascending frame order.  The
/// run is all-or-nothing: the first frame that fails aborts the rest.
pub fn analyze_all(g: &Vec<i32>, s: Shape4, strategy: KeyStrategy) -> (r: Result<
    Vec<FrameResult>,
    AnalysisError,
>)
    requires
        s.wf(),
        g@.len() == (s.frames as int) * s.dims.volume(),
    ensures
        (r is Ok) == (forall|f: int|
            0 <= f < s.frames ==> #[trigger] frame_spec(frame_slice(g@, s, f), s.dims) is Ok),
        r is Ok ==> (r->Ok_0)@.len() == s.frames,
        r is Ok ==> forall|f: int|
            0 <= f < s.frames ==> (#[trigger] (r->Ok_0)@[f]).frame == f,
        r is Ok ==> forall|f: int|
            0 <= f < s.frames ==> (#[trigger] (r->Ok_0)@[f]).dimension_fp == frame_spec(
                frame_slice(g@, s, f),
                s.dims,
            )->Ok_0,
        !(r is Ok) ==> r == Err::<Vec<FrameResult>, AnalysisError>(AnalysisError::Numerical),
{
    let mut out: Vec<FrameResult> = Vec::new();
    let mut f: usize = 0;
    while f < s.frames
        invariant
            s.wf(),
            g@.len() == (s.frames as int) * s.dims.volume(),
            f <= s.frames,
            out@.len() == f,
            forall|j: int|
                0 <= j < f ==> #[trigger] frame_spec(frame_slice(g@, s, j), s.dims) is Ok,
            forall|j: int| 0 <= j < f ==> (#[trigger] out@[j]).frame == j,
            forall|j: int|
                0 <= j < f ==> (#[trigger] out@[j]).dimension_fp == frame_spec(
                    frame_slice(g@, s, j),
                    s.dims,
                )->Ok_0,
        decreases s.frames - f,
    {
        proof {
            let fi = f as int;
            let vol = s.dims.volume();
            let fr = s.frames as int;
            let xi = s.dims.x as int;
            let yi = s.dims.y as int;
            let zi = s.dims.z as int;
            assert(1 <= xi * yi * zi) by (nonlinear_arith)
                requires
                    xi >= 1 && yi >= 1 && zi >= 1,
            ;
            assert(0 <= fi * vol && (fi + 1) * vol <= fr * vol && (fi + 1) * vol - fi * vol == vol)
                by (nonlinear_arith)
                requires
                    0 <= fi && fi + 1 <= fr && vol >= 1,
            ;
        }
        let fd = frame_at(g, s, f);
        match analyze_frame(&fd, s.dims, f, strategy) {
            Ok(fr) => {
                out.push(fr);
            },
            Err(e) => {
                return Err(e);
            },
        }
        f += 1;
    }
    Ok(out)
}

/// Encodes the CSV separator character as its single byte.  A character
/// outside the single-byte range is a caller error, reported as an
/// input-format error.
pub fn separator_byte(c: char) -> (r: Result<u8, AnalysisError>)
    ensures
        (r is Ok) == ((c as int) < 128),
        r is Ok ==> (r->Ok_0) as int == c as int,
        !(r is Ok) ==> r == Err::<u8, AnalysisError>(AnalysisError::InputFormat),
{
    let v = c as u32;
    if v < 128 {
        Ok(v as u8)
    } else {
        Err(AnalysisError::InputFormat)
    }
}

} // verus!
