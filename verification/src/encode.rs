//! Spatial-key encoder: maps a voxel's position and occupancy to one
//! 32-bit order-preserving multiscale key.
//!
//! Each of the four 8-bit fields (quantized x, quantized y, quantized z,
//! occupancy byte) contributes one bit per scale level, most significant
//! bits first.  Bit `31 - 4*t` of the key is bit `7 - t` of the x field,
//! bit `30 - 4*t` of the y field, bit `29 - 4*t` of the z field and bit
//! `28 - 4*t` of the occupancy byte, for `t` in `0..8`.  Numeric order of
//! keys therefore equals traversal order of a 4-D Z-order curve, and two
//! keys share their top `4*L` bits exactly when their samples share a box
//! at scale level `L`.
//!
//! Quantization bins every axis into 256 buckets: `norm(c, e) = c * 256 / e`
//! clamped to `[0, 255]`.  Axes longer than 256 voxels lose resolution by
//! design.
use vstd::prelude::*;

use rayon::iter::{IndexedParallelIterator, IntoParallelIterator, ParallelIterator};

verus! {

use vstd::arithmetic::power2::{pow2, lemma_pow2_adds, lemma_pow2_pos, lemma2_to64};
use vstd::arithmetic::div_mod::lemma_mod_division_less_than_divisor;
use vstd::bits::lemma_u8_shr_is_div;
use crate::grid::{Dims, coord_x, coord_y, coord_z, decode_index};
use crate::threshold::occupancy_spec;

/// Bit `j` (0 = least significant) of the non-negative value `v`.
pub open spec fn bit_of(v: int, j: int) -> int {
    (v / (pow2(j as nat) as int)) % 2
}

/// Base-16 digit `t` of a key, counting from the most significant digit:
/// one bit of each field, x highest.
pub open spec fn field_digit(x: int, y: int, z: int, o: int, t: int) -> int {
    8 * bit_of(x, 7 - t) + 4 * bit_of(y, 7 - t) + 2 * bit_of(z, 7 - t) + bit_of(o, 7 - t)
}

/// Value of the first `t` base-16 digits of the key of `(x, y, z, o)`.
pub open spec fn key_prefix(x: int, y: int, z: int, o: int, t: int) -> int
    decreases t,
{
    if t <= 0 {
        0
    } else {
        16 * key_prefix(x, y, z, o, t - 1) + field_digit(x, y, z, o, t - 1)
    }
}

/// The full 32-bit key of the four 8-bit fields `(x, y, z, o)`.
pub open spec fn key_spec(x: int, y: int, z: int, o: int) -> int {
    key_prefix(x, y, z, o, 8)
}

/// A bit is 0 or 1.
pub proof fn lemma_bit_of_bound(v: int, j: int)
    requires
        v >= 0,
        j >= 0,
    ensures
        0 <= bit_of(v, j) < 2,
{
    lemma_pow2_pos(j as nat);
    lemma_mod_division_less_than_divisor(v / (pow2(j as nat) as int), 2);
}

/// A key prefix of `t` digits is below `2^(4*t)`.
pub proof fn lemma_key_prefix_bound(x: int, y: int, z: int, o: int, t: int)
    requires
        x >= 0,
        y >= 0,
        z >= 0,
        o >= 0,
        0 <= t <= 8,
    ensures
        0 <= key_prefix(x, y, z, o, t) < pow2((4 * t) as nat),
    decreases t,
{
    if t <= 0 {
        lemma_pow2_pos((4 * t) as nat);
    } else {
        lemma_key_prefix_bound(x, y, z, o, t - 1);
        lemma_bit_of_bound(x, 8 - t);
        lemma_bit_of_bound(y, 8 - t);
        lemma_bit_of_bound(z, 8 - t);
        lemma_bit_of_bound(o, 8 - t);
        lemma_pow2_adds((4 * t - 4) as nat, 4);
        lemma2_to64();
    }
}

/// The key invariant of the bit layout: dividing a longer prefix down by
/// `2^(4*(u - t))` recovers the shorter prefix, so the top `4*t` bits of a
/// key are exactly its first `t` interleaved digits.  This ties the
/// aggregator's scale semantics to the encoder's layout.
pub proof fn lemma_box_id_is_prefix(x: int, y: int, z: int, o: int, t: int, u: int)
    requires
        x >= 0,
        y >= 0,
        z >= 0,
        o >= 0,
        0 <= t <= u <= 8,
    ensures
        key_prefix(x, y, z, o, u) / (pow2((4 * (u - t)) as nat) as int) == key_prefix(
            x,
            y,
            z,
            o,
            t,
        ),
    decreases u - t,
{
    if u == t {
        lemma2_to64();
        vstd::arithmetic::div_mod::lemma_div_basics(key_prefix(x, y, z, o, t));
    } else {
        let d = field_digit(x, y, z, o, u - 1);
        lemma_bit_of_bound(x, 8 - u);
        lemma_bit_of_bound(y, 8 - u);
        lemma_bit_of_bound(z, 8 - u);
        lemma_bit_of_bound(o, 8 - u);
        lemma_key_prefix_bound(x, y, z, o, u);
        lemma_key_prefix_bound(x, y, z, o, u - 1);
        vstd::arithmetic::div_mod::lemma_div_multiples_vanish_fancy(
            key_prefix(x, y, z, o, u - 1),
            d,
            16,
        );
        lemma_pow2_adds(4, (4 * (u - 1 - t)) as nat);
        lemma_pow2_pos((4 * (u - 1 - t)) as nat);
        lemma2_to64();
        vstd::arithmetic::div_mod::lemma_div_denominator(
            key_prefix(x, y, z, o, u),
            16,
            pow2((4 * (u - 1 - t)) as nat) as int,
        );
        lemma_box_id_is_prefix(x, y, z, o, t, u - 1);
        assert(key_prefix(x, y, z, o, u) == 16 * key_prefix(x, y, z, o, u - 1) + d);
        assert(key_prefix(x, y, z, o, u) / 16 == key_prefix(x, y, z, o, u - 1));
        assert(pow2((4 * (u - t)) as nat) as int == 16 * (pow2((4 * (u - 1 - t)) as nat) as int));
        assert(key_prefix(x, y, z, o, u) / (pow2((4 * (u - t)) as nat) as int) == (key_prefix(
            x,
            y,
            z,
            o,
            u,
        ) / 16) / (pow2((4 * (u - 1 - t)) as nat) as int));
    }
}

/// Bit 28 of a key is the top bit of its occupancy byte: a key marks an
/// occupied voxel exactly when the voxel's occupancy byte does.
pub proof fn lemma_key_occupancy(x: int, y: int, z: int, o: int)
    requires
        x >= 0,
        y >= 0,
        z >= 0,
        o >= 0,
    ensures
        (key_spec(x, y, z, o) / (pow2(28) as int)) % 2 == bit_of(o, 7),
{
    lemma_box_id_is_prefix(x, y, z, o, 1, 8);
    lemma_bit_of_bound(x, 7);
    lemma_bit_of_bound(y, 7);
    lemma_bit_of_bound(z, 7);
    lemma_bit_of_bound(o, 7);
    assert(key_prefix(x, y, z, o, 0) == 0);
    assert(key_prefix(x, y, z, o, 1) == field_digit(x, y, z, o, 0));
    assert((8 * bit_of(x, 7) + 4 * bit_of(y, 7) + 2 * bit_of(z, 7) + bit_of(o, 7)) % 2 == bit_of(
        o,
        7,
    )) by (nonlinear_arith)
        requires
            0 <= bit_of(x, 7) < 2 && 0 <= bit_of(y, 7) < 2 && 0 <= bit_of(z, 7) < 2 && 0 <= bit_of(
                o,
                7,
            ) < 2,
    ;
}

/// Interleaves the four 8-bit fields into one 32-bit key, most significant
/// bits first, x highest within each level.
pub fn interleave(x: u8, y: u8, z: u8, o: u8) -> (k: u32)
    ensures
        k as int == key_spec(x as int, y as int, z as int, o as int),
{
    let mut k: u32 = 0;
    let mut t: usize = 0;
    while t < 8
        invariant
            t <= 8,
            k as int == key_prefix(x as int, y as int, z as int, o as int, t as int),
        decreases 8 - t,
    {
        let sh: u8 = (7 - t) as u8;
        let bx: u8 = (x >> sh) & 1;
        let by: u8 = (y >> sh) & 1;
        let bz: u8 = (z >> sh) & 1;
        let bo: u8 = (o >> sh) & 1;
        proof {
            lemma_u8_shr_is_div(x, sh);
            lemma_u8_shr_is_div(y, sh);
            lemma_u8_shr_is_div(z, sh);
            lemma_u8_shr_is_div(o, sh);
            assert(forall|w: u8| #[trigger] (w & 1) == w % 2) by (bit_vector);
            lemma_key_prefix_bound(x as int, y as int, z as int, o as int, t as int);
            lemma_key_prefix_bound(x as int, y as int, z as int, o as int, t as int + 1);
            lemma2_to64();
            if t < 7 {
                vstd::arithmetic::power2::lemma_pow2_strictly_increases((4 * t + 4) as nat, 32);
            }
        }
        let d: u32 = (bx as u32) * 8 + (by as u32) * 4 + (bz as u32) * 2 + (bo as u32);
        k = k * 16 + d;
        t += 1;
    }
    k
}

/// Quantization of coordinate `c` on an axis of extent `e` into one of 256
/// buckets, clamped to the byte range.
pub open spec fn norm_spec(c: int, e: int) -> int {
    let q = c * 256 / e;
    if q > 255 {
        255
    } else {
        q
    }
}

/// Quantizes one coordinate.
pub fn norm8(c: usize, e: usize) -> (r: u8)
    requires
        1 <= e < 0x1_0000_0000,
        c < e,
    ensures
        r as int == norm_spec(c as int, e as int),
{
    let q: u64 = (c as u64) * 256 / (e as u64);
    if q > 255 {
        255u8
    } else {
        proof {
            vstd::arithmetic::div_mod::lemma_div_pos_is_pos((c as int) * 256, e as int);
        }
        q as u8
    }
}

/// Key of the voxel at flat index `i` of a frame with extents `d`, given
/// its raw intensity `v`: quantized coordinates and the occupancy byte,
/// interleaved.
pub open spec fn sample_key(d: Dims, i: int, v: i32) -> int {
    key_spec(
        norm_spec(coord_x(i, d), d.x as int),
        norm_spec(coord_y(i, d), d.y as int),
        norm_spec(coord_z(i, d), d.z as int),
        occupancy_spec(v) as int,
    )
}

/// Keys of every voxel of a frame, in flat index order.
pub open spec fn keys_spec(g: Seq<i32>, d: Dims) -> Seq<u32> {
    Seq::new(g.len(), |i: int| sample_key(d, i, g[i]) as u32)
}

/// Computes the key of one voxel.
pub fn key_for_index(d: Dims, i: usize, v: i32) -> (k: u32)
    requires
        d.valid(),
        (i as int) < d.volume(),
    ensures
        k as int == sample_key(d, i as int, v),
{
    proof {
        let xi = d.x as int;
        let yi = d.y as int;
        let zi = d.z as int;
        assert(xi <= xi * yi * zi && yi <= xi * yi * zi && zi <= xi * yi * zi)
            by (nonlinear_arith)
            requires
                xi >= 1 && yi >= 1 && zi >= 1,
        ;
    }
    let (xc, yc, zc) = decode_index(i, d);
    let nx = norm8(xc, d.x);
    let ny = norm8(yc, d.y);
    let nz = norm8(zc, d.z);
    let ob = crate::threshold::occupancy(v);
    interleave(nx, ny, nz, ob)
}

/// How the per-voxel keys of a frame are produced.  Both strategies yield
/// the same keys for the same frame; only the schedule differs.
#[derive(Clone, Copy, Debug, PartialEq, Eq, Structural)]
pub enum KeyStrategy {
    /// One thread walks the frame in flat index order.
    Sequential,
    /// Worker threads each encode a disjoint range of flat indices.
    Parallel,
}

/// Sequential key generation: one pass in flat index order.
pub fn keys_sequential(g: &Vec<i32>, d: Dims) -> (r: Vec<u32>)
    requires
        d.valid(),
        g@.len() == d.volume(),
    ensures
        r@ == keys_spec(g@, d),
{
    let mut r: Vec<u32> = Vec::new();
    let mut i: usize = 0;
    while i < g.len()
        invariant
            d.valid(),
            g@.len() == d.volume(),
            i <= g@.len(),
            r@.len() == i,
            forall|j: int| 0 <= j < i ==> r@[j] == keys_spec(g@, d)[j],
        decreases g@.len() - i,
    {
        r.push(key_for_index(d, i, g[i]));
        i += 1;
    }
    proof {
        assert(r@ =~= keys_spec(g@, d));
    }
    r
}

/// Relies on rayon's indexed parallel iterators: mapping a verified
/// per-index function over `0..len` and collecting into a `Vec` keeps
/// index order, so element `i` of the result is the key of voxel `i`.
#[verifier::external_body]
fn keys_parallel_raw(g: &Vec<i32>, d: Dims) -> (r: Vec<u32>)
    requires
        d.valid(),
        g@.len() == d.volume(),
    ensures
        r@.len() == g@.len(),
        forall|i: int| 0 <= i < g@.len() ==> r@[i] as int == sample_key(d, i, g@[i]),
{
    (0..g.len()).into_par_iter().map(|i| key_for_index(d, i, g[i])).collect()
}

/// Data-parallel key generation: the same keys as [`keys_sequential`],
/// produced by worker threads over disjoint index ranges.
pub fn keys_parallel(g: &Vec<i32>, d: Dims) -> (r: Vec<u32>)
    requires
        d.valid(),
        g@.len() == d.volume(),
    ensures
        r@ == keys_spec(g@, d),
{
    let r = keys_parallel_raw(g, d);
    proof {
        assert(r@ =~= keys_spec(g@, d));
    }
    r
}

/// Key generation under either strategy.  The result is pinned to
/// [`keys_spec`] alone, so the two strategies are provably
/// interchangeable: the frame data fully determines the keys.
pub fn keys(g: &Vec<i32>, d: Dims, strategy: KeyStrategy) -> (r: Vec<u32>)
    requires
        d.valid(),
        g@.len() == d.volume(),
    ensures
        r@ == keys_spec(g@, d),
{
    match strategy {
        KeyStrategy::Sequential => keys_sequential(g, d),
        KeyStrategy::Parallel => keys_parallel(g, d),
    }
}

} // verus!
