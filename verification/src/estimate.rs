//! Dimension estimator: fixed-point logarithms, the log-log least-squares
//! regression that yields the fractal dimension, and the lacunarity
//! statistic.
//!
//! The library avoids floating point: every fractional quantity is a
//! fixed-point integer scaled by [`crate::FIXED_ONE`].  The base-2
//! logarithm of a box count `n` is refined beyond its integer part by
//! taking `floor(log2(n^p)) / p` for the largest exponent `p` that keeps
//! `n^p` inside 128 bits, namely `p = 127 / (floor(log2 n) + 1)`.  All of
//! it is exact integer arithmetic with an exact contract.
//!
//! With levels `0..count` on the x axis and fixed-point `log2 N(l)` on the
//! y axis, the regression slope is `cov / var` over those points; box
//! sizes halve per level, so the slope in `log2(box size)` is its negation
//! and the dimension is the slope itself, clamped below at zero.
use vstd::prelude::*;

verus! {

use vstd::arithmetic::logarithm::{log, lemma_log0, lemma_log_s, lemma_log_nonnegative};
use vstd::arithmetic::power::{
    pow,
    lemma_pow1,
    lemma_pow_adds,
    lemma_pow_increases,
    lemma_pow_multiplies,
    lemma_pow_positive,
};
use vstd::arithmetic::power2::{
    pow2,
    lemma_pow2,
    lemma_pow2_adds,
    lemma_pow2_pos,
    lemma_pow2_strictly_increases,
    lemma2_to64,
};
use vstd::arithmetic::div_mod::{
    lemma_fundamental_div_mod,
    lemma_mod_division_less_than_divisor,
    lemma_div_is_ordered_by_denominator,
    lemma_div_nonincreasing,
    lemma_div_pos_is_pos,
    lemma_div_denominator,
    lemma_div_basics,
    lemma_multiply_divide_le,
};

/// Errors the analysis can report.
#[derive(Clone, Copy, Debug, PartialEq, Eq, Structural)]
pub enum AnalysisError {
    /// The input does not hold a 4-D grid of the expected form.
    InputFormat,
    /// A frame yields fewer than two valid regression points.
    Numerical,
}

/// `floor(log2 v)`.
pub open spec fn log2(v: int) -> int {
    log(2, v)
}

/// The refinement exponent of `n`: the largest uniform power that keeps
/// `n^p` within 128 bits, `127 / (floor(log2 n) + 1)`.
pub open spec fn rep_exp(n: int) -> int {
    127int / (log2(n) + 1)
}

/// Fixed-point `log2 n`, scaled by [`crate::FIXED_ONE`]:
/// `floor(log2(n^p)) * FIXED_ONE / p` with `p = rep_exp(n)`.
pub open spec fn log2_fixed(n: int) -> int {
    log2(pow(n, rep_exp(n) as nat)) * (crate::FIXED_ONE as int) / rep_exp(n)
}

/// If one power of two is below another, its exponent is below too.
proof fn lemma_pow2_ordered(a: nat, b: nat)
    requires
        pow2(a) < pow2(b),
    ensures
        a < b,
{
    if a >= b {
        if a > b {
            lemma_pow2_strictly_increases(b, a);
        }
    }
}

/// Powers preserve the order of non-negative bases.
proof fn lemma_pow_base_ordered(a: int, b: int, e: nat)
    ensures
        0 <= a <= b ==> 0 <= pow(a, e) <= pow(b, e),
    decreases e,
{
    reveal(pow);
    if e > 0 && 0 <= a <= b {
        lemma_pow_base_ordered(a, b, (e - 1) as nat);
        assert(a * pow(a, (e - 1) as nat) <= b * pow(b, (e - 1) as nat) && 0 <= a * pow(
            a,
            (e - 1) as nat,
        )) by (nonlinear_arith)
            requires
                0 <= a <= b && 0 <= pow(a, (e - 1) as nat) <= pow(b, (e - 1) as nat),
        ;
    }
}

/// `floor(log2)` of a 128-bit value, with the bracket that pins it:
/// `2^r <= v < 2^(r+1)`.
pub fn floor_log2_u128(v: u128) -> (r: u64)
    requires
        v >= 1,
    ensures
        r as int == log2(v as int),
        r < 128,
        pow2(r as nat) <= v as int && (v as int) < pow2(r as nat + 1),
{
    let mut t: u128 = v;
    let mut r: u64 = 0;
    proof {
        lemma2_to64();
        lemma_div_basics(v as int);
    }
    while t >= 2
        invariant
            1 <= t,
            r < 128,
            t as int == (v as int) / (pow2(r as nat) as int),
            log2(v as int) == r as int + log2(t as int),
        decreases t,
    {
        proof {
            lemma_pow2_pos(r as nat);
            lemma_log_s(2, t as int);
            lemma_fundamental_div_mod(v as int, pow2(r as nat) as int);
            lemma_mod_division_less_than_divisor(v as int, pow2(r as nat) as int);
            lemma_pow2_adds(r as nat, 1);
            lemma2_to64();
            // v >= 2 * pow2(r) = pow2(r + 1), and v fits 128 bits, so r + 1 < 128.
            assert((pow2(r as nat) as int) * (t as int) >= 2 * (pow2(r as nat) as int))
                by (nonlinear_arith)
                requires
                    t as int >= 2 && pow2(r as nat) as int >= 1,
            ;
            assert(pow2(r as nat + 1) <= v as int);
            if r as nat + 1 >= 128 {
                if r as nat + 1 > 128 {
                    lemma_pow2_strictly_increases(128, r as nat + 1);
                }
                lemma_pow2_adds(64, 64);
                assert(false);
            }
            lemma_div_denominator(v as int, pow2(r as nat) as int, 2);
        }
        t = t / 2;
        r = r + 1;
    }
    proof {
        lemma_log0(2, 1);
        lemma_pow2_pos(r as nat);
        lemma_fundamental_div_mod(v as int, pow2(r as nat) as int);
        lemma_mod_division_less_than_divisor(v as int, pow2(r as nat) as int);
        lemma_pow2_adds(r as nat, 1);
        lemma2_to64();
    }
    r
}

/// `n^p`, computed exactly in 128 bits.
fn pow_u128(n: u64, p: u64) -> (r: u128)
    requires
        1 <= n,
        1 <= p,
        pow(n as int, p as nat) < pow2(128),
    ensures
        r as int == pow(n as int, p as nat),
{
    proof {
        lemma_pow1(n as int);
        lemma_pow2_adds(64, 64);
        lemma2_to64();
    }
    let mut acc: u128 = n as u128;
    let mut j: u64 = 1;
    while j < p
        invariant
            1 <= j <= p,
            1 <= n,
            pow(n as int, p as nat) < pow2(128),
            pow2(128) == 0x1_0000_0000_0000_0000_0000_0000_0000_0000,
            acc as int == pow(n as int, j as nat),
        decreases p - j,
    {
        proof {
            lemma_pow_adds(n as int, j as nat, 1);
            lemma_pow1(n as int);
            lemma_pow_increases(n as nat, j as nat + 1, p as nat);
            lemma_pow_positive(n as int, j as nat);
        }
        acc = acc * (n as u128);
        j = j + 1;
    }
    acc
}

/// Fixed-point `log2` of a box count.
pub fn log2_fixed_exec(n: u64) -> (r: u64)
    requires
        1 <= n < 0x1_0000_0000,
    ensures
        r as int == log2_fixed(n as int),
        r <= 0x7F_0000,
{
    let k = floor_log2_u128(n as u128);
    proof {
        lemma2_to64();
        lemma_pow2_ordered(k as nat, 32);
        lemma_log_nonnegative(2, n as int);
        // (k + 1) * p <= 127 for p = 127 / (k + 1).
        lemma_fundamental_div_mod(127, k as int + 1);
        lemma_mod_division_less_than_divisor(127, k as int + 1);
        lemma_div_is_ordered_by_denominator(127, k as int + 1, 32);
    }
    let p = 127 / (k + 1);
    proof {
        let ki = k as int;
        let pi = p as int;
        let ni = n as int;
        // n^p < 2^((k+1)*p) <= 2^127 < 2^128.
        lemma_pow_base_ordered(ni, pow2(ki as nat + 1) as int, pi as nat);
        lemma_pow2(ki as nat + 1);
        lemma_pow_multiplies(2, (ki + 1) as nat, pi as nat);
        lemma_pow2((ki + 1) as nat * pi as nat);
        vstd::arithmetic::power2::lemma_pow2_strictly_increases(
            ((ki + 1) * pi) as nat,
            128,
        );
        lemma_pow_positive(ni, pi as nat);
    }
    let np = pow_u128(n, p);
    let y = floor_log2_u128(np);
    proof {
        lemma_div_pos_is_pos((y as int) * (crate::FIXED_ONE as int), p as int);
        lemma_div_nonincreasing((y as int) * (crate::FIXED_ONE as int), p as int);
    }
    y * crate::FIXED_ONE / p
}

/// Sum of fixed-point `log2` over the box counts.
pub open spec fn sum_y(counts: Seq<u64>) -> int
    decreases counts.len(),
{
    if counts.len() == 0 {
        0
    } else {
        sum_y(counts.drop_last()) + log2_fixed(counts.last() as int)
    }
}

/// Sum of `level * y(level)` over the box counts, levels being indices.
pub open spec fn sum_ly(counts: Seq<u64>) -> int
    decreases counts.len(),
{
    if counts.len() == 0 {
        0
    } else {
        sum_ly(counts.drop_last()) + (counts.len() - 1) * log2_fixed(counts.last() as int)
    }
}

/// Sum of the levels `0..n`.
pub open spec fn sum_l(n: int) -> int
    decreases n,
{
    if n <= 0 {
        0
    } else {
        sum_l(n - 1) + (n - 1)
    }
}

/// Sum of the squared levels `0..n`.
pub open spec fn sum_l2(n: int) -> int
    decreases n,
{
    if n <= 0 {
        0
    } else {
        sum_l2(n - 1) + (n - 1) * (n - 1)
    }
}

/// The fixed-point dimension estimate from per-level occupied-box counts
/// (the level is the index): the least-squares slope of `y` against the
/// level, `cov / var`, clamped below at zero.
pub open spec fn dim_fixed_spec(counts: Seq<u64>) -> int {
    let n = counts.len() as int;
    let cov = n * sum_ly(counts) - sum_l(n) * sum_y(counts);
    let var = n * sum_l2(n) - sum_l(n) * sum_l(n);
    if cov <= 0 {
        0
    } else {
        cov / var
    }
}

/// Twice `sum_l(n)` is `n*(n-1)`, six times `sum_l2(n)` is
/// `n*(n-1)*(2n-1)`.
proof fn lemma_level_sums(n: int)
    requires
        n >= 0,
    ensures
        2 * sum_l(n) == n * (n - 1),
        6 * sum_l2(n) == n * (n - 1) * (2 * n - 1),
    decreases n,
{
    if n > 0 {
        lemma_level_sums(n - 1);
        assert(sum_l(n) == sum_l(n - 1) + (n - 1));
        assert(sum_l2(n) == sum_l2(n - 1) + (n - 1) * (n - 1));
        let a = sum_l(n - 1);
        let b = sum_l2(n - 1);
        assert(2 * (a + (n - 1)) == n * (n - 1)) by (nonlinear_arith)
            requires
                2 * a == (n - 1) * (n - 2),
        ;
        assert(6 * (b + (n - 1) * (n - 1)) == n * (n - 1) * (2 * n - 1)) by (nonlinear_arith)
            requires
                6 * b == (n - 1) * (n - 2) * (2 * (n - 1) - 1),
        ;
        assert(2 * sum_l(n) == n * (n - 1));
        assert(6 * sum_l2(n) == n * (n - 1) * (2 * n - 1));
    } else {
        assert(sum_l(n) == 0);
        assert(sum_l2(n) == 0);
        assert(n * (n - 1) == 0) by (nonlinear_arith)
            requires
                n == 0,
        ;
        assert(n * (n - 1) * (2 * n - 1) == 0) by (nonlinear_arith)
            requires
                n == 0,
        ;
    }
}

/// With at least two levels the regression denominator is positive.
proof fn lemma_var_pos(n: int)
    requires
        n >= 2,
    ensures
        n * sum_l2(n) - sum_l(n) * sum_l(n) > 0,
{
    lemma_level_sums(n);
    assert(12 * (n * sum_l2(n) - sum_l(n) * sum_l(n)) == n * n * (n - 1) * (n + 1) && n * n * (n
        - 1) * (n + 1) > 0) by (nonlinear_arith)
        requires
            n >= 2 && 2 * sum_l(n) == n * (n - 1) && 6 * sum_l2(n) == n * (n - 1) * (2 * n - 1),
    ;
}

/// Least-squares estimate of the fractal dimension from the per-level
/// occupied-box counts, in fixed point.  Exactly the levels `0..len` are
/// regressed; fewer than two of them leave the slope undefined.
pub fn estimate_dimension(counts: &Vec<u64>) -> (r: Result<u64, AnalysisError>)
    requires
        counts@.len() <= 9,
        forall|i: int| 0 <= i < counts@.len() ==> 1 <= #[trigger] counts@[i] < 0x1_0000_0000,
    ensures
        r is Ok <==> counts@.len() >= 2,
        counts@.len() >= 2 ==> r == Ok::<u64, AnalysisError>(dim_fixed_spec(counts@) as u64),
        counts@.len() < 2 ==> r == Err::<u64, AnalysisError>(AnalysisError::Numerical),
{
    let n = counts.len();
    if n < 2 {
        return Err(AnalysisError::Numerical);
    }
    let mut sy: u64 = 0;
    let mut sly: u64 = 0;
    let mut sl: u64 = 0;
    let mut sl2: u64 = 0;
    let mut i: usize = 0;
    proof {
        assert(counts@.take(0) =~= Seq::<u64>::empty());
    }
    while i < n
        invariant
            i <= n == counts@.len() <= 9,
            forall|j: int| 0 <= j < counts@.len() ==> 1 <= #[trigger] counts@[j] < 0x1_0000_0000,
            sy as int == sum_y(counts@.take(i as int)),
            sly as int == sum_ly(counts@.take(i as int)),
            sl as int == sum_l(i as int),
            sl2 as int == sum_l2(i as int),
            sy as int <= 0x7F_0000 * (i as int),
            sly as int <= 0x3F8_0000 * (i as int),
            sl as int <= 36,
            sl2 as int <= 204,
        decreases n - i,
    {
        let y = log2_fixed_exec(counts[i]);
        proof {
            assert(counts@.take(i as int + 1).drop_last() =~= counts@.take(i as int));
            assert(counts@.take(i as int + 1).last() == counts@[i as int]);
            let ii = i as int;
            assert(ii * (y as int) <= 8 * 0x7F_0000 && ii * ii <= 64) by (nonlinear_arith)
                requires
                    0 <= ii <= 8 && 0 <= y as int <= 0x7F_0000,
            ;
            lemma_level_sums(ii + 1);
            assert((ii + 1) * ii <= 72 && (ii + 1) * ii * (2 * ii + 1) <= 1224 && 0 <= (ii + 1)
                * ii && 0 <= (ii + 1) * ii * (2 * ii + 1)) by (nonlinear_arith)
                requires
                    0 <= ii <= 8,
            ;
        }
        sy = sy + y;
        sly = sly + (i as u64) * y;
        sl = sl + (i as u64);
        sl2 = sl2 + (i as u64) * (i as u64);
        i += 1;
    }
    proof {
        assert(counts@.take(n as int) =~= counts@);
        lemma_var_pos(n as int);
        assert((n as int) * (sly as int) <= 9 * 599261184 && (sl as int) * (sy as int) <= 36
            * 74907648 && (n as int) * (sl2 as int) <= 9 * 204 && (sl as int) * (sl as int) <= 1296
            && 0 <= (n as int) * (sly as int) && 0 <= (sl as int) * (sy as int) && 0 <= (n as int)
            * (sl2 as int) && 0 <= (sl as int) * (sl as int)) by (nonlinear_arith)
            requires
                2 <= n as int <= 9 && 0 <= sly as int <= 599261184 && 0 <= sl as int <= 36 && 0
                    <= sy as int <= 74907648 && 0 <= sl2 as int <= 204,
        ;
    }
    let ni: i64 = n as i64;
    let cov: i64 = ni * (sly as i64) - (sl as i64) * (sy as i64);
    let var: i64 = ni * (sl2 as i64) - (sl as i64) * (sl as i64);
    if cov <= 0 {
        Ok(0)
    } else {
        proof {
            lemma_div_pos_is_pos(cov as int, var as int);
            lemma_div_nonincreasing(cov as int, var as int);
        }
        Ok((cov / var) as u64)
    }
}

/// Fixed-point gliding-box lacunarity at one level, from the box count,
/// the sum of squared masses and the total mass: `boxes * sq / total^2`,
/// the `variance/mean^2 + 1` form of the statistic.
pub open spec fn lacunarity_spec(boxes: int, sq: int, total: int) -> int {
    boxes * sq * (crate::FIXED_ONE as int) / (total * total)
}

/// Computes the fixed-point lacunarity of one level.
pub fn lacunarity_fixed(boxes: u64, sq: u64, total: u64) -> (r: u64)
    requires
        1 <= total < 0x1_0000_0000,
        boxes as int <= total as int,
        sq as int <= (total as int) * (total as int),
    ensures
        r as int == lacunarity_spec(boxes as int, sq as int, total as int),
{
    let bi = boxes as u128;
    let si = sq as u128;
    let ti = total as u128;
    proof {
        let b = boxes as int;
        let s = sq as int;
        let t = total as int;
        assert(0 <= b * s && 1 <= t * t && b * s * 0x10000 <= (t * t) * (t * 0x10000) && t * t
            <= 0xFFFF_FFFF_FFFF_FFFF && t * 0x10000 < 0xFFFF_FFFF_FFFF_FFFF && (t * t) * (t
            * 0x10000) < 0x1_0000_0000_0000_0000_0000_0000_0000_0000) by (nonlinear_arith)
            requires
                1 <= t < 0x1_0000_0000 && 0 <= b <= t && 0 <= s <= t * t,
        ;
        lemma_multiply_divide_le(b * s * 0x10000, t * t, t * 0x10000);
        lemma_div_pos_is_pos(b * s * 0x10000, t * t);
    }
    ((bi * si * (crate::FIXED_ONE as u128)) / (ti * ti)) as u64
}

} // verus!
