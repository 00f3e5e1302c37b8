//! Multiscale aggregator: one pass over a frame's sorted keys yields, for
//! every scale level, the number of occupied boxes and the mass statistics
//! that lacunarity needs.
//!
//! A scale level `l` in `0..=8` stands for boxes of edge `extent / 2^l`;
//! each level consumes the top `4*l` bits of a key, one bit per interleaved
//! field.  Two adjacent sorted keys lie in the same box at level `l` exactly
//! when those bits agree, so the number of boxes is one more than the number
//! of adjacent disagreements, and the lengths of the runs between
//! disagreements are the per-box masses.
use vstd::prelude::*;

verus! {

use vstd::arithmetic::power2::{pow2, lemma_pow2_adds, lemma_pow2_pos, lemma2_to64};
use vstd::arithmetic::div_mod::{lemma_div_denominator, lemma_basic_div};
use vstd::bits::lemma_u32_shr_is_div;

/// Finest scale level: each axis contributes 8 bits, so levels run 0..=8.
pub const MAX_LEVEL: usize = 8;

/// Box identifier of key `k` at scale level `l`: its top `4*l` bits.
pub open spec fn box_id(k: u32, l: int) -> int {
    (k as int) / (pow2((32 - 4 * l) as nat) as int)
}

/// Two keys fall in the same box at level `l`.
pub open spec fn same_box(a: u32, b: u32, l: int) -> bool {
    box_id(a, l) == box_id(b, l)
}

/// Number of adjacent pairs of `s` that straddle a box boundary at level
/// `l`.
pub open spec fn boundary_count(s: Seq<u32>, l: int) -> int
    decreases s.len(),
{
    if s.len() < 2 {
        0
    } else {
        boundary_count(s.drop_last(), l) + if same_box(s[s.len() - 2], s[s.len() - 1], l) {
            0int
        } else {
            1int
        }
    }
}

/// `N(l)`: the number of boxes at level `l` that hold at least one key of
/// the sorted sequence `s` — one more than the number of boundaries.
pub open spec fn box_count(s: Seq<u32>, l: int) -> int {
    if s.len() == 0 {
        0
    } else {
        1 + boundary_count(s, l)
    }
}

/// Per-box masses at level `l`: the lengths of the maximal runs of
/// same-box keys, in key order.
pub open spec fn box_masses(s: Seq<u32>, l: int) -> Seq<int>
    decreases s.len(),
{
    if s.len() == 0 {
        Seq::empty()
    } else if s.len() == 1 {
        seq![1]
    } else {
        let rest = box_masses(s.drop_last(), l);
        if same_box(s[s.len() - 2], s[s.len() - 1], l) {
            rest.update(rest.len() - 1, rest.last() + 1)
        } else {
            rest.push(1)
        }
    }
}

/// Sum of a sequence of integers.
pub open spec fn seq_sum(s: Seq<int>) -> int
    decreases s.len(),
{
    if s.len() == 0 {
        0
    } else {
        seq_sum(s.drop_last()) + s.last()
    }
}

/// Sum of squares of a sequence of integers.
pub open spec fn seq_sq_sum(s: Seq<int>) -> int
    decreases s.len(),
{
    if s.len() == 0 {
        0
    } else {
        seq_sq_sum(s.drop_last()) + s.last() * s.last()
    }
}

/// Boundary counts are never negative.
pub proof fn lemma_boundary_count_nonneg(s: Seq<u32>, l: int)
    ensures
        boundary_count(s, l) >= 0,
    decreases s.len(),
{
    if s.len() >= 2 {
        lemma_boundary_count_nonneg(s.drop_last(), l);
    }
}

/// There are as many masses as boxes, and every box holds at least one key.
pub proof fn lemma_box_masses_wf(s: Seq<u32>, l: int)
    ensures
        box_masses(s, l).len() == box_count(s, l),
        forall|i: int| 0 <= i < box_masses(s, l).len() ==> box_masses(s, l)[i] >= 1,
    decreases s.len(),
{
    lemma_boundary_count_nonneg(s, l);
    if s.len() <= 1 {
    } else {
        lemma_boundary_count_nonneg(s.drop_last(), l);
        lemma_box_masses_wf(s.drop_last(), l);
    }
}

/// Mass conservation: the per-box masses at any level add up to the number
/// of keys of the frame.
pub proof fn lemma_mass_conservation(s: Seq<u32>, l: int)
    ensures
        seq_sum(box_masses(s, l)) == s.len(),
    decreases s.len(),
{
    if s.len() == 0 {
    } else if s.len() == 1 {
        assert(box_masses(s, l) == seq![1int]);
        assert(seq![1int].drop_last() =~= Seq::<int>::empty());
        assert(seq_sum(Seq::<int>::empty()) == 0);
        assert(seq_sum(seq![1int]) == seq_sum(seq![1int].drop_last()) + 1);
    } else {
        let rest = box_masses(s.drop_last(), l);
        lemma_mass_conservation(s.drop_last(), l);
        lemma_box_masses_wf(s.drop_last(), l);
        lemma_boundary_count_nonneg(s.drop_last(), l);
        if same_box(s[s.len() - 2], s[s.len() - 1], l) {
            let m = rest.update(rest.len() - 1, rest.last() + 1);
            assert(box_masses(s, l) == m);
            assert(m.drop_last() =~= rest.drop_last());
            assert(m.last() == rest.last() + 1);
            assert(seq_sum(m) == seq_sum(m.drop_last()) + m.last());
            assert(seq_sum(rest) == seq_sum(rest.drop_last()) + rest.last());
        } else {
            assert(box_masses(s, l) == rest.push(1));
            assert(rest.push(1).drop_last() =~= rest);
            assert(seq_sum(rest.push(1)) == seq_sum(rest) + 1);
        }
    }
}

/// Sums of non-negative entries are non-negative.
pub proof fn lemma_seq_sum_nonneg(s: Seq<int>)
    requires
        forall|i: int| 0 <= i < s.len() ==> s[i] >= 0,
    ensures
        seq_sum(s) >= 0,
    decreases s.len(),
{
    if s.len() > 0 {
        lemma_seq_sum_nonneg(s.drop_last());
    }
}

/// For non-negative entries the sum of squares is at most the square of
/// the sum.
pub proof fn lemma_sq_sum_bound(s: Seq<int>)
    requires
        forall|i: int| 0 <= i < s.len() ==> s[i] >= 0,
    ensures
        0 <= seq_sq_sum(s) <= seq_sum(s) * seq_sum(s),
    decreases s.len(),
{
    if s.len() > 0 {
        lemma_sq_sum_bound(s.drop_last());
        lemma_seq_sum_nonneg(s.drop_last());
        let a = seq_sum(s.drop_last());
        let b = s.last();
        assert(a * a + b * b <= (a + b) * (a + b)) by (nonlinear_arith)
            requires
                a >= 0 && b >= 0,
        ;
    }
}

/// A sequence whose entries are all at least one sums to at least its
/// length.
pub proof fn lemma_seq_sum_ge_len(s: Seq<int>)
    requires
        forall|i: int| 0 <= i < s.len() ==> s[i] >= 1,
    ensures
        seq_sum(s) >= s.len(),
    decreases s.len(),
{
    if s.len() > 0 {
        lemma_seq_sum_ge_len(s.drop_last());
    }
}

/// There are never more boxes than keys.
pub proof fn lemma_box_count_le_len(s: Seq<u32>, l: int)
    ensures
        0 <= box_count(s, l) <= s.len(),
{
    lemma_boundary_count_nonneg(s, l);
    lemma_box_masses_wf(s, l);
    lemma_mass_conservation(s, l);
    lemma_seq_sum_ge_len(box_masses(s, l));
}

/// Keys in the same box at a fine level are in the same box at every
/// coarser level: the coarser box identifier is a prefix of the finer one.
pub proof fn lemma_same_box_coarser(a: u32, b: u32, l1: int, l2: int)
    requires
        0 <= l1 <= l2 <= 8,
        same_box(a, b, l2),
    ensures
        same_box(a, b, l1),
{
    let p2 = pow2((32 - 4 * l2) as nat) as int;
    let q = pow2((4 * l2 - 4 * l1) as nat) as int;
    lemma_pow2_pos((32 - 4 * l2) as nat);
    lemma_pow2_pos((4 * l2 - 4 * l1) as nat);
    lemma_pow2_adds((32 - 4 * l2) as nat, (4 * l2 - 4 * l1) as nat);
    lemma_div_denominator(a as int, p2, q);
    lemma_div_denominator(b as int, p2, q);
}

/// Coarser levels never have more boundaries.
proof fn lemma_boundary_count_monotone(s: Seq<u32>, l1: int, l2: int)
    requires
        0 <= l1 <= l2 <= 8,
    ensures
        0 <= boundary_count(s, l1) <= boundary_count(s, l2),
    decreases s.len(),
{
    if s.len() >= 2 {
        lemma_boundary_count_monotone(s.drop_last(), l1, l2);
        if same_box(s[s.len() - 2], s[s.len() - 1], l2) {
            lemma_same_box_coarser(s[s.len() - 2], s[s.len() - 1], l1, l2);
        }
    }
}

/// Scale monotonicity: coarser boxes are never more numerous.  `N(l)` is
/// non-increasing as the level decreases, for every key sequence.
pub proof fn lemma_box_count_monotone(s: Seq<u32>, l1: int, l2: int)
    requires
        0 <= l1 <= l2 <= 8,
    ensures
        box_count(s, l1) <= box_count(s, l2),
{
    lemma_boundary_count_monotone(s, l1, l2);
}

/// At level 0 no adjacent pair straddles a boundary: every key's box
/// identifier is 0.
proof fn lemma_boundary_count_level0(s: Seq<u32>)
    ensures
        boundary_count(s, 0) == 0,
    decreases s.len(),
{
    if s.len() >= 2 {
        lemma_boundary_count_level0(s.drop_last());
        let a = s[s.len() - 2];
        let b = s[s.len() - 1];
        lemma2_to64();
        lemma_pow2_adds(16, 16);
        lemma_basic_div(a as int, pow2(32) as int);
        lemma_basic_div(b as int, pow2(32) as int);
        assert(same_box(a, b, 0));
    }
}

/// The coarsest scale sees the whole grid as a single box.
pub proof fn lemma_level0_single_box(s: Seq<u32>)
    requires
        s.len() >= 1,
    ensures
        box_count(s, 0) == 1,
{
    lemma_boundary_count_level0(s);
}

/// Tests whether two keys share a box at level `l`.
pub fn same_box_exec(a: u32, b: u32, l: usize) -> (r: bool)
    requires
        l <= 8,
    ensures
        r == same_box(a, b, l as int),
{
    if l == 0 {
        proof {
            lemma2_to64();
            lemma_pow2_adds(16, 16);
            lemma_basic_div(a as int, pow2(32) as int);
            lemma_basic_div(b as int, pow2(32) as int);
        }
        true
    } else {
        let sh: u32 = (32 - 4 * l) as u32;
        proof {
            lemma_u32_shr_is_div(a, sh);
            lemma_u32_shr_is_div(b, sh);
        }
        (a >> sh) == (b >> sh)
    }
}

/// How `box_masses` grows when one key is appended.
proof fn lemma_box_masses_push(s: Seq<u32>, v: u32, l: int)
    requires
        s.len() >= 1,
    ensures
        box_masses(s.push(v), l) == if same_box(s.last(), v, l) {
            let m = box_masses(s, l);
            m.update(m.len() - 1, m.last() + 1)
        } else {
            box_masses(s, l).push(1)
        },
{
    let t = s.push(v);
    assert(t.drop_last() =~= s);
    assert(t[t.len() - 2] == s.last());
    assert(t[t.len() - 1] == v);
}

/// One pass over a frame's sorted keys at one level: returns the box count
/// `N(l)` and the sum of squared per-box masses.
pub fn level_stats(keys: &Vec<u32>, l: usize) -> (r: (u64, u64))
    requires
        l <= 8,
        keys@.len() < 0x1_0000_0000,
    ensures
        r.0 as int == box_count(keys@, l as int),
        r.1 as int == seq_sq_sum(box_masses(keys@, l as int)),
{
    let n = keys.len();
    if n == 0 {
        proof {
            assert(box_masses(keys@, l as int) =~= Seq::<int>::empty());
            assert(seq_sq_sum(Seq::<int>::empty()) == 0);
        }
        return (0, 0);
    }
    let mut cnt: u64 = 1;
    let mut run: u64 = 1;
    let mut sq: u64 = 0;
    let mut i: usize = 1;
    proof {
        assert(keys@.take(1).drop_last() =~= Seq::<u32>::empty());
        assert(box_masses(keys@.take(1), l as int) =~= seq![1int]);
        assert(seq![1int].drop_last() =~= Seq::<int>::empty());
        assert(seq_sq_sum(Seq::<int>::empty()) == 0);
        assert(seq_sq_sum(seq![1int]) == seq_sq_sum(seq![1int].drop_last()) + 1);
        assert(box_masses(keys@.take(1), l as int).last() == 1);
    }
    while i < n
        invariant
            1 <= i <= n == keys@.len() < 0x1_0000_0000,
            l <= 8,
            cnt as int == box_masses(keys@.take(i as int), l as int).len(),
            run as int == box_masses(keys@.take(i as int), l as int).last(),
            sq as int + (run as int) * (run as int) == seq_sq_sum(
                box_masses(keys@.take(i as int), l as int),
            ),
            run as int <= i as int,
            cnt as int <= i as int,
            sq as int + (run as int) * (run as int) <= (i as int) * (i as int),
        decreases n - i,
    {
        let ghost pre = keys@.take(i as int);
        let ghost m0 = box_masses(pre, l as int);
        let prev = keys[i - 1];
        let cur = keys[i];
        proof {
            assert(keys@.take(i as int + 1) =~= pre.push(cur));
            assert(pre.last() == prev);
            lemma_box_masses_push(pre, cur, l as int);
            lemma_box_masses_wf(pre, l as int);
            lemma_boundary_count_nonneg(pre, l as int);
            assert((i as int + 1) * (i as int + 1) < 0x1_0000_0000_0000_0000)
                by (nonlinear_arith)
                requires
                    0 <= i as int && i as int + 1 < 0x1_0000_0000,
            ;
        }
        let ghost m1 = box_masses(keys@.take(i as int + 1), l as int);
        if same_box_exec(prev, cur, l) {
            proof {
                assert(m1 == m0.update(m0.len() - 1, m0.last() + 1));
                assert(m1.drop_last() =~= m0.drop_last());
                lemma_mass_conservation(keys@.take(i as int + 1), l as int);
                lemma_box_masses_wf(keys@.take(i as int + 1), l as int);
                lemma_sq_sum_bound(m1);
                lemma_seq_sum_nonneg(m1.drop_last());
            }
            run = run + 1;
        } else {
            proof {
                assert(m1 == m0.push(1));
                assert(m1.drop_last() =~= m0);
                lemma_mass_conservation(keys@.take(i as int + 1), l as int);
                lemma_box_masses_wf(keys@.take(i as int + 1), l as int);
                lemma_sq_sum_bound(m1);
                assert((i as int) * (i as int) < 0x1_0000_0000_0000_0000) by (nonlinear_arith)
                    requires
                        0 <= i as int && (i as int) < 0x1_0000_0000,
                ;
                assert(sq as int + (run as int) * (run as int) < 0x1_0000_0000_0000_0000);
            }
            sq = sq + run * run;
            cnt = cnt + 1;
            run = 1;
        }
        i += 1;
    }
    proof {
        assert(keys@.take(n as int) =~= keys@);
        lemma_box_masses_wf(keys@, l as int);
        assert((n as int) * (n as int) < 0x1_0000_0000_0000_0000) by (nonlinear_arith)
            requires
                0 <= n as int && (n as int) < 0x1_0000_0000,
        ;
        assert(sq as int + (run as int) * (run as int) < 0x1_0000_0000_0000_0000);
    }
    (cnt, sq + run * run)
}

/// The occupancy test a key carries: bit 28 holds the top bit of the
/// occupancy byte, so it is set exactly for keys of occupied voxels.
pub open spec fn occupied_key(k: u32) -> bool {
    (k as int) / (pow2(28) as int) % 2 == 1
}

/// Spec-level predicate form of [`occupied_key`] for `Seq::filter`.
pub open spec fn occupied_pred() -> spec_fn(u32) -> bool {
    |k: u32| occupied_key(k)
}

/// The subsequence of keys that belong to occupied voxels, in order.
/// Applied to sorted keys it is itself sorted, since filtering keeps order.
pub fn filter_occupied(keys: &Vec<u32>) -> (r: Vec<u32>)
    ensures
        r@ == keys@.filter(occupied_pred()),
{
    let mut r: Vec<u32> = Vec::new();
    let mut i: usize = 0;
    proof {
        reveal(Seq::filter);
        assert(keys@.take(0).filter(occupied_pred()) =~= Seq::<u32>::empty());
    }
    while i < keys.len()
        invariant
            i <= keys@.len(),
            r@ == keys@.take(i as int).filter(occupied_pred()),
        decreases keys@.len() - i,
    {
        let k = keys[i];
        proof {
            assert(keys@.take(i as int + 1) =~= keys@.take(i as int).push(k));
            lemma_u32_shr_is_div(k, 28);
            assert((k >> 28u32) & 1 == (k >> 28u32) % 2) by (bit_vector);
            keys@.take(i as int).lemma_filter_push(k, occupied_pred());
            assert(keys@.take(i as int + 1).filter(occupied_pred()) == keys@.take(
                i as int,
            ).push(k).filter(occupied_pred()));
            assert(occupied_pred()(k) == occupied_key(k));
        }
        if (k >> 28u32) & 1 == 1 {
            proof {
                assert(occupied_key(k));
            }
            r.push(k);
        } else {
            proof {
                assert(!occupied_key(k));
            }
        }
        i += 1;
    }
    proof {
        assert(keys@.take(keys@.len() as int) =~= keys@);
    }
    r
}

} // verus!
