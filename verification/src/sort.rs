//! Sorting of one frame's keys into ascending numeric order, the order in
//! which the multiscale aggregator walks them.
use vstd::prelude::*;

verus! {

use vstd::relations::{sorted_by, total_ordering};
use vstd::seq_lib::{lemma_sorted_unique, to_multiset_update};

/// The total order by which keys are sorted: plain numeric order.
pub open spec fn key_le() -> spec_fn(u32, u32) -> bool {
    |a: u32, b: u32| a <= b
}

/// The ascending form of a key sequence.
pub open spec fn sorted_keys(s: Seq<u32>) -> Seq<u32> {
    s.sort_by(key_le())
}

/// Numeric order on `u32` is a total order.
pub proof fn lemma_key_le_total()
    ensures
        total_ordering(key_le()),
{
}

/// Sorts the keys in place into ascending numeric order.
pub fn sort_keys(v: &mut Vec<u32>)
    ensures
        final(v)@ == sorted_keys(old(v)@),
        final(v)@.len() == old(v)@.len(),
        sorted_by(final(v)@, key_le()),
        final(v)@.to_multiset() == old(v)@.to_multiset(),
{
    let ghost orig = v@;
    let mut i: usize = 1;
    while i < v.len()
        invariant
            1 <= i,
            v@.len() == orig.len(),
            v@.to_multiset() == orig.to_multiset(),
            forall|p: int, q: int| 0 <= p < q < i && q < v@.len() ==> v@[p] <= v@[q],
        decreases v@.len() - i,
    {
        let mut j: usize = i;
        while j > 0 && v[j - 1] > v[j]
            invariant
                0 <= j <= i < v@.len(),
                v@.len() == orig.len(),
                v@.to_multiset() == orig.to_multiset(),
                forall|p: int, q: int| 0 <= p < q <= i && q != j ==> v@[p] <= v@[q],
                forall|q: int| j < q <= i ==> v@[j as int] <= v@[q],
            decreases j,
        {
            let ghost s0 = v@;
            let a = v[j - 1];
            let b = v[j];
            v.set(j - 1, b);
            v.set(j, a);
            proof {
                broadcast use vstd::multiset::group_multiset_axioms;
                broadcast use vstd::seq_lib::group_to_multiset_ensures;

                assert(s0.contains(a)) by {
                    assert(0 <= j - 1 < s0.len() && s0[j - 1] == a);
                }
                assert(s0.to_multiset().count(a) > 0);
                to_multiset_update(s0, j - 1, b);
                to_multiset_update(s0.update(j - 1, b), j as int, a);
                assert(v@.to_multiset() =~= s0.to_multiset());
            }
            j -= 1;
        }
        i += 1;
    }
    proof {
        lemma_key_le_total();
        orig.lemma_sort_by_ensures(key_le());
        assert(sorted_by(v@, key_le()));
        lemma_sorted_unique(v@, orig.sort_by(key_le()), key_le());
        assert(v@ =~= sorted_keys(orig));
    }
}

} // verus!
