//! Properties that relate several runs of the kernels.

use vstd::prelude::*;
use crate::network::{lanes_max, lanes_min, network_rounds, rotation_merge};
use crate::order::{lemma_reference_sort, lemma_sorted_is_reference, reference_sort};

verus! {

broadcast use vstd::seq_lib::group_to_multiset_ensures;

/// Sorting is idempotent: `sort` run on what `sort` produced leaves it as
/// it is, since both runs give the reference sort of their input.
pub proof fn lemma_sort_idempotent(s: Seq<u32>, once: Seq<u32>, twice: Seq<u32>)
    requires
        once == reference_sort(s),
        twice == reference_sort(once),
    ensures
        twice == once,
{
    lemma_reference_sort(s);
    lemma_sorted_is_reference(once, once);
}

/// The merge network is symmetric in its two inputs: `merge_sort_u32x16x2`
/// called on `(a, b)` and on `(b, a)` leaves the same two vectors, whether or
/// not the inputs are sorted, since its first step keeps only the lane-wise
/// minima and maxima.
pub proof fn lemma_merge_symmetric(a: Seq<u32>, b: Seq<u32>)
    requires
        a.len() == b.len(),
    ensures
        rotation_merge(a, b) == rotation_merge(b, a),
{
    lemma_rounds_symmetric(a, b, (a.len() - 1) as nat);
}

proof fn lemma_rounds_symmetric(a: Seq<u32>, b: Seq<u32>, k: nat)
    requires
        a.len() == b.len(),
    ensures
        network_rounds(a, b, k) == network_rounds(b, a, k),
    decreases k,
{
    if k == 0 {
        assert(lanes_min(a, b) =~= lanes_min(b, a));
        assert(lanes_max(a, b) =~= lanes_max(b, a));
    } else {
        lemma_rounds_symmetric(a, b, (k - 1) as nat);
    }
}

} // verus!
