//! Sorting whole sequences whose length is a multiple of 16: sorting-network
//! blocks first, then passes that merge neighbouring runs into runs twice as
//! long, going back and forth between the buffer and a scratch buffer.

use vstd::prelude::*;
use crate::merge::{copy_from, copy_into, merge_in_place, overwritten};
use crate::network::{sort_u32x16, sort_u32x32};
use crate::order::{
    lemma_one_run, lemma_run_piece_sorted, lemma_runs_extend, lemma_sorted_is_reference,
    lemma_sorted_runs, lemma_window_multiset, reference_sort, runs_sorted, sorted,
};

verus! {

broadcast use vstd::seq_lib::group_to_multiset_ensures;

/// Sort `v[at..at + 32]` with the 32-lane network.
fn sort_block32(v: &mut [u32], at: usize)
    requires
        at + 32 <= old(v)@.len(),
    ensures
        overwritten(old(v)@, final(v)@, at as int, final(v)@.subrange(at as int, at + 32)),
        sorted(final(v)@.subrange(at as int, at + 32)),
        final(v)@.subrange(at as int, at + 32).to_multiset() == old(v)@.subrange(at as int, at + 32).to_multiset(),
{
    let mut blk = [0u32; 32];
    copy_from(v, at, &mut blk);
    sort_u32x32(&mut blk);
    copy_into(&blk, v, at);
}

/// Sort `v[at..at + 16]` with the 16-lane network.
fn sort_block16(v: &mut [u32], at: usize)
    requires
        at + 16 <= old(v)@.len(),
    ensures
        overwritten(old(v)@, final(v)@, at as int, final(v)@.subrange(at as int, at + 16)),
        sorted(final(v)@.subrange(at as int, at + 16)),
        final(v)@.subrange(at as int, at + 16).to_multiset() == old(v)@.subrange(at as int, at + 16).to_multiset(),
{
    let mut blk = [0u32; 16];
    copy_from(v, at, &mut blk);
    sort_u32x16(&mut blk);
    copy_into(&blk, v, at);
}

/// One doubling pass: merge each pair of neighbouring runs of `w` values of
/// `cur` into a run of `2w` values of `nxt`; a last run without a partner is
/// copied as it is.
fn merge_pass(cur: &[u32], nxt: &mut [u32], w: usize)
    requires
        old(nxt)@.len() == cur@.len(),
        cur@.len() % 16 == 0,
        16 <= w,
        w % 16 == 0,
        runs_sorted(cur@, w as int),
    ensures
        final(nxt)@.len() == cur@.len(),
        runs_sorted(final(nxt)@, 2 * w),
        final(nxt)@.to_multiset() == cur@.to_multiset(),
{
    let n: usize = cur.len();
    let mut b: usize = 0;
    let ghost mut m: int = 0;
    assert(nxt@.subrange(0, 0) =~= Seq::<u32>::empty());
    assert(cur@.subrange(0, 0) =~= Seq::<u32>::empty());
    while b < n
        invariant
            n == cur@.len(),
            n == nxt@.len(),
            n % 16 == 0,
            16 <= w,
            w % 16 == 0,
            runs_sorted(cur@, w as int),
            b <= n,
            0 <= m,
            b == m * (2 * w) || b == n,
            b % 16 == 0,
            runs_sorted(nxt@.subrange(0, b as int), 2 * w),
            nxt@.subrange(0, b as int).to_multiset() == cur@.subrange(0, b as int).to_multiset(),
        decreases n - b,
    {
        let ghost before = nxt@;
        let e: usize = if n - b > w && n - b - w >= w { b + 2 * w } else { n };
        proof {
            assert(b == (2 * m) * w) by (nonlinear_arith)
                requires
                    b == m * (2 * w),
            ;
            assert(b + w == (2 * m + 1) * w) by (nonlinear_arith)
                requires
                    b == m * (2 * w),
            ;
        }
        if n - b > w {
            proof {
                lemma_run_piece_sorted(cur@, w as int, 2 * m, b as int, b + w);
                lemma_run_piece_sorted(cur@, w as int, 2 * m + 1, b + w, e as int);
            }
            copy_into(&cur[b + w..e], nxt, b + w);
            proof {
                assert(nxt@.subrange(b + w, e as int) == cur@.subrange(b + w, e as int));
            }
            merge_in_place(&cur[b..b + w], nxt, b, e - b - w);
            proof {
                assert(cur@.subrange(b as int, b + w) + cur@.subrange(b + w, e as int) =~= cur@.subrange(b as int, e as int));
            }
        } else {
            proof {
                lemma_run_piece_sorted(cur@, w as int, 2 * m, b as int, e as int);
            }
            copy_into(&cur[b..e], nxt, b);
        }
        proof {
            let block = nxt@.subrange(b as int, e as int);
            assert(nxt@.subrange(0, b as int) =~= before.subrange(0, b as int));
            lemma_runs_extend(nxt@.subrange(0, b as int), block, 2 * w, m);
            assert(nxt@.subrange(0, e as int) =~= nxt@.subrange(0, b as int) + block);
            assert(cur@.subrange(0, e as int) =~= cur@.subrange(0, b as int) + cur@.subrange(b as int, e as int));
            vstd::seq_lib::lemma_multiset_commutative(nxt@.subrange(0, b as int), block);
            vstd::seq_lib::lemma_multiset_commutative(cur@.subrange(0, b as int), cur@.subrange(b as int, e as int));
            assert((m + 1) * (2 * w) == b + 2 * w) by (nonlinear_arith)
                requires
                    b == m * (2 * w),
            ;
        }
        b = e;
        proof {
            m = m + 1;
        }
    }
    assert(nxt@.subrange(0, n as int) =~= nxt@);
    assert(cur@.subrange(0, n as int) =~= cur@);
}

/// Sort the values of `nums` (a positive multiple of 16 long), with the
/// first `nums.len()` values of `scratch` as the other buffer of the passes.
/// The sorted values end in that prefix of `scratch` when `into_temp` holds,
/// in `nums` otherwise. A single block of 16 is sorted where it stands.
fn sort_round1(nums: &mut [u32], scratch: &mut [u32], into_temp: bool)
    requires
        old(scratch)@.len() >= old(nums)@.len(),
        old(nums)@.len() >= 16,
        old(nums)@.len() % 16 == 0,
        old(nums)@.len() == 16 ==> !into_temp,
    ensures
        final(nums)@.len() == old(nums)@.len(),
        final(scratch)@.len() == old(scratch)@.len(),
        into_temp ==> sorted(final(scratch)@.subrange(0, old(nums)@.len() as int))
            && final(scratch)@.subrange(0, old(nums)@.len() as int).to_multiset() == old(nums)@.to_multiset(),
        !into_temp ==> sorted(final(nums)@) && final(nums)@.to_multiset() == old(nums)@.to_multiset(),
{
    let ghost v0 = nums@;
    let n: usize = nums.len();
    let (temp, rest) = scratch.split_at_mut(n);
    // sort each block of 32 values, and a last block of 16, with the networks
    let mut b: usize = 0;
    let ghost mut m: int = 0;
    assert(nums@.subrange(0, 0) =~= Seq::<u32>::empty());
    while n - b >= 32
        invariant
            n == nums@.len(),
            n == v0.len(),
            n % 16 == 0,
            b <= n,
            0 <= m,
            b == m * 32,
            runs_sorted(nums@.subrange(0, b as int), 32),
            forall|k: int| b <= k < n ==> nums@[k] == v0[k],
            nums@.to_multiset() == v0.to_multiset(),
        decreases n - b,
    {
        let ghost before = nums@;
        sort_block32(nums, b);
        proof {
            let block = nums@.subrange(b as int, b + 32);
            assert(nums@.subrange(0, b as int) =~= before.subrange(0, b as int));
            lemma_runs_extend(nums@.subrange(0, b as int), block, 32, m);
            assert(nums@.subrange(0, b + 32) =~= nums@.subrange(0, b as int) + block);
            lemma_window_multiset(before, nums@, b as int, b + 32);
        }
        b = b + 32;
        proof {
            m = m + 1;
        }
    }
    if b < n {
        let ghost before = nums@;
        sort_block16(nums, b);
        proof {
            let block = nums@.subrange(b as int, b + 16);
            assert(nums@.subrange(0, b as int) =~= before.subrange(0, b as int));
            lemma_runs_extend(nums@.subrange(0, b as int), block, 32, m);
            assert(nums@.subrange(0, b + 16) =~= nums@.subrange(0, b as int) + block);
            lemma_window_multiset(before, nums@, b as int, b + 16);
            assert(b + 16 == n);
            assert(nums@.subrange(0, n as int) =~= nums@);
        }
    } else {
        assert(nums@.subrange(0, n as int) =~= nums@);
    }
    // double the sorted runs until one covers everything
    let mut w: usize = 32;
    let mut in_temp = false;
    while w < n
        invariant
            n == nums@.len(),
            n == temp@.len(),
            n % 16 == 0,
            16 <= w,
            w % 16 == 0,
            in_temp ==> runs_sorted(temp@, w as int) && temp@.to_multiset() == v0.to_multiset(),
            !in_temp ==> runs_sorted(nums@, w as int) && nums@.to_multiset() == v0.to_multiset(),
        decreases n - w,
    {
        if in_temp {
            merge_pass(temp, nums, w);
        } else {
            merge_pass(nums, temp, w);
        }
        in_temp = !in_temp;
        if w >= n - w {
            proof {
                if in_temp {
                    lemma_one_run(temp@, 2 * w);
                    lemma_sorted_runs(temp@, n as int);
                } else {
                    lemma_one_run(nums@, 2 * w);
                    lemma_sorted_runs(nums@, n as int);
                }
            }
            w = n;
        } else {
            w = 2 * w;
        }
    }
    if into_temp && !in_temp {
        copy_into(nums, temp, 0);
        assert(temp@ =~= temp@.subrange(0, n as int));
    } else if !into_temp && in_temp {
        copy_into(temp, nums, 0);
        assert(nums@ =~= nums@.subrange(0, n as int));
    }
    proof {
        assert(has_resolved(temp));
        assert(has_resolved(rest));
        assert(final(scratch)@.subrange(0, n as int) =~= temp@);
        if into_temp {
            lemma_one_run(temp@, w as int);
        } else {
            lemma_one_run(nums@, w as int);
        }
    }
}

/// Sort `nums`, whose length is a positive multiple of 16, in place. A length of 16
/// or 32 goes straight to the network; otherwise both halves (the first
/// taking the odd block) are sorted by doubling passes and then merged.
pub fn sort(nums: &mut [u32])
    requires
        old(nums)@.len() > 0,
        old(nums)@.len() % 16 == 0,
    ensures
        final(nums)@.len() == old(nums)@.len(),
        sorted(final(nums)@),
        final(nums)@.to_multiset() == old(nums)@.to_multiset(),
        final(nums)@ == reference_sort(old(nums)@),
{
    let n: usize = nums.len();
    if n == 16 {
        sort_block16(nums, 0);
        assert(nums@.subrange(0, 16) =~= nums@);
        assert(old(nums)@.subrange(0, 16) =~= old(nums)@);
        proof {
            lemma_sorted_is_reference(old(nums)@, nums@);
        }
        return;
    }
    if n == 32 {
        sort_block32(nums, 0);
        assert(nums@.subrange(0, 32) =~= nums@);
        assert(old(nums)@.subrange(0, 32) =~= old(nums)@);
        proof {
            lemma_sorted_is_reference(old(nums)@, nums@);
        }
        return;
    }
    let ghost v0 = nums@;
    let len1: usize = (n / 16 + 1) / 2 * 16;
    let len2: usize = n - len1;
    // one scratch buffer for the first half; the second half is sorted in
    // place with the first half's region as its scratch
    let mut temp: Vec<u32> = vec![0u32; len1];
    let ghost b2: Seq<u32>;
    {
        let (p1, p2) = nums.split_at_mut(len1);
        assert(p1@ == v0.subrange(0, len1 as int));
        assert(p2@ == v0.subrange(len1 as int, n as int));
        sort_round1(p1, temp.as_mut_slice(), true);
        sort_round1(p2, p1, false);
        proof {
            b2 = p2@;
        }
    }
    proof {
        assert(temp@.subrange(0, len1 as int) =~= temp@);
        assert(nums@.subrange(len1 as int, n as int) =~= b2);
        assert(v0 =~= v0.subrange(0, len1 as int) + v0.subrange(len1 as int, n as int));
        vstd::seq_lib::lemma_multiset_commutative(v0.subrange(0, len1 as int), v0.subrange(len1 as int, n as int));
        vstd::seq_lib::lemma_multiset_commutative(temp@, b2);
    }
    merge_in_place(temp.as_slice(), nums, 0, len2);
    assert(nums@.subrange(0, n as int) =~= nums@);
    proof {
        lemma_sorted_is_reference(v0, nums@);
    }
}

} // verus!
