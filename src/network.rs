//! Fixed-width sorting networks.
//!
//! The building block merges two sorted runs of `g` lanes, `lo` and `hi`,
//! lying side by side in a buffer: one compare-exchange of lane `i` of `lo`
//! against lane `i` of `hi`, then `g - 1` rounds that rotate `lo` left by one
//! lane and compare-exchange again, then a last rotation of `lo`. Afterwards
//! `lo` holds the `g` smallest values and `hi` the `g` largest, both in order.

use vstd::prelude::*;
use crate::merge::{copy_from, copy_into};
use crate::order::{
    lane_max, lane_min, lemma_one_run, lemma_rotate_prefix_multiset, lemma_run_piece_sorted,
    lemma_runs_extend, lemma_runs_of_one, lemma_sorted_is_reference, lemma_swap_multiset,
    lemma_window_multiset, reference_sort, runs_sorted, sorted,
};

verus! {

broadcast use vstd::seq_lib::group_to_multiset_ensures;

/// The low run `v[base..base + g]`.
pub open spec fn lo_run(v: Seq<u32>, base: int, g: int) -> Seq<u32> {
    v.subrange(base, base + g)
}

/// The high run `v[base + g..base + 2g]`.
pub open spec fn hi_run(v: Seq<u32>, base: int, g: int) -> Seq<u32> {
    v.subrange(base + g, base + 2 * g)
}

/// Lane that follows lane `i` when `g` lanes are rotated left by one.
pub open spec fn next_lane(i: int, g: int) -> int {
    if i + 1 < g { i + 1 } else { 0 }
}

/// After `s` rotations, lane `j` of the unrotated run sits at lane
/// `lane_after(j, s, g)`.
pub open spec fn lane_after(j: int, s: int, g: int) -> int {
    if j >= s { j - s } else { j + g - s }
}

/// The run `lo` seen as it was before `s` left rotations.
pub open spec fn unrotated(lo: Seq<u32>, s: int) -> Seq<u32> {
    Seq::new(lo.len(), |j: int| lo[lane_after(j, s, lo.len() as int)])
}

/// State of the rotation merge of sorted runs `a` and `b` after `s` rounds:
/// `u` (the low run, unrotated) and `h` (the high run) are in order, every
/// low value at most `s` lanes after a high lane is at most that high value,
/// and no low lane exceeds the input lanes it started from.
pub open spec fn merge_state(u: Seq<u32>, h: Seq<u32>, a: Seq<u32>, b: Seq<u32>, s: int) -> bool {
    let g = u.len();
    &&& h.len() == g
    &&& a.len() == g
    &&& b.len() == g
    &&& sorted(u)
    &&& sorted(h)
    &&& forall|i: int, j: int| 0 <= i < g && 0 <= j < g && j <= i + s ==> u[j] <= h[i]
    &&& forall|j: int| 0 <= j < g ==> u[j] <= a[j] && u[j] <= b[j]
}

/// Lane-wise minimum of two runs.
pub open spec fn lanes_min(a: Seq<u32>, b: Seq<u32>) -> Seq<u32> {
    Seq::new(a.len(), |i: int| lane_min(a[i], b[i]))
}

/// Lane-wise maximum of two runs.
pub open spec fn lanes_max(a: Seq<u32>, b: Seq<u32>) -> Seq<u32> {
    Seq::new(a.len(), |i: int| lane_max(a[i], b[i]))
}

/// A run rotated left by one lane.
pub open spec fn rotated(lo: Seq<u32>) -> Seq<u32> {
    Seq::new(lo.len(), |i: int| lo[next_lane(i, lo.len() as int)])
}

/// The low and high runs of the network on `a` and `b` after the first
/// compare-exchange and `k` rounds of rotation and compare-exchange.
pub open spec fn network_rounds(a: Seq<u32>, b: Seq<u32>, k: nat) -> (Seq<u32>, Seq<u32>)
    decreases k,
{
    if k == 0 {
        (lanes_min(a, b), lanes_max(a, b))
    } else {
        let (lo, hi) = network_rounds(a, b, (k - 1) as nat);
        (lanes_min(rotated(lo), hi), lanes_max(rotated(lo), hi))
    }
}

/// What the rotation network leaves in the low and high runs, given runs
/// `a` and `b` of the same number of lanes.
pub open spec fn rotation_merge(a: Seq<u32>, b: Seq<u32>) -> (Seq<u32>, Seq<u32>) {
    let (lo, hi) = network_rounds(a, b, (a.len() - 1) as nat);
    (rotated(lo), hi)
}

proof fn lemma_first_round(a: Seq<u32>, b: Seq<u32>, lo: Seq<u32>, hi: Seq<u32>)
    requires
        sorted(a),
        sorted(b),
        a.len() == b.len(),
        lo.len() == a.len(),
        hi.len() == a.len(),
        forall|i: int| 0 <= i < a.len() ==> lo[i] == lane_min(a[i], b[i]) && hi[i] == lane_max(a[i], b[i]),
    ensures
        merge_state(unrotated(lo, 0), hi, a, b, 0),
{
    assert(unrotated(lo, 0) =~= lo);
}

proof fn lemma_next_round(
    lo: Seq<u32>,
    h: Seq<u32>,
    a: Seq<u32>,
    b: Seq<u32>,
    t: int,
    lo2: Seq<u32>,
    h2: Seq<u32>,
)
    requires
        merge_state(unrotated(lo, t - 1), h, a, b, t - 1),
        1 <= t < lo.len(),
        lo2.len() == lo.len(),
        h2.len() == lo.len(),
        forall|i: int| 0 <= i < lo.len() ==> {
            let x = #[trigger] lo[next_lane(i, lo.len() as int)];
            lo2[i] == lane_min(x, h[i]) && h2[i] == lane_max(x, h[i])
        },
    ensures
        merge_state(unrotated(lo2, t), h2, a, b, t),
{
    let g = lo.len() as int;
    let u = unrotated(lo, t - 1);
    let u2 = unrotated(lo2, t);
    // the low value that high lane i meets in this round
    assert forall|i: int| 0 <= i < g implies #[trigger] lo[next_lane(i, g)] == (if i + t < g { u[i + t] } else { u[i + t - g] }) by {
        if i + t < g {
            assert(lane_after(i + t, t - 1, g) == i + 1);
        } else {
            assert(lane_after(i + t - g, t - 1, g) == next_lane(i, g));
        }
    }
    // lanes that wrap around compare a low value with a larger high value
    assert forall|i: int| 0 <= i < g && i + t >= g implies u[i + t - g] <= #[trigger] h[i] by {
        assert(lo[next_lane(i, g)] == u[i + t - g]);
    }
    assert forall|j: int| 0 <= j < g implies #[trigger] u2[j] == (if j >= t { lane_min(u[j], h[j - t]) } else { u[j] }) by {
        let i = lane_after(j, t, g);
        assert(lo[next_lane(i, g)] == u[j]);
    }
    assert forall|i: int| 0 <= i < g implies #[trigger] h2[i] == (if i + t < g { lane_max(u[i + t], h[i]) } else { h[i] }) by {
        assert(lo[next_lane(i, g)] == (if i + t < g { u[i + t] } else { u[i + t - g] }));
    }
    assert(sorted(u2)) by {
        assert forall|j1: int, j2: int| 0 <= j1 <= j2 < g implies u2[j1] <= u2[j2] by {
            assert(u2[j1] == (if j1 >= t { lane_min(u[j1], h[j1 - t]) } else { u[j1] }));
            assert(u2[j2] == (if j2 >= t { lane_min(u[j2], h[j2 - t]) } else { u[j2] }));
            if j1 < t && j2 >= t {
                assert(u[j1] <= h[j2 - t]);
            }
        }
    }
    assert(sorted(h2)) by {
        assert forall|i1: int, i2: int| 0 <= i1 <= i2 < g implies h2[i1] <= h2[i2] by {
            assert(h2[i1] == (if i1 + t < g { lane_max(u[i1 + t], h[i1]) } else { h[i1] }));
            assert(h2[i2] == (if i2 + t < g { lane_max(u[i2 + t], h[i2]) } else { h[i2] }));
            if i1 + t < g && i2 + t >= g {
                assert(u[i1 + t] <= h[i2]);
            }
        }
    }
    assert forall|i: int, j: int| 0 <= i < g && 0 <= j < g && j <= i + t implies u2[j] <= h2[i] by {
        assert(u2[j] == (if j >= t { lane_min(u[j], h[j - t]) } else { u[j] }));
        assert(h2[i] == (if i + t < g { lane_max(u[i + t], h[i]) } else { h[i] }));
    }
    assert forall|j: int| 0 <= j < g implies u2[j] <= a[j] && u2[j] <= b[j] by {
        assert(u2[j] == (if j >= t { lane_min(u[j], h[j - t]) } else { u[j] }));
    }
}

proof fn lemma_last_rotation(lo: Seq<u32>, lo2: Seq<u32>)
    requires
        lo.len() >= 1,
        lo2.len() == lo.len(),
        forall|i: int| 0 <= i < lo.len() ==> lo2[i] == lo[next_lane(i, lo.len() as int)],
    ensures
        lo2 == unrotated(lo, lo.len() - 1),
{
    assert(lo2 =~= unrotated(lo, lo.len() - 1));
}

/// Compare-exchange lane `i` of `lo = v[base..base + g]` with lane `i` of
/// `hi = v[base + g..base + 2g]`, for every lane.
fn compare_exchange_lanes(v: &mut [u32], base: usize, g: usize)
    requires
        base + 2 * g <= old(v)@.len(),
    ensures
        final(v)@.len() == old(v)@.len(),
        forall|k: int| 0 <= k < old(v)@.len() && !(base <= k < base + 2 * g) ==> final(v)@[k] == old(v)@[k],
        forall|i: int| 0 <= i < g ==> {
            &&& #[trigger] lo_run(final(v)@, base as int, g as int)[i]
                == lane_min(lo_run(old(v)@, base as int, g as int)[i], hi_run(old(v)@, base as int, g as int)[i])
            &&& hi_run(final(v)@, base as int, g as int)[i]
                == lane_max(lo_run(old(v)@, base as int, g as int)[i], hi_run(old(v)@, base as int, g as int)[i])
        },
        final(v)@.subrange(base as int, base + 2 * g).to_multiset()
            == old(v)@.subrange(base as int, base + 2 * g).to_multiset(),
{
    let ghost v0 = v@;
    let len: usize = v.len();
    let mut i: usize = 0;
    while i < g
        invariant
            i <= g,
            base + 2 * g <= v0.len(),
            v0.len() == len,
            v@.len() == v0.len(),
            forall|k: int| 0 <= k < v0.len() && !(base <= k < base + i) && !(base + g <= k < base + g + i) ==> v@[k] == v0[k],
            forall|j: int| 0 <= j < i ==> {
                &&& #[trigger] v@[base + j] == lane_min(v0[base + j], v0[base + g + j])
                &&& v@[base + g + j] == lane_max(v0[base + j], v0[base + g + j])
            },
            v@.subrange(base as int, base + 2 * g).to_multiset()
                == v0.subrange(base as int, base + 2 * g).to_multiset(),
        decreases g - i,
    {
        proof {
            assert(lo_run(v@, base as int, g as int)[i as int] == v@[base + i]);
        }
        let ghost vb = v@;
        let x = v[base + i];
        let y = v[base + g + i];
        if y < x {
            let ghost w = v@.subrange(base as int, base + 2 * g);
            v[base + i] = y;
            v[base + g + i] = x;
            proof {
                lemma_swap_multiset(w, i as int, g + i);
                assert(v@.subrange(base as int, base + 2 * g) =~= w.update(i as int, w[g + i]).update(g + i, w[i as int]));
            }
        }
        proof {
            assert forall|j: int| 0 <= j < i + 1 implies {
                &&& #[trigger] v@[base + j] == lane_min(v0[base + j], v0[base + g + j])
                &&& v@[base + g + j] == lane_max(v0[base + j], v0[base + g + j])
            } by {
                if j < i {
                    assert(vb[base + j] == lane_min(v0[base + j], v0[base + g + j]));
                    assert(vb[base + g + j] == lane_max(v0[base + j], v0[base + g + j]));
                }
            }
        }
        i = i + 1;
    }
    proof {
        assert forall|j: int| 0 <= j < g implies {
            &&& #[trigger] lo_run(v@, base as int, g as int)[j]
                == lane_min(lo_run(v0, base as int, g as int)[j], hi_run(v0, base as int, g as int)[j])
            &&& hi_run(v@, base as int, g as int)[j]
                == lane_max(lo_run(v0, base as int, g as int)[j], hi_run(v0, base as int, g as int)[j])
        } by {
            assert(v@[base + j] == lane_min(v0[base + j], v0[base + g + j]));
        }
    }
}

/// Rotate `lo = v[base..base + g]` left by one lane.
fn rotate_lanes(v: &mut [u32], base: usize, g: usize)
    requires
        1 <= g,
        base + 2 * g <= old(v)@.len(),
    ensures
        final(v)@.len() == old(v)@.len(),
        forall|k: int| 0 <= k < old(v)@.len() && !(base <= k < base + g) ==> final(v)@[k] == old(v)@[k],
        forall|i: int| 0 <= i < g ==> #[trigger] lo_run(final(v)@, base as int, g as int)[i]
            == lo_run(old(v)@, base as int, g as int)[next_lane(i, g as int)],
        final(v)@.subrange(base as int, base + 2 * g).to_multiset()
            == old(v)@.subrange(base as int, base + 2 * g).to_multiset(),
{
    let ghost v0 = v@;
    let len: usize = v.len();
    let first = v[base];
    let mut i: usize = 0;
    while i + 1 < g
        invariant
            i + 1 <= g,
            base + 2 * g <= v0.len(),
            v0.len() == len,
            v@.len() == v0.len(),
            first == v0[base as int],
            forall|k: int| 0 <= k < v0.len() && !(base <= k < base + i) ==> v@[k] == v0[k],
            forall|j: int| 0 <= j < i ==> #[trigger] v@[base + j] == v0[base + j + 1],
        decreases g - i,
    {
        let x = v[base + i + 1];
        v[base + i] = x;
        i = i + 1;
    }
    v[base + g - 1] = first;
    proof {
        let w = v0.subrange(base as int, base + 2 * g);
        let r = w.subrange(1, g as int).push(w[0]) + w.subrange(g as int, w.len() as int);
        assert forall|k: int| 0 <= k < 2 * g implies v@.subrange(base as int, base + 2 * g)[k] == r[k] by {
            if k < g - 1 {
                assert(v@[base + k] == v0[base + k + 1]);
            }
        }
        assert forall|i: int| 0 <= i < g implies #[trigger] lo_run(v@, base as int, g as int)[i]
            == lo_run(v0, base as int, g as int)[next_lane(i, g as int)] by {
            if i < g - 1 {
                assert(v@[base + i] == v0[base + i + 1]);
            }
        }
        lemma_rotate_prefix_multiset(w, g as int);
        assert(v@.subrange(base as int, base + 2 * g)
            =~= w.subrange(1, g as int).push(w[0]) + w.subrange(g as int, w.len() as int));
    }
}

/// Run the rotation network on the runs `v[base..base + g]` and
/// `v[base + g..base + 2g]`; it only rearranges their values. When both runs
/// are sorted, `v[base..base + 2g]` ends in order and lane `k` of the low run
/// ends at most the two input lanes `k`.
pub fn merge_pair(v: &mut [u32], base: usize, g: usize)
    requires
        1 <= g,
        base + 2 * g <= old(v)@.len(),
    ensures
        final(v)@.len() == old(v)@.len(),
        forall|k: int| 0 <= k < old(v)@.len() && !(base <= k < base + 2 * g) ==> final(v)@[k] == old(v)@[k],
        final(v)@.subrange(base as int, base + 2 * g).to_multiset()
            == old(v)@.subrange(base as int, base + 2 * g).to_multiset(),
        (lo_run(final(v)@, base as int, g as int), hi_run(final(v)@, base as int, g as int))
            == rotation_merge(lo_run(old(v)@, base as int, g as int), hi_run(old(v)@, base as int, g as int)),
        sorted(lo_run(old(v)@, base as int, g as int)) && sorted(hi_run(old(v)@, base as int, g as int)) ==> {
            &&& sorted(final(v)@.subrange(base as int, base + 2 * g))
            &&& forall|k: int| 0 <= k < g ==> #[trigger] lo_run(final(v)@, base as int, g as int)[k] <= lo_run(old(v)@, base as int, g as int)[k]
                && lo_run(final(v)@, base as int, g as int)[k] <= hi_run(old(v)@, base as int, g as int)[k]
        },
{
    let ghost v0 = v@;
    let ghost a = lo_run(v0, base as int, g as int);
    let ghost b = hi_run(v0, base as int, g as int);
    let ghost ordered = sorted(a) && sorted(b);
    compare_exchange_lanes(v, base, g);
    proof {
        assert forall|i: int| 0 <= i < g implies hi_run(v@, base as int, g as int)[i] == lanes_max(a, b)[i] by {
            assert(lo_run(v@, base as int, g as int)[i] == lane_min(a[i], b[i]));
        }
        assert(lo_run(v@, base as int, g as int) =~= lanes_min(a, b));
        assert(hi_run(v@, base as int, g as int) =~= lanes_max(a, b));
        if ordered {
            lemma_first_round(a, b, lo_run(v@, base as int, g as int), hi_run(v@, base as int, g as int));
        }
    }
    let mut s: usize = 0;
    while s + 1 < g
        invariant
            s + 1 <= g,
            base + 2 * g <= v0.len(),
            v@.len() == v0.len(),
            a == lo_run(v0, base as int, g as int),
            b == hi_run(v0, base as int, g as int),
            ordered == (sorted(a) && sorted(b)),
            forall|k: int| 0 <= k < v0.len() && !(base <= k < base + 2 * g) ==> v@[k] == v0[k],
            (lo_run(v@, base as int, g as int), hi_run(v@, base as int, g as int)) == network_rounds(a, b, s as nat),
            ordered ==> merge_state(unrotated(lo_run(v@, base as int, g as int), s as int), hi_run(v@, base as int, g as int), a, b, s as int),
            v@.subrange(base as int, base + 2 * g).to_multiset()
                == v0.subrange(base as int, base + 2 * g).to_multiset(),
        decreases g - s,
    {
        let ghost lo = lo_run(v@, base as int, g as int);
        let ghost hi = hi_run(v@, base as int, g as int);
        rotate_lanes(v, base, g);
        compare_exchange_lanes(v, base, g);
        proof {
            let lo2 = lo_run(v@, base as int, g as int);
            let h2 = hi_run(v@, base as int, g as int);
            assert forall|i: int| 0 <= i < lo.len() implies {
                let x = #[trigger] lo[next_lane(i, lo.len() as int)];
                lo2[i] == lane_min(x, hi[i]) && h2[i] == lane_max(x, hi[i])
            } by {
                assert(lo_run(v@, base as int, g as int)[i] == lo2[i]);
            }
            assert(lo2 =~= lanes_min(rotated(lo), hi));
            assert(h2 =~= lanes_max(rotated(lo), hi));
            assert(network_rounds(a, b, (s + 1) as nat) == (lanes_min(rotated(lo), hi), lanes_max(rotated(lo), hi)));
            if ordered {
                lemma_next_round(lo, hi, a, b, s + 1, lo2, h2);
            }
        }
        s = s + 1;
    }
    let ghost lo = lo_run(v@, base as int, g as int);
    let ghost hi = hi_run(v@, base as int, g as int);
    rotate_lanes(v, base, g);
    proof {
        let lo2 = lo_run(v@, base as int, g as int);
        assert(hi_run(v@, base as int, g as int) =~= hi);
        assert(lo2 =~= rotated(lo));
        if ordered {
            lemma_last_rotation(lo, lo2);
            let u = lo2;
            assert(merge_state(u, hi, a, b, g - 1));
            let w = v@.subrange(base as int, base + 2 * g);
            assert(w =~= u + hi);
            assert forall|i: int, j: int| 0 <= i <= j < 2 * g implies w[i] <= w[j] by {
                if j < g {
                } else if i >= g {
                } else {
                    assert(u[i] <= hi[j - g]);
                }
            }
        }
    }
}

/// One stage of the network: for every `m`, merge run `2m` and run `2m + 1`
/// of `g` lanes into run `m` of `2g` lanes.
fn merge_stage(v: &mut [u32], g: usize, Ghost(pairs): Ghost<int>)
    requires
        1 <= g,
        0 <= pairs,
        old(v)@.len() == pairs * (2 * g),
        runs_sorted(old(v)@, g as int),
    ensures
        final(v)@.len() == old(v)@.len(),
        runs_sorted(final(v)@, 2 * g),
        final(v)@.to_multiset() == old(v)@.to_multiset(),
{
    let ghost v0 = v@;
    let n: usize = v.len();
    let mut base: usize = 0;
    let ghost mut m: int = 0;
    assert(v@.subrange(0, 0) =~= Seq::<u32>::empty());
    while base < n
        invariant
            1 <= g,
            n == v@.len(),
            n == v0.len(),
            n == pairs * (2 * g),
            runs_sorted(v0, g as int),
            0 <= m <= pairs,
            base <= n,
            base == m * (2 * g),
            runs_sorted(v@.subrange(0, base as int), 2 * g),
            forall|k: int| base <= k < n ==> v@[k] == v0[k],
            v@.to_multiset() == v0.to_multiset(),
        decreases n - base,
    {
        proof {
            assert(m < pairs) by (nonlinear_arith)
                requires
                    base == m * (2 * g),
                    n == pairs * (2 * g),
                    base < n,
                    1 <= g,
            ;
            assert(base + 2 * g <= n) by (nonlinear_arith)
                requires
                    base == m * (2 * g),
                    n == pairs * (2 * g),
                    m < pairs,
            ;
            assert(base == (2 * m) * g) by (nonlinear_arith)
                requires
                    base == m * (2 * g),
            ;
            assert(base + g == (2 * m + 1) * g) by (nonlinear_arith)
                requires
                    base == m * (2 * g),
            ;
            lemma_run_piece_sorted(v0, g as int, 2 * m, base as int, base + g);
            lemma_run_piece_sorted(v0, g as int, 2 * m + 1, base + g, base + 2 * g);
            assert(v@.subrange(base as int, base + g) =~= v0.subrange(base as int, base + g));
            assert(v@.subrange(base + g, base + 2 * g) =~= v0.subrange(base + g, base + 2 * g));
        }
        let ghost before = v@;
        merge_pair(v, base, g);
        proof {
            let prefix = before.subrange(0, base as int);
            let block = v@.subrange(base as int, base + 2 * g);
            assert(v@.subrange(0, base as int) =~= prefix);
            lemma_runs_extend(prefix, block, 2 * g, m);
            assert(v@.subrange(0, base + 2 * g) =~= prefix + block);
            lemma_window_multiset(before, v@, base as int, base + 2 * g);
            assert((m + 1) * (2 * g) == base + 2 * g) by (nonlinear_arith)
                requires
                    base == m * (2 * g),
            ;
        }
        base = base + 2 * g;
        proof {
            m = m + 1;
        }
    }
    assert(v@.subrange(0, n as int) =~= v@);
}

/// Sort 8 or 16 lanes with the network: stage `g = 1, 2, 4, ...` merges
/// each pair of neighbouring sorted runs of `g` lanes.
fn sort_lanes(v: &mut [u32])
    requires
        old(v)@.len() == 8 || old(v)@.len() == 16,
    ensures
        final(v)@.len() == old(v)@.len(),
        sorted(final(v)@),
        final(v)@.to_multiset() == old(v)@.to_multiset(),
{
    let ghost v0 = v@;
    let n: usize = v.len();
    proof {
        lemma_runs_of_one(v@);
    }
    let mut g: usize = 1;
    let ghost mut q: int = n as int;
    while g < n
        invariant
            n == q * g,
            q == 1 || q == 2 || q == 4 || q == 8 || q == 16,
            n == v@.len(),
            n == v0.len(),
            n == 8 || n == 16,
            g == 1 || g == 2 || g == 4 || g == 8 || g == 16,
            g <= n,
            runs_sorted(v@, g as int),
            v@.to_multiset() == v0.to_multiset(),
        decreases n - g,
    {
        let ghost pairs: int = q / 2;
        assert(n == pairs * (2 * g)) by (nonlinear_arith)
            requires
                n == q * g,
                q == 2 * pairs,
        ;
        merge_stage(v, g, Ghost(pairs));
        g = g * 2;
        proof {
            q = pairs;
        }
    }
    proof {
        lemma_one_run(v@, g as int);
    }
}

/// Sort 8 lanes in place.
pub fn sort_u32x8(nums: &mut [u32; 8])
    ensures
        sorted(final(nums)@),
        final(nums)@.to_multiset() == old(nums)@.to_multiset(),
        final(nums)@ == reference_sort(old(nums)@),
{
    sort_lanes(nums);
    proof {
        lemma_sorted_is_reference(old(nums)@, nums@);
    }
}

/// Sort 16 lanes in place.
pub fn sort_u32x16(nums: &mut [u32; 16])
    ensures
        sorted(final(nums)@),
        final(nums)@.to_multiset() == old(nums)@.to_multiset(),
        final(nums)@ == reference_sort(old(nums)@),
{
    sort_lanes(nums);
    proof {
        lemma_sorted_is_reference(old(nums)@, nums@);
    }
}

/// Sort 32 lanes in place: sort the two halves of 16 lanes, then merge them
/// with the 16-lane merge.
pub fn sort_u32x32(nums: &mut [u32; 32])
    ensures
        sorted(final(nums)@),
        final(nums)@.to_multiset() == old(nums)@.to_multiset(),
        final(nums)@ == reference_sort(old(nums)@),
{
    let mut a = [0u32; 16];
    let mut b = [0u32; 16];
    copy_from(nums, 0, &mut a);
    copy_from(nums, 16, &mut b);
    let ghost a0 = a@;
    let ghost b0 = b@;
    sort_u32x16(&mut a);
    sort_u32x16(&mut b);
    let ghost a1 = a@;
    let ghost b1 = b@;
    merge_sort_u32x16x2(&mut a, &mut b);
    copy_into(&a, nums, 0);
    copy_into(&b, nums, 16);
    proof {
        assert(nums@ =~= a@ + b@);
        assert(old(nums)@ =~= a0 + b0);
        vstd::seq_lib::lemma_multiset_commutative(a0, b0);
        vstd::seq_lib::lemma_multiset_commutative(a1, b1);
        lemma_sorted_is_reference(old(nums)@, nums@);
    }
}

/// Run the 16-lane merge network on two vectors; it only rearranges their
/// 32 values. When both are sorted, afterwards `p1` holds the 16 smallest of
/// the 32 values and `p2` the 16 largest, both in order, and lane `k` of
/// `p1` ends at most the two input lanes `k`.
pub fn merge_sort_u32x16x2(p1: &mut [u32; 16], p2: &mut [u32; 16])
    ensures
        (final(p1)@ + final(p2)@).to_multiset() == (old(p1)@ + old(p2)@).to_multiset(),
        (final(p1)@, final(p2)@) == rotation_merge(old(p1)@, old(p2)@),
        sorted(old(p1)@) && sorted(old(p2)@) ==> {
            &&& sorted(final(p1)@ + final(p2)@)
            &&& forall|k: int| 0 <= k < 16 ==> #[trigger] final(p1)@[k] <= old(p1)@[k] && final(p1)@[k] <= old(p2)@[k]
            &&& final(p1)@ + final(p2)@ == reference_sort(old(p1)@ + old(p2)@)
            &&& final(p1)@[15] <= final(p2)@[0]
        },
{
    let mut v = [0u32; 32];
    let mut i: usize = 0;
    while i < 16
        invariant
            i <= 16,
            v@.len() == 32,
            forall|k: int| 0 <= k < i ==> v@[k] == p1@[k],
            forall|k: int| 0 <= k < i ==> #[trigger] v@[16 + k] == p2@[k],
        decreases 16 - i,
    {
        v[i] = p1[i];
        v[16 + i] = p2[i];
        i = i + 1;
    }
    let ghost v0 = v@;
    assert forall|k: int| 16 <= k < 32 implies v0[k] == p2@[k - 16] by {
        assert(v@[16 + (k - 16)] == p2@[k - 16]);
    }
    assert(v0 =~= p1@ + p2@);
    assert(lo_run(v0, 0, 16) =~= p1@);
    assert(hi_run(v0, 0, 16) =~= p2@);
    merge_pair(&mut v, 0, 16);
    let mut i: usize = 0;
    while i < 16
        invariant
            i <= 16,
            v@.len() == 32,
            forall|k: int| 0 <= k < i ==> p1@[k] == v@[k],
            forall|k: int| 0 <= k < i ==> #[trigger] p2@[k] == v@[16 + k],
        decreases 16 - i,
    {
        p1[i] = v[i];
        p2[i] = v[16 + i];
        i = i + 1;
    }
    assert forall|k: int| 16 <= k < 32 implies v@[k] == p2@[k - 16] by {
        assert(p2@[k - 16] == v@[16 + (k - 16)]);
    }
    assert(p1@ + p2@ =~= v@);
    assert(v@.subrange(0, 32) =~= v@);
    assert(v0.subrange(0, 32) =~= v0);
    assert(lo_run(v@, 0, 16) =~= p1@);
    assert(hi_run(v@, 0, 16) =~= p2@);
    proof {
        if sorted(old(p1)@) && sorted(old(p2)@) {
            assert forall|k: int| 0 <= k < 16 implies #[trigger] p1@[k] <= old(p1)@[k] && p1@[k] <= old(p2)@[k] by {
                assert(lo_run(v@, 0, 16)[k] == p1@[k]);
            }
            lemma_sorted_is_reference(old(p1)@ + old(p2)@, p1@ + p2@);
            assert((p1@ + p2@)[15] <= (p1@ + p2@)[16]);
        }
    }
}

} // verus!
