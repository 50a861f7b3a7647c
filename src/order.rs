//! What "sorted" and "same values" mean for sequences of `u32`, and the
//! facts about them that the kernels share.

use vstd::prelude::*;

verus! {

broadcast use vstd::seq_lib::group_to_multiset_ensures;

/// Every earlier element is at most every later one.
pub open spec fn sorted(s: Seq<u32>) -> bool {
    forall|i: int, j: int| 0 <= i <= j < s.len() ==> s[i] <= s[j]
}

/// The ascending order on lane values.
pub open spec fn ascending(x: u32, y: u32) -> bool {
    x <= y
}

/// `s` sorted by the plain scalar sort of the sequence library, for
/// comparison with the networks.
pub open spec fn reference_sort(s: Seq<u32>) -> Seq<u32> {
    s.sort_by(|x: u32, y: u32| ascending(x, y))
}

/// The smaller of two lane values.
pub open spec fn lane_min(x: u32, y: u32) -> u32 {
    if x <= y { x } else { y }
}

/// The larger of two lane values.
pub open spec fn lane_max(x: u32, y: u32) -> u32 {
    if x <= y { y } else { x }
}

/// The reference sort gives a sorted rearrangement of its input.
pub proof fn lemma_reference_sort(s: Seq<u32>)
    ensures
        sorted(reference_sort(s)),
        reference_sort(s).to_multiset() == s.to_multiset(),
{
    let leq = |x: u32, y: u32| ascending(x, y);
    assert(vstd::relations::total_ordering(leq));
    s.lemma_sort_by_ensures(leq);
    let r = s.sort_by(leq);
    assert forall|i: int, j: int| 0 <= i <= j < r.len() implies r[i] <= r[j] by {
        if i < j {
            assert(leq(r[i], r[j]));
        }
    }
}

/// A sorted rearrangement of `s` is exactly what the reference sort gives.
pub proof fn lemma_sorted_is_reference(s: Seq<u32>, r: Seq<u32>)
    requires
        sorted(r),
        r.to_multiset() == s.to_multiset(),
    ensures
        r == reference_sort(s),
{
    let leq = |x: u32, y: u32| ascending(x, y);
    assert(vstd::relations::total_ordering(leq));
    s.lemma_sort_by_ensures(leq);
    vstd::seq_lib::lemma_sorted_unique(r, s.sort_by(leq), leq);
}

/// Exchanging two positions keeps the multiset of values.
pub proof fn lemma_swap_multiset(s: Seq<u32>, p: int, q: int)
    requires
        0 <= p < s.len(),
        0 <= q < s.len(),
    ensures
        s.update(p, s[q]).update(q, s[p]).to_multiset() == s.to_multiset(),
{
    let s1 = s.update(p, s[q]);
    vstd::seq_lib::to_multiset_update(s, p, s[q]);
    vstd::seq_lib::to_multiset_update(s1, q, s[p]);
    if p == q {
        assert(s.update(p, s[q]).update(q, s[p]) =~= s);
    } else {
        assert(s.to_multiset().insert(s[q]).remove(s[p]).insert(s[p]).remove(s[q])
            =~= s.to_multiset());
    }
}

/// Moving the first element of a prefix to the prefix's end keeps the
/// multiset of the whole sequence.
pub proof fn lemma_rotate_prefix_multiset(w: Seq<u32>, g: int)
    requires
        1 <= g <= w.len(),
    ensures
        (w.subrange(1, g).push(w[0]) + w.subrange(g, w.len() as int)).to_multiset()
            == w.to_multiset(),
{
    let a = seq![w[0]];
    let b = w.subrange(1, g);
    let c = w.subrange(g, w.len() as int);
    assert(w =~= (a + b) + c);
    assert(b.push(w[0]) =~= b + a);
    vstd::seq_lib::lemma_multiset_commutative(b + a, c);
    vstd::seq_lib::lemma_multiset_commutative(a + b, c);
    vstd::seq_lib::lemma_seq_union_to_multiset_commutative(a, b);
}

/// The runs `s[0..w]`, `s[w..2w]`, ... (the last one possibly shorter) are
/// each in order.
pub open spec fn runs_sorted(s: Seq<u32>, w: int) -> bool {
    forall|i: int, j: int|
        #![trigger s[i], s[j]]
        0 <= i <= j < s.len() && i / w == j / w ==> s[i] <= s[j]
}

/// An index inside run `m` belongs to run `m`; one below it, to an earlier run.
pub proof fn lemma_run_index(i: int, w: int, m: int)
    requires
        0 < w,
        0 <= i,
        0 <= m,
    ensures
        m * w <= i < m * w + w ==> i / w == m,
        i < m * w ==> i / w < m,
{
    if m * w <= i < m * w + w {
        vstd::arithmetic::div_mod::lemma_fundamental_div_mod_converse(i, w, m, i - m * w);
    }
    if i < m * w {
        let q = i / w;
        let r = i % w;
        vstd::arithmetic::div_mod::lemma_fundamental_div_mod(i, w);
        vstd::arithmetic::div_mod::lemma_mod_pos_bound(i, w);
        assert(q < m) by (nonlinear_arith)
            requires
                i == w * q + r,
                0 <= r < w,
                i < m * w,
                0 < w,
        ;
    }
}

/// Any piece of run `m` is in order.
pub proof fn lemma_run_piece_sorted(s: Seq<u32>, w: int, m: int, b: int, e: int)
    requires
        0 < w,
        0 <= m,
        runs_sorted(s, w),
        b == m * w,
        b <= e <= s.len(),
        e <= b + w,
    ensures
        sorted(s.subrange(b, e)),
{
    assert forall|i: int, j: int| 0 <= i <= j < e - b implies s.subrange(b, e)[i] <= s.subrange(b, e)[j] by {
        lemma_run_index(b + i, w, m);
        lemma_run_index(b + j, w, m);
        assert(s[b + i] <= s[b + j]);
    }
}

/// Appending a sorted piece of at most `w` elements to whole runs of `w`
/// gives runs of `w`.
pub proof fn lemma_runs_extend(x: Seq<u32>, y: Seq<u32>, w: int, m: int)
    requires
        0 < w,
        0 <= m,
        runs_sorted(x, w),
        x.len() == m * w,
        sorted(y),
        y.len() <= w,
    ensures
        runs_sorted(x + y, w),
{
    let z = x + y;
    assert forall|i: int, j: int|
        #![trigger z[i], z[j]]
        0 <= i <= j < z.len() && i / w == j / w implies z[i] <= z[j] by {
        lemma_run_index(i, w, m);
        lemma_run_index(j, w, m);
        if j < x.len() {
            assert(x[i] <= x[j]);
        } else if i >= x.len() {
            assert(y[i - x.len()] <= y[j - x.len()]);
        }
    }
}

/// Every sequence is made of sorted runs of one element.
pub proof fn lemma_runs_of_one(s: Seq<u32>)
    ensures
        runs_sorted(s, 1),
{
    assert forall|i: int, j: int|
        #![trigger s[i], s[j]]
        0 <= i <= j < s.len() && i / 1 == j / 1 implies s[i] <= s[j] by {
        lemma_run_index(i, 1, i);
        lemma_run_index(j, 1, j);
    }
}

/// A single run covering the whole sequence means the sequence is sorted.
pub proof fn lemma_one_run(s: Seq<u32>, w: int)
    requires
        0 < w,
        s.len() <= w,
        runs_sorted(s, w),
    ensures
        sorted(s),
{
    assert forall|i: int, j: int| 0 <= i <= j < s.len() implies s[i] <= s[j] by {
        lemma_run_index(i, w, 0);
        lemma_run_index(j, w, 0);
    }
}

/// A sorted sequence is made of sorted runs of any width.
pub proof fn lemma_sorted_runs(s: Seq<u32>, w: int)
    requires
        sorted(s),
    ensures
        runs_sorted(s, w),
{
}

/// Replacing a window by a rearrangement of its values keeps the multiset
/// of the whole sequence.
pub proof fn lemma_window_multiset(s: Seq<u32>, t: Seq<u32>, p: int, q: int)
    requires
        0 <= p <= q <= s.len(),
        t.len() == s.len(),
        forall|k: int| 0 <= k < s.len() && !(p <= k < q) ==> t[k] == s[k],
        t.subrange(p, q).to_multiset() == s.subrange(p, q).to_multiset(),
    ensures
        t.to_multiset() == s.to_multiset(),
{
    assert(s =~= s.subrange(0, p) + s.subrange(p, q) + s.subrange(q, s.len() as int));
    assert(t =~= t.subrange(0, p) + t.subrange(p, q) + t.subrange(q, t.len() as int));
    assert(t.subrange(0, p) =~= s.subrange(0, p));
    assert(t.subrange(q, t.len() as int) =~= s.subrange(q, s.len() as int));
    vstd::seq_lib::lemma_multiset_commutative(s.subrange(0, p), s.subrange(p, q));
    vstd::seq_lib::lemma_multiset_commutative(t.subrange(0, p), t.subrange(p, q));
    vstd::seq_lib::lemma_multiset_commutative(s.subrange(0, p) + s.subrange(p, q), s.subrange(q, s.len() as int));
    vstd::seq_lib::lemma_multiset_commutative(t.subrange(0, p) + t.subrange(p, q), t.subrange(q, t.len() as int));
}

/// Two sorted sequences, the first ending at or below where the second
/// starts, make a sorted sequence.
pub proof fn lemma_sorted_concat(x: Seq<u32>, y: Seq<u32>)
    requires
        sorted(x),
        sorted(y),
        x.len() > 0 && y.len() > 0 ==> x[x.len() - 1] <= y[0],
    ensures
        sorted(x + y),
{
    let z = x + y;
    assert forall|i: int, j: int| 0 <= i <= j < z.len() implies z[i] <= z[j] by {
        if i < x.len() && j >= x.len() {
            assert(x[i] <= x[x.len() - 1]);
            assert(y[0] <= y[j - x.len()]);
        }
    }
}

/// Bounds that hold of every value of a sequence hold of every value of any
/// rearrangement of it.
pub proof fn lemma_bounds_kept(s: Seq<u32>, t: Seq<u32>, lo: u32, hi: u32)
    requires
        s.to_multiset() == t.to_multiset(),
        forall|k: int| 0 <= k < s.len() ==> lo <= #[trigger] s[k] <= hi,
    ensures
        forall|k: int| 0 <= k < t.len() ==> lo <= #[trigger] t[k] <= hi,
{
    assert forall|k: int| 0 <= k < t.len() implies lo <= #[trigger] t[k] <= hi by {
        assert(t.contains(t[k]));
        assert(t.to_multiset().count(t[k]) > 0);
        assert(s.contains(t[k]));
    }
}

} // verus!
