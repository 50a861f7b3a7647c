//! Merge of two sorted sequences whose lengths are multiples of 16, one
//! vector of 16 lanes at a time.

use vstd::prelude::*;
use crate::network::merge_sort_u32x16x2;
use crate::order::{lemma_bounds_kept, lemma_sorted_concat, lemma_sorted_is_reference, reference_sort, sorted};
use vstd::multiset::Multiset;

verus! {

broadcast use vstd::seq_lib::group_to_multiset_ensures;

/// `t` is `s` with `s[at..at + w.len()]` replaced by `w`.
pub open spec fn overwritten(s: Seq<u32>, t: Seq<u32>, at: int, w: Seq<u32>) -> bool {
    &&& t.len() == s.len()
    &&& 0 <= at
    &&& at + w.len() <= s.len()
    &&& t.subrange(at, at + w.len()) == w
    &&& forall|k: int| 0 <= k < s.len() && !(at <= k < at + w.len()) ==> t[k] == s[k]
}

/// Load the 16 values `buf[*i..*i + 16]` and advance `*i` past them.
fn read(buf: &[u32], i: &mut usize) -> (r: [u32; 16])
    requires
        *old(i) + 16 <= buf@.len(),
    ensures
        r@ == buf@.subrange(*old(i) as int, *old(i) + 16),
        *final(i) == *old(i) + 16,
{
    let len: usize = buf.len();
    let mut r = [0u32; 16];
    let mut k: usize = 0;
    while k < 16
        invariant
            k <= 16,
            len == buf@.len(),
            r@.len() == 16,
            *i + 16 <= buf@.len(),
            forall|m: int| 0 <= m < k ==> r@[m] == #[trigger] buf@[*i + m],
        decreases 16 - k,
    {
        r[k] = buf[*i + k];
        k = k + 1;
    }
    assert forall|m: int| 0 <= m < 16 implies r@[m] == buf@.subrange(*i as int, *i + 16)[m] by {
        assert(r@[m] == buf@[*i + m]);
    }
    assert(r@ =~= buf@.subrange(*i as int, *i + 16));
    *i = *i + 16;
    r
}

/// Store the 16 lanes of `value` at `out[*o..*o + 16]` and advance `*o`.
fn write(out: &mut [u32], o: &mut usize, value: &[u32; 16])
    requires
        *old(o) + 16 <= old(out)@.len(),
    ensures
        overwritten(old(out)@, final(out)@, *old(o) as int, value@),
        *final(o) == *old(o) + 16,
{
    let len: usize = out.len();
    copy_into(value, out, *o);
    *o = *o + 16;
}

/// Fill `dst` with `src[at..at + dst.len()]`.
pub fn copy_from(src: &[u32], at: usize, dst: &mut [u32])
    requires
        at + old(dst)@.len() <= src@.len(),
    ensures
        final(dst)@ == src@.subrange(at as int, at + old(dst)@.len()),
{
    let n: usize = dst.len();
    let len: usize = src.len();
    let mut k: usize = 0;
    while k < n
        invariant
            k <= n,
            n == dst@.len(),
            len == src@.len(),
            at + n <= len,
            forall|m: int| 0 <= m < k ==> dst@[m] == #[trigger] src@[at + m],
        decreases n - k,
    {
        dst[k] = src[at + k];
        k = k + 1;
    }
    assert forall|m: int| 0 <= m < n implies dst@[m] == src@.subrange(at as int, at + n)[m] by {
        assert(dst@[m] == src@[at + m]);
    }
    assert(dst@ =~= src@.subrange(at as int, at + n));
}

/// Copy `src` into `out[at..at + src.len()]`.
pub fn copy_into(src: &[u32], out: &mut [u32], at: usize)
    requires
        at + src@.len() <= old(out)@.len(),
    ensures
        overwritten(old(out)@, final(out)@, at as int, src@),
{
    let ghost out0 = out@;
    let len: usize = out.len();
    let n: usize = src.len();
    let mut k: usize = 0;
    while k < n
        invariant
            k <= n,
            n == src@.len(),
            at + n <= out0.len(),
            len == out0.len(),
            out@.len() == out0.len(),
            forall|m: int| 0 <= m < k ==> #[trigger] out@[at + m] == src@[m],
            forall|m: int| 0 <= m < out0.len() && !(at <= m < at + k) ==> out@[m] == out0[m],
        decreases n - k,
    {
        out[at + k] = src[k];
        k = k + 1;
    }
    assert forall|m: int| 0 <= m < n implies out@.subrange(at as int, at + n)[m] == src@[m] by {
        assert(out@[at + m] == src@[m]);
    }
    assert(out@.subrange(at as int, at + n) =~= src@);
}

/// Each value of `p` from index `i` on is at least `a` or at least `b`.
pub open spec fn rest_covered(p: Seq<u32>, i: int, a: u32, b: u32) -> bool {
    forall|k: int| i <= k < p.len() ==> a <= #[trigger] p[k] || b <= p[k]
}

/// While both inputs have values left, `x` is at most one of their next values.
pub open spec fn below_a_head(p1: Seq<u32>, p2: Seq<u32>, i: int, j: int, x: u32) -> bool {
    i < p1.len() && j < p2.len() ==> x <= p1[i] || x <= p2[j]
}

/// The values loaded so far: `p1[..i]` and `p2[..j]`.
pub open spec fn loaded(p1: Seq<u32>, p2: Seq<u32>, i: int, j: int) -> Multiset<u32> {
    p1.subrange(0, i).to_multiset().add(p2.subrange(0, j).to_multiset())
}

/// One step of the block merge: merge the vector just loaded (`mn`) with
/// the carried one (`mx`), store the low half at `out[*o..]` and carry the
/// high half.
fn merge_and_write(
    mn: &mut [u32; 16],
    mx: &mut [u32; 16],
    out: &mut [u32],
    o: &mut usize,
    Ghost(p1): Ghost<Seq<u32>>,
    Ghost(p2): Ghost<Seq<u32>>,
    Ghost(i): Ghost<int>,
    Ghost(j): Ghost<int>,
    Ghost(base): Ghost<int>,
)
    requires
        sorted(old(mn)@),
        sorted(old(mx)@),
        sorted(p1),
        sorted(p2),
        0 <= i <= p1.len(),
        0 <= j <= p2.len(),
        0 <= base <= *old(o),
        *old(o) + 16 <= old(out)@.len(),
        sorted(old(out)@.subrange(base, *old(o) as int)),
        *old(o) > base ==> old(out)@[*old(o) - 1] <= old(mn)@[0] && old(out)@[*old(o) - 1] <= old(mx)@[0],
        rest_covered(p1, i, old(mn)@[15], old(mx)@[15]),
        rest_covered(p2, j, old(mn)@[15], old(mx)@[15]),
        below_a_head(p1, p2, i, j, old(mn)@[15]),
        below_a_head(p1, p2, i, j, old(mx)@[15]),
    ensures
        *final(o) == *old(o) + 16,
        overwritten(old(out)@, final(out)@, *old(o) as int, final(mn)@),
        sorted(final(mx)@),
        sorted(final(out)@.subrange(base, *final(o) as int)),
        final(out)@[*final(o) - 1] <= final(mx)@[0],
        forall|k: int| i <= k < p1.len() ==> final(out)@[*final(o) - 1] <= #[trigger] p1[k],
        forall|k: int| j <= k < p2.len() ==> final(out)@[*final(o) - 1] <= #[trigger] p2[k],
        below_a_head(p1, p2, i, j, final(mx)@[15]),
        final(out)@.subrange(base, *final(o) as int).to_multiset().add(final(mx)@.to_multiset())
            == old(out)@.subrange(base, *old(o) as int).to_multiset().add(old(mn)@.to_multiset()).add(old(mx)@.to_multiset()),
{
    let ghost a = mn@;
    let ghost b = mx@;
    let ghost out0 = out@;
    let ghost o0 = *o as int;
    merge_sort_u32x16x2(mn, mx);
    proof {
        let lo = if a[0] <= b[0] { a[0] } else { b[0] };
        let hi = if a[15] <= b[15] { b[15] } else { a[15] };
        assert forall|k: int| 0 <= k < 32 implies lo <= #[trigger] (a + b)[k] <= hi by {
            if k < 16 {
                assert(a[0] <= a[k] <= a[15]);
            } else {
                assert(b[0] <= b[k - 16] <= b[15]);
            }
        }
        lemma_bounds_kept(a + b, mn@ + mx@, lo, hi);
        assert(lo <= (mn@ + mx@)[0]);
        assert((mn@ + mx@)[31] <= hi);
        assert(mn@ =~= (mn@ + mx@).subrange(0, 16));
        assert(mx@ =~= (mn@ + mx@).subrange(16, 32));
        assert(mn@[15] <= mx@[0]);
        assert(mn@[15] <= a[15] && mn@[15] <= b[15]);
        vstd::seq_lib::lemma_multiset_commutative(mn@, mx@);
        vstd::seq_lib::lemma_multiset_commutative(a, b);
    }
    write(out, o, mn);
    proof {
        let prev = out0.subrange(base, o0);
        assert(out@.subrange(base, *o as int) =~= prev + mn@);
        lemma_sorted_concat(prev, mn@);
        vstd::seq_lib::lemma_multiset_commutative(prev, mn@);
        assert(out@[*o - 1] == mn@[15]);
        assert forall|k: int| i <= k < p1.len() implies out@[*o - 1] <= #[trigger] p1[k] by {
            assert(mn@[15] <= a[15] && mn@[15] <= b[15]);
        }
        assert forall|k: int| j <= k < p2.len() implies out@[*o - 1] <= #[trigger] p2[k] by {
            assert(mn@[15] <= a[15] && mn@[15] <= b[15]);
        }
        let m1 = mn@.to_multiset();
        let m2 = mx@.to_multiset();
        let pm = prev.to_multiset();
        assert(m1.add(m2) == a.to_multiset().add(b.to_multiset()));
        assert(out@.subrange(base, *o as int).to_multiset() == pm.add(m1));
        assert(pm.add(m1).add(m2) =~= pm.add(m1.add(m2)));
        assert(pm.add(a.to_multiset()).add(b.to_multiset()) =~= pm.add(a.to_multiset().add(b.to_multiset())));
        assert(out@.subrange(base, *o as int).to_multiset().add(mx@.to_multiset())
            =~= out0.subrange(base, o0).to_multiset().add(a.to_multiset()).add(b.to_multiset()));
    }
}

/// Merge the sorted sequence `p1` with the sorted run `p2` that already
/// stands at `out[base + p1.len()..base + p1.len() + n2]`, both a positive
/// multiple of 16 long, into `out[base..base + p1.len() + n2]`. Stores trail
/// the loads from `p2`, so no value is overwritten before it is loaded. The
/// rest of `out` is left as it was.
pub fn merge_in_place(p1: &[u32], out: &mut [u32], base: usize, n2: usize)
    requires
        p1@.len() >= 16,
        p1@.len() % 16 == 0,
        n2 >= 16,
        n2 % 16 == 0,
        base + p1@.len() + n2 <= old(out)@.len(),
        sorted(p1@),
        sorted(old(out)@.subrange(base + p1@.len(), base + p1@.len() + n2)),
    ensures
        overwritten(old(out)@, final(out)@, base as int, final(out)@.subrange(base as int, base + p1@.len() + n2)),
        sorted(final(out)@.subrange(base as int, base + p1@.len() + n2)),
        final(out)@.subrange(base as int, base + p1@.len() + n2).to_multiset()
            == (p1@ + old(out)@.subrange(base + p1@.len(), base + p1@.len() + n2)).to_multiset(),
{
    let n1: usize = p1.len();
    let len: usize = out.len();
    let s2: usize = base + n1;
    let e2: usize = s2 + n2;
    let ghost out0 = out@;
    let ghost p2 = out0.subrange(s2 as int, e2 as int);
    if p1[n1 - 1] <= out[s2] {
        // already in order one after the other
        copy_into(p1, out, base);
        proof {
            lemma_sorted_concat(p1@, p2);
            assert(out@.subrange(base as int, e2 as int) =~= p1@ + p2);
        }
        return;
    }
    let mut i: usize = 0;
    let mut j: usize = s2;
    let mut o: usize = base;
    let mut mn = read(p1, &mut i);
    let mut mx = read(out, &mut j);
    proof {
        assert(out@.subrange(base as int, base as int) =~= Seq::<u32>::empty());
        assert(mx@ =~= p2.subrange(0, 16));
        assert(mn@[15] == p1@[15] && mx@[15] == p2[15]);
        assert(mn@.to_multiset() == p1@.subrange(0, 16).to_multiset());
    }
    merge_and_write(&mut mn, &mut mx, out, &mut o, Ghost(p1@), Ghost(p2), Ghost(16), Ghost(16), Ghost(base as int));
    proof {
        assert(out@.subrange(base as int, base as int).to_multiset() =~= Multiset::empty());
        assert(Multiset::<u32>::empty().add(p1@.subrange(0, 16).to_multiset()) =~= p1@.subrange(0, 16).to_multiset());
    }
    while i < n1 || j < e2
        invariant
            n1 == p1@.len(),
            len == out@.len(),
            len == out0.len(),
            n1 % 16 == 0,
            n2 % 16 == 0,
            s2 == base + n1,
            e2 == s2 + n2,
            e2 <= len,
            p2 == out0.subrange(s2 as int, e2 as int),
            sorted(p1@),
            sorted(p2),
            16 <= i <= n1,
            s2 + 16 <= j <= e2,
            i % 16 == 0,
            (j - s2) % 16 == 0,
            o == base + i + (j - s2) - 16,
            forall|k: int| 0 <= k < len && !(base <= k < o) ==> out@[k] == out0[k],
            sorted(mx@),
            sorted(out@.subrange(base as int, o as int)),
            out@[o - 1] <= mx@[0],
            forall|k: int| i <= k < n1 ==> out@[o - 1] <= #[trigger] p1@[k],
            forall|k: int| j - s2 <= k < n2 ==> out@[o - 1] <= #[trigger] p2[k],
            below_a_head(p1@, p2, i as int, j - s2, mx@[15]),
            out@.subrange(base as int, o as int).to_multiset().add(mx@.to_multiset())
                == loaded(p1@, p2, i as int, j - s2),
        decreases (n1 - i) + (e2 - j),
    {
        let ghost out1 = out@;
        let ghost o1 = o;
        let ghost i1 = i;
        let ghost j1 = j;
        let ghost r1 = j - s2;
        proof {
            if j < e2 {
                assert(out@[j as int] == p2[j - s2]);
            }
        }
        if i < n1 && j < e2 {
            if p1[i] < out[j] {
                mn = read(p1, &mut i);
            } else {
                mn = read(out, &mut j);
            }
        } else if i < n1 {
            mn = read(p1, &mut i);
        } else {
            mn = read(out, &mut j);
        }
        let ghost r = j - s2;
        proof {
            if j > j1 {
                assert(mn@ =~= p2.subrange(r1, r1 + 16));
            }
            assert(sorted(mn@)) by {
                assert forall|x: int, y: int| 0 <= x <= y < 16 implies mn@[x] <= mn@[y] by {
                    if i > i1 {
                        assert(mn@[x] == p1@[i1 + x] && mn@[y] == p1@[i1 + y]);
                    } else {
                        assert(mn@[x] == p2[r1 + x] && mn@[y] == p2[r1 + y]);
                    }
                }
            }
            if i > i1 {
                assert(mn@[0] == p1@[i1 as int]);
                assert forall|k: int| i <= k < n1 implies mn@[15] <= #[trigger] p1@[k] by {
                    assert(mn@[15] == p1@[i1 + 15]);
                }
                if r < n2 {
                    assert(mx@[15] <= p2[r]);
                }
                assert(p1@.subrange(0, i as int) =~= p1@.subrange(0, i1 as int) + mn@);
                vstd::seq_lib::lemma_multiset_commutative(p1@.subrange(0, i1 as int), mn@);
            } else {
                assert(mn@[0] == p2[r1]);
                assert forall|k: int| r <= k < n2 implies mn@[15] <= #[trigger] p2[k] by {
                    assert(mn@[15] == p2[r1 + 15]);
                }
                if i < n1 {
                    assert(mx@[15] <= p1@[i as int]);
                }
                assert(p2.subrange(0, r) =~= p2.subrange(0, r1) + mn@);
                vstd::seq_lib::lemma_multiset_commutative(p2.subrange(0, r1), mn@);
            }
        }
        let ghost mn1 = mn@;
        let ghost mx1 = mx@;
        merge_and_write(&mut mn, &mut mx, out, &mut o, Ghost(p1@), Ghost(p2), Ghost(i as int), Ghost(r), Ghost(base as int));
        proof {
            let pm = out1.subrange(base as int, o1 as int).to_multiset();
            assert(pm.add(mn1.to_multiset()).add(mx1.to_multiset()) =~= pm.add(mx1.to_multiset()).add(mn1.to_multiset()));
            if i > i1 {
                assert(loaded(p1@, p2, i as int, r) =~= loaded(p1@, p2, i1 as int, r).add(mn1.to_multiset()));
            } else {
                assert(loaded(p1@, p2, i as int, r) =~= loaded(p1@, p2, i as int, r1).add(mn1.to_multiset()));
            }
        }
    }
    let ghost out1 = out@;
    let ghost o1 = o;
    write(out, &mut o, &mx);
    proof {
        let prev = out1.subrange(base as int, o1 as int);
        assert(out@.subrange(base as int, o as int) =~= prev + mx@);
        lemma_sorted_concat(prev, mx@);
        vstd::seq_lib::lemma_multiset_commutative(prev, mx@);
        assert(p1@.subrange(0, n1 as int) =~= p1@);
        assert(p2.subrange(0, n2 as int) =~= p2);
        vstd::seq_lib::lemma_multiset_commutative(p1@, p2);
    }
}

/// Merge the sorted sequences `p1` and `p2`, each a positive multiple of 16
/// long, into `out`, which is exactly as long as both together: afterwards
/// `out` is in order and holds the values of `p1` and `p2`.
pub fn merge_sort_2(p1: &[u32], p2: &[u32], out: &mut [u32])
    requires
        p1@.len() >= 16,
        p1@.len() % 16 == 0,
        p2@.len() >= 16,
        p2@.len() % 16 == 0,
        sorted(p1@),
        sorted(p2@),
        old(out)@.len() == p1@.len() + p2@.len(),
    ensures
        final(out)@.len() == old(out)@.len(),
        sorted(final(out)@),
        final(out)@.to_multiset() == (p1@ + p2@).to_multiset(),
        final(out)@ == reference_sort(p1@ + p2@),
{
    let n1: usize = p1.len();
    copy_into(p2, out, n1);
    merge_in_place(p1, out, 0, p2.len());
    assert(out@.subrange(0, out@.len() as int) =~= out@);
    proof {
        lemma_sorted_is_reference(p1@ + p2@, out@);
    }
}

} // verus!
