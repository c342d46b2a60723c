//! Ranking of pixels by their dark-channel value and selection of the best
//! scoring candidate, as used by the atmospheric-light estimate.
use vstd::prelude::*;
use crate::float_bits::{F32Bits, key, lt, order_key, spec_is_nan, spec_lt, NEG_INF_BITS, lemma_le_iff_key_le};

verus! {

/// Pixel `a` comes before pixel `b`: its value is larger, or equal with a
/// smaller index (a stable sort, largest first).
pub open spec fn precedes(s: Seq<u32>, a: int, b: int) -> bool {
    order_key(s[a]) > order_key(s[b]) || (order_key(s[a]) == order_key(s[b]) && a < b)
}

/// The positions of `order` come in strictly increasing rank.
pub open spec fn ranked(s: Seq<u32>, order: Seq<usize>) -> bool {
    forall|p: int, q: int| 0 <= p < q < order.len() ==> precedes(s, #[trigger] order[p] as int, #[trigger] order[q] as int)
}

/// Every entry of `order` lies in `[lo, hi)`.
pub open spec fn all_in(order: Seq<usize>, lo: int, hi: int) -> bool {
    forall|t: int| 0 <= t < order.len() ==> lo <= #[trigger] order[t] < hi
}

/// Key order restricted to the sequence of precomputed keys.
spec fn precedes_k(k: Seq<u32>, a: int, b: int) -> bool {
    k[a] > k[b] || (k[a] == k[b] && a < b)
}

spec fn ranked_k(k: Seq<u32>, order: Seq<usize>) -> bool {
    forall|p: int, q: int| 0 <= p < q < order.len() ==> precedes_k(k, #[trigger] order[p] as int, #[trigger] order[q] as int)
}

fn merge(k: &Vec<u32>, a: Vec<usize>, b: Vec<usize>, Ghost(lo): Ghost<int>, Ghost(mid): Ghost<int>, Ghost(hi): Ghost<int>) -> (out: Vec<usize>)
    requires
        0 <= lo <= mid <= hi <= k.len(),
        a.len() == mid - lo,
        b.len() == hi - mid,
        ranked_k(k@, a@),
        ranked_k(k@, b@),
        all_in(a@, lo, mid),
        all_in(b@, mid, hi),
    ensures
        out.len() == a.len() + b.len(),
        all_in(out@, lo, hi),
        ranked_k(k@, out@),
        forall|t: int| 0 <= t < a.len() ==> out@.contains(#[trigger] a@[t]),
        forall|t: int| 0 <= t < b.len() ==> out@.contains(#[trigger] b@[t]),
{
    let mut out: Vec<usize> = Vec::with_capacity(a.len() + b.len());
    let mut i: usize = 0;
    let mut j: usize = 0;
    while i < a.len() || j < b.len()
        invariant
            0 <= lo <= mid <= hi <= k.len(),
            ranked_k(k@, a@),
            ranked_k(k@, b@),
            all_in(a@, lo, mid),
            all_in(b@, mid, hi),
            i <= a.len(),
            j <= b.len(),
            out.len() == i + j,
            all_in(out@, lo, hi),
            ranked_k(k@, out@),
            forall|t: int| 0 <= t < i ==> out@.contains(#[trigger] a@[t]),
            forall|t: int| 0 <= t < j ==> out@.contains(#[trigger] b@[t]),
            forall|t: int, u: int| 0 <= t < out.len() && i <= u < a.len() ==> precedes_k(k@, #[trigger] out@[t] as int, #[trigger] a@[u] as int),
            forall|t: int, u: int| 0 <= t < out.len() && j <= u < b.len() ==> precedes_k(k@, #[trigger] out@[t] as int, #[trigger] b@[u] as int),
        decreases a.len() + b.len() - i - j,
    {
        let take_a = if i < a.len() && j < b.len() {
            let x = a[i];
            let y = b[j];
            k[x] > k[y] || (k[x] == k[y] && x < y)
        } else {
            i < a.len()
        };
        let ghost prev = out@;
        if take_a {
            let e = a[i];
            out.push(e);
            proof {
                assert(out@[out.len() - 1] == e);
                assert forall|t: int| 0 <= t < i + 1 implies out@.contains(#[trigger] a@[t]) by {
                    if t < i {
                        let w = choose|w: int| 0 <= w < prev.len() && prev[w] == a@[t];
                        assert(out@[w] == a@[t]);
                    } else {
                        assert(out@[out.len() - 1] == a@[t]);
                    }
                }
                assert forall|t: int| 0 <= t < j implies out@.contains(#[trigger] b@[t]) by {
                    let w = choose|w: int| 0 <= w < prev.len() && prev[w] == b@[t];
                    assert(out@[w] == b@[t]);
                }
                assert forall|t: int, u: int| 0 <= t < out.len() && i + 1 <= u < a.len() implies precedes_k(k@, #[trigger] out@[t] as int, #[trigger] a@[u] as int) by {
                    if t < prev.len() {
                        assert(out@[t] == prev[t]);
                    }
                }
                assert forall|t: int, u: int| 0 <= t < out.len() && j <= u < b.len() implies precedes_k(k@, #[trigger] out@[t] as int, #[trigger] b@[u] as int) by {
                    if t < prev.len() {
                        assert(out@[t] == prev[t]);
                    } else {
                        if u > j {
                            assert(precedes_k(k@, b@[j as int] as int, b@[u] as int));
                        }
                    }
                }
                assert forall|p: int, q: int| 0 <= p < q < out.len() implies precedes_k(k@, #[trigger] out@[p] as int, #[trigger] out@[q] as int) by {
                    if q < prev.len() {
                        assert(out@[p] == prev[p] && out@[q] == prev[q]);
                    } else {
                        assert(out@[p] == prev[p]);
                    }
                }
            }
            i = i + 1;
        } else {
            let e = b[j];
            out.push(e);
            proof {
                assert(out@[out.len() - 1] == e);
                if i < a.len() {
                    assert(a@[i as int] < mid <= e);
                }
                assert forall|t: int| 0 <= t < i implies out@.contains(#[trigger] a@[t]) by {
                    let w = choose|w: int| 0 <= w < prev.len() && prev[w] == a@[t];
                    assert(out@[w] == a@[t]);
                }
                assert forall|t: int| 0 <= t < j + 1 implies out@.contains(#[trigger] b@[t]) by {
                    if t < j {
                        let w = choose|w: int| 0 <= w < prev.len() && prev[w] == b@[t];
                        assert(out@[w] == b@[t]);
                    } else {
                        assert(out@[out.len() - 1] == b@[t]);
                    }
                }
                assert forall|t: int, u: int| 0 <= t < out.len() && i <= u < a.len() implies precedes_k(k@, #[trigger] out@[t] as int, #[trigger] a@[u] as int) by {
                    if t < prev.len() {
                        assert(out@[t] == prev[t]);
                    } else {
                        if u > i {
                            assert(precedes_k(k@, a@[i as int] as int, a@[u] as int));
                        }
                    }
                }
                assert forall|t: int, u: int| 0 <= t < out.len() && j + 1 <= u < b.len() implies precedes_k(k@, #[trigger] out@[t] as int, #[trigger] b@[u] as int) by {
                    if t < prev.len() {
                        assert(out@[t] == prev[t]);
                    }
                }
                assert forall|p: int, q: int| 0 <= p < q < out.len() implies precedes_k(k@, #[trigger] out@[p] as int, #[trigger] out@[q] as int) by {
                    if q < prev.len() {
                        assert(out@[p] == prev[p] && out@[q] == prev[q]);
                    } else {
                        assert(out@[p] == prev[p]);
                    }
                }
            }
            j = j + 1;
        }
    }
    out
}

/// Stable merge sort of the positions `lo..hi` by key, largest key first.
fn sort_range(k: &Vec<u32>, lo: usize, hi: usize) -> (out: Vec<usize>)
    requires
        lo <= hi <= k.len(),
    ensures
        out.len() == hi - lo,
        all_in(out@, lo as int, hi as int),
        ranked_k(k@, out@),
        forall|j: usize| lo <= j < hi ==> #[trigger] out@.contains(j),
    decreases hi - lo,
{
    if hi - lo <= 1 {
        let mut out: Vec<usize> = Vec::new();
        if hi - lo == 1 {
            out.push(lo);
            assert(out@[0] == lo);
        }
        return out;
    }
    let mid = lo + (hi - lo) / 2;
    let left = sort_range(k, lo, mid);
    let right = sort_range(k, mid, hi);
    let ghost lv = left@;
    let ghost rv = right@;
    let out = merge(k, left, right, Ghost(lo as int), Ghost(mid as int), Ghost(hi as int));
    proof {
        assert forall|j: usize| lo <= j < hi implies #[trigger] out@.contains(j) by {
            if j < mid {
                assert(lv.contains(j));
                let t = choose|t: int| 0 <= t < lv.len() && lv[t] == j;
                assert(out@.contains(lv[t]));
            } else {
                assert(rv.contains(j));
                let t = choose|t: int| 0 <= t < rv.len() && rv[t] == j;
                assert(out@.contains(rv[t]));
            }
        }
    }
    out
}

/// All pixel positions, brightest dark-channel value first; pixels of equal
/// value keep their index order.
pub fn rank_by_darkness(dark: &Vec<F32Bits>) -> (order: Vec<usize>)
    ensures
        order.len() == dark.len(),
        all_in(order@, 0, dark.len() as int),
        forall|j: usize| j < dark.len() ==> #[trigger] order@.contains(j),
        ranked(dark@, order@),
{
    let n = dark.len();
    let mut k: Vec<u32> = Vec::with_capacity(n);
    let mut i: usize = 0;
    while i < n
        invariant
            n == dark.len(),
            i <= n,
            k.len() == i,
            forall|t: int| 0 <= t < i ==> #[trigger] k@[t] == order_key(dark@[t]),
        decreases n - i,
    {
        k.push(key(dark[i]));
        i = i + 1;
    }
    let order = sort_range(&k, 0, n);
    assert forall|p: int, q: int| 0 <= p < q < order.len() implies precedes(dark@, #[trigger] order@[p] as int, #[trigger] order@[q] as int) by {
        assert(precedes_k(k@, order@[p] as int, order@[q] as int));
    }
    order
}

proof fn lemma_ranked_prefix_equal(s: Seq<u32>, o1: Seq<usize>, o2: Seq<usize>, p: int)
    requires
        0 <= p <= s.len(),
        o1.len() == s.len(),
        o2.len() == s.len(),
        all_in(o1, 0, s.len() as int),
        all_in(o2, 0, s.len() as int),
        forall|j: usize| j < s.len() ==> #[trigger] o1.contains(j),
        forall|j: usize| j < s.len() ==> #[trigger] o2.contains(j),
        ranked(s, o1),
        ranked(s, o2),
    ensures
        forall|e: int| 0 <= e < p ==> o1[e] == o2[e],
    decreases p,
{
    if p > 0 {
        lemma_ranked_prefix_equal(s, o1, o2, p - 1);
        let a = o1[p - 1];
        let b = o2[p - 1];
        if a != b {
            assert(o2.contains(a));
            let q = choose|q: int| 0 <= q < o2.len() && o2[q] == a;
            assert(o1.contains(b));
            let q1 = choose|q: int| 0 <= q < o1.len() && o1[q] == b;
            if q < p - 1 {
                assert(o1[q] == a);
                assert(precedes(s, o1[q] as int, o1[p - 1] as int));
            }
            if q1 < p - 1 {
                assert(o2[q1] == b);
                assert(precedes(s, o2[q1] as int, o2[p - 1] as int));
            }
            assert(precedes(s, o2[p - 1] as int, o2[q] as int));
            assert(precedes(s, o1[p - 1] as int, o1[q1] as int));
        }
    }
}

/// The ranking is unique: two orders of all positions `0..n` that are both
/// ranked are the same order, so [`rank_by_darkness`] is fully determined by
/// the dark channel.
pub proof fn lemma_ranking_unique(s: Seq<u32>, o1: Seq<usize>, o2: Seq<usize>)
    requires
        o1.len() == s.len(),
        o2.len() == s.len(),
        all_in(o1, 0, s.len() as int),
        all_in(o2, 0, s.len() as int),
        forall|j: usize| j < s.len() ==> #[trigger] o1.contains(j),
        forall|j: usize| j < s.len() ==> #[trigger] o2.contains(j),
        ranked(s, o1),
        ranked(s, o2),
    ensures
        o1 == o2,
{
    lemma_ranked_prefix_equal(s, o1, o2, s.len() as int);
    assert(o1 =~= o2);
}

/// The first `sample_count` positions of [`rank_by_darkness`] (all of them
/// when there are fewer): the pixels with the largest dark-channel values.
pub fn airlight_candidates(dark: &Vec<F32Bits>, sample_count: usize) -> (cands: Vec<usize>)
    ensures
        cands.len() == (if sample_count < dark.len() {
            sample_count as int
        } else {
            dark.len() as int
        }),
        all_in(cands@, 0, dark.len() as int),
        ranked(dark@, cands@),
        forall|j: usize, t: int| j < dark.len() && !#[trigger] cands@.contains(j) && 0 <= t < cands.len() ==> precedes(dark@, #[trigger] cands@[t] as int, j as int),
{
    let mut order = rank_by_darkness(dark);
    let ghost full = order@;
    let m = if sample_count < order.len() {
        sample_count
    } else {
        order.len()
    };
    order.truncate(m);
    proof {
        assert(order@ == full.take(m as int));
        assert forall|j: usize, t: int| j < dark.len() && !#[trigger] order@.contains(j) && 0 <= t < order.len() implies precedes(dark@, #[trigger] order@[t] as int, j as int) by {
            assert(full.contains(j));
            let w = choose|w: int| 0 <= w < full.len() && full[w] == j;
            if w < m {
                assert(order@[w] == j);
            }
            assert(full[t] == order@[t]);
        }
    }
    order
}

/// `p` holds the first largest number of `scores` that is above minus
/// infinity (NaNs never count).
pub open spec fn is_first_best(scores: Seq<u32>, p: int) -> bool {
    &&& 0 <= p < scores.len()
    &&& spec_lt(NEG_INF_BITS, scores[p])
    &&& forall|q: int| 0 <= q < scores.len() && !spec_is_nan(#[trigger] scores[q]) ==> order_key(scores[q]) <= order_key(scores[p])
    &&& forall|q: int| 0 <= q < p && !spec_is_nan(#[trigger] scores[q]) ==> order_key(scores[q]) < order_key(scores[p])
}

/// Some score is a number above minus infinity.
pub open spec fn has_finite_best(scores: Seq<u32>) -> bool {
    exists|q: int| 0 <= q < scores.len() && spec_lt(NEG_INF_BITS, #[trigger] scores[q])
}

/// Position of the winning candidate: starting from minus infinity, a
/// score replaces the best so far only when it is strictly larger. The
/// first largest score wins; without any score above minus infinity the
/// first candidate is kept.
pub fn pick_best(scores: &Vec<F32Bits>) -> (p: usize)
    ensures
        has_finite_best(scores@) ==> is_first_best(scores@, p as int),
        !has_finite_best(scores@) ==> p == 0,
{
    let mut best_pos: usize = 0;
    let mut best: u32 = NEG_INF_BITS;
    let mut q: usize = 0;
    while q < scores.len()
        invariant
            q <= scores.len(),
            !spec_is_nan(best),
            best == NEG_INF_BITS <==> !(exists|t: int| 0 <= t < q && spec_lt(NEG_INF_BITS, #[trigger] scores@[t])),
            best != NEG_INF_BITS ==> best == scores@[best_pos as int] && is_first_best(scores@.take(q as int), best_pos as int),
            best == NEG_INF_BITS ==> best_pos == 0,
        decreases scores.len() - q,
    {
        let v = scores[q];
        let ghost prefix = scores@.take(q as int);
        let ghost next = scores@.take(q + 1);
        proof {
            lemma_le_iff_key_le(best, best);
            if !spec_is_nan(v) {
                lemma_le_iff_key_le(best, v);
                lemma_le_iff_key_le(NEG_INF_BITS, v);
            }
            assert forall|t: int| 0 <= t < q implies #[trigger] next[t] == prefix[t] by {}
            assert(next[q as int] == v);
        }
        if lt(best, v) {
            best = v;
            best_pos = q;
            proof {
                assert(spec_lt(NEG_INF_BITS, scores@[q as int]));
                assert forall|t: int| 0 <= t < q + 1 && !spec_is_nan(#[trigger] next[t]) implies order_key(next[t]) <= order_key(next[q as int]) by {
                    if t < q {
                        assert(next[t] == prefix[t]);
                        lemma_le_iff_key_le(NEG_INF_BITS, next[t]);
                    }
                }
                assert forall|t: int| 0 <= t < q && !spec_is_nan(#[trigger] next[t]) implies order_key(next[t]) < order_key(next[q as int]) by {
                    assert(next[t] == prefix[t]);
                    lemma_le_iff_key_le(NEG_INF_BITS, next[t]);
                }
                assert(is_first_best(next, q as int));
            }
        } else {
            proof {
                if best != NEG_INF_BITS {
                    assert forall|t: int| 0 <= t < q + 1 && !spec_is_nan(#[trigger] next[t]) implies order_key(next[t]) <= order_key(next[best_pos as int]) by {
                        if t < q {
                            assert(next[t] == prefix[t]);
                        }
                    }
                    assert forall|t: int| 0 <= t < best_pos && !spec_is_nan(#[trigger] next[t]) implies order_key(next[t]) < order_key(next[best_pos as int]) by {
                        assert(next[t] == prefix[t]);
                    }
                    assert(is_first_best(next, best_pos as int));
                } else {
                    assert(!spec_lt(NEG_INF_BITS, v));
                }
            }
        }
        q = q + 1;
    }
    proof {
        assert(scores@.take(q as int) =~= scores@);
    }
    best_pos
}

} // verus!
