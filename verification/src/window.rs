//! Clamped windows and sliding-window minima (the erosion behind the dark
//! channel), on binary32 samples given by their bit patterns. Samples are
//! compared with binary32 `<=`, NaNs included: [`window_pick`] states which
//! sample of a window the minimum gives.
use vstd::prelude::*;
use std::collections::VecDeque;
use crate::float_bits::{F32Bits, le, min, spec_le, spec_min, spec_is_nan, order_key, no_nan, lemma_le_iff_key_le};
use crate::image::{Image, pixel_index, lemma_grid_index, lemma_grid_split};

verus! {

/// First position of the window of radius `r` around `k`, clamped at 0.
pub open spec fn span_lo(k: int, r: int) -> int {
    if k >= r {
        k - r
    } else {
        0
    }
}

/// Last position of the window of radius `r` around `k` in a line of `n`
/// samples, clamped at `n - 1`.
pub open spec fn span_hi(k: int, r: int, n: int) -> int {
    if k + r <= n - 1 {
        k + r
    } else {
        n - 1
    }
}

/// The window `[k - r, k + r]` around position `k`, clipped to `0..n`:
/// returns its first and last positions.
pub fn clamped_span(k: usize, r: usize, n: usize) -> (span: (usize, usize))
    requires
        k < n,
    ensures
        span.0 == span_lo(k as int, r as int),
        span.1 == span_hi(k as int, r as int, n as int),
        span.0 <= k <= span.1 < n,
{
    let lo = if k >= r {
        k - r
    } else {
        0
    };
    let hi = if r <= n - 1 - k {
        k + r
    } else {
        n - 1
    };
    (lo, hi)
}

/// Position of the first smallest sample of `s[lo..=hi]` (samples compared
/// by [`order_key`]).
pub open spec fn leftmost_min(s: Seq<u32>, lo: int, hi: int) -> int
    decreases hi - lo,
{
    if lo >= hi {
        lo
    } else {
        let m = leftmost_min(s, lo + 1, hi);
        if order_key(s[lo]) <= order_key(s[m]) {
            lo
        } else {
            m
        }
    }
}

/// `m` is the first position of a smallest sample of `s[lo..=hi]`.
pub open spec fn is_leftmost_min(s: Seq<u32>, lo: int, hi: int, m: int) -> bool {
    &&& lo <= m <= hi
    &&& forall|k: int| lo <= k <= hi ==> order_key(s[m]) <= order_key(#[trigger] s[k])
    &&& forall|k: int| lo <= k < m ==> order_key(s[m]) < order_key(#[trigger] s[k])
}

/// `s[j]` is `<=` every later sample of `s[..=hi]`, with `<=` as binary32
/// values compare (false as soon as either side is NaN).
pub open spec fn le_all_after(s: Seq<u32>, j: int, hi: int) -> bool {
    forall|j2: int| j < j2 <= hi ==> spec_le(s[j], #[trigger] s[j2])
}

/// Position of the sample that the window minimum picks from `s[lo..=hi]`:
/// the first position whose sample is `<=` every later sample of the window
/// (`hi` itself when no earlier one is). Without NaNs this is the first
/// smallest sample ([`lemma_window_pick_is_leftmost_min`]). A NaN compares
/// `<=` to nothing, so no sample before a NaN of the window is picked, and a
/// NaN in the last place is picked itself.
pub open spec fn window_pick(s: Seq<u32>, lo: int, hi: int) -> int
    decreases hi - lo,
{
    if lo >= hi || le_all_after(s, lo, hi) {
        lo
    } else {
        window_pick(s, lo + 1, hi)
    }
}

/// The sample that the window minimum gives for the clipped window of radius
/// `r` around `k` (see [`window_pick`]).
pub open spec fn line_window_min(s: Seq<u32>, k: int, r: int) -> u32 {
    s[window_pick(s, span_lo(k, r), span_hi(k, r, s.len() as int))]
}

/// Sliding-window minimum of a whole line.
pub open spec fn sliding_min_spec(s: Seq<u32>, r: int) -> Seq<u32> {
    Seq::new(s.len(), |k: int| line_window_min(s, k, r))
}

/// `v` is one of the samples of the clipped window of radius `r` around `k`.
pub open spec fn in_window(s: Seq<u32>, k: int, r: int, v: u32) -> bool {
    exists|j: int| span_lo(k, r) <= j <= span_hi(k, r, s.len() as int) && s[j] == v
}

/// The monotone queue of candidate positions: the increasing positions of
/// `[lb, end)` whose samples are `<=` every later sample before `end`.
pub open spec fn queue_ok(s: Seq<u32>, d: Seq<usize>, lb: int, end: int) -> bool {
    &&& forall|a: int, b: int| 0 <= a < b < d.len() ==> d[a] < d[b]
    &&& forall|a: int| 0 <= a < d.len() ==> lb <= #[trigger] d[a] < end
    &&& end > lb ==> d.len() > 0 && d.last() == end - 1
    &&& forall|j: int| lb <= j < end ==> (d.contains(j as usize) <==> #[trigger] le_all_after(s, j, end - 1))
}

/// [`window_pick`] is the first position of the window whose sample is `<=`
/// every later sample of the window.
pub proof fn lemma_window_pick(s: Seq<u32>, lo: int, hi: int)
    requires
        lo <= hi,
    ensures
        lo <= window_pick(s, lo, hi) <= hi,
        le_all_after(s, window_pick(s, lo, hi), hi),
        forall|j: int| lo <= j < window_pick(s, lo, hi) ==> !le_all_after(s, j, hi),
    decreases hi - lo,
{
    if lo < hi && !le_all_after(s, lo, hi) {
        lemma_window_pick(s, lo + 1, hi);
    }
}

/// [`leftmost_min`] is the first position of a smallest sample.
pub proof fn lemma_leftmost_min(s: Seq<u32>, lo: int, hi: int)
    requires
        lo <= hi,
    ensures
        is_leftmost_min(s, lo, hi, leftmost_min(s, lo, hi)),
    decreases hi - lo,
{
    if lo < hi {
        lemma_leftmost_min(s, lo + 1, hi);
    }
}

/// Without NaNs in the window, the window minimum picks the first smallest
/// sample of the window.
pub proof fn lemma_window_pick_is_leftmost_min(s: Seq<u32>, lo: int, hi: int)
    requires
        0 <= lo <= hi < s.len(),
        forall|j: int| lo <= j <= hi ==> !spec_is_nan(#[trigger] s[j]),
    ensures
        window_pick(s, lo, hi) == leftmost_min(s, lo, hi),
{
    lemma_leftmost_min(s, lo, hi);
    lemma_window_pick(s, lo, hi);
    let m = leftmost_min(s, lo, hi);
    let p = window_pick(s, lo, hi);
    assert forall|j2: int| m < j2 <= hi implies spec_le(s[m], #[trigger] s[j2]) by {
        lemma_le_iff_key_le(s[m], s[j2]);
    }
    assert(le_all_after(s, m, hi));
    if p < m {
        lemma_le_iff_key_le(s[p], s[m]);
        assert(spec_le(s[p], s[m]));
    }
}

/// Admits position `ra` into the monotone queue `dq`: drops the candidates
/// from the back while the back's sample is not `<=` the sample at `ra`, then
/// appends `ra`.
fn queue_admit(line: &Vec<F32Bits>, dq: &mut VecDeque<usize>, lb: usize, ra: usize)
    requires
        lb <= ra < line.len(),
        queue_ok(line@, old(dq)@, lb as int, ra as int),
    ensures
        queue_ok(line@, final(dq)@, lb as int, ra + 1),
{
    let ghost s = line@;
    let ghost d0 = dq@;
    let ghost e = s[ra as int];
    while dq.len() > 0 && !le(line[dq[dq.len() - 1]], line[ra])
        invariant
            s == line@,
            ra < line.len(),
            e == s[ra as int],
            forall|a: int| 0 <= a < d0.len() ==> lb <= #[trigger] d0[a] < ra,
            dq@.len() <= d0.len(),
            dq@ == d0.take(dq@.len() as int),
            forall|t: int| dq@.len() <= t < d0.len() ==> !spec_le(#[trigger] s[d0[t] as int], e),
        decreases dq@.len(),
    {
        let ghost t = dq@.len() - 1;
        assert(dq@[t] == d0[t]);
        dq.pop_back();
        assert(dq@ == d0.take(dq@.len() as int));
    }
    let ghost m = dq@.len();
    let ghost dc = dq@;
    proof {
        if m > 0 {
            assert(dc[m - 1] == d0[m - 1]);
        }
    }
    dq.push_back(ra);
    let ghost dn = dq@;
    assert(dn == dc.push(ra));
    proof {
        assert forall|a: int, b: int| 0 <= a < b < dn.len() implies dn[a] < dn[b] by {
            if b < dn.len() - 1 {
                assert(dn[a] == d0[a] && dn[b] == d0[b]);
            } else {
                assert(dn[a] == d0[a]);
            }
        }
        assert forall|a: int| 0 <= a < dn.len() implies lb <= #[trigger] dn[a] < ra + 1 by {
            if a < dn.len() - 1 {
                assert(dn[a] == d0[a]);
            }
        }
        assert forall|j: int| lb <= j < ra + 1 implies (dn.contains(j as usize)
            <==> #[trigger] le_all_after(s, j, ra as int)) by {
            if j == ra {
                assert(dn[dn.len() - 1] == j);
            } else {
                if dn.contains(j as usize) {
                    let a = choose|a: int| 0 <= a < dn.len() && dn[a] == j as usize;
                    assert(a < m);
                    assert(dc[a] == d0[a]);
                    assert(d0.contains(j as usize));
                    assert(le_all_after(s, j, ra - 1));
                    if a < m - 1 {
                        assert(d0[a] < d0[m - 1]);
                        assert(spec_le(s[j], s[d0[m - 1] as int]));
                    }
                    assert(spec_le(s[j], e));
                    assert forall|j2: int| j < j2 <= ra implies spec_le(s[j], #[trigger] s[j2]) by {
                        if j2 < ra {
                        }
                    }
                }
                if le_all_after(s, j, ra as int) {
                    assert forall|j2: int| j < j2 <= ra - 1 implies spec_le(s[j], #[trigger] s[j2]) by {
                        assert(j < j2 <= ra);
                    }
                    assert(le_all_after(s, j, ra - 1));
                    assert(d0.contains(j as usize));
                    let a = choose|a: int| 0 <= a < d0.len() && d0[a] == j as usize;
                    assert(spec_le(s[j], s[ra as int]));
                    assert(a < m);
                    assert(dn[a] == d0[a]);
                }
            }
        }
    }
}

/// Retires the candidates left of position `left` from the front of the
/// queue, whose front then holds the first position of the window.
fn queue_retire(dq: &mut VecDeque<usize>, left: usize, Ghost(s): Ghost<Seq<u32>>, Ghost(lb): Ghost<int>, Ghost(end): Ghost<int>)
    requires
        lb <= left < end,
        queue_ok(s, old(dq)@, lb, end),
    ensures
        final(dq)@.len() > 0,
        queue_ok(s, final(dq)@, left as int, end),
{
    let ghost d1 = dq@;
    while dq[0] < left
        invariant
            d1.len() > 0 && d1.last() == end - 1,
            forall|a: int, b: int| 0 <= a < b < d1.len() ==> d1[a] < d1[b],
            0 < dq@.len() <= d1.len(),
            dq@ == d1.skip(d1.len() - dq@.len()),
            forall|t: int| 0 <= t < d1.len() - dq@.len() ==> d1[t] < left,
            left < end,
        decreases dq@.len(),
    {
        proof {
            let k = d1.len() - dq@.len();
            assert(dq@[0] == d1[k]);
            if dq@.len() == 1 {
                assert(d1[k] == end - 1);
            }
        }
        dq.pop_front();
        assert(dq@ == d1.skip(d1.len() - dq@.len()));
    }
    let ghost dq2 = dq@;
    let ghost k = d1.len() - dq2.len();
    proof {
        assert(dq2[0] == d1[k]);
        assert forall|a: int, b: int| 0 <= a < b < dq2.len() implies dq2[a] < dq2[b] by {
            assert(dq2[a] == d1[a + k] && dq2[b] == d1[b + k]);
        }
        assert forall|a: int| 0 <= a < dq2.len() implies left <= #[trigger] dq2[a] < end by {
            assert(dq2[a] == d1[a + k]);
            assert(d1[k] <= dq2[a]);
        }
        assert(dq2.last() == d1.last());
        assert forall|j: int| left <= j < end implies (dq2.contains(j as usize)
            <==> #[trigger] le_all_after(s, j, end - 1)) by {
            if dq2.contains(j as usize) {
                let a = choose|a: int| 0 <= a < dq2.len() && dq2[a] == j as usize;
                assert(d1[a + k] == j);
            }
            if d1.contains(j as usize) {
                let a = choose|a: int| 0 <= a < d1.len() && d1[a] == j as usize;
                if a < k {
                    assert(d1[a] < left);
                }
                assert(dq2[a - k] == j);
            }
        }
    }
}

/// The front of a queue over the window `[left, end)` is the position that
/// the window minimum picks.
proof fn lemma_queue_front(s: Seq<u32>, d: Seq<usize>, left: int, end: int)
    requires
        0 <= left < end <= s.len() <= usize::MAX,
        queue_ok(s, d, left, end),
    ensures
        d.len() > 0,
        d[0] == window_pick(s, left, end - 1),
{
    lemma_window_pick(s, left, end - 1);
    let p = window_pick(s, left, end - 1);
    assert(d.contains(p as usize));
    let a = choose|a: int| 0 <= a < d.len() && d[a] == p as usize;
    if a > 0 {
        assert(d[0] < d[a]);
    }
    assert(d.contains(d[0]));
    assert(le_all_after(s, d[0] as int, end - 1));
}

/// Sliding-window minimum of one line, by a monotone queue of candidate
/// positions: sample `k` of the result is the sample that [`window_pick`]
/// picks from the samples within distance `r` of position `k`; without NaNs,
/// the first smallest of them.
pub fn sliding_min_line(line: &Vec<F32Bits>, r: usize) -> (out: Vec<F32Bits>)
    ensures
        out.len() == line.len(),
        forall|k: int| 0 <= k < line.len() ==> in_window(line@, k, r as int, #[trigger] out@[k]),
        out@ == sliding_min_spec(line@, r as int),
{
    let n = line.len();
    let ghost s = line@;
    let mut dq: VecDeque<usize> = VecDeque::new();
    let mut ra: usize = 0;
    let mut lb: usize = 0;
    let mut out: Vec<F32Bits> = Vec::with_capacity(n);
    let mut x: usize = 0;
    while x < n
        invariant
            n == line.len(),
            s == line@,
            x <= n,
            lb <= ra <= n,
            x == 0 ==> ra == 0 && lb == 0,
            x > 0 ==> ra == span_hi(x - 1, r as int, n as int) + 1 && lb == span_lo(x - 1, r as int),
            queue_ok(s, dq@, lb as int, ra as int),
            out.len() == x,
            forall|k: int| 0 <= k < x ==> in_window(s, k, r as int, #[trigger] out@[k]),
            forall|k: int| 0 <= k < x ==> #[trigger] out@[k] == line_window_min(s, k, r as int),
        decreases n - x,
    {
        let (left, right) = clamped_span(x, r, n);
        while ra <= right
            invariant
                n == line.len(),
                s == line@,
                x < n,
                right == span_hi(x as int, r as int, n as int),
                left == span_lo(x as int, r as int),
                lb <= left,
                lb <= ra <= right + 1,
                queue_ok(s, dq@, lb as int, ra as int),
            decreases right + 1 - ra,
        {
            queue_admit(line, &mut dq, lb, ra);
            ra = ra + 1;
        }
        queue_retire(&mut dq, left, Ghost(s), Ghost(lb as int), Ghost(ra as int));
        let front = dq[0];
        proof {
            assert(left <= front < ra);
            lemma_queue_front(s, dq@, left as int, ra as int);
        }
        out.push(line[front]);
        assert(in_window(s, x as int, r as int, out@[x as int]));
        lb = left;
        x = x + 1;
    }
    assert(out@ == sliding_min_spec(s, r as int));
    out
}

/// Row `y` of a row-major grid of width `w`.
pub open spec fn row_of(s: Seq<u32>, w: int, y: int) -> Seq<u32> {
    s.subrange(y * w, y * w + w)
}

/// Column `x` of a row-major grid of width `w` and height `h`.
pub open spec fn col_of(s: Seq<u32>, w: int, h: int, x: int) -> Seq<u32> {
    Seq::new(h as nat, |k: int| s[pixel_index(w, x, k)])
}

/// Each sample replaced by the minimum of its row window.
pub open spec fn horizontal_min_spec(s: Seq<u32>, w: int, h: int, r: int) -> Seq<u32> {
    Seq::new((w * h) as nat, |i: int| line_window_min(row_of(s, w, i / w), i % w, r))
}

/// Each sample replaced by the minimum of its column window.
pub open spec fn vertical_min_spec(s: Seq<u32>, w: int, h: int, r: int) -> Seq<u32> {
    Seq::new((w * h) as nat, |i: int| line_window_min(col_of(s, w, h, i % w), i / w, r))
}

/// The square minimum filter of radius `r`: rows first, then columns.
pub open spec fn min_filter_spec(s: Seq<u32>, w: int, h: int, r: int) -> Seq<u32> {
    if r == 0 {
        s
    } else {
        vertical_min_spec(horizontal_min_spec(s, w, h, r), w, h, r)
    }
}

/// `v` is one of the samples of `s`.
pub open spec fn is_sample(s: Seq<u32>, v: u32) -> bool {
    exists|j: int| 0 <= j < s.len() && #[trigger] s[j] == v
}

/// Every sample of `out` is one of the samples of `s`.
pub open spec fn drawn_from(out: Seq<u32>, s: Seq<u32>) -> bool {
    forall|i: int| 0 <= i < out.len() ==> is_sample(s, #[trigger] out[i])
}

proof fn lemma_drawn_from_transitive(a: Seq<u32>, b: Seq<u32>, c: Seq<u32>)
    requires
        drawn_from(a, b),
        drawn_from(b, c),
    ensures
        drawn_from(a, c),
{
    assert forall|i: int| 0 <= i < a.len() implies is_sample(c, a[i]) by {
        assert(is_sample(b, a[i]));
        let k = choose|k: int| 0 <= k < b.len() && #[trigger] b[k] == a[i];
        assert(is_sample(c, b[k]));
        let j = choose|j: int| 0 <= j < c.len() && #[trigger] c[j] == b[k];
        assert(c[j] == a[i]);
    }
}

proof fn lemma_window_sample_not_nan(s: Seq<u32>, k: int, r: int, v: u32)
    requires
        no_nan(s),
        in_window(s, k, r, v),
    ensures
        !spec_is_nan(v),
{
    let j = choose|j: int| span_lo(k, r) <= j <= span_hi(k, r, s.len() as int) && s[j] == v;
    assert(0 <= j);
}

/// Minimum over the row window of every sample of a row-major grid (each
/// row through [`sliding_min_line`]).
pub fn sliding_min_horizontal(width: usize, height: usize, input: &Vec<F32Bits>, radius: usize) -> (out: Vec<F32Bits>)
    requires
        width * height == input.len(),
    ensures
        out.len() == input.len(),
        out@ == horizontal_min_spec(input@, width as int, height as int, radius as int),
        no_nan(input@) ==> no_nan(out@),
        drawn_from(out@, input@),
{
    let ghost s = input@;
    let ghost w = width as int;
    if width == 0 {
        assert(horizontal_min_spec(s, w, height as int, radius as int) =~= Seq::<u32>::empty());
        return Vec::new();
    }
    let mut out: Vec<F32Bits> = Vec::with_capacity(input.len());
    let mut y: usize = 0;
    while y < height
        invariant
            s == input@,
            w == width,
            width > 0,
            width * height == input.len(),
            y <= height,
            out.len() == y * width,
            forall|i: int| 0 <= i < out.len() ==> #[trigger] out@[i]
                == line_window_min(row_of(s, w, i / w), i % w, radius as int),
            no_nan(s) ==> no_nan(out@),
            drawn_from(out@, s),
        decreases height - y,
    {
        proof {
            lemma_grid_index(w, height as int, 0, y as int);
        }
        let start = y * width;
        let mut row: Vec<F32Bits> = Vec::with_capacity(width);
        let mut k: usize = 0;
        while k < width
            invariant
                s == input@,
                width * height == input.len(),
                y < height,
                start == y * width,
                start + width <= input.len(),
                k <= width,
                row@ == s.subrange(start as int, start + k),
            decreases width - k,
        {
            row.push(input[start + k]);
            k = k + 1;
        }
        assert(row@ == row_of(s, w, y as int));
        let mins = sliding_min_line(&row, radius);
        proof {
            if no_nan(s) {
                assert forall|j: int| 0 <= j < row@.len() implies !spec_is_nan(#[trigger] row@[j]) by {
                    assert(row@[j] == s[start + j]);
                }
            }
        }
        let mut k: usize = 0;
        while k < width
            invariant
                s == input@,
                w == width,
                width * height == input.len(),
                y < height,
                start == y * width,
                start + width <= input.len(),
                k <= width,
                row@ == row_of(s, w, y as int),
                mins.len() == width,
                no_nan(s) ==> no_nan(row@),
                mins@ == sliding_min_spec(row@, radius as int),
                forall|j: int| 0 <= j < width ==> in_window(row@, j, radius as int, #[trigger] mins@[j]),
                out.len() == start + k,
                forall|i: int| 0 <= i < out.len() ==> #[trigger] out@[i]
                    == line_window_min(row_of(s, w, i / w), i % w, radius as int),
                no_nan(s) ==> no_nan(out@),
                drawn_from(out@, s),
            decreases width - k,
        {
            let ghost prev = out@;
            out.push(mins[k]);
            proof {
                lemma_grid_index(w, height as int, k as int, y as int);
                assert forall|i: int| 0 <= i < out@.len() implies is_sample(s, out@[i]) by {
                    if i < out.len() - 1 {
                        assert(out@[i] == prev[i]);
                        let j = choose|j: int| 0 <= j < s.len() && #[trigger] s[j] == prev[i];
                        assert(s[j] == out@[i]);
                    } else {
                        let j = choose|j: int| span_lo(k as int, radius as int) <= j <= span_hi(k as int, radius as int, row@.len() as int) && row@[j] == mins@[k as int];
                        assert(row@[j] == s[start + j]);
                        assert(s[start + j] == out@[i]);
                    }
                }
                if no_nan(s) {
                    lemma_window_sample_not_nan(row@, k as int, radius as int, mins@[k as int]);
                    assert forall|i: int| 0 <= i < out.len() implies !spec_is_nan(#[trigger] out@[i]) by {
                        if i < out.len() - 1 {
                            assert(out@[i] == prev[i]);
                        }
                    }
                }
            }
            k = k + 1;
        }
        proof {
            lemma_grid_index(w, height as int, 0, y as int);
            assert((y + 1) * width == y * width + width) by (nonlinear_arith);
        }
        y = y + 1;
    }
    proof {
        assert(height * width == width * height) by (nonlinear_arith);
        assert(out@ =~= horizontal_min_spec(s, w, height as int, radius as int));
    }
    out
}

/// Minimum over the column window of every sample of a row-major grid (each
/// column through [`sliding_min_line`]).
pub fn sliding_min_vertical(width: usize, height: usize, input: &Vec<F32Bits>, radius: usize) -> (out: Vec<F32Bits>)
    requires
        width * height == input.len(),
    ensures
        out.len() == input.len(),
        out@ == vertical_min_spec(input@, width as int, height as int, radius as int),
        no_nan(input@) ==> no_nan(out@),
        drawn_from(out@, input@),
{
    let ghost s = input@;
    let ghost w = width as int;
    let ghost h = height as int;
    let n = input.len();
    if width == 0 {
        assert(vertical_min_spec(s, w, h, radius as int) =~= Seq::<u32>::empty());
        return Vec::new();
    }
    let mut out: Vec<F32Bits> = Vec::with_capacity(n);
    let mut i: usize = 0;
    while i < n
        invariant
            i <= n,
            out@ == Seq::new(i as nat, |k: int| 0u32),
        decreases n - i,
    {
        out.push(0);
        i = i + 1;
    }
    let mut x: usize = 0;
    while x < width
        invariant
            s == input@,
            w == width,
            h == height,
            width > 0,
            n == input.len(),
            width * height == n,
            x <= width,
            out.len() == n,
            forall|i: int| 0 <= i < n && i % w < x ==> #[trigger] out@[i]
                == line_window_min(col_of(s, w, h, i % w), i / w, radius as int),
            no_nan(s) ==> no_nan(out@),
            forall|i: int| 0 <= i < n && i % w < x ==> is_sample(s, out@[i]),
        decreases width - x,
    {
        let mut col: Vec<F32Bits> = Vec::with_capacity(height);
        let mut k: usize = 0;
        while k < height
            invariant
                s == input@,
                w == width,
                h == height,
                n == input.len(),
                width * height == n,
                x < width,
                k <= height,
                col@ == Seq::new(k as nat, |j: int| s[pixel_index(w, x as int, j)]),
            decreases height - k,
        {
            proof {
                lemma_grid_index(w, h, x as int, k as int);
            }
            col.push(input[k * width + x]);
            k = k + 1;
        }
        assert(col@ =~= col_of(s, w, h, x as int));
        proof {
            if no_nan(s) {
                assert forall|j: int| 0 <= j < col@.len() implies !spec_is_nan(#[trigger] col@[j]) by {
                    lemma_grid_index(w, h, x as int, j);
                }
            }
        }
        let mins = sliding_min_line(&col, radius);
        let mut k: usize = 0;
        while k < height
            invariant
                s == input@,
                w == width,
                h == height,
                width > 0,
                n == input.len(),
                width * height == n,
                x < width,
                k <= height,
                col@ == col_of(s, w, h, x as int),
                mins.len() == height,
                no_nan(s) ==> no_nan(col@),
                mins@ == sliding_min_spec(col@, radius as int),
                forall|j: int| 0 <= j < height ==> in_window(col@, j, radius as int, #[trigger] mins@[j]),
                out.len() == n,
                forall|i: int| 0 <= i < n && (i % w < x || (i % w == x && i / w < k)) ==> #[trigger] out@[i]
                    == line_window_min(col_of(s, w, h, i % w), i / w, radius as int),
                no_nan(s) ==> no_nan(out@),
                forall|i: int| 0 <= i < n && (i % w < x || (i % w == x && i / w < k)) ==> is_sample(s, out@[i]),
            decreases height - k,
        {
            proof {
                lemma_grid_index(w, h, x as int, k as int);
            }
            let pos = k * width + x;
            let ghost prev = out@;
            out.set(pos, mins[k]);
            proof {
                assert forall|i: int| 0 <= i < n && (i % w < x || (i % w == x && i / w < k + 1)) implies is_sample(s, out@[i]) by {
                    if i != pos {
                        assert(out@[i] == prev[i]);
                        if i % w == x && i / w == k {
                            lemma_grid_split(w, h, i);
                        }
                        let j = choose|j: int| 0 <= j < n && #[trigger] s[j] == prev[i];
                        assert(s[j] == out@[i]);
                    } else {
                        let jj = choose|jj: int| span_lo(k as int, radius as int) <= jj <= span_hi(k as int, radius as int, col@.len() as int) && col@[jj] == mins@[k as int];
                        lemma_grid_index(w, h, x as int, jj);
                        assert(col@[jj] == s[pixel_index(w, x as int, jj)]);
                        assert(s[pixel_index(w, x as int, jj)] == out@[i]);
                    }
                }
                if no_nan(s) {
                    lemma_window_sample_not_nan(col@, k as int, radius as int, mins@[k as int]);
                    assert forall|i: int| 0 <= i < n implies !spec_is_nan(#[trigger] out@[i]) by {
                        if i != pos {
                            assert(out@[i] == prev[i]);
                        }
                    }
                }
                assert forall|i: int| 0 <= i < n && (i % w < x || (i % w == x && i / w < k + 1)) implies #[trigger] out@[i]
                    == line_window_min(col_of(s, w, h, i % w), i / w, radius as int) by {
                    if i != pos {
                        assert(out@[i] == prev[i]);
                        if i % w == x && i / w == k {
                            lemma_grid_split(w, h, i);
                        }
                    }
                }
            }
            k = k + 1;
        }
        proof {
            assert forall|i: int| 0 <= i < n && i % w < x + 1 implies #[trigger] out@[i]
                == line_window_min(col_of(s, w, h, i % w), i / w, radius as int) by {
                lemma_grid_split(w, h, i);
            }
            assert forall|i: int| 0 <= i < n && i % w < x + 1 implies is_sample(s, out@[i]) by {
                lemma_grid_split(w, h, i);
            }
        }
        x = x + 1;
    }
    proof {
        assert forall|i: int| 0 <= i < n implies #[trigger] out@[i]
            == line_window_min(col_of(s, w, h, i % w), i / w, radius as int) by {
            lemma_grid_split(w, h, i);
        }
        assert(out@ =~= vertical_min_spec(s, w, h, radius as int));
        assert forall|i: int| 0 <= i < out@.len() implies is_sample(s, out@[i]) by {
            lemma_grid_split(w, h, i);
            assert(i % w < x);
            assert(is_sample(s, out@[i]));
        }
        assert(drawn_from(out@, s));
    }
    out
}

/// Square minimum filter (erosion) of radius `radius` over a row-major grid
/// of samples: the row minima, then the column minima of those. Without NaNs
/// each sample becomes the smallest sample of the clipped
/// `(2 radius + 1)`-wide square around it ([`lemma_min_filter_is_square_min`]).
/// Radius 0 leaves the grid as is.
pub fn min_filter_gray(width: usize, height: usize, input: &Vec<F32Bits>, radius: usize) -> (out: Vec<F32Bits>)
    requires
        width * height == input.len(),
    ensures
        out.len() == input.len(),
        out@ == min_filter_spec(input@, width as int, height as int, radius as int),
        no_nan(input@) ==> no_nan(out@),
        drawn_from(out@, input@),
{
    if radius == 0 {
        let out = input.clone();
        assert(out@ == input@);
        assert forall|i: int| 0 <= i < out@.len() implies is_sample(input@, out@[i]) by {
            assert(input@[i] == out@[i]);
        }
        assert(drawn_from(out@, input@));
        return out;
    }
    let horizontal = sliding_min_horizontal(width, height, input, radius);
    let out = sliding_min_vertical(width, height, &horizontal, radius);
    proof {
        lemma_drawn_from_transitive(out@, horizontal@, input@);
    }
    out
}

/// Radius of the square patch of side `patch_size` (a side of 0 counts as 1).
pub open spec fn patch_radius(patch_size: int) -> int {
    if patch_size >= 1 {
        patch_size / 2
    } else {
        0
    }
}

/// Smallest of the three channels, as `p[0].min(p[1]).min(p[2])`.
pub open spec fn channel_min(p: [u32; 3]) -> u32 {
    spec_min(spec_min(p[0], p[1]), p[2])
}

/// Per-pixel channel minimum of an image.
pub open spec fn channel_min_plane(data: Seq<[u32; 3]>) -> Seq<u32> {
    Seq::new(data.len(), |i: int| channel_min(data[i]))
}

/// The dark channel of the prior: the smallest channel value over the square
/// patch of side `patch_size` around each pixel (the channel minima of the
/// pixels, eroded by [`min_filter_gray`]).
pub fn dark_channel(input: &Image<[F32Bits; 3]>, patch_size: usize) -> (dark: Vec<F32Bits>)
    requires
        input.wf(),
    ensures
        dark.len() == input.data.len(),
        dark@ == min_filter_spec(
            channel_min_plane(input.data@),
            input.width as int,
            input.height as int,
            patch_radius(patch_size as int),
        ),
        drawn_from(dark@, channel_min_plane(input.data@)),
{
    let radius = if patch_size >= 1 {
        patch_size / 2
    } else {
        0
    };
    let n = input.data.len();
    let mut plane: Vec<F32Bits> = Vec::with_capacity(n);
    let mut i: usize = 0;
    while i < n
        invariant
            n == input.data.len(),
            i <= n,
            plane@ == channel_min_plane(input.data@).take(i as int),
        decreases n - i,
    {
        let p = input.data[i];
        plane.push(min(min(p[0], p[1]), p[2]));
        i = i + 1;
    }
    assert(plane@ =~= channel_min_plane(input.data@));
    min_filter_gray(input.width, input.height, &plane, radius)
}

/// `(x2, y2)` lies in the clipped square of radius `r` around `(x, y)` in a
/// `w` x `h` grid.
pub open spec fn in_square(w: int, h: int, r: int, x: int, y: int, x2: int, y2: int) -> bool {
    &&& span_lo(x, r) <= x2 <= span_hi(x, r, w)
    &&& span_lo(y, r) <= y2 <= span_hi(y, r, h)
}

/// Without NaNs, the minimum filter picks, at every pixel, a sample of the
/// square around it that is no larger than any other sample of that square:
/// it is the minimum over the whole square, not just over a row and a column.
pub proof fn lemma_min_filter_is_square_min(s: Seq<u32>, w: int, h: int, r: int, x: int, y: int)
    requires
        s.len() == w * h,
        0 <= x < w,
        0 <= y < h,
        r >= 0,
        no_nan(s),
    ensures
        forall|x2: int, y2: int|
            in_square(w, h, r, x, y, x2, y2) ==> order_key(
                min_filter_spec(s, w, h, r)[pixel_index(w, x, y)],
            ) <= order_key(#[trigger] s[pixel_index(w, x2, y2)]),
        exists|x2: int, y2: int|
            in_square(w, h, r, x, y, x2, y2) && min_filter_spec(s, w, h, r)[pixel_index(w, x, y)]
                == #[trigger] s[pixel_index(w, x2, y2)],
{
    let i = pixel_index(w, x, y);
    lemma_grid_index(w, h, x, y);
    if r == 0 {
        assert(in_square(w, h, r, x, y, x, y));
        assert(min_filter_spec(s, w, h, r)[i] == s[pixel_index(w, x, y)]);
        assert forall|x2: int, y2: int|
            in_square(w, h, r, x, y, x2, y2) implies order_key(
                min_filter_spec(s, w, h, r)[pixel_index(w, x, y)],
            ) <= order_key(#[trigger] s[pixel_index(w, x2, y2)]) by {
            assert(x2 == x && y2 == y);
        }
    } else {
        let hm = horizontal_min_spec(s, w, h, r);
        let col = col_of(hm, w, h, x);
        let ylo = span_lo(y, r);
        let yhi = span_hi(y, r, h);
        let xlo = span_lo(x, r);
        let xhi = span_hi(x, r, w);
        // Every row of the square: its row minimum bounds it from below.
        assert forall|y2: int| ylo <= y2 <= yhi implies {
            let row = row_of(s, w, y2);
            &&& #[trigger] col[y2] == row[leftmost_min(row, xlo, xhi)]
            &&& is_leftmost_min(row, xlo, xhi, leftmost_min(row, xlo, xhi))
        } by {
            let row = row_of(s, w, y2);
            lemma_grid_index(w, h, x, y2);
            assert forall|j: int| xlo <= j <= xhi implies !spec_is_nan(#[trigger] row[j]) by {
                lemma_grid_index(w, h, j, y2);
                assert(row[j] == s[pixel_index(w, j, y2)]);
            }
            lemma_window_pick_is_leftmost_min(row, xlo, xhi);
            lemma_leftmost_min(row, xlo, xhi);
        }
        assert forall|yy: int| ylo <= yy <= yhi implies !spec_is_nan(#[trigger] col[yy]) by {
            let row = row_of(s, w, yy);
            let lm = leftmost_min(row, xlo, xhi);
            assert(col[yy] == row[lm]);
            lemma_grid_index(w, h, lm, yy);
            assert(row[lm] == s[pixel_index(w, lm, yy)]);
        }
        lemma_window_pick_is_leftmost_min(col, ylo, yhi);
        lemma_leftmost_min(col, ylo, yhi);
        let m = leftmost_min(col, ylo, yhi);
        assert(min_filter_spec(s, w, h, r)[i] == col[m]);
        assert forall|x2: int, y2: int|
            in_square(w, h, r, x, y, x2, y2) implies order_key(
                min_filter_spec(s, w, h, r)[pixel_index(w, x, y)],
            ) <= order_key(#[trigger] s[pixel_index(w, x2, y2)]) by {
            let row = row_of(s, w, y2);
            lemma_grid_index(w, h, x2, y2);
            assert(col[y2] == row[leftmost_min(row, xlo, xhi)]);
            assert(row[x2] == s[pixel_index(w, x2, y2)]);
            assert(order_key(col[m]) <= order_key(col[y2]));
        }
        let row = row_of(s, w, m);
        let m2 = leftmost_min(row, xlo, xhi);
        lemma_leftmost_min(row, xlo, xhi);
        assert(col[m] == row[m2]);
        lemma_grid_index(w, h, m2, m);
        assert(row[m2] == s[pixel_index(w, m2, m)]);
        assert(in_square(w, h, r, x, y, m2, m));
    }
}

/// Without NaNs, erosion never raises a sample: each output sample is at
/// most the input sample at the same position.
pub proof fn lemma_min_filter_below_input(s: Seq<u32>, w: int, h: int, r: int, x: int, y: int)
    requires
        s.len() == w * h,
        0 <= x < w,
        0 <= y < h,
        r >= 0,
        no_nan(s),
    ensures
        order_key(min_filter_spec(s, w, h, r)[pixel_index(w, x, y)]) <= order_key(s[pixel_index(w, x, y)]),
{
    lemma_min_filter_is_square_min(s, w, h, r, x, y);
    assert(in_square(w, h, r, x, y, x, y));
}

/// When no pixel has all three channels NaN, the dark channel at a pixel is
/// no larger than any (non-NaN) channel of any pixel in the patch around it.
pub proof fn lemma_dark_channel_below_channels(data: Seq<[u32; 3]>, w: int, h: int, r: int, x: int, y: int, x2: int, y2: int, c: int)
    requires
        data.len() == w * h,
        0 <= x < w,
        0 <= y < h,
        r >= 0,
        in_square(w, h, r, x, y, x2, y2),
        0 <= c < 3,
        !spec_is_nan(data[pixel_index(w, x2, y2)][c]),
        no_nan(channel_min_plane(data)),
    ensures
        order_key(min_filter_spec(channel_min_plane(data), w, h, r)[pixel_index(w, x, y)])
            <= order_key(data[pixel_index(w, x2, y2)][c]),
{
    let plane = channel_min_plane(data);
    lemma_min_filter_is_square_min(plane, w, h, r, x, y);
    lemma_grid_index(w, h, x2, y2);
    let p = data[pixel_index(w, x2, y2)];
    assert(plane[pixel_index(w, x2, y2)] == channel_min(p));
    let m01 = spec_min(p[0], p[1]);
    if !spec_is_nan(p[0]) {
        lemma_le_iff_key_le(p[0], p[0]);
    }
    if !spec_is_nan(p[1]) {
        lemma_le_iff_key_le(p[1], p[1]);
    }
    if !spec_is_nan(p[0]) && !spec_is_nan(p[1]) {
        lemma_le_iff_key_le(p[0], p[1]);
    }
    if !spec_is_nan(m01) && !spec_is_nan(p[2]) {
        lemma_le_iff_key_le(m01, p[2]);
    }
}

/// The patch of side `patch_size` reaches `patch_size / 2` pixels in each
/// direction (a side of 0 counts as 1: the pixel alone). When no pixel is
/// NaN in all three channels, each dark-channel sample is at most every
/// non-NaN channel of every pixel within distance `patch_size / 2` of it in
/// both coordinates, and it is the channel minimum of one such pixel.
pub proof fn lemma_dark_channel_patch_reach(
    data: Seq<[u32; 3]>,
    w: int,
    h: int,
    patch_size: int,
    x: int,
    y: int,
    x2: int,
    y2: int,
    c: int,
)
    requires
        data.len() == w * h,
        0 <= x < w,
        0 <= y < h,
        0 <= x2 < w,
        0 <= y2 < h,
        patch_size >= 0,
        x - patch_size / 2 <= x2 <= x + patch_size / 2,
        y - patch_size / 2 <= y2 <= y + patch_size / 2,
        0 <= c < 3,
        !spec_is_nan(data[pixel_index(w, x2, y2)][c]),
        no_nan(channel_min_plane(data)),
    ensures
        order_key(min_filter_spec(channel_min_plane(data), w, h, patch_radius(patch_size))[pixel_index(w, x, y)])
            <= order_key(data[pixel_index(w, x2, y2)][c]),
        exists|x3: int, y3: int|
            0 <= x3 < w && 0 <= y3 < h && x - patch_size / 2 <= x3 <= x + patch_size / 2 && y - patch_size / 2
                <= y3 <= y + patch_size / 2 && min_filter_spec(
                channel_min_plane(data),
                w,
                h,
                patch_radius(patch_size),
            )[pixel_index(w, x, y)] == #[trigger] channel_min_plane(data)[pixel_index(w, x3, y3)],
{
    let r = patch_radius(patch_size);
    assert(r == patch_size / 2);
    assert(in_square(w, h, r, x, y, x2, y2));
    lemma_dark_channel_below_channels(data, w, h, r, x, y, x2, y2, c);
    let plane = channel_min_plane(data);
    lemma_min_filter_is_square_min(plane, w, h, r, x, y);
    let (x3, y3) = choose|x3: int, y3: int|
        in_square(w, h, r, x, y, x3, y3) && min_filter_spec(plane, w, h, r)[pixel_index(w, x, y)]
            == #[trigger] plane[pixel_index(w, x3, y3)];
    assert(0 <= x3 < w && 0 <= y3 < h);
}

/// Without NaNs, the sliding-window minimum at position `k` is a sample
/// within distance `r` of `k` that is no larger than any sample within
/// distance `r` of `k`, and the first such one.
pub proof fn lemma_sliding_min_by_distance(s: Seq<u32>, r: int, k: int)
    requires
        no_nan(s),
        0 <= k < s.len(),
        r >= 0,
    ensures
        forall|j: int| 0 <= j < s.len() && k - r <= j <= k + r ==> order_key(sliding_min_spec(s, r)[k]) <= order_key(
            #[trigger] s[j],
        ),
        exists|j: int| 0 <= j < s.len() && k - r <= j <= k + r && #[trigger] s[j] == sliding_min_spec(s, r)[k]
            && forall|j2: int| 0 <= j2 < j && k - r <= j2 ==> order_key(s[j]) < order_key(#[trigger] s[j2]),
{
    let lo = span_lo(k, r);
    let hi = span_hi(k, r, s.len() as int);
    lemma_window_pick_is_leftmost_min(s, lo, hi);
    lemma_leftmost_min(s, lo, hi);
    let m = leftmost_min(s, lo, hi);
    assert(sliding_min_spec(s, r)[k] == s[m]);
    assert(0 <= m < s.len() && k - r <= m <= k + r);
}

/// Without NaNs, the minimum filter of radius `r` at `(x, y)` is a sample
/// of a pixel within distance `r` in both coordinates, no larger than the
/// sample of any pixel within that distance.
pub proof fn lemma_min_filter_by_distance(s: Seq<u32>, w: int, h: int, r: int, x: int, y: int)
    requires
        s.len() == w * h,
        0 <= x < w,
        0 <= y < h,
        r >= 0,
        no_nan(s),
    ensures
        forall|x2: int, y2: int|
            0 <= x2 < w && 0 <= y2 < h && x - r <= x2 <= x + r && y - r <= y2 <= y + r ==> order_key(
                min_filter_spec(s, w, h, r)[pixel_index(w, x, y)],
            ) <= order_key(#[trigger] s[pixel_index(w, x2, y2)]),
        exists|x2: int, y2: int|
            0 <= x2 < w && 0 <= y2 < h && x - r <= x2 <= x + r && y - r <= y2 <= y + r && min_filter_spec(
                s,
                w,
                h,
                r,
            )[pixel_index(w, x, y)] == #[trigger] s[pixel_index(w, x2, y2)],
{
    lemma_min_filter_is_square_min(s, w, h, r, x, y);
    assert forall|x2: int, y2: int|
        0 <= x2 < w && 0 <= y2 < h && x - r <= x2 <= x + r && y - r <= y2 <= y + r implies order_key(
            min_filter_spec(s, w, h, r)[pixel_index(w, x, y)],
        ) <= order_key(#[trigger] s[pixel_index(w, x2, y2)]) by {
        assert(in_square(w, h, r, x, y, x2, y2));
    }
    let (x3, y3) = choose|x3: int, y3: int|
        in_square(w, h, r, x, y, x3, y3) && min_filter_spec(s, w, h, r)[pixel_index(w, x, y)]
            == #[trigger] s[pixel_index(w, x3, y3)];
    assert(0 <= x3 < w && 0 <= y3 < h);
}

} // verus!
