//! Order-only reductions of sample sequences.
use vstd::prelude::*;
use crate::float_bits::{F32Bits, lt, max, spec_lt, spec_max, spec_is_nan, order_key, lemma_le_iff_key_le};

verus! {

/// Number of samples strictly greater than `threshold`.
pub open spec fn count_greater_spec(s: Seq<u32>, threshold: u32) -> nat
    decreases s.len(),
{
    if s.len() == 0 {
        0
    } else {
        count_greater_spec(s.drop_last(), threshold) + if spec_lt(threshold, s.last()) {
            1nat
        } else {
            0nat
        }
    }
}

/// `values.iter().filter(|&&v| v > threshold).count()`.
pub fn count_greater(values: &Vec<F32Bits>, threshold: F32Bits) -> (n: usize)
    ensures
        n == count_greater_spec(values@, threshold),
{
    let mut n: usize = 0;
    let mut i: usize = 0;
    while i < values.len()
        invariant
            i <= values.len(),
            n <= i,
            n == count_greater_spec(values@.take(i as int), threshold),
        decreases values.len() - i,
    {
        assert(values@.take(i + 1).drop_last() =~= values@.take(i as int));
        if lt(threshold, values[i]) {
            n = n + 1;
        }
        i = i + 1;
    }
    assert(values@.take(i as int) =~= values@);
    n
}

/// `init` folded with `f32::max` over the samples, first to last.
pub open spec fn fold_max_spec(s: Seq<u32>, init: u32) -> u32
    decreases s.len(),
{
    if s.len() == 0 {
        init
    } else {
        spec_max(fold_max_spec(s.drop_last(), init), s.last())
    }
}

/// `values.iter().copied().fold(init, f32::max)`.
pub fn fold_max(values: &Vec<F32Bits>, init: F32Bits) -> (m: F32Bits)
    ensures
        m == fold_max_spec(values@, init),
{
    let mut m = init;
    let mut i: usize = 0;
    while i < values.len()
        invariant
            i <= values.len(),
            m == fold_max_spec(values@.take(i as int), init),
        decreases values.len() - i,
    {
        assert(values@.take(i + 1).drop_last() =~= values@.take(i as int));
        m = max(m, values[i]);
        i = i + 1;
    }
    assert(values@.take(i as int) =~= values@);
    m
}

/// Counting adds up over concatenation, a single sample counts once exactly
/// when it is above the threshold (`>` on binary32 values, so a NaN never
/// counts), and the count never exceeds the number of samples.
pub proof fn lemma_count_greater(s1: Seq<u32>, s2: Seq<u32>, threshold: u32, v: u32)
    ensures
        count_greater_spec(s1 + s2, threshold) == count_greater_spec(s1, threshold) + count_greater_spec(s2, threshold),
        count_greater_spec(seq![v], threshold) == (if spec_lt(threshold, v) {
            1nat
        } else {
            0nat
        }),
        count_greater_spec(s1, threshold) <= s1.len(),
        spec_is_nan(v) ==> count_greater_spec(seq![v], threshold) == 0,
    decreases s2.len(),
{
    let one: Seq<u32> = seq![v];
    assert(one.drop_last() =~= Seq::<u32>::empty());
    assert(one.last() == v);
    assert(count_greater_spec(Seq::<u32>::empty(), threshold) == 0);
    assert(count_greater_spec(one, threshold) == count_greater_spec(one.drop_last(), threshold) + (if spec_lt(
        threshold,
        v,
    ) {
        1nat
    } else {
        0nat
    }));
    lemma_count_at_most_len(s1, threshold);
    if s2.len() > 0 {
        lemma_count_greater(s1, s2.drop_last(), threshold, v);
        assert((s1 + s2).drop_last() =~= s1 + s2.drop_last());
        assert((s1 + s2).last() == s2.last());
    } else {
        assert(s1 + s2 =~= s1);
    }
}

proof fn lemma_count_at_most_len(s: Seq<u32>, threshold: u32)
    ensures
        count_greater_spec(s, threshold) <= s.len(),
    decreases s.len(),
{
    if s.len() > 0 {
        lemma_count_at_most_len(s.drop_last(), threshold);
    }
}

/// Folding with `f32::max` from a number gives a number at least as large as
/// the start and as every non-NaN sample, and equal to the start or to one
/// of the samples (NaN samples are skipped).
pub proof fn lemma_fold_max_is_maximum(s: Seq<u32>, init: u32)
    requires
        !spec_is_nan(init),
    ensures
        !spec_is_nan(fold_max_spec(s, init)),
        order_key(init) <= order_key(fold_max_spec(s, init)),
        forall|i: int| 0 <= i < s.len() && !spec_is_nan(#[trigger] s[i]) ==> order_key(s[i]) <= order_key(
            fold_max_spec(s, init),
        ),
        fold_max_spec(s, init) == init || exists|i: int| 0 <= i < s.len() && #[trigger] s[i] == fold_max_spec(s, init),
    decreases s.len(),
{
    if s.len() > 0 {
        let prev = s.drop_last();
        lemma_fold_max_is_maximum(prev, init);
        let m = fold_max_spec(prev, init);
        let v = s.last();
        if !spec_is_nan(v) {
            lemma_le_iff_key_le(m, v);
            lemma_le_iff_key_le(v, m);
        }
        let r = fold_max_spec(s, init);
        assert forall|i: int| 0 <= i < s.len() && !spec_is_nan(#[trigger] s[i]) implies order_key(s[i]) <= order_key(r) by {
            if i < s.len() - 1 {
                assert(prev[i] == s[i]);
            }
        }
        if r != init && r != v {
            assert(r == m);
            let i = choose|i: int| 0 <= i < prev.len() && #[trigger] prev[i] == m;
            assert(s[i] == r);
        }
        if r == v {
            assert(s[s.len() - 1] == r);
        }
    }
}

} // verus!
