//! Order on IEEE-754 binary32 values, computed on their bit patterns.
//!
//! Every sample, transmission value and score of the dehazing pipeline is a
//! binary32 number. The parts of the pipeline that only *compare* such numbers
//! (window minima, candidate ranking, clamping) are carried out here on the
//! 32-bit encodings, with exactly the semantics of `<`, `<=`, `min` and
//! `clamp` on `f32`.
use vstd::prelude::*;

verus! {

/// Bit pattern of a binary32 value (as returned by `f32::to_bits`).
pub type F32Bits = u32;

/// The sign bit.
pub const SIGN_BIT: u32 = 0x8000_0000;

/// Encoding of positive infinity; magnitudes above it are NaNs.
pub const POS_INF_BITS: u32 = 0x7F80_0000;

/// Encoding of negative infinity.
pub const NEG_INF_BITS: u32 = 0xFF80_0000;

/// Encoding of `0.0`.
pub const ZERO_BITS: u32 = 0x0000_0000;

/// Encoding of `1.0`.
pub const ONE_BITS: u32 = 0x3F80_0000;

/// The magnitude (all bits but the sign).
pub open spec fn magnitude(b: u32) -> int {
    if b >= SIGN_BIT {
        b - SIGN_BIT
    } else {
        b as int
    }
}

/// Whether the pattern encodes a NaN.
pub open spec fn spec_is_nan(b: u32) -> bool {
    magnitude(b) > POS_INF_BITS
}

/// Position of a non-NaN value on the real line: binary32 values are ordered
/// by sign and magnitude, and both zeros sit at position zero.
pub open spec fn ordinal(b: u32) -> int {
    if b >= SIGN_BIT {
        -magnitude(b)
    } else {
        b as int
    }
}

/// `a <= b` on binary32 values (false as soon as one side is NaN).
pub open spec fn spec_le(a: u32, b: u32) -> bool {
    !spec_is_nan(a) && !spec_is_nan(b) && ordinal(a) <= ordinal(b)
}

/// `a < b` on binary32 values (false as soon as one side is NaN).
pub open spec fn spec_lt(a: u32, b: u32) -> bool {
    !spec_is_nan(a) && !spec_is_nan(b) && ordinal(a) < ordinal(b)
}

/// `a == b` on binary32 values: equal non-NaN values (so `-0.0 == 0.0`).
pub open spec fn spec_feq(a: u32, b: u32) -> bool {
    !spec_is_nan(a) && !spec_is_nan(b) && ordinal(a) == ordinal(b)
}

/// A total preorder key: every NaN below everything else, numbers in their
/// real order, both zeros on the same key.
pub open spec fn order_key(b: u32) -> int {
    if spec_is_nan(b) {
        0
    } else {
        ordinal(b) + 0x7F80_0001
    }
}

/// No element of the sequence is a NaN.
pub open spec fn no_nan(s: Seq<u32>) -> bool {
    forall|i: int| 0 <= i < s.len() ==> !spec_is_nan(#[trigger] s[i])
}

/// Whether `b` encodes a NaN.
pub fn is_nan(b: u32) -> (r: bool)
    ensures
        r == spec_is_nan(b),
{
    let m = if b >= SIGN_BIT {
        b - SIGN_BIT
    } else {
        b
    };
    m > POS_INF_BITS
}

/// `a <= b` on the encoded values, as `f32`'s `<=` computes it.
pub fn le(a: u32, b: u32) -> (r: bool)
    ensures
        r == spec_le(a, b),
{
    if is_nan(a) || is_nan(b) {
        false
    } else if a < SIGN_BIT && b < SIGN_BIT {
        a <= b
    } else if a >= SIGN_BIT && b >= SIGN_BIT {
        b <= a
    } else if a < SIGN_BIT {
        a == 0 && b == SIGN_BIT
    } else {
        true
    }
}

/// `a < b` on the encoded values, as `f32`'s `<` computes it.
pub fn lt(a: u32, b: u32) -> (r: bool)
    ensures
        r == spec_lt(a, b),
{
    if is_nan(a) || is_nan(b) {
        false
    } else {
        !le(b, a)
    }
}

/// The total preorder key of `b` (see [`order_key`]).
pub fn key(b: u32) -> (k: u32)
    ensures
        k == order_key(b),
        1 <= k <= 0xFF00_0001 || (k == 0 && spec_is_nan(b)),
{
    if is_nan(b) {
        0
    } else if b >= SIGN_BIT {
        0x7F80_0001 - (b - SIGN_BIT)
    } else {
        b + 0x7F80_0001
    }
}

/// The value of `f32::min(a, b)` as [`min`] computes it.
pub open spec fn spec_min(a: u32, b: u32) -> u32 {
    if spec_is_nan(a) {
        b
    } else if spec_is_nan(b) {
        a
    } else if spec_lt(b, a) {
        b
    } else {
        a
    }
}

/// `f32::min`: the smaller value, ignoring a NaN operand; on equal operands
/// (such as `-0.0` and `0.0`) the first one.
pub fn min(a: u32, b: u32) -> (r: u32)
    ensures
        r == spec_min(a, b),
{
    if is_nan(a) {
        b
    } else if is_nan(b) {
        a
    } else if lt(b, a) {
        b
    } else {
        a
    }
}

/// The value of `f32::max(a, b)` as [`max`] computes it.
pub open spec fn spec_max(a: u32, b: u32) -> u32 {
    if spec_is_nan(a) {
        b
    } else if spec_is_nan(b) {
        a
    } else if spec_lt(a, b) {
        b
    } else {
        a
    }
}

/// `f32::max`: the larger value, ignoring a NaN operand; on equal operands
/// (such as `-0.0` and `0.0`) the first one.
pub fn max(a: u32, b: u32) -> (r: u32)
    ensures
        r == spec_max(a, b),
{
    if is_nan(a) {
        b
    } else if is_nan(b) {
        a
    } else if lt(a, b) {
        b
    } else {
        a
    }
}

/// `f32::clamp`: `hi` above `hi`, `lo` below `lo`, otherwise the value itself
/// (a NaN stays NaN).
pub fn clamp(x: u32, lo: u32, hi: u32) -> (r: u32)
    requires
        spec_le(lo, hi),
    ensures
        r == (if spec_lt(x, lo) {
            lo
        } else if spec_lt(hi, x) {
            hi
        } else {
            x
        }),
        !spec_is_nan(x) ==> spec_le(lo, r) && spec_le(r, hi),
        spec_is_nan(x) ==> r == x,
{
    if lt(x, lo) {
        lo
    } else if lt(hi, x) {
        hi
    } else {
        x
    }
}

/// On numbers, `<=` is exactly the order of the keys.
pub proof fn lemma_le_iff_key_le(a: u32, b: u32)
    requires
        !spec_is_nan(a),
        !spec_is_nan(b),
    ensures
        spec_le(a, b) <==> order_key(a) <= order_key(b),
        spec_lt(a, b) <==> order_key(a) < order_key(b),
        spec_feq(a, b) <==> order_key(a) == order_key(b),
{
}

/// `<=` is a total preorder on numbers: reflexive, transitive, total.
pub proof fn lemma_le_total_preorder(a: u32, b: u32, c: u32)
    requires
        !spec_is_nan(a),
        !spec_is_nan(b),
        !spec_is_nan(c),
    ensures
        spec_le(a, a),
        spec_le(a, b) || spec_le(b, a),
        spec_le(a, b) && spec_le(b, c) ==> spec_le(a, c),
        spec_lt(a, b) <==> !spec_le(b, a),
{
}

} // verus!
