//! Fitness scores, carried as their 64-bit IEEE-754 binary64 encodings and
//! compared as binary64 comparison compares them.
use vstd::prelude::*;

verus! {

/// The sign bit of an encoding.
pub open spec fn sign_bit() -> nat {
    0x8000_0000_0000_0000
}

/// The encoding of positive infinity; magnitudes above it are NaNs.
pub open spec fn infinity_bits() -> nat {
    0x7FF0_0000_0000_0000
}

/// True when the encoding is a NaN, which compares with nothing.
pub open spec fn is_nan(bits: u64) -> bool {
    bits as nat % sign_bit() > infinity_bits()
}

/// An integer that orders non-NaN scores as their values are ordered:
/// the magnitude bits, negated for negative scores (both zeros map to 0).
pub open spec fn order_key(bits: u64) -> int {
    if bits as nat >= sign_bit() {
        -(bits as nat - sign_bit())
    } else {
        bits as int
    }
}

/// `a > b` for two scores: both are numbers and `a` is the larger.
pub open spec fn fitness_gt(a: u64, b: u64) -> bool {
    !is_nan(a) && !is_nan(b) && order_key(a) > order_key(b)
}

/// True when the encoded score is a NaN.
pub fn fitness_is_nan(bits: u64) -> (nan: bool)
    ensures
        nan == is_nan(bits),
{
    let magnitude = if bits >= 0x8000_0000_0000_0000 {
        bits - 0x8000_0000_0000_0000
    } else {
        bits
    };
    magnitude > 0x7FF0_0000_0000_0000
}

/// The ordering key of an encoded score (see `order_key`).
pub fn fitness_key(bits: u64) -> (key: i64)
    ensures
        key == order_key(bits),
{
    if bits >= 0x8000_0000_0000_0000 {
        -((bits - 0x8000_0000_0000_0000) as i64)
    } else {
        bits as i64
    }
}

/// Whether score `a` is greater than score `b`.
pub fn fitness_greater(a: u64, b: u64) -> (gt: bool)
    ensures
        gt == fitness_gt(a, b),
{
    !fitness_is_nan(a) && !fitness_is_nan(b) && fitness_key(a) > fitness_key(b)
}

} // verus!
