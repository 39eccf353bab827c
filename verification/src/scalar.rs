//! Ordering of resolved scalar values.
//!
//! Resolved values come out of the solver as the bit patterns of
//! double-precision numbers. This module orders two such patterns by the
//! numeric order of the values they encode, using only integer logic on
//! the patterns: for patterns with a clear sign bit the encoded value
//! grows with the pattern, for patterns with a set sign bit it shrinks,
//! and any negative value lies below any non-negative one. The two
//! encodings of zero are identified. (Patterns encoding a NaN are
//! ordered by sign and magnitude like any other; layout values never
//! produce them.)

use vstd::prelude::*;

verus! {

/// The sign bit of an encoded value.
pub const SIGN_BIT: u64 = 0x8000_0000_0000_0000;

/// The pattern with only the sign bit set encodes negative zero;
/// identify it with zero.
pub open spec fn spec_norm_zero(x: u64) -> u64 {
    if x == SIGN_BIT {
        0
    } else {
        x
    }
}

/// Whether the value encoded by `a` is at most the value encoded by
/// `b`.
pub open spec fn spec_le_bits(a: u64, b: u64) -> bool {
    let na = spec_norm_zero(a);
    let nb = spec_norm_zero(b);
    if na < SIGN_BIT && nb < SIGN_BIT {
        na <= nb
    } else if na >= SIGN_BIT && nb >= SIGN_BIT {
        na >= nb
    } else {
        na >= SIGN_BIT
    }
}

/// Compares two encoded values.
pub fn le_bits(a: u64, b: u64) -> (r: bool)
    ensures
        r == spec_le_bits(a, b),
{
    let na: u64 = if a == SIGN_BIT {
        0
    } else {
        a
    };
    let nb: u64 = if b == SIGN_BIT {
        0
    } else {
        b
    };
    if na < SIGN_BIT && nb < SIGN_BIT {
        na <= nb
    } else if na >= SIGN_BIT && nb >= SIGN_BIT {
        na >= nb
    } else {
        na >= SIGN_BIT
    }
}

} // verus!
