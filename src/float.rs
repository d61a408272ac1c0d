//! IEEE-754 doubles carried as their 64-bit patterns: classification and
//! the numeric order, computed on the bits.
use vstd::prelude::*;

verus! {

pub const SIGN_BIT: u64 = 0x8000_0000_0000_0000;
pub const MAGNITUDE: u64 = 0x7fff_ffff_ffff_ffff;
pub const EXPONENT: u64 = 0x7ff0_0000_0000_0000;
pub const FRACTION: u64 = 0x000f_ffff_ffff_ffff;

/// Bits of positive infinity.
pub const POS_INF: u64 = 0x7ff0_0000_0000_0000;
/// Bits of negative infinity.
pub const NEG_INF: u64 = 0xfff0_0000_0000_0000;
/// Bits of +0.0.
pub const ZERO: u64 = 0;
/// Bits of -1e38: measures strictly below it are "no data".
pub const NO_DATA_LIMIT: u64 = 0xc7d2_ced3_2a16_a1b1;
/// Bits of -1e39, the value stored for a missing measure.
pub const NO_DATA: u64 = 0xc807_8287_f49c_4a1d;

/// The bits encode a NaN: all exponent bits set and a non-zero fraction.
pub open spec fn spec_is_nan(b: u64) -> bool {
    (b & EXPONENT) == EXPONENT && (b & FRACTION) != 0
}

/// A key whose integer order is the numeric order of non-NaN doubles
/// (both zeros get the key 0).
pub open spec fn key(b: u64) -> int {
    if (b & SIGN_BIT) != 0 {
        -((b & MAGNITUDE) as int)
    } else {
        (b & MAGNITUDE) as int
    }
}

/// `a < b` on doubles: false as soon as one of them is NaN.
pub open spec fn spec_lt(a: u64, b: u64) -> bool {
    !spec_is_nan(a) && !spec_is_nan(b) && key(a) < key(b)
}

/// A measure is missing when it is strictly below -1e38 (or NaN).
pub open spec fn spec_is_no_data(b: u64) -> bool {
    spec_lt(b, NO_DATA_LIMIT)
}

/// What the writer stores for a z or m value: NaN and missing values
/// become `NO_DATA`, every other value is kept.
pub open spec fn spec_stored(b: u64) -> u64 {
    if spec_is_nan(b) || spec_is_no_data(b) {
        NO_DATA
    } else {
        b
    }
}

/// What the writer stores for a z value: NaN becomes `NO_DATA`.
pub open spec fn spec_stored_z(b: u64) -> u64 {
    if spec_is_nan(b) {
        NO_DATA
    } else {
        b
    }
}

/// The smaller of an accumulator and a value, NaN treated as absent: a
/// NaN on either side yields the other, and a tie yields the new value.
pub open spec fn spec_min(acc: u64, v: u64) -> u64 {
    if spec_is_nan(v) {
        acc
    } else if spec_is_nan(acc) {
        v
    } else if key(acc) < key(v) {
        acc
    } else {
        v
    }
}

/// The larger of an accumulator and a value, NaN treated as absent: a
/// NaN on either side yields the other, and a tie yields the new value.
pub open spec fn spec_max(acc: u64, v: u64) -> u64 {
    if spec_is_nan(v) {
        acc
    } else if spec_is_nan(acc) {
        v
    } else if key(acc) > key(v) {
        acc
    } else {
        v
    }
}

pub fn is_nan(b: u64) -> (r: bool)
    ensures
        r == spec_is_nan(b),
{
    (b & EXPONENT) == EXPONENT && (b & FRACTION) != 0
}

fn key_of(b: u64) -> (r: i64)
    ensures
        r as int == key(b),
{
    let mag = b & MAGNITUDE;
    assert(mag <= MAGNITUDE) by (bit_vector)
        requires
            mag == b & MAGNITUDE,
    ;
    if (b & SIGN_BIT) != 0 {
        -(mag as i64)
    } else {
        mag as i64
    }
}

/// `a < b` on the doubles whose bits are `a` and `b`.
pub fn lt(a: u64, b: u64) -> (r: bool)
    ensures
        r == spec_lt(a, b),
{
    !is_nan(a) && !is_nan(b) && key_of(a) < key_of(b)
}

pub fn is_no_data(b: u64) -> (r: bool)
    ensures
        r == spec_is_no_data(b),
{
    lt(b, NO_DATA_LIMIT)
}

pub fn stored(b: u64) -> (r: u64)
    ensures
        r == spec_stored(b),
{
    if is_nan(b) || is_no_data(b) {
        NO_DATA
    } else {
        b
    }
}

pub fn stored_z(b: u64) -> (r: u64)
    ensures
        r == spec_stored_z(b),
{
    if is_nan(b) {
        NO_DATA
    } else {
        b
    }
}

pub fn min(acc: u64, v: u64) -> (r: u64)
    ensures
        r == spec_min(acc, v),
{
    if is_nan(v) {
        acc
    } else if is_nan(acc) {
        v
    } else if key_of(acc) < key_of(v) {
        acc
    } else {
        v
    }
}

pub fn max(acc: u64, v: u64) -> (r: u64)
    ensures
        r == spec_max(acc, v),
{
    if is_nan(v) {
        acc
    } else if is_nan(acc) {
        v
    } else if key_of(acc) > key_of(v) {
        acc
    } else {
        v
    }
}

} // verus!
