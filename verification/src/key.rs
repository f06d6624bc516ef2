//! Coordinate keys for numbers kept in sign-and-magnitude form.
//!
//! The boxes of this library compare whole-number keys. A caller whose
//! coordinates are 64-bit patterns with a sign bit and a magnitude, as binary
//! floating point keeps them, gets keys that order the same way from
//! `key_from_bits`, and its numbers back from `bits_from_key`.

use vstd::prelude::*;

verus! {

/// The pattern with only the sign bit set.
pub const SIGN_BIT: u64 = 0x8000_0000_0000_0000;

/// Whether the sign bit of `bits` is set.
pub open spec fn is_negative(bits: u64) -> bool {
    bits >= SIGN_BIT
}

/// The pattern without its sign bit.
pub open spec fn magnitude(bits: u64) -> int {
    if bits >= SIGN_BIT {
        bits - SIGN_BIT
    } else {
        bits as int
    }
}

/// The key of a pattern: its magnitude where the sign bit is clear, and below
/// zero by one more than its magnitude where it is set.
pub open spec fn key_of(bits: u64) -> int {
    if is_negative(bits) {
        -magnitude(bits) - 1
    } else {
        magnitude(bits)
    }
}

/// Computes `key_of`.
pub fn key_from_bits(bits: u64) -> (key: i64)
    ensures
        key == key_of(bits),
{
    if bits >= SIGN_BIT {
        let m: u64 = bits - SIGN_BIT;
        -(m as i64) - 1
    } else {
        bits as i64
    }
}

/// The pattern whose key is `key`.
pub fn bits_from_key(key: i64) -> (bits: u64)
    ensures
        key_of(bits) == key,
{
    if key < 0 {
        let m: i64 = -(key + 1);
        (m as u64) + SIGN_BIT
    } else {
        key as u64
    }
}

/// Different patterns have different keys, so a key names one pattern.
pub proof fn lemma_key_names_one_pattern(a: u64, b: u64)
    ensures
        key_of(a) == key_of(b) <==> a == b,
        i64::MIN <= key_of(a) <= i64::MAX,
{
}

/// Keys order patterns by sign and magnitude: a pattern with the sign bit set
/// comes before every pattern without it; between two patterns without it the
/// smaller magnitude comes first, between two with it the larger.
pub proof fn lemma_keys_order_by_sign_and_magnitude(a: u64, b: u64)
    ensures
        key_of(a) < key_of(b) <==> {
            ||| is_negative(a) && !is_negative(b)
            ||| !is_negative(a) && !is_negative(b) && magnitude(a) < magnitude(b)
            ||| is_negative(a) && is_negative(b) && magnitude(a) > magnitude(b)
        },
{
}

} // verus!
