//! Order-preserving keys for limit prices.
//!
//! A finite IEEE-754 double is read as its bit pattern; the key flips every
//! bit of a negative value and sets the sign bit of a non-negative one, so
//! that comparing keys as unsigned integers compares the prices.
use vstd::prelude::*;

verus! {

pub const SIGN_BIT: u64 = 0x8000_0000_0000_0000;

/// The key of the price whose bit pattern is `bits`.
pub open spec fn key_of_bits(bits: u64) -> u64 {
    if bits & SIGN_BIT != 0 {
        !bits
    } else {
        bits | SIGN_BIT
    }
}

/// The bit pattern of the price whose key is `key`.
pub open spec fn bits_of_key(key: u64) -> u64 {
    if key & SIGN_BIT != 0 {
        key & !SIGN_BIT
    } else {
        !key
    }
}

/// Computes the key of the price whose bit pattern is `bits`.
pub fn price_key(bits: u64) -> (k: u64)
    ensures
        k == key_of_bits(bits),
{
    if bits & SIGN_BIT != 0 {
        !bits
    } else {
        bits | SIGN_BIT
    }
}

/// Recovers the bit pattern of the price whose key is `key`.
pub fn price_bits(key: u64) -> (b: u64)
    ensures
        b == bits_of_key(key),
{
    if key & SIGN_BIT != 0 {
        key & !SIGN_BIT
    } else {
        !key
    }
}

/// Keys lose nothing: a price's bit pattern is recovered from its key, and
/// every key is the key of the pattern recovered from it.
pub proof fn lemma_key_round_trip(bits: u64, key: u64)
    ensures
        bits_of_key(key_of_bits(bits)) == bits,
        key_of_bits(bits_of_key(key)) == key,
{
    assert(bits & 0x8000_0000_0000_0000u64 != 0 ==> (!bits) & 0x8000_0000_0000_0000u64 == 0
        && !!bits == bits) by (bit_vector);
    assert(bits & 0x8000_0000_0000_0000u64 == 0 ==> (bits | 0x8000_0000_0000_0000u64)
        & 0x8000_0000_0000_0000u64 != 0 && (bits | 0x8000_0000_0000_0000u64)
        & !0x8000_0000_0000_0000u64 == bits) by (bit_vector);
    assert(key & 0x8000_0000_0000_0000u64 != 0 ==> (key & !0x8000_0000_0000_0000u64)
        & 0x8000_0000_0000_0000u64 == 0 && ((key & !0x8000_0000_0000_0000u64)
        | 0x8000_0000_0000_0000u64) == key) by (bit_vector);
    assert(key & 0x8000_0000_0000_0000u64 == 0 ==> (!key) & 0x8000_0000_0000_0000u64 != 0
        && !!key == key) by (bit_vector);
}

} // verus!
