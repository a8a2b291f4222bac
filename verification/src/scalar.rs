//! Scalars as the library sees them: by their place in the order.
//!
//! The renderer measures distances along a ray in IEEE 754 double
//! precision. The library never computes with such a number; it only has to
//! tell which of two is the smaller. For that a scalar is handed over as
//! its order key, an unsigned integer made from its bit pattern that grows
//! with the number. Two numbers compare as their keys do; the two zeros,
//! which compare equal, share a key.

use vstd::prelude::*;

verus! {

/// The sign bit of a double-precision bit pattern.
pub const SIGN: u64 = 0x8000_0000_0000_0000;

/// The bit pattern of positive infinity: every larger magnitude is not a
/// number.
pub const INFINITY: u64 = 0x7FF0_0000_0000_0000;

/// Whether the sign bit of `bits` is set.
pub open spec fn is_negative(bits: u64) -> bool {
    bits >= SIGN
}

/// The bit pattern without its sign bit: exponent and fraction read as one
/// integer. Of two numbers of one sign, the one with the larger magnitude
/// is farther from zero.
pub open spec fn magnitude(bits: u64) -> int {
    if bits >= SIGN {
        bits - SIGN
    } else {
        bits as int
    }
}

/// Whether the bit pattern stands for a number, infinite or not.
pub open spec fn is_number(bits: u64) -> bool {
    magnitude(bits) <= INFINITY
}

/// The place of a bit pattern in the order of the numbers: the magnitude,
/// counted downwards from zero where the sign bit is set and upwards where
/// it is not. Both zeros have rank zero. The patterns that are not numbers
/// lie beyond the two infinities.
pub open spec fn rank(bits: u64) -> int {
    if is_negative(bits) {
        -magnitude(bits)
    } else {
        magnitude(bits)
    }
}

/// The order key of the double-precision number with bit pattern `bits`:
/// its rank, shifted into the unsigned range.
pub fn order_key(bits: u64) -> (key: u64)
    ensures
        key == rank(bits) + SIGN,
{
    if bits >= SIGN {
        u64::MAX - bits + 1
    } else {
        bits + SIGN
    }
}

/// Keys tell bit patterns apart as far as the order of the numbers does:
/// two patterns have the same rank, and so the same key, only if they are
/// the same pattern or the two zeros. Every rank has room in a key.
pub proof fn lemma_rank_is_one_to_one(a: u64, b: u64)
    ensures
        rank(a) == rank(b) <==> a == b || (magnitude(a) == 0 && magnitude(b) == 0),
        0 < rank(a) + SIGN <= u64::MAX,
{
}

/// What the rank says of two bit patterns: a pattern with the sign bit set
/// never lies above one without it; two patterns without it lie as their
/// magnitudes do; two with it lie the other way round.
pub proof fn lemma_rank_is_signed_order(a: u64, b: u64)
    ensures
        is_negative(a) && !is_negative(b) ==> rank(a) <= rank(b),
        !is_negative(a) && !is_negative(b) ==> (rank(a) < rank(b) <==> magnitude(a) < magnitude(b)),
        is_negative(a) && is_negative(b) ==> (rank(a) < rank(b) <==> magnitude(a) > magnitude(b)),
{
}

/// Every number lies between the two infinities, and what is not a number
/// lies outside them: a range whose bounds are numbers holds numbers only.
pub proof fn lemma_numbers_lie_between_infinities(bits: u64)
    ensures
        is_number(bits) <==> -INFINITY <= rank(bits) <= INFINITY,
{
}

} // verus!
