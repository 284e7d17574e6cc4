//! Facts about single bits of bytes.
use vstd::prelude::*;

verus! {

/// Bit `k` of a byte, as 0 or 1.
pub open spec fn bit_at(b: u8, k: u8) -> u8 {
    (b >> k) & 1
}

/// A byte with bit `k` replaced by `v`.
pub open spec fn with_bit(b: u8, k: u8, v: u8) -> u8 {
    (b & !(1u8 << k)) | (v << k)
}

/// Replacing a bit sets that bit and leaves every other bit alone.
pub proof fn lemma_with_bit(b: u8, k: u8, v: u8, other: u8)
    by (bit_vector)
    requires
        k < 8,
        other < 8,
        v <= 1,
    ensures
        other == k ==> ((((b & !(1u8 << k)) | (v << k)) >> other) & 1) == v,
        other != k ==> ((((b & !(1u8 << k)) | (v << k)) >> other) & 1) == ((b >> other) & 1),
{
}

/// A bit is 0 or 1.
pub proof fn lemma_bit_range(b: u8, k: u8)
    by (bit_vector)
    requires
        k < 8,
    ensures
        (b >> k) & 1 <= 1,
{
}

/// Four bits put together make the number that they denote.
pub proof fn lemma_join4(b0: u8, b1: u8, b2: u8, b3: u8)
    by (bit_vector)
    requires
        b0 <= 1,
        b1 <= 1,
        b2 <= 1,
        b3 <= 1,
    ensures
        b0 | (b1 << 1) | (b2 << 2) | (b3 << 3) == b0 + 2 * b1 + 4 * b2 + 8 * b3,
{
}

/// A number below sixteen is the sum of its four bits.
pub proof fn lemma_split4(c: u8)
    by (bit_vector)
    requires
        c < 16,
    ensures
        c == ((c >> 0) & 1) + 2 * ((c >> 1) & 1) + 4 * ((c >> 2) & 1) + 8 * ((c >> 3) & 1),
{
}

/// The two halves of a byte.
pub proof fn lemma_nibbles(b: u8)
    by (bit_vector)
    ensures
        (b & 0xF0) >> 4 == b / 16,
        b & 0x0F == b % 16,
        b >> 4 == b / 16,
{
}

} // verus!
