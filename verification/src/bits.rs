//! The bit-level view of a byte string.
//!
//! Bit `i` of a byte string is bit `7 - i % 8` of byte `i / 8`: the most
//! significant bit of a byte comes first. Positions at or past the end of the
//! string read as zero, which is how every reader in this crate treats the
//! bytes that a shifted read would need from beyond the input.

use vstd::prelude::*;

verus! {

/// Bit `k` of a byte, counted from the most significant one.
pub open spec fn bit_of(b: u8, k: u8) -> bool {
    b & (0x80u8 >> k) != 0
}

/// The byte at index `i`, or zero where the string has no such byte.
pub open spec fn byte_or_zero(s: Seq<u8>, i: int) -> u8 {
    if 0 <= i < s.len() {
        s[i]
    } else {
        0
    }
}

/// Bit `i` of a byte string, most significant bit of each byte first; zero
/// outside the string.
pub open spec fn bit_at(s: Seq<u8>, i: int) -> bool {
    0 <= i < 8 * s.len() && bit_of(s[i / 8], (i % 8) as u8)
}

/// The byte whose bits, most significant first, are the eight given ones.
pub open spec fn byte_of_bits(
    b0: bool,
    b1: bool,
    b2: bool,
    b3: bool,
    b4: bool,
    b5: bool,
    b6: bool,
    b7: bool,
) -> u8 {
    (if b0 { 0x80u8 } else { 0u8 })
        | (if b1 { 0x40u8 } else { 0u8 })
        | (if b2 { 0x20u8 } else { 0u8 })
        | (if b3 { 0x10u8 } else { 0u8 })
        | (if b4 { 0x08u8 } else { 0u8 })
        | (if b5 { 0x04u8 } else { 0u8 })
        | (if b6 { 0x02u8 } else { 0u8 })
        | (if b7 { 0x01u8 } else { 0u8 })
}

/// Two adjacent bytes read through a window that starts `shift` bits into the
/// first one.
pub open spec fn combine(hi: u8, lo: u8, shift: u8) -> u8 {
    (hi << shift) | (lo >> ((8 - shift) as u8))
}

/// The byte with only its `live` leading bits kept; all of it when `live` is
/// eight or more.
pub open spec fn keep_high(b: u8, live: int) -> u8 {
    if live >= 8 {
        b
    } else if live <= 0 {
        0
    } else {
        b & (0xFFu8 << ((8 - live) as u8))
    }
}

/// A bit of the string is a bit of the byte that holds it, with zero standing
/// for a byte past the end.
pub proof fn lemma_bit_at_byte(s: Seq<u8>, i: int)
    requires
        0 <= i,
    ensures
        bit_at(s, i) == bit_of(byte_or_zero(s, i / 8), (i % 8) as u8),
{
    let k = (i % 8) as u8;
    if i >= 8 * s.len() {
        assert(!bit_of(0u8, k)) by (bit_vector);
    }
}

/// A byte is determined by its eight bits.
pub proof fn lemma_byte_from_its_bits(b: u8)
    ensures
        b == byte_of_bits(
            bit_of(b, 0),
            bit_of(b, 1),
            bit_of(b, 2),
            bit_of(b, 3),
            bit_of(b, 4),
            bit_of(b, 5),
            bit_of(b, 6),
            bit_of(b, 7),
        ),
{
    assert(b == byte_of_bits(
        bit_of(b, 0),
        bit_of(b, 1),
        bit_of(b, 2),
        bit_of(b, 3),
        bit_of(b, 4),
        bit_of(b, 5),
        bit_of(b, 6),
        bit_of(b, 7),
    )) by (bit_vector);
}

/// The bits of an assembled byte are the bits it was assembled from.
pub proof fn lemma_bits_of_assembled(
    b0: bool,
    b1: bool,
    b2: bool,
    b3: bool,
    b4: bool,
    b5: bool,
    b6: bool,
    b7: bool,
)
    ensures
        ({
            let b = byte_of_bits(b0, b1, b2, b3, b4, b5, b6, b7);
            &&& bit_of(b, 0) == b0
            &&& bit_of(b, 1) == b1
            &&& bit_of(b, 2) == b2
            &&& bit_of(b, 3) == b3
            &&& bit_of(b, 4) == b4
            &&& bit_of(b, 5) == b5
            &&& bit_of(b, 6) == b6
            &&& bit_of(b, 7) == b7
        }),
{
    assert({
        let b = byte_of_bits(b0, b1, b2, b3, b4, b5, b6, b7);
        &&& bit_of(b, 0) == b0
        &&& bit_of(b, 1) == b1
        &&& bit_of(b, 2) == b2
        &&& bit_of(b, 3) == b3
        &&& bit_of(b, 4) == b4
        &&& bit_of(b, 5) == b5
        &&& bit_of(b, 6) == b6
        &&& bit_of(b, 7) == b7
    }) by (bit_vector);
}

/// Bit `k` of a shifted window comes from the first byte while `shift + k`
/// stays inside it, and from the second byte after that.
pub proof fn lemma_combine_bit(hi: u8, lo: u8, shift: u8, k: u8)
    requires
        shift < 8,
        k < 8,
    ensures
        bit_of(combine(hi, lo, shift), k) == if shift + k < 8 {
            bit_of(hi, (shift + k) as u8)
        } else {
            bit_of(lo, (shift + k - 8) as u8)
        },
{
    let back = (8 - shift) as u8;
    let c = (hi << shift) | (lo >> back);
    if shift + k < 8 {
        let t = (shift + k) as u8;
        assert(bit_of(c, k) == bit_of(hi, t)) by (bit_vector)
            requires
                shift < 8,
                k < 8,
                shift + back == 8,
                t == shift + k,
                t < 8,
                c == (hi << shift) | (lo >> back),
        ;
    } else {
        let t = (shift + k - 8) as u8;
        assert(bit_of(c, k) == bit_of(lo, t)) by (bit_vector)
            requires
                shift < 8,
                k < 8,
                shift + back == 8,
                t + 8 == shift + k,
                c == (hi << shift) | (lo >> back),
        ;
    }
}

/// Keeping the leading `live` bits clears every later bit and leaves the
/// leading ones as they were.
pub proof fn lemma_keep_high_bit(b: u8, live: int, k: u8)
    requires
        k < 8,
    ensures
        bit_of(keep_high(b, live), k) == (k < live && bit_of(b, k)),
{
    if live >= 8 {
    } else if live <= 0 {
        assert(!bit_of(0u8, k)) by (bit_vector);
    } else {
        let drop = (8 - live) as u8;
        let n = live as u8;
        let m = b & (0xFFu8 << drop);
        assert(bit_of(m, k) == (k < n && bit_of(b, k))) by (bit_vector)
            requires
                k < 8,
                0 < n < 8,
                n + drop == 8,
                m == b & (0xFFu8 << drop),
        ;
    }
}

} // verus!
