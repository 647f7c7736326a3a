//! The two 48-bit markers of the container and the test for one at a bit
//! offset.

use vstd::prelude::*;
use crate::bits::{bit_at, byte_or_zero, combine};
use crate::extract::{
    be_byte, be_word, extracted, extracted_byte, lemma_equal_bits_equal_bytes,
    lemma_extracted_bits, lemma_extracted_byte_is_shifted,
};

verus! {

/// The kind of a marker.
#[derive(Debug, Clone, Copy, PartialEq, Eq, Structural)]
pub enum MarkerType {
    /// The marker in front of a block.
    Block,
    /// The marker that closes a stream.
    Eos,
}

/// The 48-bit constant in front of every block.
pub const MAGIC_BLOCK: u64 = 0x3141_5926_5359;

/// The 48-bit constant that closes a stream.
pub const MAGIC_EOS: u64 = 0x1772_4538_5090;

/// The mask of the upper 48 bits of a word.
pub const MAGIC_MASK: u64 = 0xFFFF_FFFF_FFFF_0000;

impl MarkerType {
    /// The constant that a marker of this kind carries.
    pub open spec fn magic(self) -> u64 {
        match self {
            MarkerType::Block => MAGIC_BLOCK,
            MarkerType::Eos => MAGIC_EOS,
        }
    }
}

/// The lower 48 bits of `magic` as six bytes, most significant first.
pub open spec fn magic_bytes(magic: u64) -> Seq<u8> {
    seq![
        be_byte(magic, 2),
        be_byte(magic, 3),
        be_byte(magic, 4),
        be_byte(magic, 5),
        be_byte(magic, 6),
        be_byte(magic, 7),
    ]
}

/// The 48 bits from `bit` on, with zero for every bit that lies past the end
/// of `data`, are the lower 48 bits of `magic`, most significant first.
pub open spec fn bits_show(data: Seq<u8>, bit: int, magic: u64) -> bool {
    forall|k: int|
        0 <= k < 48 ==> bit_at(data, bit + k) == #[trigger] bit_at(magic_bytes(magic), k)
}

/// A marker stands at `bit`: the 48 bits from `bit` on all lie in `data` and
/// are the lower 48 bits of `magic`, most significant first.
pub open spec fn magic_at(data: Seq<u8>, bit: int, magic: u64) -> bool {
    bit + 48 <= 8 * data.len() && bits_show(data, bit, magic)
}

/// The 48 bits from `bit` on show the constant exactly if, lifted out, they
/// are the six bytes of the constant.
pub proof fn lemma_bits_show_bytes(data: Seq<u8>, bit: int, magic: u64)
    requires
        0 <= bit,
    ensures
        bits_show(data, bit, magic) <==> extracted(data, bit, bit + 48) == magic_bytes(magic),
{
    let lifted = extracted(data, bit, bit + 48);
    let want = magic_bytes(magic);
    assert forall|k: int| 0 <= k < 48 implies bit_at(lifted, k) == bit_at(data, bit + k) by {
        lemma_extracted_bits(data, bit, bit + 48, k);
    }
    if bits_show(data, bit, magic) {
        assert forall|k: int| 0 <= k < 8 * lifted.len() implies bit_at(lifted, k) == bit_at(
            want,
            k,
        ) by {}
        lemma_equal_bits_equal_bytes(lifted, want);
    }
}

/// The six lifted bytes are the shifted windows over the seven input bytes
/// that the 48 bits touch.
proof fn lemma_lifted_windows(data: Seq<u8>, bit: int, j: int)
    requires
        0 <= bit,
        0 <= j < 6,
    ensures
        extracted(data, bit, bit + 48)[j] == combine(
            byte_or_zero(data, bit / 8 + j),
            byte_or_zero(data, bit / 8 + j + 1),
            (bit % 8) as u8,
        ),
{
    lemma_extracted_byte_is_shifted(data, bit, bit + 48, j);
    assert(extracted(data, bit, bit + 48)[j] == extracted_byte(data, bit, bit + 48, j));
}

/// The masked comparison of words is the comparison of the six windows with
/// the six bytes of the constant.
proof fn lemma_masked_word(
    b0: u8,
    b1: u8,
    b2: u8,
    b3: u8,
    b4: u8,
    b5: u8,
    b6: u8,
    b7: u8,
    shift: u8,
    magic: u64,
)
    requires
        shift < 8,
    ensures
        ((be_word(b0, b1, b2, b3, b4, b5, b6, b7) & (MAGIC_MASK >> shift)) == ((magic << 16)
            >> shift)) <==> {
            &&& combine(b0, b1, shift) == be_byte(magic, 2)
            &&& combine(b1, b2, shift) == be_byte(magic, 3)
            &&& combine(b2, b3, shift) == be_byte(magic, 4)
            &&& combine(b3, b4, shift) == be_byte(magic, 5)
            &&& combine(b4, b5, shift) == be_byte(magic, 6)
            &&& combine(b5, b6, shift) == be_byte(magic, 7)
        },
{
    let back = (8 - shift) as u8;
    let word = be_word(b0, b1, b2, b3, b4, b5, b6, b7);
    assert(((word & (MAGIC_MASK >> shift)) == ((magic << 16) >> shift)) <==> {
        &&& (b0 << shift) | (b1 >> back) == ((magic >> 40u64) & 0xFF) as u8
        &&& (b1 << shift) | (b2 >> back) == ((magic >> 32u64) & 0xFF) as u8
        &&& (b2 << shift) | (b3 >> back) == ((magic >> 24u64) & 0xFF) as u8
        &&& (b3 << shift) | (b4 >> back) == ((magic >> 16u64) & 0xFF) as u8
        &&& (b4 << shift) | (b5 >> back) == ((magic >> 8u64) & 0xFF) as u8
        &&& (b5 << shift) | (b6 >> back) == ((magic >> 0u64) & 0xFF) as u8
    }) by (bit_vector)
        requires
            shift < 8,
            shift + back == 8,
            word == be_word(b0, b1, b2, b3, b4, b5, b6, b7),
    ;
}

/// The six windows over the seven bytes from `bit / 8` on show the six bytes
/// of the constant.
pub open spec fn windows_show(data: Seq<u8>, bit: int, magic: u64) -> bool {
    let shift = (bit % 8) as u8;
    let at = bit / 8;
    &&& combine(byte_or_zero(data, at), byte_or_zero(data, at + 1), shift) == be_byte(magic, 2)
    &&& combine(byte_or_zero(data, at + 1), byte_or_zero(data, at + 2), shift) == be_byte(
        magic,
        3,
    )
    &&& combine(byte_or_zero(data, at + 2), byte_or_zero(data, at + 3), shift) == be_byte(
        magic,
        4,
    )
    &&& combine(byte_or_zero(data, at + 3), byte_or_zero(data, at + 4), shift) == be_byte(
        magic,
        5,
    )
    &&& combine(byte_or_zero(data, at + 4), byte_or_zero(data, at + 5), shift) == be_byte(
        magic,
        6,
    )
    &&& combine(byte_or_zero(data, at + 5), byte_or_zero(data, at + 6), shift) == be_byte(
        magic,
        7,
    )
}

proof fn lemma_lifted_is_windows(data: Seq<u8>, bit: int, magic: u64)
    requires
        0 <= bit,
    ensures
        (extracted(data, bit, bit + 48) == magic_bytes(magic)) <==> windows_show(data, bit, magic),
{
    let lifted = extracted(data, bit, bit + 48);
    let want = magic_bytes(magic);
    lemma_lifted_windows(data, bit, 0);
    lemma_lifted_windows(data, bit, 1);
    lemma_lifted_windows(data, bit, 2);
    lemma_lifted_windows(data, bit, 3);
    lemma_lifted_windows(data, bit, 4);
    lemma_lifted_windows(data, bit, 5);
    assert(lifted.len() == 6);
    assert(want.len() == 6);
    if windows_show(data, bit, magic) {
        assert(lifted =~= want);
    }
    if lifted == want {
        assert(lifted[0] == want[0]);
        assert(lifted[1] == want[1]);
        assert(lifted[2] == want[2]);
        assert(lifted[3] == want[3]);
        assert(lifted[4] == want[4]);
        assert(lifted[5] == want[5]);
    }
}

/// The word that [`verify_magic`] reads at `bit`: the eight bytes from
/// `bit / 8` on, zero where the input has ended.
pub open spec fn word_at(data: Seq<u8>, bit: int) -> u64 {
    be_word(
        byte_or_zero(data, bit / 8),
        byte_or_zero(data, bit / 8 + 1),
        byte_or_zero(data, bit / 8 + 2),
        byte_or_zero(data, bit / 8 + 3),
        byte_or_zero(data, bit / 8 + 4),
        byte_or_zero(data, bit / 8 + 5),
        byte_or_zero(data, bit / 8 + 6),
        byte_or_zero(data, bit / 8 + 7),
    )
}

/// The masked comparison that [`verify_magic`] makes decides whether the
/// marker is at `bit`.
pub proof fn lemma_word_test(data: Seq<u8>, bit: int, magic: u64)
    requires
        0 <= bit,
    ensures
        bits_show(data, bit, magic) <==> (word_at(data, bit) & (MAGIC_MASK >> ((bit % 8) as u8)))
            == ((magic << 16) >> ((bit % 8) as u8)),
{
    let at = bit / 8;
    lemma_bits_show_bytes(data, bit, magic);
    lemma_lifted_is_windows(data, bit, magic);
    lemma_masked_word(
        byte_or_zero(data, at),
        byte_or_zero(data, at + 1),
        byte_or_zero(data, at + 2),
        byte_or_zero(data, at + 3),
        byte_or_zero(data, at + 4),
        byte_or_zero(data, at + 5),
        byte_or_zero(data, at + 6),
        byte_or_zero(data, at + 7),
        (bit % 8) as u8,
        magic,
    );
}

/// No bit position holds both markers.
pub proof fn lemma_one_marker_at_most(data: Seq<u8>, bit: int)
    requires
        0 <= bit,
    ensures
        !(magic_at(data, bit, MAGIC_BLOCK) && magic_at(data, bit, MAGIC_EOS)),
{
    lemma_bits_show_bytes(data, bit, MAGIC_BLOCK);
    lemma_bits_show_bytes(data, bit, MAGIC_EOS);
    assert(magic_bytes(MAGIC_BLOCK)[0] == be_byte(MAGIC_BLOCK, 2));
    assert(magic_bytes(MAGIC_EOS)[0] == be_byte(MAGIC_EOS, 2));
    assert(((MAGIC_BLOCK >> 40u64) & 0xFF) as u8 != ((MAGIC_EOS >> 40u64) & 0xFF) as u8)
        by (bit_vector);
}

/// The byte at `idx + k`, or zero past the end.
fn padded_byte(data: &[u8], idx: usize, k: usize) -> (b: u8)
    requires
        idx <= data.len(),
    ensures
        b == byte_or_zero(data@, idx + k),
{
    if data.len() - idx > k {
        data[idx + k]
    } else {
        0
    }
}

/// Tells whether the 48 bits of `data` from `bit_offset` on are the lower 48
/// bits of `expected_magic`.
///
/// The answer is no where fewer than 48 bits are left from `bit_offset` to
/// the end of the input. Else up to eight bytes from the byte that holds
/// `bit_offset` are read as one big-endian word, zero-padded where the input
/// ends early, and compared under a mask with the constant moved to the same
/// offset.
pub fn verify_magic(data: &[u8], bit_offset: u64, expected_magic: u64) -> (found: bool)
    ensures
        found == magic_at(data@, bit_offset as int, expected_magic),
{
    let shift: u8 = (bit_offset % 8) as u8;
    // 48 bits from an offset inside a byte reach into a seventh byte.
    let bytes_needed: u64 = if shift == 0 {
        6
    } else {
        7
    };
    if bit_offset / 8 + bytes_needed > data.len() as u64 {
        return false;
    }
    let byte_idx: usize = (bit_offset / 8) as usize;

    let b0: u8 = padded_byte(data, byte_idx, 0);
    let b1: u8 = padded_byte(data, byte_idx, 1);
    let b2: u8 = padded_byte(data, byte_idx, 2);
    let b3: u8 = padded_byte(data, byte_idx, 3);
    let b4: u8 = padded_byte(data, byte_idx, 4);
    let b5: u8 = padded_byte(data, byte_idx, 5);
    let b6: u8 = padded_byte(data, byte_idx, 6);
    let b7: u8 = padded_byte(data, byte_idx, 7);
    let val: u64 = ((b0 as u64) << 56) | ((b1 as u64) << 48) | ((b2 as u64) << 40) | ((b3 as u64)
        << 32) | ((b4 as u64) << 24) | ((b5 as u64) << 16) | ((b6 as u64) << 8) | (b7 as u64);

    let magic_top: u64 = expected_magic << 16;
    let expected: u64 = magic_top >> shift;
    let mask: u64 = MAGIC_MASK >> shift;

    proof {
        lemma_word_test(data@, bit_offset as int, expected_magic);
    }
    (val & mask) == expected
}

} // verus!
