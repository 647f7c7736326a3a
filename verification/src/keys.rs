//! The search keys: four bytes that betray a marker at each bit alignment.
//!
//! A marker that starts `shift` bits into byte `c` fills the bytes `c + 1` to
//! `c + 4` whatever the shift is. Those four bytes are the search key of the
//! marker and the shift: bytes 1 to 4 of the big-endian word that holds the
//! marker `shift` bits below its top. A key found at index `p` makes byte
//! `p - 1` the candidate for the start of a marker.

use vstd::prelude::*;
use crate::bits::byte_or_zero;
use crate::extract::{be_byte, be_word};
use crate::marker::{
    lemma_word_test, magic_at, MarkerType, MAGIC_BLOCK, MAGIC_EOS, MAGIC_MASK,
};
use crate::matcher::occurs_at;

verus! {

/// The number of search keys: two markers at eight alignments each.
pub const KEY_COUNT: usize = 16;

/// The search key of `magic` at the alignment `shift`.
pub open spec fn search_key(magic: u64, shift: u8) -> Seq<u8> {
    let word = (magic << 16) >> shift;
    seq![be_byte(word, 1), be_byte(word, 2), be_byte(word, 3), be_byte(word, 4)]
}

/// The kind of marker that key number `id` belongs to: the first eight keys
/// are those of the block marker.
pub open spec fn key_kind(id: int) -> MarkerType {
    if id < 8 {
        MarkerType::Block
    } else {
        MarkerType::Eos
    }
}

/// The alignment that key number `id` belongs to.
pub open spec fn key_shift(id: int) -> u8 {
    (id % 8) as u8
}

/// The number of the key of a marker kind at an alignment below eight.
pub open spec fn key_id(kind: MarkerType, shift: int) -> int {
    match kind {
        MarkerType::Block => shift,
        MarkerType::Eos => 8 + shift,
    }
}

/// All search keys in the order of their numbers.
pub open spec fn search_keys() -> Seq<Seq<u8>> {
    Seq::new(KEY_COUNT as nat, |id: int| search_key(key_kind(id).magic(), key_shift(id)))
}

/// Computes the search key of `magic` at the alignment `shift`.
pub fn make_search_key(magic: u64, shift: u8) -> (key: Vec<u8>)
    requires
        shift < 8,
    ensures
        key@ == search_key(magic, shift),
{
    let word: u64 = (magic << 16) >> shift;
    let mut key: Vec<u8> = Vec::new();
    key.push(((word >> 48) & 0xFF) as u8);
    key.push(((word >> 40) & 0xFF) as u8);
    key.push(((word >> 32) & 0xFF) as u8);
    key.push(((word >> 24) & 0xFF) as u8);
    assert(key@ =~= search_key(magic, shift));
    key
}

/// Where a marker is verified, its search key stands one byte after the byte
/// in which the marker starts.
pub proof fn lemma_key_follows_marker(data: Seq<u8>, bit: int, magic: u64)
    requires
        0 <= bit,
        magic_at(data, bit, magic),
    ensures
        occurs_at(search_key(magic, (bit % 8) as u8), data, bit / 8 + 1),
{
    let shift = (bit % 8) as u8;
    let at = bit / 8;
    let b0 = byte_or_zero(data, at);
    let b1 = byte_or_zero(data, at + 1);
    let b2 = byte_or_zero(data, at + 2);
    let b3 = byte_or_zero(data, at + 3);
    let b4 = byte_or_zero(data, at + 4);
    let b5 = byte_or_zero(data, at + 5);
    let b6 = byte_or_zero(data, at + 6);
    let b7 = byte_or_zero(data, at + 7);
    let word = be_word(b0, b1, b2, b3, b4, b5, b6, b7);
    let key_word = (magic << 16) >> shift;
    lemma_word_test(data, bit, magic);
    assert({
        &&& b1 == ((key_word >> 48u64) & 0xFF) as u8
        &&& b2 == ((key_word >> 40u64) & 0xFF) as u8
        &&& b3 == ((key_word >> 32u64) & 0xFF) as u8
        &&& b4 == ((key_word >> 24u64) & 0xFF) as u8
    }) by (bit_vector)
        requires
            shift < 8,
            word == be_word(b0, b1, b2, b3, b4, b5, b6, b7),
            (word & (MAGIC_MASK >> shift)) == key_word,
    ;
    assert(data.subrange(at + 1, at + 5) =~= search_key(magic, shift));
}

/// Around a verified marker no search key stands but the marker's own: a key
/// that shares a byte with it is that very key at that very place.
pub proof fn lemma_key_stands_alone(data: Seq<u8>, bit: int, kind: MarkerType, id: int, at: int)
    requires
        0 <= bit,
        magic_at(data, bit, kind.magic()),
        0 <= id < KEY_COUNT,
        occurs_at(search_keys()[id], data, at),
        bit / 8 - 2 <= at <= bit / 8 + 4,
    ensures
        at == bit / 8 + 1,
        id == key_id(kind, bit % 8),
{
    let shift = (bit % 8) as u8;
    let c = bit / 8;
    let magic = kind.magic();
    let xm2 = byte_or_zero(data, c - 2);
    let xm1 = byte_or_zero(data, c - 1);
    let x0 = byte_or_zero(data, c);
    let x1 = byte_or_zero(data, c + 1);
    let x2 = byte_or_zero(data, c + 2);
    let x3 = byte_or_zero(data, c + 3);
    let x4 = byte_or_zero(data, c + 4);
    let x5 = byte_or_zero(data, c + 5);
    let x6 = byte_or_zero(data, c + 6);
    let x7 = byte_or_zero(data, c + 7);
    let word = be_word(x0, x1, x2, x3, x4, x5, x6, x7);
    let magic2 = key_kind(id).magic();
    let shift2 = key_shift(id);
    let key_word = (magic2 << 16) >> shift2;
    let k1 = be_byte(key_word, 1);
    let k2 = be_byte(key_word, 2);
    let k3 = be_byte(key_word, 3);
    let k4 = be_byte(key_word, 4);
    lemma_word_test(data, bit, magic);
    assert({
        &&& !(xm2 == k1 && xm1 == k2 && x0 == k3 && x1 == k4)
        &&& !(xm1 == k1 && x0 == k2 && x1 == k3 && x2 == k4)
        &&& !(x0 == k1 && x1 == k2 && x2 == k3 && x3 == k4)
        &&& (x1 == k1 && x2 == k2 && x3 == k3 && x4 == k4) ==> (magic2 == magic && shift2
            == shift)
        &&& !(x2 == k1 && x3 == k2 && x4 == k3 && x5 == k4)
        &&& !(x3 == k1 && x4 == k2 && x5 == k3 && x6 == k4)
        &&& !(x4 == k1 && x5 == k2 && x6 == k3 && x7 == k4)
    }) by (bit_vector)
        requires
            shift < 8,
            shift2 < 8,
            magic == MAGIC_BLOCK || magic == MAGIC_EOS,
            magic2 == MAGIC_BLOCK || magic2 == MAGIC_EOS,
            word == be_word(x0, x1, x2, x3, x4, x5, x6, x7),
            (word & (MAGIC_MASK >> shift)) == ((magic << 16) >> shift),
            key_word == (magic2 << 16) >> shift2,
            k1 == ((key_word >> 48u64) & 0xFF) as u8,
            k2 == ((key_word >> 40u64) & 0xFF) as u8,
            k3 == ((key_word >> 32u64) & 0xFF) as u8,
            k4 == ((key_word >> 24u64) & 0xFF) as u8,
    ;
    let key = search_keys()[id];
    assert(key == search_key(magic2, shift2));
    assert(key.len() == 4);
    assert(data.subrange(at, at + 4)[0] == key[0]);
    assert(data.subrange(at, at + 4)[1] == key[1]);
    assert(data.subrange(at, at + 4)[2] == key[2]);
    assert(data.subrange(at, at + 4)[3] == key[3]);
}

} // verus!
