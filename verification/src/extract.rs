//! Lifting a run of bits out of a byte string.
//!
//! A block of the container starts and ends at arbitrary bit positions.
//! [`extract_bits`] copies the bits `[start_bit, end_bit)` of the input into
//! whole bytes: the first bit of the run becomes the most significant bit of
//! the first byte, and the bits of the last byte that the run does not reach
//! are zero.

use vstd::prelude::*;
use vstd::slice::slice_subrange;
use crate::bits::{
    bit_at, bit_of, byte_of_bits, byte_or_zero, combine, keep_high, lemma_bit_at_byte,
    lemma_bits_of_assembled, lemma_byte_from_its_bits, lemma_combine_bit, lemma_keep_high_bit,
};

verus! {

/// The number of bytes that the bits `[start, end)` fill.
pub open spec fn extracted_len(start: int, end: int) -> nat {
    if start < end {
        ((end - start + 7) / 8) as nat
    } else {
        0
    }
}

/// The run `[start_bit, end_bit)` can be lifted out of an input of `len`
/// bytes: it is empty, or every byte in which an output byte starts exists.
pub open spec fn range_fits(len: int, start_bit: u64, end_bit: u64) -> bool {
    start_bit < end_bit ==> start_bit / 8 + (end_bit - start_bit + 7) / 8 <= len
}

/// A run that ends inside the input can be lifted out.
pub proof fn lemma_run_inside_fits(len: int, start_bit: u64, end_bit: u64)
    requires
        end_bit <= 8 * len,
    ensures
        range_fits(len, start_bit, end_bit),
{
}

/// Bit `j` of the output: bit `start + j` of the input while that lies in
/// front of `end`, and zero after.
pub open spec fn window_bit(data: Seq<u8>, start: int, end: int, j: int) -> bool {
    start + j < end && bit_at(data, start + j)
}

/// Byte `j` of the output: the eight output bits from `8 * j` on, the first
/// of them in the most significant place.
pub closed spec fn extracted_byte(data: Seq<u8>, start: int, end: int, j: int) -> u8 {
    byte_of_bits(
        window_bit(data, start, end, 8 * j),
        window_bit(data, start, end, 8 * j + 1),
        window_bit(data, start, end, 8 * j + 2),
        window_bit(data, start, end, 8 * j + 3),
        window_bit(data, start, end, 8 * j + 4),
        window_bit(data, start, end, 8 * j + 5),
        window_bit(data, start, end, 8 * j + 6),
        window_bit(data, start, end, 8 * j + 7),
    )
}

/// The bits `[start, end)` of `data` as whole bytes, zero-padded at the tail.
pub open spec fn extracted(data: Seq<u8>, start: int, end: int) -> Seq<u8> {
    Seq::new(extracted_len(start, end), |j: int| extracted_byte(data, start, end, j))
}

/// Byte `j` of what the copying path writes: the input byte itself, cut to
/// the bits that are left.
pub open spec fn copied_byte(data: Seq<u8>, start: int, end: int, j: int) -> u8 {
    keep_high(byte_or_zero(data, start / 8 + j), end - start - 8 * j)
}

/// Byte `j` of what the shifting path writes: two neighbouring input bytes
/// seen through a window that starts `start % 8` bits into the first, cut to
/// the bits that are left.
pub open spec fn shifted_byte(data: Seq<u8>, start: int, end: int, j: int) -> u8 {
    keep_high(
        combine(
            byte_or_zero(data, start / 8 + j),
            byte_or_zero(data, start / 8 + j + 1),
            (start % 8) as u8,
        ),
        end - start - 8 * j,
    )
}

/// The output of the copying path, which serves byte-aligned starts.
pub open spec fn copied(data: Seq<u8>, start: int, end: int) -> Seq<u8> {
    Seq::new(extracted_len(start, end), |j: int| copied_byte(data, start, end, j))
}

/// The output of the shifting path.
pub open spec fn shifted(data: Seq<u8>, start: int, end: int) -> Seq<u8> {
    Seq::new(extracted_len(start, end), |j: int| shifted_byte(data, start, end, j))
}

/// The eight bytes `b0 .. b7` as one big-endian word.
pub open spec fn be_word(b0: u8, b1: u8, b2: u8, b3: u8, b4: u8, b5: u8, b6: u8, b7: u8) -> u64 {
    ((b0 as u64) << 56) | ((b1 as u64) << 48) | ((b2 as u64) << 40) | ((b3 as u64) << 32)
        | ((b4 as u64) << 24) | ((b5 as u64) << 16) | ((b6 as u64) << 8) | (b7 as u64)
}

/// Byte `k` of a word in big-endian order, for `k` below eight.
pub open spec fn be_byte(w: u64, k: int) -> u8 {
    ((w >> ((56 - 8 * k) as u64)) & 0xFF) as u8
}

proof fn lemma_window_bit_of_shifted(data: Seq<u8>, start: int, end: int, j: int, k: u8)
    requires
        0 <= start,
        0 <= j,
        k < 8,
    ensures
        bit_of(shifted_byte(data, start, end, j), k) == window_bit(data, start, end, 8 * j + k),
{
    let shift = (start % 8) as u8;
    let hi = byte_or_zero(data, start / 8 + j);
    let lo = byte_or_zero(data, start / 8 + j + 1);
    let i = start + 8 * j + k;
    lemma_keep_high_bit(combine(hi, lo, shift), end - start - 8 * j, k);
    lemma_combine_bit(hi, lo, shift, k);
    lemma_bit_at_byte(data, i);
    if shift + k < 8 {
        assert(i / 8 == start / 8 + j);
        assert(i % 8 == shift + k);
    } else {
        assert(i / 8 == start / 8 + j + 1);
        assert(i % 8 == shift + k - 8);
    }
}

/// Each output byte is the shifted window over two input bytes, cut to the
/// bits that are left.
pub proof fn lemma_extracted_byte_is_shifted(data: Seq<u8>, start: int, end: int, j: int)
    requires
        0 <= start,
        0 <= j,
    ensures
        extracted_byte(data, start, end, j) == shifted_byte(data, start, end, j),
{
    let v = shifted_byte(data, start, end, j);
    lemma_window_bit_of_shifted(data, start, end, j, 0);
    lemma_window_bit_of_shifted(data, start, end, j, 1);
    lemma_window_bit_of_shifted(data, start, end, j, 2);
    lemma_window_bit_of_shifted(data, start, end, j, 3);
    lemma_window_bit_of_shifted(data, start, end, j, 4);
    lemma_window_bit_of_shifted(data, start, end, j, 5);
    lemma_window_bit_of_shifted(data, start, end, j, 6);
    lemma_window_bit_of_shifted(data, start, end, j, 7);
    lemma_byte_from_its_bits(v);
}

/// With no shift the window shows the first byte alone.
pub proof fn lemma_combine_unshifted(hi: u8, lo: u8)
    ensures
        combine(hi, lo, 0) == hi,
{
    assert((hi << 0u8) | (lo >> 8u8) == hi) by (bit_vector);
}

/// On a byte-aligned start the copying path and the shifting path write the
/// same bytes, and both write the extraction.
pub proof fn lemma_copy_equals_shift(data: Seq<u8>, start: int, end: int)
    requires
        0 <= start,
        start % 8 == 0,
    ensures
        copied(data, start, end) == shifted(data, start, end),
        copied(data, start, end) == extracted(data, start, end),
{
    assert forall|j: int| 0 <= j < extracted_len(start, end) implies copied_byte(
        data,
        start,
        end,
        j,
    ) == shifted_byte(data, start, end, j) && copied_byte(data, start, end, j) == extracted_byte(
        data,
        start,
        end,
        j,
    ) by {
        lemma_combine_unshifted(
            byte_or_zero(data, start / 8 + j),
            byte_or_zero(data, start / 8 + j + 1),
        );
        lemma_extracted_byte_is_shifted(data, start, end, j);
    }
    assert(copied(data, start, end) =~= shifted(data, start, end));
    assert(copied(data, start, end) =~= extracted(data, start, end));
}

/// At every start the shifting path writes the extraction.
pub proof fn lemma_shift_is_extraction(data: Seq<u8>, start: int, end: int)
    requires
        0 <= start,
    ensures
        shifted(data, start, end) == extracted(data, start, end),
{
    assert forall|j: int| 0 <= j < extracted_len(start, end) implies shifted_byte(
        data,
        start,
        end,
        j,
    ) == extracted_byte(data, start, end, j) by {
        lemma_extracted_byte_is_shifted(data, start, end, j);
    }
    assert(shifted(data, start, end) =~= extracted(data, start, end));
}

/// The bits of the extraction, read most significant first, are the bits of
/// the input from `start` on, and every bit from `end - start` on is zero.
pub proof fn lemma_extracted_bits(data: Seq<u8>, start: int, end: int, j: int)
    requires
        0 <= start,
        0 <= j < 8 * extracted_len(start, end),
    ensures
        bit_at(extracted(data, start, end), j) == (j < end - start && bit_at(data, start + j)),
{
    let q = j / 8;
    lemma_bits_of_assembled(
        window_bit(data, start, end, 8 * q),
        window_bit(data, start, end, 8 * q + 1),
        window_bit(data, start, end, 8 * q + 2),
        window_bit(data, start, end, 8 * q + 3),
        window_bit(data, start, end, 8 * q + 4),
        window_bit(data, start, end, 8 * q + 5),
        window_bit(data, start, end, 8 * q + 6),
        window_bit(data, start, end, 8 * q + 7),
    );
    assert(extracted(data, start, end)[q] == extracted_byte(data, start, end, q));
    assert(j == 8 * q + j % 8);
}

/// Byte strings of one length whose bits agree are equal: the statement over
/// bits fixes the extraction.
pub proof fn lemma_equal_bits_equal_bytes(a: Seq<u8>, b: Seq<u8>)
    requires
        a.len() == b.len(),
        forall|i: int| 0 <= i < 8 * a.len() ==> bit_at(a, i) == bit_at(b, i),
    ensures
        a == b,
{
    assert forall|q: int| 0 <= q < a.len() implies a[q] == b[q] by {
        assert(bit_at(a, 8 * q) == bit_at(b, 8 * q));
        assert(bit_at(a, 8 * q + 1) == bit_at(b, 8 * q + 1));
        assert(bit_at(a, 8 * q + 2) == bit_at(b, 8 * q + 2));
        assert(bit_at(a, 8 * q + 3) == bit_at(b, 8 * q + 3));
        assert(bit_at(a, 8 * q + 4) == bit_at(b, 8 * q + 4));
        assert(bit_at(a, 8 * q + 5) == bit_at(b, 8 * q + 5));
        assert(bit_at(a, 8 * q + 6) == bit_at(b, 8 * q + 6));
        assert(bit_at(a, 8 * q + 7) == bit_at(b, 8 * q + 7));
        lemma_byte_from_its_bits(a[q]);
        lemma_byte_from_its_bits(b[q]);
    }
    assert(a =~= b);
}

/// Bit `j` of the run that starts at bit `start` of `data`.
pub open spec fn run_bit(data: Seq<u8>, start: int, j: int) -> bool {
    bit_at(data, start + j)
}

/// The extraction depends on the bits of the run alone, not on where in a
/// byte the run starts: two runs of one length that hold the same bits give
/// the same bytes.
pub proof fn lemma_same_bits_same_bytes(
    a: Seq<u8>,
    a_start: int,
    b: Seq<u8>,
    b_start: int,
    len: int,
)
    requires
        0 <= a_start,
        0 <= b_start,
        forall|j: int| 0 <= j < len ==> #[trigger] run_bit(a, a_start, j) == run_bit(b, b_start, j),
    ensures
        extracted(a, a_start, a_start + len) == extracted(b, b_start, b_start + len),
{
    let x = extracted(a, a_start, a_start + len);
    let y = extracted(b, b_start, b_start + len);
    assert forall|j: int| 0 <= j < 8 * x.len() implies bit_at(x, j) == bit_at(y, j) by {
        lemma_extracted_bits(a, a_start, a_start + len, j);
        lemma_extracted_bits(b, b_start, b_start + len, j);
        if j < len {
            assert(run_bit(a, a_start, j) == run_bit(b, b_start, j));
        }
    }
    lemma_equal_bits_equal_bytes(x, y);
}

/// The word path and the byte path agree: shifting a big-endian word and
/// filling in from the ninth byte gives, byte for byte, the shifted windows
/// over the nine bytes.
pub proof fn lemma_word_path(
    b0: u8,
    b1: u8,
    b2: u8,
    b3: u8,
    b4: u8,
    b5: u8,
    b6: u8,
    b7: u8,
    b8: u8,
    shift: u8,
    word: u64,
)
    requires
        0 < shift < 8,
        word == (be_word(b0, b1, b2, b3, b4, b5, b6, b7) << shift) | ((b8 as u64) >> ((8
            - shift) as u8)),
    ensures
        be_byte(word, 0) == combine(b0, b1, shift),
        be_byte(word, 1) == combine(b1, b2, shift),
        be_byte(word, 2) == combine(b2, b3, shift),
        be_byte(word, 3) == combine(b3, b4, shift),
        be_byte(word, 4) == combine(b4, b5, shift),
        be_byte(word, 5) == combine(b5, b6, shift),
        be_byte(word, 6) == combine(b6, b7, shift),
        be_byte(word, 7) == combine(b7, b8, shift),
{
    let back = (8 - shift) as u8;
    assert({
        &&& ((word >> 56u64) & 0xFF) as u8 == (b0 << shift) | (b1 >> back)
        &&& ((word >> 48u64) & 0xFF) as u8 == (b1 << shift) | (b2 >> back)
        &&& ((word >> 40u64) & 0xFF) as u8 == (b2 << shift) | (b3 >> back)
        &&& ((word >> 32u64) & 0xFF) as u8 == (b3 << shift) | (b4 >> back)
        &&& ((word >> 24u64) & 0xFF) as u8 == (b4 << shift) | (b5 >> back)
        &&& ((word >> 16u64) & 0xFF) as u8 == (b5 << shift) | (b6 >> back)
        &&& ((word >> 8u64) & 0xFF) as u8 == (b6 << shift) | (b7 >> back)
        &&& ((word >> 0u64) & 0xFF) as u8 == (b7 << shift) | (b8 >> back)
    }) by (bit_vector)
        requires
            0 < shift < 8,
            shift + back == 8,
            word == (be_word(b0, b1, b2, b3, b4, b5, b6, b7) << shift) | ((b8 as u64) >> back),
    ;
}

/// Reads the eight bytes from `idx` on as one big-endian word.
fn load_be_word(data: &[u8], idx: usize) -> (w: u64)
    requires
        idx + 8 <= data.len(),
    ensures
        w == be_word(
            data[idx as int],
            data[idx + 1],
            data[idx + 2],
            data[idx + 3],
            data[idx + 4],
            data[idx + 5],
            data[idx + 6],
            data[idx + 7],
        ),
{
    ((data[idx] as u64) << 56) | ((data[idx + 1] as u64) << 48) | ((data[idx + 2] as u64) << 40)
        | ((data[idx + 3] as u64) << 32) | ((data[idx + 4] as u64) << 24)
        | ((data[idx + 5] as u64) << 16) | ((data[idx + 6] as u64) << 8) | (data[idx + 7] as u64)
}

/// Appends the eight bytes of a word, most significant first.
fn push_be_word(out: &mut Vec<u8>, w: u64)
    ensures
        final(out)@ == old(out)@ + seq![
            be_byte(w, 0),
            be_byte(w, 1),
            be_byte(w, 2),
            be_byte(w, 3),
            be_byte(w, 4),
            be_byte(w, 5),
            be_byte(w, 6),
            be_byte(w, 7),
        ],
{
    out.push(((w >> 56) & 0xFF) as u8);
    out.push(((w >> 48) & 0xFF) as u8);
    out.push(((w >> 40) & 0xFF) as u8);
    out.push(((w >> 32) & 0xFF) as u8);
    out.push(((w >> 24) & 0xFF) as u8);
    out.push(((w >> 16) & 0xFF) as u8);
    out.push(((w >> 8) & 0xFF) as u8);
    out.push(((w >> 0) & 0xFF) as u8);
    assert(final(out)@ =~= old(out)@ + seq![
        be_byte(w, 0),
        be_byte(w, 1),
        be_byte(w, 2),
        be_byte(w, 3),
        be_byte(w, 4),
        be_byte(w, 5),
        be_byte(w, 6),
        be_byte(w, 7),
    ]);
}

/// Appends the bits `[start_bit, end_bit)` of `data` to `out` as whole bytes.
///
/// The first bit of the run becomes the most significant bit of the first
/// appended byte; where the run does not fill the last byte, its remaining
/// bits are zero. An empty or reversed run appends nothing.
///
/// A run that starts on a byte boundary is copied and its last byte masked.
/// Any other run is read through a shifted window, eight bytes at a time
/// while nine input bytes are at hand and one byte at a time after that; a
/// window that reaches past the last input byte reads zero there. The byte
/// in which an output byte starts has to exist.
pub fn extract_bits(data: &[u8], start_bit: u64, end_bit: u64, out: &mut Vec<u8>)
    requires
        range_fits(data.len() as int, start_bit, end_bit),
    ensures
        final(out)@ == old(out)@ + extracted(data@, start_bit as int, end_bit as int),
{
    if start_bit >= end_bit {
        assert(out@ =~= old(out)@ + extracted(data@, start_bit as int, end_bit as int));
        return ;
    }
    let ghost start = start_bit as int;
    let ghost end = end_bit as int;
    let ghost want = extracted(data@, start, end);
    let ghost before = old(out)@;

    let bit_len: u64 = end_bit - start_bit;
    let byte_len: usize = ((bit_len - 1) / 8 + 1) as usize;
    out.reserve(byte_len);

    let start_byte: usize = (start_bit / 8) as usize;
    let shift: u8 = (start_bit % 8) as u8;

    if shift == 0 {
        out.extend_from_slice(slice_subrange(data, start_byte, start_byte + byte_len));
        let last_bits: u8 = (bit_len % 8) as u8;
        if last_bits > 0 {
            let mask: u8 = 0xFFu8 << (8 - last_bits);
            let last: usize = out.len() - 1;
            let cut: u8 = out[last] & mask;
            out[last] = cut;
        }
        proof {
            lemma_copy_equals_shift(data@, start, end);
            assert forall|j: int| 0 <= j < byte_len implies out@[before.len() + j]
                == #[trigger] copied(data@, start, end)[j] by {
                assert(copied(data@, start, end)[j] == copied_byte(data@, start, end, j));
            }
            assert(out@ =~= before + want);
        }
    } else {
        let back: u8 = 8 - shift;
        let mut idx: usize = start_byte;
        let mut bits_left: u64 = bit_len;
        let ghost mut done: int = 0;

        while bits_left >= 64
            invariant
                0 < shift < 8,
                shift == start % 8,
                back == 8 - shift,
                start_byte == start / 8,
                0 <= start < end,
                bit_len == end - start,
                byte_len == extracted_len(start, end),
                start_byte + byte_len <= data.len(),
                want == extracted(data@, start, end),
                0 <= done <= byte_len,
                idx == start_byte + done,
                bits_left == bit_len - 8 * done,
                out@ == before + want.subrange(0, done),
            ensures
                0 <= done <= byte_len,
                idx == start_byte + done,
                bits_left == bit_len - 8 * done,
                out@ == before + want.subrange(0, done),
            decreases bits_left,
        {
            if data.len() - idx >= 9 {
                let val1: u64 = load_be_word(data, idx);
                let val2: u64 = data[idx + 8] as u64;
                let result: u64 = (val1 << shift) | (val2 >> back);
                let ghost prev = out@;
                push_be_word(out, result);
                proof {
                    lemma_word_path(
                        data[idx as int],
                        data[idx + 1],
                        data[idx + 2],
                        data[idx + 3],
                        data[idx + 4],
                        data[idx + 5],
                        data[idx + 6],
                        data[idx + 7],
                        data[idx + 8],
                        shift,
                        result,
                    );
                    assert forall|i: int| prev.len() <= i < prev.len() + 8 implies
                        #[trigger] out@[i] == want[i - before.len()] by {
                        lemma_extracted_byte_is_shifted(data@, start, end, i - before.len());
                    }
                    assert(out@ =~= before + want.subrange(0, done + 8));
                    done = done + 8;
                }
                idx += 8;
                bits_left -= 64;
            } else {
                break ;
            }
        }

        while bits_left >= 8
            invariant
                0 < shift < 8,
                shift == start % 8,
                back == 8 - shift,
                start_byte == start / 8,
                0 <= start < end,
                bit_len == end - start,
                byte_len == extracted_len(start, end),
                start_byte + byte_len <= data.len(),
                want == extracted(data@, start, end),
                0 <= done <= byte_len,
                idx == start_byte + done,
                bits_left == bit_len - 8 * done,
                out@ == before + want.subrange(0, done),
            decreases bits_left,
        {
            let b1: u8 = data[idx];
            let b2: u8 = if data.len() - idx > 1 {
                data[idx + 1]
            } else {
                0
            };
            let val: u8 = (b1 << shift) | (b2 >> back);
            out.push(val);
            proof {
                lemma_extracted_byte_is_shifted(data@, start, end, done);
                assert(out@ =~= before + want.subrange(0, done + 1));
                done = done + 1;
            }
            idx += 1;
            bits_left -= 8;
        }

        if bits_left > 0 {
            let b1: u8 = data[idx];
            let b2: u8 = if data.len() - idx > 1 {
                data[idx + 1]
            } else {
                0
            };
            let val: u8 = (b1 << shift) | (b2 >> back);
            let mask: u8 = 0xFFu8 << ((8 - bits_left) as u8);
            out.push(val & mask);
            proof {
                lemma_extracted_byte_is_shifted(data@, start, end, done);
                assert(out@ =~= before + want.subrange(0, done + 1));
                done = done + 1;
            }
        }
        assert(out@ =~= before + want);
    }
}

} // verus!

