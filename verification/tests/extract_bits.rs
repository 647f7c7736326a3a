use bz2zstd::extract_bits;

#[test]
fn test_extract_bits_aligned() {
    let data = vec![0xAA, 0xBB, 0xCC];
    // Extract 0xBB
    let mut extracted = Vec::new();
    extract_bits(&data, 8, 16, &mut extracted);
    assert_eq!(extracted, vec![0xBB]);
}

#[test]
fn test_extract_bits_shifted() {
    // Bits 4..12 of 10101010 10111011 are 1010 1011.
    let data = vec![0xAA, 0xBB];
    let mut extracted = Vec::new();
    extract_bits(&data, 4, 12, &mut extracted);
    assert_eq!(extracted, vec![0xAB]);
}

#[test]
fn test_extract_bits_partial() {
    // Four bits of 0xFF, padded with zeros.
    let data = vec![0xFF];
    let mut extracted = Vec::new();
    extract_bits(&data, 0, 4, &mut extracted);
    assert_eq!(extracted, vec![0xF0]);
}

#[test]
fn test_extract_bits_u64_path() {
    // Ten bytes of 0xFF; 64 bits from offset 4 take the word path.
    let data = vec![0xFF; 10];
    let mut extracted = Vec::new();
    extract_bits(&data, 4, 68, &mut extracted);
    assert_eq!(extracted.len(), 8);
    assert_eq!(extracted, vec![0xFF; 8]);
}

#[test]
fn scanner_test_extract_bits_aligned() {
    let data = vec![0xAA, 0xBB, 0xCC];
    let mut extracted = Vec::new();
    extract_bits(&data, 8, 16, &mut extracted);
    assert_eq!(extracted, vec![0xBB]);
}

#[test]
fn scanner_test_extract_bits_shifted() {
    let data = vec![0xAA, 0xBB];
    let mut extracted = Vec::new();
    extract_bits(&data, 4, 12, &mut extracted);
    assert_eq!(extracted, vec![0xAB]);
}

#[test]
fn scanner_test_extract_bits_partial() {
    let data = vec![0xFF];
    let mut extracted = Vec::new();
    extract_bits(&data, 0, 4, &mut extracted);
    assert_eq!(extracted, vec![0xF0]);
}

#[test]
fn scanner_test_extract_bits_u64_path() {
    let data = vec![0xFF; 10];
    let mut extracted = Vec::new();
    extract_bits(&data, 4, 68, &mut extracted);
    assert_eq!(extracted.len(), 8);
    assert_eq!(extracted, vec![0xFF; 8]);
}

/// Bit `i` of `data`, most significant bit of each byte first, zero past the
/// end.
fn bit(data: &[u8], i: u64) -> bool {
    match data.get((i / 8) as usize) {
        Some(byte) => byte & (0x80 >> (i % 8)) != 0,
        None => false,
    }
}

fn lift(data: &[u8], start: u64, end: u64) -> Vec<u8> {
    let mut out = Vec::new();
    extract_bits(data, start, end, &mut out);
    out
}

fn pattern(len: usize) -> Vec<u8> {
    (0..len).map(|i| (i * 37 + 11) as u8 ^ (i >> 3) as u8).collect()
}

#[test]
fn empty_and_reversed_runs_append_nothing() {
    let data = [0xAB, 0xCD];
    let mut out = vec![7];
    extract_bits(&data, 5, 5, &mut out);
    extract_bits(&data, 9, 3, &mut out);
    extract_bits(&data, 400, 400, &mut out);
    assert_eq!(out, vec![7]);
}

#[test]
fn output_is_appended_behind_what_is_there() {
    let data = [0x12, 0x34, 0x56];
    let mut out = vec![0xEE, 0xFF];
    extract_bits(&data, 8, 24, &mut out);
    assert_eq!(out, vec![0xEE, 0xFF, 0x34, 0x56]);
    extract_bits(&data, 4, 12, &mut out);
    assert_eq!(out, vec![0xEE, 0xFF, 0x34, 0x56, 0x23]);
}

#[test]
fn length_is_the_bit_count_rounded_up() {
    let data = pattern(40);
    let runs = [(0u64, 1u64), (0, 8), (0, 9), (3, 4), (3, 11), (3, 12), (7, 320), (8, 320)];
    for (start, end) in runs {
        assert_eq!(lift(&data, start, end).len() as u64, (end - start + 7) / 8);
    }
}

#[test]
fn every_bit_is_where_it_belongs() {
    let data = pattern(24);
    let total = data.len() as u64 * 8;
    for start in 0..40u64 {
        let lengths = [1, 7, 8, 9, 63, 64, 65, 130, total - start];
        for end in lengths.map(|len| start + len) {
            if end > total {
                continue;
            }
            let out = lift(&data, start, end);
            for j in 0..(out.len() as u64 * 8) {
                let want = j < end - start && bit(&data, start + j);
                assert_eq!(bit(&out, j), want, "start {} end {} bit {}", start, end, j);
            }
        }
    }
}

#[test]
fn word_path_and_byte_path_agree() {
    // Nine bytes at hand: the first eight output bytes take the word path.
    // With one byte fewer at hand the same bits take the byte path.
    let data = pattern(9);
    for shift in 1..8u64 {
        let by_word = lift(&data, shift, shift + 64);
        let by_byte = lift(&data[..8], shift, 64);
        assert_eq!(by_word.len(), 8);
        assert_eq!(&by_word[..7], &by_byte[..7]);
        for j in 0..64 {
            assert_eq!(bit(&by_word, j), bit(&data, shift + j));
        }
    }
}

#[test]
fn copying_and_shifting_agree() {
    // The same bits behind four bits of padding take the shifting path.
    let data = pattern(33);
    let mut padded = vec![0u8; data.len() + 1];
    for i in 0..data.len() {
        padded[i] |= data[i] >> 4;
        padded[i + 1] |= data[i] << 4;
    }
    for (start, end) in [(0u64, 264u64), (8, 200), (16, 17), (64, 256), (0, 61)] {
        assert_eq!(lift(&data, start, end), lift(&padded, start + 4, end + 4));
    }
}

#[test]
fn tail_of_the_last_byte_is_zero() {
    let data = [0xFF; 4];
    assert_eq!(lift(&data, 0, 1), vec![0x80]);
    assert_eq!(lift(&data, 0, 7), vec![0xFE]);
    assert_eq!(lift(&data, 3, 6), vec![0xE0]);
    assert_eq!(lift(&data, 5, 18), vec![0xFF, 0xF8]);
    assert_eq!(lift(&data, 8, 29), vec![0xFF, 0xFF, 0xF8]);
}

#[test]
fn window_past_the_end_reads_zero() {
    // The last output byte starts in the last input byte; what it lacks is
    // zero.
    assert_eq!(lift(&[0xFF], 4, 8), vec![0xF0]);
    assert_eq!(lift(&[0xFF], 4, 12), vec![0xF0]);
    assert_eq!(lift(&[0x12, 0x34], 12, 16), vec![0x40]);
    assert_eq!(lift(&[0xAB, 0xCD], 1, 17), vec![0x57, 0x9A]);
}

#[test]
fn whole_input_comes_back_unchanged() {
    let data = pattern(100);
    assert_eq!(lift(&data, 0, 800), data);
}
