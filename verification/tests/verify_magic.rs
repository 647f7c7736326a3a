use bz2zstd::{verify_magic, MAGIC_BLOCK, MAGIC_EOS};

fn shifted_magic(magic: u64, shift: u32) -> [u8; 8] {
    ((magic << 16) >> shift).to_be_bytes()
}

#[test]
fn magic_constants() {
    assert_eq!(MAGIC_BLOCK, 0x314159265359);
    assert_eq!(MAGIC_EOS, 0x177245385090);
}

#[test]
fn aligned_marker_is_verified() {
    let data = [0x31, 0x41, 0x59, 0x26, 0x53, 0x59];
    assert!(verify_magic(&data, 0, MAGIC_BLOCK));
    assert!(!verify_magic(&data, 0, MAGIC_EOS));
}

#[test]
fn marker_is_verified_at_every_alignment() {
    for shift in 0..8u32 {
        let mut data = vec![0xFFu8; 2];
        data.extend_from_slice(&shifted_magic(MAGIC_EOS, shift));
        let bit = 16 + shift as u64;
        assert!(verify_magic(&data, bit, MAGIC_EOS));
        assert!(!verify_magic(&data, bit, MAGIC_BLOCK));
        if shift > 0 {
            assert!(!verify_magic(&data, bit - 1, MAGIC_EOS));
        }
        assert!(!verify_magic(&data, bit + 1, MAGIC_EOS));
    }
}

#[test]
fn one_wrong_bit_spoils_the_marker() {
    for shift in [0u32, 3] {
        for flip in 0..48u32 {
            let mut data = shifted_magic(MAGIC_BLOCK, shift).to_vec();
            let bit = shift + flip;
            data[(bit / 8) as usize] ^= 0x80 >> (bit % 8);
            assert!(!verify_magic(&data, shift as u64, MAGIC_BLOCK));
        }
    }
}

#[test]
fn bits_around_the_marker_do_not_matter() {
    let mut data = shifted_magic(MAGIC_BLOCK, 3).to_vec();
    data[0] |= 0xE0;
    data[6] |= 0x1F;
    data[7] = 0xFF;
    assert!(verify_magic(&data, 3, MAGIC_BLOCK));
}

#[test]
fn fewer_than_six_bytes_are_never_a_marker() {
    let data = [0x31, 0x41, 0x59, 0x26, 0x53];
    assert!(!verify_magic(&data, 0, MAGIC_BLOCK));
    let data = [0x00, 0x31, 0x41, 0x59, 0x26, 0x53, 0x59];
    assert!(verify_magic(&data, 8, MAGIC_BLOCK));
    assert!(!verify_magic(&data, 16, MAGIC_BLOCK));
    assert!(!verify_magic(&data, 56, MAGIC_BLOCK));
    assert!(!verify_magic(&data, 1 << 40, MAGIC_BLOCK));
    assert!(!verify_magic(&[], 0, MAGIC_BLOCK));
}

#[test]
fn block_marker_cut_inside_its_last_byte_is_no_marker() {
    // The block marker ends in a one bit: with that bit cut off it is gone.
    let data = &shifted_magic(MAGIC_BLOCK, 1)[..6];
    assert!(!verify_magic(data, 1, MAGIC_BLOCK));
}

#[test]
fn missing_bits_are_not_taken_for_zero() {
    // The end-of-stream marker ends in four zero bits. One bit into an input
    // of six bytes its last bit lies past the end: 47 bits are no marker.
    let data = &shifted_magic(MAGIC_EOS, 1)[..6];
    assert!(!verify_magic(data, 1, MAGIC_EOS));
    // With the seventh byte there, all 48 bits are.
    let data = &shifted_magic(MAGIC_EOS, 1)[..7];
    assert!(verify_magic(data, 1, MAGIC_EOS));
    // Four bits in, 44 bits are left.
    let data = [0x01, 0x77, 0x24, 0x53, 0x85, 0x09];
    assert!(!verify_magic(&data, 4, 0x177245385090));
    let data = [0x01, 0x77, 0x24, 0x53, 0x85, 0x09, 0x00];
    assert!(verify_magic(&data, 4, 0x177245385090));
    let data = &shifted_magic(MAGIC_EOS, 5)[..6];
    assert!(!verify_magic(data, 5, MAGIC_EOS));
}

#[test]
fn marker_that_ends_with_the_input_is_verified() {
    let mut data = vec![0xC3u8; 9];
    data.extend_from_slice(&[0x17, 0x72, 0x45, 0x38, 0x50, 0x90]);
    assert!(verify_magic(&data, 72, MAGIC_EOS));
    for shift in 1..8u32 {
        let mut data = vec![0xC3u8; 2];
        data.extend_from_slice(&shifted_magic(MAGIC_BLOCK, shift)[..7]);
        assert!(verify_magic(&data, 16 + shift as u64, MAGIC_BLOCK));
        data.pop();
        assert!(!verify_magic(&data, 16 + shift as u64, MAGIC_BLOCK));
    }
}

#[test]
fn only_the_lower_48_bits_of_the_constant_count() {
    let data = [0x31, 0x41, 0x59, 0x26, 0x53, 0x59];
    assert!(verify_magic(&data, 0, MAGIC_BLOCK | (0xABCD << 48)));
}
