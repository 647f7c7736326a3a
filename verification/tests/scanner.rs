use bz2zstd::{chunk_count, scan_blocks, verify_magic, BlockStitcher, MarkerType, Scanner};
use bz2zstd::keys::make_search_key;
use bz2zstd::{CHUNK_SIZE, MAGIC_BLOCK, MAGIC_EOS};

const BLOCK: [u8; 6] = [0x31, 0x41, 0x59, 0x26, 0x53, 0x59];
const EOS: [u8; 6] = [0x17, 0x72, 0x45, 0x38, 0x50, 0x90];

fn scan_to_vec(data: &[u8]) -> Vec<(u64, MarkerType)> {
    let scanner = Scanner::new().unwrap();
    let mut results = Vec::new();
    for (_, markers) in scanner.scan_stream(data, 0) {
        results.extend(markers);
    }
    results.sort_by_key(|k| k.0);
    results
}

/// The eight bytes that hold `magic` from bit `shift` on.
fn shifted_magic(magic: u64, shift: u32) -> [u8; 8] {
    ((magic << 16) >> shift).to_be_bytes()
}

#[test]
fn test_scanner_empty() {
    let data = [];
    let markers = scan_to_vec(&data);
    assert!(markers.is_empty());
}

#[test]
fn test_scanner_single_block() {
    let mut data = Vec::new();
    data.extend_from_slice(&BLOCK);
    data.extend_from_slice(b"some data");

    let markers = scan_to_vec(&data);
    assert_eq!(markers.len(), 1);
    assert_eq!(markers[0].0, 0);
    assert!(matches!(markers[0].1, MarkerType::Block));
}

#[test]
fn test_scanner_eos() {
    let mut data = Vec::new();
    data.extend_from_slice(&EOS);

    let markers = scan_to_vec(&data);
    assert_eq!(markers.len(), 1);
    assert_eq!(markers[0].0, 0);
    assert!(matches!(markers[0].1, MarkerType::Eos));
}

#[test]
fn test_scanner_multiple_blocks() {
    let mut data = Vec::new();

    // Block 1 at 0
    data.extend_from_slice(&BLOCK);
    data.extend_from_slice(b"data1");

    // Block 2 at 6 + 5 = 11 bytes
    let pos2 = data.len() as u64 * 8;
    data.extend_from_slice(&BLOCK);
    data.extend_from_slice(b"data2");

    // End of stream
    let pos_eos = data.len() as u64 * 8;
    data.extend_from_slice(&EOS);

    let markers = scan_to_vec(&data);
    assert_eq!(markers.len(), 3);
    assert_eq!(markers[0].0, 0);
    assert!(matches!(markers[0].1, MarkerType::Block));

    assert_eq!(markers[1].0, pos2);
    assert!(matches!(markers[1].1, MarkerType::Block));

    assert_eq!(markers[2].0, pos_eos);
    assert!(matches!(markers[2].1, MarkerType::Eos));
}

#[test]
fn test_scanner_shifted() {
    // The block marker one bit into the input.
    let magic: u64 = 0x314159265359;
    let shift = 1;
    let val = (magic << 16) >> shift;
    let bytes = val.to_be_bytes();

    let markers = scan_to_vec(&bytes);
    assert_eq!(markers.len(), 1);
    assert_eq!(markers[0].0, shift as u64);
    assert!(matches!(markers[0].1, MarkerType::Block));
}

#[test]
fn scan_and_stitch_two_blocks() {
    let mut data = Vec::new();
    data.extend_from_slice(&BLOCK);
    data.extend_from_slice(b"data1");
    data.extend_from_slice(&BLOCK);
    data.extend_from_slice(b"data2");
    data.extend_from_slice(&EOS);

    let markers = scan_to_vec(&data);
    assert_eq!(
        markers,
        vec![(0, MarkerType::Block), (88, MarkerType::Block), (176, MarkerType::Eos)]
    );
    assert_eq!(scan_blocks(&data), Some(vec![(0, 88), (88, 176)]));
}

#[test]
fn every_alignment_of_both_markers_is_found() {
    for (magic, kind) in [(MAGIC_BLOCK, MarkerType::Block), (MAGIC_EOS, MarkerType::Eos)] {
        for shift in 0..8u32 {
            let mut data = vec![0xEEu8; 3];
            data.extend_from_slice(&shifted_magic(magic, shift));
            data.extend_from_slice(&[0xEE; 3]);
            let markers = scan_to_vec(&data);
            assert_eq!(markers, vec![(24 + shift as u64, kind)]);
        }
    }
}

#[test]
fn marker_at_the_very_start_is_found() {
    let markers = scan_to_vec(&BLOCK);
    assert_eq!(markers, vec![(0, MarkerType::Block)]);
}

#[test]
fn key_without_the_rest_of_the_marker_is_no_marker() {
    // The four key bytes of the aligned block marker, in the wrong company.
    let data = [0x00, 0x41, 0x59, 0x26, 0x53, 0x00, 0x00, 0x00];
    assert!(scan_to_vec(&data).is_empty());
}

#[test]
fn base_offset_is_added_to_each_position() {
    let scanner = Scanner::new().unwrap();
    let mut data = Vec::new();
    data.extend_from_slice(b"xy");
    data.extend_from_slice(&EOS);
    let results = scanner.scan_stream(&data, 1000);
    assert_eq!(results.len(), 1);
    assert_eq!(results[0].0, 0);
    assert_eq!(results[0].1, vec![(1016, MarkerType::Eos)]);
}

#[test]
fn chunk_count_rounds_up() {
    assert_eq!(chunk_count(0), 0);
    assert_eq!(chunk_count(1), 1);
    assert_eq!(chunk_count(CHUNK_SIZE), 1);
    assert_eq!(chunk_count(CHUNK_SIZE + 1), 2);
    assert_eq!(chunk_count(3 * CHUNK_SIZE), 3);
}

/// An input of two chunks with a marker placed so that it starts at byte
/// `at`, `shift` bits in.
fn two_chunks_with_marker(at: usize, shift: u32) -> Vec<u8> {
    let mut data = vec![0xEEu8; CHUNK_SIZE + 4096];
    data[at..at + 8].copy_from_slice(&shifted_magic(MAGIC_BLOCK, shift));
    if shift == 0 {
        data[at + 6] = 0xEE;
        data[at + 7] = 0xEE;
    }
    data
}

#[test]
fn marker_across_the_chunk_boundary_is_reported_by_one_chunk() {
    let scanner = Scanner::new().unwrap();
    for back in 1..=8usize {
        for shift in [0u32, 3, 7] {
            let at = CHUNK_SIZE - back;
            let data = two_chunks_with_marker(at, shift);
            let results = scanner.scan_stream(&data, 0);
            assert_eq!(results.len(), 2);
            assert_eq!(results[0].0, 0);
            assert_eq!(results[1].0, 1);
            assert_eq!(results[0].1, vec![(at as u64 * 8 + shift as u64, MarkerType::Block)]);
            assert!(results[1].1.is_empty());
        }
    }
}

#[test]
fn marker_at_the_start_of_a_chunk_belongs_to_that_chunk() {
    let scanner = Scanner::new().unwrap();
    for shift in [0u32, 5] {
        let data = two_chunks_with_marker(CHUNK_SIZE, shift);
        let results = scanner.scan_stream(&data, 0);
        assert!(results[0].1.is_empty());
        assert_eq!(
            results[1].1,
            vec![(CHUNK_SIZE as u64 * 8 + shift as u64, MarkerType::Block)]
        );
    }
}

#[test]
fn scan_chunk_gives_the_entries_of_scan_stream() {
    let scanner = Scanner::new().unwrap();
    let mut data = two_chunks_with_marker(CHUNK_SIZE - 3, 2);
    data[100..106].copy_from_slice(&EOS);
    data[CHUNK_SIZE + 50..CHUNK_SIZE + 56].copy_from_slice(&BLOCK);
    let results = scanner.scan_stream(&data, 7);
    assert_eq!(results.len(), chunk_count(data.len()));
    for (index, markers) in &results {
        assert_eq!(&scanner.scan_chunk(&data, *index, 7), markers);
    }
    assert_eq!(results[0].1.len(), 2);
    assert_eq!(results[1].1.len(), 1);
}

#[test]
fn every_reported_marker_is_verified_and_none_is_missed() {
    // A small input with markers at many alignments, checked bit by bit
    // against the verifier.
    let mut data = Vec::new();
    for shift in 0..8u32 {
        data.extend_from_slice(&[0xA5; 5]);
        data.extend_from_slice(&shifted_magic(MAGIC_BLOCK, shift));
        data.extend_from_slice(&[0x5A; 2]);
        data.extend_from_slice(&shifted_magic(MAGIC_EOS, 7 - shift));
    }
    let markers = scan_to_vec(&data);
    let mut expected = Vec::new();
    for bit in 0..(data.len() as u64 * 8) {
        if verify_magic(&data, bit, MAGIC_BLOCK) {
            expected.push((bit, MarkerType::Block));
        }
        if verify_magic(&data, bit, MAGIC_EOS) {
            expected.push((bit, MarkerType::Eos));
        }
    }
    assert_eq!(markers, expected);
    assert_eq!(markers.len(), 16);
}

#[test]
fn markers_from_hits_applies_the_chunk_rules() {
    let scanner = Scanner::new().unwrap();
    let mut data = vec![0u8; 32];
    data[4..10].copy_from_slice(&BLOCK);
    data[20..26].copy_from_slice(&EOS);
    // Key 0 is the aligned block key, key 8 the aligned end-of-stream key.
    // A hit at index 0 has its candidate in front of the chunk.
    let hits = vec![(0usize, 0usize), (0, 5), (8, 9), (8, 21)];
    // The chunk owns the bytes 0..16: the candidate at byte 20 is not its own.
    let markers = scanner.markers_from_hits(&data, 0, 16, 0, &hits);
    assert_eq!(markers, vec![(32, MarkerType::Block)]);
    // The chunk that owns the bytes 16..32 counts the hits from byte 16 on.
    let hits = vec![(8usize, 5usize)];
    let markers = scanner.markers_from_hits(&data, 16, 32, 100, &hits);
    assert_eq!(markers, vec![(260, MarkerType::Eos)]);
}

#[test]
fn stitcher_reorders_chunks() {
    let mut stitcher = BlockStitcher::new();
    // Chunk 2 and chunk 1 arrive before chunk 0.
    assert!(stitcher.push_chunk(2, vec![(300, MarkerType::Eos)]).is_empty());
    assert!(stitcher.push_chunk(1, vec![(200, MarkerType::Block)]).is_empty());
    let ranges = stitcher.push_chunk(0, vec![(10, MarkerType::Block), (90, MarkerType::Block)]);
    assert_eq!(ranges, vec![(10, 90), (90, 200), (200, 300)]);
    assert_eq!(stitcher.finish(4000), None);
}

#[test]
fn stitcher_closes_a_truncated_block_at_the_end_of_input() {
    let mut stitcher = BlockStitcher::new();
    let ranges = stitcher.push_chunk(0, vec![(0, MarkerType::Block), (80, MarkerType::Block)]);
    assert_eq!(ranges, vec![(0, 80)]);
    assert_eq!(stitcher.finish(800), Some((80, 800)));
}

#[test]
fn stitcher_ignores_an_end_of_stream_with_no_block_open() {
    let mut stitcher = BlockStitcher::new();
    let ranges = stitcher.push_chunk(
        0,
        vec![
            (8, MarkerType::Eos),
            (16, MarkerType::Block),
            (64, MarkerType::Eos),
            (72, MarkerType::Eos),
            (128, MarkerType::Block),
        ],
    );
    assert_eq!(ranges, vec![(16, 64)]);
    assert_eq!(stitcher.finish(1000), Some((128, 1000)));
}

#[test]
fn stitcher_waits_for_the_missing_chunk() {
    let mut stitcher = BlockStitcher::new();
    assert!(stitcher.push_chunk(1, vec![(50, MarkerType::Eos)]).is_empty());
    assert!(stitcher.push_chunk(3, vec![(90, MarkerType::Eos)]).is_empty());
    let ranges = stitcher.push_chunk(0, vec![(5, MarkerType::Block)]);
    assert_eq!(ranges, vec![(5, 50)]);
    let ranges = stitcher.push_chunk(2, vec![(70, MarkerType::Block)]);
    assert_eq!(ranges, vec![(70, 90)]);
}

#[test]
fn block_ranges_rise_and_do_not_overlap() {
    let mut data = Vec::new();
    for shift in 0..8u32 {
        data.extend_from_slice(&[0x11; 7]);
        data.extend_from_slice(&shifted_magic(MAGIC_BLOCK, shift));
    }
    data.extend_from_slice(&EOS);
    data.extend_from_slice(&[0x22; 9]);
    data.extend_from_slice(&BLOCK);
    data.extend_from_slice(&[0x33; 4]);
    let blocks = scan_blocks(&data).unwrap();
    assert_eq!(blocks.len(), 9);
    let total = data.len() as u64 * 8;
    for window in blocks.windows(2) {
        assert!(window[0].0 < window[0].1);
        assert!(window[0].1 <= window[1].0);
    }
    // The last block has no marker after it and reaches to the end.
    assert_eq!(blocks[8].1, total);
    // The blocks in front of the end-of-stream marker meet at the markers.
    for window in blocks[..8].windows(2) {
        assert_eq!(window[0].1, window[1].0);
    }
}

#[test]
fn marker_cut_off_by_the_end_of_input_is_not_reported() {
    // 44 bits of the end-of-stream marker, four bits in; the four bits that
    // are missing would be zero.
    let data = [0x01, 0x77, 0x24, 0x53, 0x85, 0x09];
    assert!(scan_to_vec(&data).is_empty());
    let data = [0x01, 0x77, 0x24, 0x53, 0x85, 0x09, 0x00];
    assert_eq!(scan_to_vec(&data), vec![(4, MarkerType::Eos)]);
    for shift in 1..8u32 {
        let whole = shifted_magic(MAGIC_EOS, shift);
        assert!(scan_to_vec(&whole[..6]).is_empty());
        assert_eq!(scan_to_vec(&whole[..7]), vec![(shift as u64, MarkerType::Eos)]);
    }
}

#[test]
fn no_markers_no_blocks() {
    assert_eq!(scan_blocks(b"no markers in here at all"), Some(vec![]));
    assert_eq!(scan_blocks(&[]), Some(vec![]));
}

#[test]
fn search_keys_are_the_middle_bytes_of_the_shifted_marker() {
    assert_eq!(make_search_key(MAGIC_BLOCK, 0), vec![0x41, 0x59, 0x26, 0x53]);
    assert_eq!(make_search_key(MAGIC_BLOCK, 1), vec![0xA0, 0xAC, 0x93, 0x29]);
    assert_eq!(make_search_key(MAGIC_BLOCK, 4), vec![0x14, 0x15, 0x92, 0x65]);
    assert_eq!(make_search_key(MAGIC_BLOCK, 7), vec![0x62, 0x82, 0xB2, 0x4C]);
    assert_eq!(make_search_key(MAGIC_EOS, 0), vec![0x72, 0x45, 0x38, 0x50]);
    assert_eq!(make_search_key(MAGIC_EOS, 3), vec![0xEE, 0x48, 0xA7, 0x0A]);
    assert_eq!(make_search_key(MAGIC_EOS, 7), vec![0x2E, 0xE4, 0x8A, 0x70]);
    for shift in 0..8u8 {
        let bytes = shifted_magic(MAGIC_EOS, shift as u32);
        assert_eq!(make_search_key(MAGIC_EOS, shift), &bytes[1..5]);
    }
}

#[test]
fn chunks_may_arrive_in_any_order() {
    let scanner = Scanner::new().unwrap();
    let mut data = vec![0x55u8; 2 * CHUNK_SIZE + 100];
    data[10..16].copy_from_slice(&BLOCK);
    data[CHUNK_SIZE - 2..CHUNK_SIZE + 6].copy_from_slice(&shifted_magic(MAGIC_BLOCK, 6));
    data[CHUNK_SIZE + 500..CHUNK_SIZE + 506].copy_from_slice(&EOS);
    data[2 * CHUNK_SIZE + 40..2 * CHUNK_SIZE + 46].copy_from_slice(&BLOCK);
    let expected = scan_blocks(&data).unwrap();
    assert_eq!(expected.len(), 3);
    let total = data.len() as u64 * 8;
    for order in [[0, 1, 2], [2, 1, 0], [1, 0, 2], [2, 0, 1], [1, 2, 0], [0, 2, 1]] {
        let mut stitcher = BlockStitcher::new();
        let mut ranges = Vec::new();
        for index in order {
            ranges.extend(stitcher.push_chunk(index, scanner.scan_chunk(&data, index, 0)));
        }
        ranges.extend(stitcher.finish(total));
        assert_eq!(ranges, expected);
    }
}
