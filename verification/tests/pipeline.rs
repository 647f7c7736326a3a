use bz2zstd::{
    decompress_block, decompress_block_into, parallel_bzip2_cat, scan_blocks, transcode,
    BlockError, BlockWorker, CatError, MalformedBlock, OutputWriter, TranscodeError,
};
use std::io::Write;

/// Bytes that repeat a little, so that they compress, and vary a lot, so
/// that blocks differ.
fn sample(len: usize, seed: u32) -> Vec<u8> {
    let mut state = seed;
    let mut out = Vec::with_capacity(len);
    while out.len() < len {
        state = state.wrapping_mul(1664525).wrapping_add(1013904223);
        let byte = (state >> 24) as u8;
        let run = 1 + (state >> 8) as usize % 5;
        for _ in 0..run {
            if out.len() < len {
                out.push(byte);
            }
        }
    }
    out
}

fn bzip2_of(data: &[u8], level: u32) -> Vec<u8> {
    let mut encoder = bzip2::write::BzEncoder::new(Vec::new(), bzip2::Compression::new(level));
    encoder.write_all(data).unwrap();
    encoder.finish().unwrap()
}

fn unzstd(data: &[u8]) -> Vec<u8> {
    zstd::stream::decode_all(data).unwrap()
}

#[test]
fn one_block_is_decoded() {
    let original = b"hello, hello, hello, block!".to_vec();
    let packed = bzip2_of(&original, 9);
    let blocks = scan_blocks(&packed).unwrap();
    assert_eq!(blocks.len(), 1);
    // The block starts behind the four header bytes.
    assert_eq!(blocks[0].0, 32);
    let payload = decompress_block(&packed, blocks[0].0, blocks[0].1).unwrap();
    assert_eq!(payload, original);
    assert_ne!(payload, packed);
}

#[test]
fn decompress_block_into_reuses_its_buffers() {
    let first = sample(5000, 1);
    let second = b"short".to_vec();
    let packed_first = bzip2_of(&first, 9);
    let packed_second = bzip2_of(&second, 9);
    let mut out = vec![1, 2, 3];
    let mut scratch = vec![9; 100];

    let blocks = scan_blocks(&packed_first).unwrap();
    decompress_block_into(&packed_first, blocks[0].0, blocks[0].1, &mut out, &mut scratch)
        .unwrap();
    assert_eq!(out, first);
    assert_eq!(&scratch[..4], b"BZh9");
    // Behind the header stands the block marker, byte-aligned.
    assert_eq!(&scratch[4..10], &[0x31, 0x41, 0x59, 0x26, 0x53, 0x59]);

    let blocks = scan_blocks(&packed_second).unwrap();
    decompress_block_into(&packed_second, blocks[0].0, blocks[0].1, &mut out, &mut scratch)
        .unwrap();
    assert_eq!(out, second);
    assert_eq!(scratch.len() as u64, 4 + (blocks[0].1 - blocks[0].0 + 7) / 8);
}

#[test]
fn malformed_block_is_reported_with_its_place() {
    let mut packed = bzip2_of(&sample(20000, 2), 9);
    let blocks = scan_blocks(&packed).unwrap();
    assert_eq!(blocks.len(), 1);
    // Spoil the middle of the block.
    let middle = packed.len() / 2;
    for byte in &mut packed[middle..middle + 64] {
        *byte = !*byte;
    }
    let (start, end) = blocks[0];
    assert_eq!(
        decompress_block(&packed, start, end),
        Err(MalformedBlock { start_bit: start, end_bit: end })
    );
    assert_eq!(
        parallel_bzip2_cat(&packed),
        Err(CatError::Malformed { block_index: 0, start_bit: start, end_bit: end })
    );
    assert_eq!(
        transcode(&packed, 3),
        Err(TranscodeError::Block(BlockError::Malformed {
            block_index: 0,
            start_bit: start,
            end_bit: end
        }))
    );
}

#[test]
fn refused_block_leaves_the_output_buffer_empty() {
    let original = sample(250_000, 12);
    let mut packed = bzip2_of(&original, 1);
    let blocks = scan_blocks(&packed).unwrap();
    assert_eq!(blocks.len(), 3);
    // Spoil the end of the second block: the decoder has produced much of
    // it when it finds the fault.
    let late = (blocks[1].1 / 8) as usize - 200;
    for byte in &mut packed[late..late + 32] {
        *byte = !*byte;
    }
    let (start, end) = blocks[1];
    let mut scratch = Vec::new();
    let mut fresh = Vec::new();
    let mut roomy = Vec::with_capacity(1 << 20);
    roomy.extend_from_slice(b"left over");
    let refused = Err(MalformedBlock { start_bit: start, end_bit: end });
    assert_eq!(decompress_block_into(&packed, start, end, &mut fresh, &mut scratch), refused);
    assert_eq!(decompress_block_into(&packed, start, end, &mut roomy, &mut scratch), refused);
    assert!(fresh.is_empty());
    assert!(roomy.is_empty());
    // The block in front of it is not touched, and names the failure.
    assert_eq!(
        parallel_bzip2_cat(&packed),
        Err(CatError::Malformed { block_index: 1, start_bit: start, end_bit: end })
    );
    assert_eq!(
        transcode(&packed, 3),
        Err(TranscodeError::Block(BlockError::Malformed {
            block_index: 1,
            start_bit: start,
            end_bit: end
        }))
    );
}

#[test]
fn worker_is_made_at_every_level() {
    let original = sample(10_000, 13);
    let packed = bzip2_of(&original, 9);
    let (start, end) = scan_blocks(&packed).unwrap()[0];
    for level in [i32::MIN, -5, 0, 1, 22, 1000, i32::MAX] {
        let mut worker = BlockWorker::new(level);
        let (_, frame) = worker.process_block(&packed, 0, start, end).unwrap();
        assert_eq!(unzstd(&frame), original);
    }
}

#[test]
fn garbage_behind_a_marker_is_malformed() {
    let mut data = vec![0x31, 0x41, 0x59, 0x26, 0x53, 0x59];
    data.extend_from_slice(&[0xFF; 64]);
    let bits = data.len() as u64 * 8;
    assert_eq!(
        decompress_block(&data, 0, bits),
        Err(MalformedBlock { start_bit: 0, end_bit: bits })
    );
}

#[test]
fn many_blocks_are_decoded_in_order() {
    // Level 1 makes blocks of 100,000 bytes.
    let original = sample(350_000, 3);
    let packed = bzip2_of(&original, 1);
    let blocks = scan_blocks(&packed).unwrap();
    assert_eq!(blocks.len(), 4);
    for window in blocks.windows(2) {
        assert_eq!(window[0].1, window[1].0);
    }
    assert_eq!(parallel_bzip2_cat(&packed), Ok(original.clone()));

    let mut joined = Vec::new();
    for (start, end) in blocks {
        joined.extend(decompress_block(&packed, start, end).unwrap());
    }
    assert_eq!(joined, original);
}

#[test]
fn transcoded_output_decodes_to_the_same_bytes() {
    let original = sample(350_000, 4);
    let packed = bzip2_of(&original, 1);
    let output = transcode(&packed, 3).unwrap();
    assert_eq!(unzstd(&output), original);
    assert_ne!(output, packed);
}

#[test]
fn output_is_one_frame_per_block_in_input_order() {
    let original = sample(250_000, 5);
    let packed = bzip2_of(&original, 1);
    let blocks = scan_blocks(&packed).unwrap();
    assert_eq!(blocks.len(), 3);

    // The blocks are worked on last to first and handed to the writer as
    // they are finished.
    let mut worker = BlockWorker::new(3);
    let mut writer = OutputWriter::new();
    let mut frames = vec![Vec::new(); blocks.len()];
    for index in (0..blocks.len()).rev() {
        let (start, end) = blocks[index];
        let (got_index, frame) = worker.process_block(&packed, index, start, end).unwrap();
        assert_eq!(got_index, index);
        // Each frame decodes by itself to the payload of its block.
        assert_eq!(unzstd(&frame), decompress_block(&packed, start, end).unwrap());
        frames[index] = frame.clone();
        writer.write_block(index, frame);
    }
    let output = writer.finish();
    assert_eq!(output, frames.concat());
    assert_eq!(output, transcode(&packed, 3).unwrap());
    assert_eq!(unzstd(&output), original);
}

#[test]
fn frame_is_the_frame_of_the_level() {
    let original = sample(60_000, 6);
    let packed = bzip2_of(&original, 9);
    let (start, end) = scan_blocks(&packed).unwrap()[0];
    for level in [1, 3, 19] {
        let mut worker = BlockWorker::new(level);
        let (_, frame) = worker.process_block(&packed, 0, start, end).unwrap();
        assert_eq!(frame, zstd::bulk::compress(&original, level).unwrap());
        // A worker gives the same frame again after other work.
        let (_, again) = worker.process_block(&packed, 7, start, end).unwrap();
        assert_eq!(again, frame);
    }
}

#[test]
fn truncated_stream_keeps_its_complete_blocks() {
    let original = sample(250_000, 7);
    let packed = bzip2_of(&original, 1);
    let blocks = scan_blocks(&packed).unwrap();
    assert_eq!(blocks.len(), 3);
    // Cut the input in front of the end-of-stream marker: the last block
    // then has no marker after it and reaches to the end of the input.
    let cut = ((blocks[2].1 + 7) / 8) as usize;
    let truncated = &packed[..cut];
    let cut_blocks = scan_blocks(truncated).unwrap();
    assert_eq!(cut_blocks.len(), 3);
    assert_eq!(cut_blocks[0], blocks[0]);
    assert_eq!(cut_blocks[1], blocks[1]);
    assert_eq!(cut_blocks[2], (blocks[2].0, cut as u64 * 8));
    // The complete blocks decode as before, and the cut block decodes too:
    // the decoder runs out of input where the next marker would have been.
    let mut joined = Vec::new();
    for (start, end) in cut_blocks {
        joined.extend(decompress_block(truncated, start, end).unwrap());
    }
    assert!(joined == original);
    assert!(parallel_bzip2_cat(truncated) == Ok(original));
}

#[test]
fn stream_cut_inside_a_block_loses_the_rest_of_that_block() {
    let original = sample(250_000, 11);
    let packed = bzip2_of(&original, 1);
    let blocks = scan_blocks(&packed).unwrap();
    assert_eq!(blocks.len(), 3);
    // Cut in the middle of the second block.
    let cut = ((blocks[1].0 + blocks[1].1) / 16) as usize;
    let truncated = &packed[..cut];
    let cut_blocks = scan_blocks(truncated).unwrap();
    assert_eq!(cut_blocks, vec![blocks[0], (blocks[1].0, cut as u64 * 8)]);
    let first = decompress_block(truncated, blocks[0].0, blocks[0].1).unwrap();
    assert!(!first.is_empty());
    assert!(original.starts_with(&first));
    // The cut block ends early, which is accepted; it has no payload to give.
    let second = decompress_block(truncated, cut_blocks[1].0, cut_blocks[1].1).unwrap();
    assert!(original[first.len()..].starts_with(&second));
    assert!(first.len() + second.len() < original.len());
}

#[test]
fn concatenated_streams_are_decoded_one_after_the_other() {
    let first = sample(30_000, 8);
    let second = sample(40_000, 9);
    let mut packed = bzip2_of(&first, 9);
    packed.extend(bzip2_of(&second, 9));
    let mut both = first.clone();
    both.extend(&second);
    assert_eq!(parallel_bzip2_cat(&packed), Ok(both.clone()));
    assert_eq!(unzstd(&transcode(&packed, 3).unwrap()), both);
}

#[test]
fn input_without_markers_gives_empty_output() {
    assert_eq!(parallel_bzip2_cat(b"plain text, no bzip2"), Ok(vec![]));
    assert_eq!(transcode(b"plain text, no bzip2", 3), Ok(vec![]));
    assert_eq!(transcode(&[], 3), Ok(vec![]));
}

#[test]
fn empty_stream_has_no_blocks() {
    let packed = bzip2_of(&[], 9);
    assert_eq!(scan_blocks(&packed), Some(vec![]));
    assert_eq!(parallel_bzip2_cat(&packed), Ok(vec![]));
}

#[test]
fn five_mebibytes_round_trip() {
    let original = sample(5 * 1024 * 1024, 10);
    let packed = bzip2_of(&original, 9);
    let output = transcode(&packed, 3).unwrap();
    assert!(unzstd(&output) == original);
}
