//! The stages in a row: scan, cut into blocks, work on each block, put the
//! results in order.
//!
//! The functions here run the stages one after the other on one thread. A
//! caller with threads to spare runs the same stages side by side and gets
//! the same bytes.

use vstd::prelude::*;
use crate::block::{
    block_payload, block_status, decompress_block_into, status_accepted, BlockError, BlockWorker,
};
use crate::extract::range_fits;
use crate::codec::zstd_frame;
use crate::keys::search_keys;
use crate::matcher::matcher_builds;
use crate::stitch::{all_blocks, lemma_all_blocks_ordered, scan_blocks};
use crate::order::released;
use crate::writer::OutputWriter;

verus! {

/// Why an input could not be decoded.
#[derive(Debug, Clone, Copy, PartialEq, Eq, Structural)]
pub enum CatError {
    /// The automaton for the marker search could not be built.
    NoScanner,
    /// The decoder refused the block with the index `block_index`, which
    /// stands at the bits `[start_bit, end_bit)` of the input.
    Malformed { block_index: usize, start_bit: u64, end_bit: u64 },
}

/// Why an input could not be transcoded.
#[derive(Debug, Clone, Copy, PartialEq, Eq, Structural)]
pub enum TranscodeError {
    /// The automaton for the marker search could not be built.
    NoScanner,
    /// A block could not be turned into a frame.
    Block(BlockError),
}

/// The payloads of the block ranges, in the order of the ranges.
pub open spec fn payloads(data: Seq<u8>, ranges: Seq<(u64, u64)>) -> Seq<Seq<u8>> {
    Seq::new(ranges.len(), |i: int| block_payload(data, ranges[i].0 as int, ranges[i].1 as int))
}

/// The first of the block ranges that the decoder refuses, if it refuses
/// one.
pub open spec fn first_malformed(data: Seq<u8>, ranges: Seq<(u64, u64)>) -> Option<int>
    decreases ranges.len(),
{
    if ranges.len() == 0 {
        None
    } else {
        match first_malformed(data, ranges.drop_last()) {
            Some(i) => Some(i),
            None => if status_accepted(
                block_status(data, ranges.last().0 as int, ranges.last().1 as int),
            ) {
                None
            } else {
                Some(ranges.len() - 1)
            },
        }
    }
}

/// What becomes of block range `i`: its zstd frame at `level`, or the reason
/// why there is none.
pub open spec fn block_outcome(level: i32, data: Seq<u8>, ranges: Seq<(u64, u64)>, i: int)
    -> Result<Seq<u8>, BlockError> {
    let start = ranges[i].0;
    let end = ranges[i].1;
    if !status_accepted(block_status(data, start as int, end as int)) {
        Err(BlockError::Malformed { block_index: i as usize, start_bit: start, end_bit: end })
    } else {
        match zstd_frame(level, block_payload(data, start as int, end as int)) {
            Some(frame) => Ok(frame),
            None => Err(BlockError::Compressor { block_index: i as usize }),
        }
    }
}

/// The frames of the block ranges in order, or the reason why the first
/// block without a frame has none.
pub open spec fn frames(level: i32, data: Seq<u8>, ranges: Seq<(u64, u64)>, n: int) -> Result<
    Seq<Seq<u8>>,
    BlockError,
>
    decreases n,
{
    if n <= 0 {
        Ok(Seq::empty())
    } else {
        match frames(level, data, ranges, n - 1) {
            Err(e) => Err(e),
            Ok(before) => match block_outcome(level, data, ranges, n - 1) {
                Ok(frame) => Ok(before.push(frame)),
                Err(e) => Err(e),
            },
        }
    }
}

proof fn lemma_ranges_fit(data: Seq<u8>, j: int)
    requires
        8 * data.len() <= u64::MAX,
        0 <= j < all_blocks(data).len(),
    ensures
        range_fits(data.len() as int, all_blocks(data)[j].0, all_blocks(data)[j].1),
{
    lemma_all_blocks_ordered(data);
    let r = all_blocks(data)[j];
    assert(r.0 < r.1 <= 8 * data.len());
}

/// Decodes a whole input: finds its blocks, decodes them one after the
/// other, and returns their payloads in the order of the input.
///
/// The first block that the decoder refuses ends the work.
pub fn parallel_bzip2_cat(data: &[u8]) -> (done: Result<Vec<u8>, CatError>)
    requires
        8 * data.len() <= u64::MAX,
    ensures
        match done {
            Ok(bytes) => {
                &&& matcher_builds(search_keys())
                &&& first_malformed(data@, all_blocks(data@)) is None
                &&& bytes@ == payloads(data@, all_blocks(data@)).flatten()
            },
            Err(CatError::NoScanner) => !matcher_builds(search_keys()),
            Err(CatError::Malformed { block_index, start_bit, end_bit }) => {
                &&& matcher_builds(search_keys())
                &&& first_malformed(data@, all_blocks(data@)) == Some(block_index as int)
                &&& block_index < all_blocks(data@).len()
                &&& start_bit == all_blocks(data@)[block_index as int].0
                &&& end_bit == all_blocks(data@)[block_index as int].1
            },
        },
{
    let blocks = match scan_blocks(data) {
        Some(blocks) => blocks,
        None => {
            return Err(CatError::NoScanner);
        },
    };
    let ghost ranges = all_blocks(data@);
    let mut bytes: Vec<u8> = Vec::new();
    let mut out: Vec<u8> = Vec::new();
    let mut scratch: Vec<u8> = Vec::new();
    let mut i: usize = 0;
    proof {
        assert(ranges.take(0) =~= Seq::empty());
        assert(payloads(data@, ranges.take(0)).flatten() =~= Seq::<u8>::empty());
    }
    while i < blocks.len()
        invariant
            0 <= i <= blocks.len(),
            8 * data.len() <= u64::MAX,
            blocks@ == ranges,
            ranges == all_blocks(data@),
            matcher_builds(search_keys()),
            first_malformed(data@, ranges.take(i as int)) is None,
            bytes@ == payloads(data@, ranges.take(i as int)).flatten(),
        decreases blocks.len() - i,
    {
        let (start_bit, end_bit) = blocks[i];
        proof {
            lemma_ranges_fit(data@, i as int);
            assert(ranges.take(i + 1).drop_last() =~= ranges.take(i as int));
            assert(ranges.take(i + 1).last() == ranges[i as int]);
        }
        match decompress_block_into(data, start_bit, end_bit, &mut out, &mut scratch) {
            Ok(()) => {},
            Err(_) => {
                proof {
                    lemma_first_malformed_stays(data@, ranges, i + 1);
                }
                return Err(CatError::Malformed { block_index: i, start_bit, end_bit });
            },
        }
        proof {
            let before = payloads(data@, ranges.take(i as int));
            let now = payloads(data@, ranges.take(i + 1));
            assert(now =~= before.push(out@));
            before.lemma_flatten_push(out@);
        }
        bytes.append(&mut out);
        i += 1;
    }
    assert(ranges.take(blocks.len() as int) =~= ranges);
    Ok(bytes)
}

/// A refused block among the first `n` ranges is the first refused block of
/// all ranges.
proof fn lemma_first_malformed_stays(data: Seq<u8>, ranges: Seq<(u64, u64)>, n: int)
    requires
        0 <= n <= ranges.len(),
        first_malformed(data, ranges.take(n)) is Some,
    ensures
        first_malformed(data, ranges) == first_malformed(data, ranges.take(n)),
        0 <= first_malformed(data, ranges)->0 < n,
    decreases ranges.len() - n,
{
    lemma_first_malformed_in_range(data, ranges.take(n));
    if n < ranges.len() {
        assert(ranges.take(n + 1).drop_last() =~= ranges.take(n));
        lemma_first_malformed_stays(data, ranges, n + 1);
    } else {
        assert(ranges.take(n) =~= ranges);
    }
}

proof fn lemma_first_malformed_in_range(data: Seq<u8>, ranges: Seq<(u64, u64)>)
    ensures
        first_malformed(data, ranges) matches Some(i) ==> 0 <= i < ranges.len()
            && !status_accepted(block_status(data, ranges[i].0 as int, ranges[i].1 as int)),
    decreases ranges.len(),
{
    if ranges.len() > 0 {
        lemma_first_malformed_in_range(data, ranges.drop_last());
    }
}

/// Transcodes a whole input: finds its blocks, turns each into a zstd frame
/// at `zstd_level`, and returns the frames one after the other in the order
/// of the input.
///
/// The first block that cannot be turned into a frame ends the work.
pub fn transcode(data: &[u8], zstd_level: i32) -> (done: Result<Vec<u8>, TranscodeError>)
    requires
        8 * data.len() <= u64::MAX,
    ensures
        match done {
            Ok(bytes) => {
                &&& matcher_builds(search_keys())
                &&& frames(
                    zstd_level,
                    data@,
                    all_blocks(data@),
                    all_blocks(data@).len() as int,
                ) matches Ok(all)
                &&& bytes@ == all.flatten()
            },
            Err(TranscodeError::NoScanner) => !matcher_builds(search_keys()),
            Err(TranscodeError::Block(e)) => {
                &&& matcher_builds(search_keys())
                &&& frames(zstd_level, data@, all_blocks(data@), all_blocks(data@).len() as int)
                    == Err::<Seq<Seq<u8>>, BlockError>(e)
            },
        },
{
    let blocks = match scan_blocks(data) {
        Some(blocks) => blocks,
        None => {
            return Err(TranscodeError::NoScanner);
        },
    };
    let mut worker = BlockWorker::new(zstd_level);
    let ghost ranges = all_blocks(data@);
    let mut writer = OutputWriter::new();
    let mut i: usize = 0;
    proof {
        assert(Seq::<Seq<u8>>::empty().flatten() =~= Seq::<u8>::empty());
    }
    while i < blocks.len()
        invariant
            0 <= i <= blocks.len(),
            8 * data.len() <= u64::MAX,
            blocks@ == ranges,
            ranges == all_blocks(data@),
            matcher_builds(search_keys()),
            worker.wf(),
            worker.level() == zstd_level,
            writer.wf(),
            writer.next_index() == i,
            writer.pending() == Map::<usize, Seq<u8>>::empty(),
            frames(zstd_level, data@, ranges, i as int) matches Ok(so_far) && writer.unflushed()
                == so_far.flatten(),
        decreases blocks.len() - i,
    {
        let (start_bit, end_bit) = blocks[i];
        proof {
            lemma_ranges_fit(data@, i as int);
        }
        match worker.process_block(data, i, start_bit, end_bit) {
            Err(e) => {
                proof {
                    lemma_frames_failure_stays(zstd_level, data@, ranges, i + 1);
                }
                return Err(TranscodeError::Block(e));
            },
            Ok((index, frame)) => {
                let ghost so_far = frames(zstd_level, data@, ranges, i as int)->Ok_0;
                let ghost arrived = writer.pending().insert(index, frame@);
                writer.write_block(index, frame);
                proof {
                    let next = writer.next_index();
                    assert(arrived.contains_key(i));
                    if next == i {
                        assert(false);
                    }
                    if next > i + 1 {
                        assert(arrived.contains_key((i + 1) as usize));
                        assert(false);
                    }
                    assert(released(arrived, i as int, 0) =~= Seq::empty());
                    assert(released(arrived, i as int, 1) =~= seq![arrived[i]]);
                    assert(writer.pending() =~= Map::<usize, Seq<u8>>::empty());
                    so_far.lemma_flatten_push(arrived[i]);
                    assert(seq![arrived[i]].flatten() =~= arrived[i]) by {
                        Seq::<Seq<u8>>::empty().lemma_flatten_push(arrived[i]);
                        assert(Seq::<Seq<u8>>::empty().push(arrived[i]) =~= seq![arrived[i]]);
                        assert(Seq::<Seq<u8>>::empty().flatten() =~= Seq::<u8>::empty());
                    }
                }
            },
        }
        i += 1;
    }
    Ok(writer.finish())
}

/// Once a block among the first `n` has no frame, the reason stays the same
/// however many ranges follow.
proof fn lemma_frames_failure_stays(
    level: i32,
    data: Seq<u8>,
    ranges: Seq<(u64, u64)>,
    n: int,
)
    requires
        0 <= n <= ranges.len(),
        frames(level, data, ranges, n) is Err,
    ensures
        frames(level, data, ranges, ranges.len() as int) == frames(level, data, ranges, n),
    decreases ranges.len() - n,
{
    if n < ranges.len() {
        lemma_frames_failure_stays(level, data, ranges, n + 1);
    }
}

} // verus!
