//! Work on one block range: lifting it out as a stream of its own, decoding
//! it, and compressing what was decoded.
//!
//! The bits of a range start with the block's marker and end in front of the
//! next marker. With a four-byte stream header in front they form a bzip2
//! stream that lacks only its end: a decoder produces the block's payload
//! and then finds the input exhausted, which is no fault here.

use vstd::prelude::*;
use zstd::bulk::Compressor;
use crate::codec::{
    bz_decode, bz_decoded, compress_frame, compressor_is_plain, compressor_level,
    new_compressor, zstd_frame, DecodeStatus,
};
use crate::extract::{extract_bits, extracted, range_fits};

verus! {

/// A block range that the decoder refused.
#[derive(Debug, Clone, Copy, PartialEq, Eq, Structural)]
pub struct MalformedBlock {
    /// The bit at which the block starts in the input.
    pub start_bit: u64,
    /// The bit in front of which the block ends.
    pub end_bit: u64,
}

/// Why a block could not be turned into a zstd frame.
#[derive(Debug, Clone, Copy, PartialEq, Eq, Structural)]
pub enum BlockError {
    /// The decoder refused the block.
    Malformed { block_index: usize, start_bit: u64, end_bit: u64 },
    /// The compressor reported an error on the decoded block.
    Compressor { block_index: usize },
}

/// The header that is put in front of every block: `BZh9`, a bzip2 stream of
/// the largest block size.
pub open spec fn stream_header() -> Seq<u8> {
    seq![0x42u8, 0x5Au8, 0x68u8, 0x39u8]
}

/// The stream that stands for the block range `[start, end)` of `data`.
pub open spec fn sub_stream(data: Seq<u8>, start: int, end: int) -> Seq<u8> {
    stream_header() + extracted(data, start, end)
}

/// The payload of the block range: what the decoder produces for it, where
/// it does not refuse it.
pub open spec fn block_payload(data: Seq<u8>, start: int, end: int) -> Seq<u8> {
    bz_decoded(sub_stream(data, start, end)).0
}

/// How the decoder stops on the block range.
pub open spec fn block_status(data: Seq<u8>, start: int, end: int) -> DecodeStatus {
    bz_decoded(sub_stream(data, start, end)).1
}

/// A decoder that stops for want of input has done its work; only a decoder
/// that refuses the stream has not.
pub open spec fn status_accepted(status: DecodeStatus) -> bool {
    status != DecodeStatus::Failed
}

/// Judges how the decoder stopped on the block range `[start_bit, end_bit)`.
///
/// A clean end is accepted, and so is an unexpected end of input: the last
/// block of a truncated stream has no marker after it, and no block range
/// holds the end of its stream. Anything else makes the block malformed.
pub fn check_status(status: DecodeStatus, start_bit: u64, end_bit: u64) -> (done: Result<
    (),
    MalformedBlock,
>)
    ensures
        done == if status_accepted(status) {
            Ok::<(), MalformedBlock>(())
        } else {
            Err::<(), MalformedBlock>(MalformedBlock { start_bit, end_bit })
        },
{
    match status {
        DecodeStatus::Finished => Ok(()),
        DecodeStatus::UnexpectedEof => Ok(()),
        DecodeStatus::Failed => Err(MalformedBlock { start_bit, end_bit }),
    }
}

/// Decodes the block range `[start_bit, end_bit)` of `data` into `out`.
///
/// `scratch` is emptied and filled with the stream header and the bits of
/// the range; `out` is emptied and filled with what the decoder produces
/// from that stream. Where the decoder refuses the stream, `out` is left
/// empty. Both buffers keep their storage from call to call.
pub fn decompress_block_into(
    data: &[u8],
    start_bit: u64,
    end_bit: u64,
    out: &mut Vec<u8>,
    scratch: &mut Vec<u8>,
) -> (done: Result<(), MalformedBlock>)
    requires
        range_fits(data.len() as int, start_bit, end_bit),
    ensures
        final(scratch)@ == sub_stream(data@, start_bit as int, end_bit as int),
        final(out)@ == if status_accepted(
            block_status(data@, start_bit as int, end_bit as int),
        ) {
            block_payload(data@, start_bit as int, end_bit as int)
        } else {
            Seq::<u8>::empty()
        },
        done == if status_accepted(block_status(data@, start_bit as int, end_bit as int)) {
            Ok::<(), MalformedBlock>(())
        } else {
            Err::<(), MalformedBlock>(MalformedBlock { start_bit, end_bit })
        },
{
    scratch.clear();
    scratch.push(0x42);
    scratch.push(0x5A);
    scratch.push(0x68);
    scratch.push(0x39);
    assert(scratch@ =~= stream_header());
    extract_bits(data, start_bit, end_bit, scratch);

    out.clear();
    let status = bz_decode(scratch.as_slice(), out);
    let done = check_status(status, start_bit, end_bit);
    if done.is_err() {
        out.clear();
    } else {
        assert(out@ =~= block_payload(data@, start_bit as int, end_bit as int));
    }
    done
}

/// Decodes the block range `[start_bit, end_bit)` of `data` and returns its
/// payload.
pub fn decompress_block(data: &[u8], start_bit: u64, end_bit: u64) -> (done: Result<
    Vec<u8>,
    MalformedBlock,
>)
    requires
        range_fits(data.len() as int, start_bit, end_bit),
    ensures
        match done {
            Ok(payload) => status_accepted(
                block_status(data@, start_bit as int, end_bit as int),
            ) && payload@ == block_payload(data@, start_bit as int, end_bit as int),
            Err(e) => !status_accepted(block_status(data@, start_bit as int, end_bit as int))
                && e == (MalformedBlock { start_bit, end_bit }),
        },
{
    let mut out: Vec<u8> = Vec::new();
    let mut scratch: Vec<u8> = Vec::new();
    match decompress_block_into(data, start_bit, end_bit, &mut out, &mut scratch) {
        Ok(()) => Ok(out),
        Err(e) => Err(e),
    }
}

/// The state that one worker keeps from block to block: the buffer for the
/// stream of a block, the buffer for its payload, and a zstd compressor.
pub struct BlockWorker {
    scratch: Vec<u8>,
    decoded: Vec<u8>,
    compressor: Compressor<'static>,
}

impl BlockWorker {
    /// The compression level of the worker.
    pub closed spec fn level(&self) -> i32 {
        compressor_level(self.compressor)
    }

    /// The compressor of the worker is as it was made: nothing but the
    /// level has been set on it.
    pub closed spec fn wf(&self) -> bool {
        compressor_is_plain(self.compressor)
    }

    /// A worker that compresses at `zstd_level`, with empty buffers.
    pub fn new(zstd_level: i32) -> (worker: BlockWorker)
        ensures
            worker.wf(),
            worker.level() == zstd_level,
    {
        match new_compressor(zstd_level) {
            Some(compressor) => BlockWorker {
                scratch: Vec::new(),
                decoded: Vec::new(),
                compressor,
            },
            None => vstd::pervasive::unreached(),
        }
    }

    /// Turns the block range `[start_bit, end_bit)` of `data` into a zstd
    /// frame and hands it out with the index of the block.
    ///
    /// The range is lifted out behind a stream header and decoded; the
    /// payload is compressed into one frame at the level of the worker. The
    /// block is malformed where the decoder refuses it.
    pub fn process_block(
        &mut self,
        data: &[u8],
        block_index: usize,
        start_bit: u64,
        end_bit: u64,
    ) -> (done: Result<(usize, Vec<u8>), BlockError>)
        requires
            old(self).wf(),
            range_fits(data.len() as int, start_bit, end_bit),
        ensures
            final(self).wf(),
            final(self).level() == old(self).level(),
            match done {
                Ok((index, frame)) => {
                    &&& index == block_index
                    &&& status_accepted(block_status(data@, start_bit as int, end_bit as int))
                    &&& zstd_frame(
                        old(self).level(),
                        block_payload(data@, start_bit as int, end_bit as int),
                    ) == Some(frame@)
                },
                Err(
                    BlockError::Malformed { block_index: index, start_bit: start, end_bit: end },
                ) => {
                    &&& index == block_index
                    &&& start == start_bit
                    &&& end == end_bit
                    &&& !status_accepted(block_status(data@, start_bit as int, end_bit as int))
                },
                Err(BlockError::Compressor { block_index: index }) => {
                    &&& index == block_index
                    &&& status_accepted(block_status(data@, start_bit as int, end_bit as int))
                    &&& zstd_frame(
                        old(self).level(),
                        block_payload(data@, start_bit as int, end_bit as int),
                    ) is None
                },
            },
    {
        match decompress_block_into(
            data,
            start_bit,
            end_bit,
            &mut self.decoded,
            &mut self.scratch,
        ) {
            Ok(()) => {},
            Err(_) => {
                return Err(BlockError::Malformed { block_index, start_bit, end_bit });
            },
        }
        match compress_frame(&mut self.compressor, self.decoded.as_slice()) {
            Some(frame) => Ok((block_index, frame)),
            None => Err(BlockError::Compressor { block_index }),
        }
    }
}

} // verus!
