//! Block-parallel transcoding of bzip2 streams.
//!
//! A bzip2 stream is a sequence of blocks, each introduced by a 48-bit marker
//! that may stand at any bit offset. This crate finds the markers, cuts the
//! stream into block ranges, lifts each range out as a stream of its own that
//! a bzip2 decoder accepts, compresses what was decoded, and restores the
//! order of the blocks on output.
//!
//! Every stage works on plain values and keeps no thread of its own, so that
//! the stages can be run side by side: chunks of the input are scanned
//! independently ([`Scanner::scan_chunk`]), blocks are worked on
//! independently ([`BlockWorker::process_block`]), and the two reordering
//! buffers ([`BlockStitcher`], [`OutputWriter`]) take their items in any
//! order.

pub mod bits;
pub mod block;
pub mod codec;
pub mod decoder;
pub mod extract;
pub mod keys;
pub mod marker;
pub mod matcher;
pub mod order;
pub mod pipeline;
pub mod scanner;
pub mod stitch;
pub mod writer;

pub use block::{
    decompress_block, decompress_block_into, BlockError, BlockWorker, MalformedBlock,
};
pub use decoder::Bz2Decoder;
pub use extract::extract_bits;
pub use marker::{verify_magic, MarkerType, MAGIC_BLOCK, MAGIC_EOS};
pub use pipeline::{parallel_bzip2_cat, transcode, CatError, TranscodeError};
pub use scanner::{chunk_count, Scanner, CHUNK_SIZE, OVERLAP};
pub use stitch::{scan_blocks, BlockStitcher};
pub use writer::OutputWriter;
