//! The two codecs that the pipeline leans on.
//!
//! Decoding a bzip2 stream is the work of the `bzip2` crate and compressing
//! to a zstd frame that of the `zstd` crate. This module gives their results
//! names and says how the calls relate to those names: the contracts here
//! are taken on trust.

use vstd::prelude::*;
use bzip2::read::BzDecoder;
use std::io::Read;
use zstd::bulk::Compressor;

verus! {

/// How the decoding of a stream ended.
#[derive(Debug, Clone, Copy, PartialEq, Eq, Structural)]
pub enum DecodeStatus {
    /// The stream was decoded to its end-of-stream marker.
    Finished,
    /// The stream broke off where the decoder expected more.
    UnexpectedEof,
    /// The decoder refused the stream.
    Failed,
}

/// What the bzip2 decoder makes of `stream`: how it stops, and, where it
/// does not refuse the stream, all the bytes that it decodes from it.
pub uninterp spec fn bz_decoded(stream: Seq<u8>) -> (Seq<u8>, DecodeStatus);

/// The zstd frame that a plain compressor of the level `level` makes of
/// `data`, or `None` where it reports an error.
pub uninterp spec fn zstd_frame(level: i32, data: Seq<u8>) -> Option<Seq<u8>>;

/// `zstd::bulk::Compressor`, a compression context that is used for one
/// block after the other. Nothing of its inside is known here; the level it
/// was made with goes by [`compressor_level`].
#[verifier::external_type_specification]
#[verifier::external_body]
pub struct ExCompressor<'a>(Compressor<'a>);

/// The compression level that a compressor was made with.
pub uninterp spec fn compressor_level(compressor: Compressor<'static>) -> i32;

/// Whether the compressor is as `Compressor::new` makes it: no dictionary
/// and no parameter but the level has been set on it.
pub uninterp spec fn compressor_is_plain(compressor: Compressor<'static>) -> bool;

/// Runs `BzDecoder::new(stream)` to the end with `read_to_end`, which appends
/// to `out` what the reads return.
///
/// The way the decoder stops depends on the stream alone, and so does all
/// that it decodes from a stream that it does not refuse: an error of the
/// kind `UnexpectedEof` comes from a read that has decoded nothing. A read
/// that ends in any other error drops what it has decoded itself, and how
/// much that is depends on the room in `out`; so of a refused stream only
/// this holds, that `out` keeps what it held. An error of the kind
/// `UnexpectedEof` is told apart from every other error.
#[verifier::external_body]
pub(crate) fn bz_decode(stream: &[u8], out: &mut Vec<u8>) -> (status: DecodeStatus)
    ensures
        status == bz_decoded(stream@).1,
        status != DecodeStatus::Failed ==> final(out)@ == old(out)@ + bz_decoded(stream@).0,
        old(out)@.is_prefix_of(final(out)@),
{
    match BzDecoder::new(stream).read_to_end(out) {
        Ok(_) => DecodeStatus::Finished,
        Err(e) => match e.kind() {
            std::io::ErrorKind::UnexpectedEof => DecodeStatus::UnexpectedEof,
            _ => DecodeStatus::Failed,
        },
    }
}

/// Calls `zstd::bulk::Compressor::new`, which makes a fresh context, sets
/// the level on it and loads the empty dictionary.
///
/// A compressor is always handed out. On a fresh context zstd refuses no
/// level, it brings a level outside its range to the nearest one inside;
/// and it loads an empty dictionary by clearing what is there. A context
/// that cannot be allocated makes the call panic, not fail.
#[verifier::external_body]
pub(crate) fn new_compressor(level: i32) -> (made: Option<Compressor<'static>>)
    ensures
        made is Some,
        made matches Some(compressor) ==> compressor_level(compressor) == level,
        made matches Some(compressor) ==> compressor_is_plain(compressor),
{
    Compressor::new(level).ok()
}

/// Calls `zstd::bulk::Compressor::compress`, which compresses `data` into one
/// frame of its own with the settings of the compressor. Each call starts a
/// new session on the context, so the frame of a plain compressor depends on
/// its level and the data alone, and the compressor stays as it was made.
#[verifier::external_body]
pub(crate) fn compress_frame(compressor: &mut Compressor<'static>, data: &[u8]) -> (frame: Option<
    Vec<u8>,
>)
    requires
        compressor_is_plain(*old(compressor)),
    ensures
        compressor_is_plain(*final(compressor)),
        compressor_level(*final(compressor)) == compressor_level(*old(compressor)),
        match frame {
            Some(bytes) => zstd_frame(compressor_level(*old(compressor)), data@) == Some(bytes@),
            None => zstd_frame(compressor_level(*old(compressor)), data@) is None,
        },
{
    compressor.compress(data).ok()
}

} // verus!
