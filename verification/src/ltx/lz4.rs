//! The LZ4 codec: what the `lz4_flex` crate is trusted for.

use lz4_flex::block::DecompressError;
use std::io::{Read, Write};
use vstd::prelude::*;

verus! {

/// The longest LZ4 block that is handed to the decompressor, in bytes. A block
/// that decodes to a page of at most 65536 bytes is far shorter.
pub const MAX_BLOCK_LEN: usize = 0x100_0000;

/// The longest LZ4 frame of a page, in bytes: a frame header of at most 19 bytes,
/// one block of at most 65536 bytes after its length, and the end mark.
pub const MAX_FRAME_LEN: usize = 65563;

/// Why an LZ4 block does not decode: the variants of
/// `lz4_flex::block::DecompressError`.
#[derive(Clone, Copy, Debug, PartialEq, Eq, Structural)]
pub enum BlockFault {
    /// The output is longer than the buffer.
    OutputTooSmall { expected: usize, actual: usize },
    /// A literal runs past the end of the block.
    LiteralOutOfBounds,
    /// The block ends too early.
    ExpectedAnotherByte,
    /// A match offset is 0.
    OffsetZero,
    /// A match offset points before the output.
    OffsetOutOfBounds,
    /// Any other fault.
    Other,
}

/// The LZ4 frame that `lz4_flex::frame::FrameEncoder` makes of `data` at its
/// default settings, on one target.
pub uninterp spec fn lz4_frame_of(data: Seq<u8>) -> Seq<u8>;

/// What `lz4_flex::frame::FrameDecoder` reads to the end of `src`, or `None`
/// where it fails.
pub uninterp spec fn lz4_frame_content(src: Seq<u8>) -> Option<Seq<u8>>;

/// How many bytes `lz4_flex::block::decompress_into` decodes of `src` into a
/// buffer that holds `out`, and what the buffer holds then; or why it fails.
pub uninterp spec fn lz4_block_into(src: Seq<u8>, out: Seq<u8>) -> Result<
    (usize, Seq<u8>),
    BlockFault,
>;

/// Compresses one page into an LZ4 frame with `lz4_flex::frame::FrameEncoder`
/// at its default settings. Trusted: it does not fail, as writing to a `Vec` does
/// not and the block buffer is always long enough; on one target the frame depends
/// on the data alone; the frame decoder reads the data back from it; and the frame
/// is never longer than [`MAX_FRAME_LEN`], as a block that would grow is stored as it
/// is. The match finder differs by pointer width and byte order, so another target may give
/// another frame of the same data.
#[verifier::external_body]
pub(crate) fn compress_frame(data: &[u8]) -> (c: Vec<u8>)
    requires
        data@.len() <= 65536,
    ensures
        c@ == lz4_frame_of(data@),
        c@.len() <= MAX_FRAME_LEN,
        lz4_frame_content(c@) == Some(data@),
{
    let mut enc = lz4_flex::frame::FrameEncoder::new(Vec::new());
    enc.write_all(data).expect("a Vec takes every byte");
    enc.finish().expect("a Vec takes every byte")
}

/// Reads an LZ4 frame to its end with `lz4_flex::frame::FrameDecoder`. Trusted:
/// the outcome depends on the bytes alone.
#[verifier::external_body]
pub(crate) fn decompress_frame(src: &[u8]) -> (r: Option<Vec<u8>>)
    ensures
        match r {
            Some(d) => lz4_frame_content(src@) == Some(d@),
            None => lz4_frame_content(src@) is None,
        },
{
    let mut out = Vec::new();
    match lz4_flex::frame::FrameDecoder::new(src).read_to_end(&mut out) {
        Ok(_) => Some(out),
        Err(_) => None,
    }
}

/// Decodes an LZ4 block into the front of `out` with
/// `lz4_flex::block::decompress_into`, returning how many bytes it decoded.
/// Trusted: the outcome depends on the block and the buffer alone, the count fits
/// the buffer, and the buffer keeps its length. What the buffer holds after a
/// failure is left unsaid.
#[verifier::external_body]
pub(crate) fn decompress_block(src: &[u8], out: &mut Vec<u8>) -> (r: Result<usize, BlockFault>)
    requires
        src@.len() <= MAX_BLOCK_LEN,
    ensures
        final(out)@.len() == old(out)@.len(),
        match r {
            Ok(n) => n <= old(out)@.len() && lz4_block_into(src@, old(out)@) == Ok::<
                (usize, Seq<u8>),
                BlockFault,
            >((n, final(out)@)),
            Err(e) => lz4_block_into(src@, old(out)@) == Err::<(usize, Seq<u8>), BlockFault>(e),
        },
{
    lz4_flex::block::decompress_into(src, out).map_err(|e| match e {
        DecompressError::OutputTooSmall { expected, actual } => {
            BlockFault::OutputTooSmall { expected, actual }
        },
        DecompressError::LiteralOutOfBounds => BlockFault::LiteralOutOfBounds,
        DecompressError::ExpectedAnotherByte => BlockFault::ExpectedAnotherByte,
        DecompressError::OffsetZero => BlockFault::OffsetZero,
        DecompressError::OffsetOutOfBounds => BlockFault::OffsetOutOfBounds,
        _ => BlockFault::Other,
    })
}

} // verus!
