//! Compressing a run of bytes into one LZ4 block, and back.
//!
//! A block starts with the size of its content in four bytes, low byte
//! first; the compressed content follows.

use vstd::prelude::*;

verus! {

/// The error type of `std::io`, in which the compressor reports a failure.
#[verifier::external_type_specification]
#[verifier::external_body]
pub struct ExIoError(std::io::Error);

/// What `lz4::block::compress` makes of the given bytes in high-compression
/// mode at the given level, with the size put in front.
pub uninterp spec fn packed(content: Seq<u8>, level: i32) -> Seq<u8>;

/// What `lz4::block::decompress` gets out of a block that starts with the
/// size of its content: the content, or nothing where it reports an error.
pub uninterp spec fn unpacked(block: Seq<u8>) -> Option<Seq<u8>>;

/// The highest level of compression that the compressor knows.
pub const LEVEL: i32 = 12;

/// The longest content that the compressor takes, at most.
pub const MAX_CONTENT: usize = 0x7fff_ffff;

/// Calls `lz4::block::compress` in high-compression mode at the given level
/// and has the size put in front. The block that comes out is what
/// [`packed`] names, and decompressing it gives the content back: the
/// compression loses nothing. Content above [`MAX_CONTENT`] bytes is refused.
///
/// The content must not be empty: at its higher levels the compressor reads
/// behind an empty content.
#[verifier::external_body]
pub(crate) fn compress(content: &[u8], level: i32) -> (made: Result<Vec<u8>, std::io::Error>)
    requires
        content@.len() > 0,
    ensures
        made matches Ok(block) ==> block@ == packed(content@, level) && unpacked(block@) == Some(
            content@,
        ),
        content@.len() > MAX_CONTENT ==> made is Err,
{
    lz4::block::compress(content, Some(lz4::block::CompressionMode::HIGHCOMPRESSION(level)), true)
}

/// Calls `lz4::block::decompress` and lets it read the size from the front of
/// the block. What comes out is what [`unpacked`] names. A block of fewer
/// than four bytes holds no size and is refused.
///
/// The size is read before anything is checked, and that many bytes are set
/// aside: up to 2 GiB for a block that says so.
#[verifier::external_body]
pub(crate) fn decompress(block: &[u8]) -> (got: Result<Vec<u8>, std::io::Error>)
    ensures
        match got {
            Ok(content) => unpacked(block@) == Some(content@),
            Err(_) => unpacked(block@) is None,
        },
        block@.len() < 4 ==> got is Err,
{
    lz4::block::decompress(block, None)
}

} // verus!
