//! LZ4 block compression of the payload, through the `lz4_flex` crate.

use vstd::prelude::*;

verus! {

/// Largest compressed payload that `decompress` accepts.
pub const MAX_COMPRESSED_LEN: usize = 0x100_0000;

/// Largest payload that `compress` takes, and largest size that
/// `decompress` is asked to make room for.
pub const MAX_DECOMPRESSED_LEN: usize = 0x4000_0000;

/// The error type of `lz4_flex::decompress`.
#[verifier::external_type_specification]
#[verifier::external_body]
pub struct ExDecompressError(lz4_flex::block::DecompressError);

/// The LZ4 block that `lz4_flex` makes of a byte string.
pub uninterp spec fn lz4_compressed(data: Seq<u8>) -> Seq<u8>;

/// What `lz4_flex` decodes a block to, given room for `room` bytes; `None`
/// where it reports an error.
pub uninterp spec fn lz4_decompressed(block: Seq<u8>, room: int) -> Option<Seq<u8>>;

/// Compress all bytes of `input` into an LZ4 block.
///
/// Trusted: calls `lz4_flex::compress`. The contract names the block, and
/// states the round trip the crate exists for: decoding the block with room
/// for the input's length gives the input back. The bound keeps every run
/// of literals and every match within the decoder's 32-bit length counters,
/// beyond which a block no longer decodes to its input.
#[verifier::external_body]
pub(crate) fn compress(input: &[u8]) -> (block: Vec<u8>)
    requires
        input@.len() <= MAX_DECOMPRESSED_LEN,
    ensures
        block@ == lz4_compressed(input@),
        lz4_decompressed(block@, input@.len() as int) == Some(input@),
{
    lz4_flex::compress(input)
}

/// Decode an LZ4 block into a buffer of `min_uncompressed_size` bytes.
///
/// Trusted: calls `lz4_flex::decompress`, built with its checked, safe
/// decoder, which reports malformed input and a buffer that is too small as
/// errors. The bounds keep its 32-bit length counters and the buffer
/// allocation in range.
#[verifier::external_body]
pub(crate) fn decompress(input: &[u8], min_uncompressed_size: usize) -> (res: Result<
    Vec<u8>,
    lz4_flex::block::DecompressError,
>)
    requires
        input@.len() <= MAX_COMPRESSED_LEN,
        min_uncompressed_size <= MAX_DECOMPRESSED_LEN,
    ensures
        match res {
            Ok(v) => lz4_decompressed(input@, min_uncompressed_size as int) == Some(v@),
            Err(_) => lz4_decompressed(input@, min_uncompressed_size as int) is None,
        },
{
    lz4_flex::decompress(input, min_uncompressed_size)
}

/// Decode an LZ4 block, or `None` where the block is malformed, too long,
/// or decodes to more than `size` bytes.
pub fn decompress_checked(input: &[u8], size: usize) -> (res: Option<Vec<u8>>)
    ensures
        res is Some <==> input@.len() <= MAX_COMPRESSED_LEN && size <= MAX_DECOMPRESSED_LEN
            && lz4_decompressed(input@, size as int) is Some,
        res is Some ==> lz4_decompressed(input@, size as int) == Some(res->0@),
{
    if input.len() > MAX_COMPRESSED_LEN || size > MAX_DECOMPRESSED_LEN {
        return None;
    }
    match decompress(input, size) {
        Ok(v) => Some(v),
        Err(_) => None,
    }
}

} // verus!
