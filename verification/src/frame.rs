//! LZ4 size-prefixed framing: a compressed payload is a 4-byte little-endian
//! length prefix (the uncompressed size) followed by the raw LZ4 block.

use vstd::bytes::{spec_u32_from_le_bytes, spec_u32_to_le_bytes};
use vstd::prelude::*;

verus! {

/// The LZ4 block that `lz4_flex::compress` produces for the given bytes.  The
/// encoder is a pure function of its input, so the result may be named
/// without being written out.
pub uninterp spec fn lz4_block_of(data: Seq<u8>) -> Seq<u8>;

/// A whole compressed payload: the input's length as 4 little-endian bytes,
/// then its LZ4 block.
pub open spec fn frame_of(data: Seq<u8>) -> Seq<u8> {
    spec_u32_to_le_bytes(data.len() as u32) + lz4_block_of(data)
}

/// Why a payload cannot be decompressed.
#[derive(Debug, Clone, Copy, PartialEq, Eq, Structural)]
pub enum FrameError {
    /// The payload is shorter than the 4-byte length prefix.
    TooShort,
    /// The block after the prefix is not a decodable LZ4 block that fits the
    /// length the prefix promises.
    Corrupt,
    /// The block decodes, but to fewer bytes than the prefix promises.
    LengthMismatch,
}

/// Relies on `lz4_flex::compress` (the raw block encoder, without a length
/// prefix): it is deterministic, so its result is named `lz4_block_of`.
#[verifier::external_body]
fn lz4_compress(data: &[u8]) -> (r: Vec<u8>)
    ensures
        r@ == lz4_block_of(data@),
{
    lz4_flex::compress(data)
}

/// Relies on `lz4_flex::decompress` built with its `safe-decode` feature: it
/// decodes into a buffer of `size` bytes and fails rather than write past it,
/// so a block whose decoded form is larger than `size` returns an error, and
/// decoding the block of some input with enough room returns that input (the
/// crate's documented round trip).  The result is truncated to what was
/// actually decoded, hence `Ok` only bounds the length.
#[verifier::external_body]
fn lz4_decompress(input: &[u8], size: usize) -> (r: Result<
    Vec<u8>,
    lz4_flex::block::DecompressError,
>)
    requires
        size <= u32::MAX,
    ensures
        r matches Ok(v) ==> v@.len() <= size,
        forall|orig: Seq<u8>|
            input@ == #[trigger] lz4_block_of(orig) ==> if orig.len() <= size {
                r matches Ok(v) && v@ == orig
            } else {
                r is Err
            },
{
    lz4_flex::decompress(input, size)
}

#[verifier::external_type_specification]
#[verifier::external_body]
pub struct ExDecompressError(lz4_flex::block::DecompressError);

/// Compression is deterministic: compressing the same bytes twice yields the
/// same payload, byte for byte.
pub proof fn lemma_compression_deterministic(a: Seq<u8>, b: Seq<u8>)
    requires
        a == b,
    ensures
        frame_of(a) == frame_of(b),
{
}

/// The first 4 bytes of any produced payload, read as a little-endian 32-bit
/// number, are exactly the length of the bytes that were compressed.
pub proof fn lemma_prefix_records_length(data: Seq<u8>)
    requires
        data.len() <= u32::MAX,
    ensures
        spec_u32_from_le_bytes(frame_of(data).subrange(0, 4)) == data.len(),
{
    vstd::bytes::lemma_auto_spec_u32_to_from_le_bytes();
    assert(frame_of(data).subrange(0, 4) =~= spec_u32_to_le_bytes(data.len() as u32));
}

/// Compress `data` and prepend its length as 4 little-endian bytes.
pub fn compress_prepend_size(data: &Vec<u8>) -> (r: Vec<u8>)
    requires
        data@.len() <= u32::MAX,
    ensures
        r@ == frame_of(data@),
        r@.len() >= 4,
        spec_u32_from_le_bytes(r@.subrange(0, 4)) == data@.len(),
{
    proof {
        vstd::bytes::lemma_auto_spec_u32_to_from_le_bytes();
    }
    let mut out = vstd::bytes::u32_to_le_bytes(data.len() as u32);
    let mut block = lz4_compress(data.as_slice());
    out.append(&mut block);
    assert(out@ =~= frame_of(data@));
    assert(out@.subrange(0, 4) =~= spec_u32_to_le_bytes(data@.len() as u32));
    out
}

/// Undo [`compress_prepend_size`]: read the length prefix and decode the
/// block, insisting that it decodes to exactly the promised length.
pub fn decompress_size_prepended(input: &Vec<u8>) -> (r: Result<Vec<u8>, FrameError>)
    ensures
        input@.len() < 4 <==> r == Err::<Vec<u8>, FrameError>(FrameError::TooShort),
        r matches Ok(v) ==> input@.len() >= 4 && v@.len() == spec_u32_from_le_bytes(
            input@.subrange(0, 4),
        ),
        forall|orig: Seq<u8>|
            orig.len() <= u32::MAX && input@ == #[trigger] frame_of(orig) ==> (r matches Ok(v)
                && v@ == orig),
        forall|orig: Seq<u8>|
            input@.len() >= 4 && input@.subrange(4, input@.len() as int) == #[trigger] lz4_block_of(
                orig,
            ) && orig.len() != spec_u32_from_le_bytes(input@.subrange(0, 4)) ==> r is Err,
{
    proof {
        vstd::bytes::lemma_auto_spec_u32_to_from_le_bytes();
    }
    if input.len() < 4 {
        return Err(FrameError::TooShort);
    }
    let prefix = vstd::slice::slice_subrange(input.as_slice(), 0, 4);
    let size32 = vstd::bytes::u32_from_le_bytes(prefix);
    let size = size32 as usize;
    let rest = vstd::slice::slice_subrange(input.as_slice(), 4, input.len());
    let ghost spec_size = spec_u32_from_le_bytes(input@.subrange(0, 4));
    assert(size == spec_size);
    match lz4_decompress(rest, size) {
        Ok(v) => {
            if v.len() == size {
                proof {
                    assert forall|orig: Seq<u8>|
                        orig.len() <= u32::MAX && input@ == #[trigger] frame_of(orig) implies v@
                        == orig by {
                        assert(input@.subrange(0, 4) =~= spec_u32_to_le_bytes(orig.len() as u32));
                        assert(rest@ =~= lz4_block_of(orig));
                        assert(orig.len() == spec_size);
                    }
                }
                Ok(v)
            } else {
                proof {
                    assert forall|orig: Seq<u8>|
                        orig.len() <= u32::MAX && input@ == #[trigger] frame_of(orig) implies false by {
                        assert(input@.subrange(0, 4) =~= spec_u32_to_le_bytes(orig.len() as u32));
                        assert(rest@ =~= lz4_block_of(orig));
                        assert(orig.len() == spec_size);
                    }
                }
                Err(FrameError::LengthMismatch)
            }
        },
        Err(_) => {
            proof {
                assert forall|orig: Seq<u8>|
                    orig.len() <= u32::MAX && input@ == #[trigger] frame_of(orig) implies false by {
                    assert(input@.subrange(0, 4) =~= spec_u32_to_le_bytes(orig.len() as u32));
                    assert(rest@ =~= lz4_block_of(orig));
                    assert(orig.len() == spec_size);
                }
            }
            Err(FrameError::Corrupt)
        },
    }
}

} // verus!
