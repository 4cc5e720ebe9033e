//! Packaging: lay the entries out as a tar-style stream, compress it, and
//! frame it; and the inverse, from a payload back to the entries.

use crate::entry::{views, wf_entries, Entry, EntryView};
use crate::frame::{
    compress_prepend_size, decompress_size_prepended, frame_of, lz4_block_of, FrameError,
};
use crate::tarfmt::{parse_entries, parse_from, serialize_entries, tar_bytes, TarError};
use vstd::bytes::spec_u32_from_le_bytes;
use vstd::prelude::*;

verus! {

/// The payload that packaging a set of entries produces.
pub open spec fn packaged_of(es: Seq<EntryView>) -> Seq<u8> {
    frame_of(tar_bytes(es))
}

/// Why a set of entries cannot be packaged.
#[derive(Debug, Clone, Copy, PartialEq, Eq, Structural)]
pub enum PackError {
    /// The laid-out stream is longer than the 4-byte length prefix can record.
    TooLarge,
}

/// Why a payload cannot be unpackaged.
#[derive(Debug, Clone, Copy, PartialEq, Eq, Structural)]
pub enum UnpackError {
    /// The payload is not a decompressible frame.
    Frame(FrameError),
    /// The decompressed stream is not a readable container.
    Archive(TarError),
}

/// Archive the entries and compress the result into a framed payload.
pub fn package(entries: &Vec<Entry>) -> (r: Result<Vec<u8>, PackError>)
    requires
        wf_entries(views(entries@)),
    ensures
        tar_bytes(views(entries@)).len() <= u32::MAX ==> (r matches Ok(v) && v@ == packaged_of(
            views(entries@),
        )),
        tar_bytes(views(entries@)).len() > u32::MAX ==> r == Err::<Vec<u8>, PackError>(
            PackError::TooLarge,
        ),
{
    let tar = serialize_entries(entries);
    if tar.len() as u64 > u32::MAX as u64 {
        return Err(PackError::TooLarge);
    }
    Ok(compress_prepend_size(&tar))
}

/// Decompress a framed payload and read the entries back out of it.
pub fn unpackage(bytes: &Vec<u8>) -> (r: Result<Vec<Entry>, UnpackError>)
    ensures
        forall|es: Seq<EntryView>|
            wf_entries(es) && tar_bytes(es).len() <= u32::MAX && bytes@ == #[trigger] packaged_of(
                es,
            ) ==> (r matches Ok(v) && views(v@) == es),
        bytes@.len() < 4 <==> r == Err::<Vec<Entry>, UnpackError>(
            UnpackError::Frame(FrameError::TooShort),
        ),
        forall|orig: Seq<u8>|
            bytes@.len() >= 4 && bytes@.subrange(4, bytes@.len() as int) == #[trigger] lz4_block_of(
                orig,
            ) && orig.len() != spec_u32_from_le_bytes(bytes@.subrange(0, 4)) ==> r is Err,
{
    match decompress_size_prepended(bytes) {
        Err(e) => {
            proof {
                assert forall|es: Seq<EntryView>|
                    wf_entries(es) && tar_bytes(es).len() <= u32::MAX && bytes@
                        == #[trigger] packaged_of(es) implies false by {}
            }
            Err(UnpackError::Frame(e))
        },
        Ok(buf) => {
            match parse_entries(&buf) {
                Err(e) => {
                    proof {
                        assert forall|es: Seq<EntryView>|
                            wf_entries(es) && tar_bytes(es).len() <= u32::MAX && bytes@
                                == #[trigger] packaged_of(es) implies false by {
                            crate::tarfmt::lemma_tar_round_trip(es);
                        }
                    }
                    Err(UnpackError::Archive(e))
                },
                Ok(v) => {
                    proof {
                        assert forall|es: Seq<EntryView>|
                            wf_entries(es) && tar_bytes(es).len() <= u32::MAX && bytes@
                                == #[trigger] packaged_of(es) implies views(v@) == es by {
                            crate::tarfmt::lemma_tar_round_trip(es);
                            assert(buf@ == tar_bytes(es));
                            assert(parse_from(buf@, 0) == Ok::<Seq<EntryView>, TarError>(es));
                        }
                    }
                    Ok(v)
                },
            }
        },
    }
}

} // verus!
