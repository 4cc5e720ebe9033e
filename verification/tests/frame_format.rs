use lz4pack::entry::Entry;
use lz4pack::frame::{compress_prepend_size, decompress_size_prepended, FrameError};
use lz4pack::pack::{package, unpackage, UnpackError};

#[test]
fn compression_is_deterministic() {
    let data = b"the same buffer, compressed twice, must give identical bytes".to_vec();
    let a = compress_prepend_size(&data);
    let b = compress_prepend_size(&data);
    assert_eq!(a, b);
}

#[test]
fn prefix_is_little_endian_uncompressed_length() {
    let data = b"abcde".to_vec();
    let payload = compress_prepend_size(&data);
    assert!(payload.len() >= 4);
    let n = u32::from_le_bytes([payload[0], payload[1], payload[2], payload[3]]);
    assert_eq!(n as usize, data.len());
}

#[test]
fn packaged_prefix_records_archive_size() {
    // One entry with 3 bytes of contents: a 512-byte header, one content
    // block, and the 1024-byte terminator.
    let entries = vec![Entry::new(b"f".to_vec(), b"xyz".to_vec()).unwrap()];
    let payload = package(&entries).unwrap();
    let n = u32::from_le_bytes([payload[0], payload[1], payload[2], payload[3]]);
    assert_eq!(n, 512 + 512 + 1024);
}

#[test]
fn frame_round_trip() {
    let data: Vec<u8> = (0..10_000u32).map(|i| (i % 7) as u8).collect();
    let payload = compress_prepend_size(&data);
    let back = decompress_size_prepended(&payload).unwrap();
    assert_eq!(back, data);
}

#[test]
fn lz4_flex_decodes_our_payload() {
    // The reference decoder must accept what the library produces.
    let data = b"interoperability with the block format, checked both ways".to_vec();
    let payload = compress_prepend_size(&data);
    let back = lz4_flex::decompress_size_prepended(&payload).unwrap();
    assert_eq!(back, data);
}

#[test]
fn our_decoder_accepts_lz4_flex_payload() {
    let data = b"payload produced by the reference encoder".to_vec();
    let payload = lz4_flex::compress_prepend_size(&data);
    let back = decompress_size_prepended(&payload).unwrap();
    assert_eq!(back, data);
}

#[test]
fn too_short_payload_is_rejected() {
    assert_eq!(
        decompress_size_prepended(&vec![1, 2, 3]),
        Err(FrameError::TooShort)
    );
    assert_eq!(decompress_size_prepended(&Vec::new()), Err(FrameError::TooShort));
}

#[test]
fn wrong_prefix_fails_and_extracts_nothing() {
    // A prefix that does not match the true decompressed length of the
    // remaining bytes must fail with a decompression error.
    let entries = vec![Entry::new(b"f".to_vec(), b"some contents".to_vec()).unwrap()];
    let payload = package(&entries).unwrap();
    let n = u32::from_le_bytes([payload[0], payload[1], payload[2], payload[3]]);

    // Prefix one too large: the block decodes to fewer bytes than promised.
    let mut larger = payload.clone();
    larger[0..4].copy_from_slice(&(n + 1).to_le_bytes());
    assert!(matches!(unpackage(&larger), Err(UnpackError::Frame(_))));

    // Prefix one too small: the block no longer fits the promised size.
    let mut smaller = payload.clone();
    smaller[0..4].copy_from_slice(&(n - 1).to_le_bytes());
    assert!(matches!(unpackage(&smaller), Err(UnpackError::Frame(_))));

    // Prefix zero.
    let mut zeroed = payload.clone();
    zeroed[0..4].copy_from_slice(&0u32.to_le_bytes());
    assert!(matches!(unpackage(&zeroed), Err(UnpackError::Frame(_))));
}

#[test]
fn truncated_block_is_rejected() {
    let data = b"a block that will be cut off halfway through".to_vec();
    let mut payload = compress_prepend_size(&data);
    payload.truncate(payload.len() - 5);
    assert!(matches!(
        decompress_size_prepended(&payload),
        Err(FrameError::Corrupt) | Err(FrameError::LengthMismatch)
    ));
}
