use lz4pack::entry::Entry;
use lz4pack::tarfmt::{parse_entries, serialize_entries, TarError};
use std::io::Read;

fn mk(path: &str, data: &[u8]) -> Entry {
    Entry::new(path.as_bytes().to_vec(), data.to_vec()).unwrap()
}

#[test]
fn layout_of_one_entry() {
    let bytes = serialize_entries(&vec![mk("abc", b"xyz")]);
    // Header block, one content block, two terminator blocks.
    assert_eq!(bytes.len(), 512 + 512 + 1024);
    // Name field: the path, NUL padded.
    assert_eq!(&bytes[0..3], b"abc");
    assert_eq!(bytes[3], 0);
    // Mode 0644, uid 0, gid 0.
    assert_eq!(&bytes[100..108], b"0000644\0");
    assert_eq!(&bytes[108..116], b"0000000\0");
    // Size: 11 octal digits and a NUL.
    assert_eq!(&bytes[124..136], b"00000000003\0");
    // Typeflag: regular file.
    assert_eq!(bytes[156], b'0');
    // Magic and version.
    assert_eq!(&bytes[257..265], b"ustar\000");
    // Contents, then padding.
    assert_eq!(&bytes[512..515], b"xyz");
    assert!(bytes[515..1024].iter().all(|b| *b == 0));
    // Terminator.
    assert!(bytes[1024..2048].iter().all(|b| *b == 0));
    // The checksum field holds the header's byte sum, with the field itself
    // read as spaces.
    let stated = u32::from_str_radix(
        std::str::from_utf8(&bytes[148..154]).unwrap(),
        8,
    )
    .unwrap();
    let computed: u32 = bytes[0..148]
        .iter()
        .chain(bytes[156..512].iter())
        .map(|b| *b as u32)
        .sum::<u32>()
        + 8 * 32;
    assert_eq!(stated, computed);
}

#[test]
fn parse_rejects_short_stream() {
    assert!(matches!(parse_entries(&Vec::new()), Err(TarError::Truncated)));
    assert!(matches!(parse_entries(&vec![0u8; 100]), Err(TarError::Truncated)));
}

#[test]
fn parse_rejects_bad_header() {
    // A block with no NUL in its name and a non-octal size field.
    assert!(matches!(parse_entries(&vec![0xFFu8; 2048]), Err(TarError::BadHeader)));
}

#[test]
fn parse_rejects_truncated_contents() {
    let mut bytes = serialize_entries(&vec![mk("a", &[7u8; 600])]);
    // Cut inside the second content block.
    bytes.truncate(512 + 600);
    assert!(matches!(parse_entries(&bytes), Err(TarError::Truncated)));
}

#[test]
fn tar_crate_reads_our_stream() {
    let entries = vec![mk("fileA.txt", b"alpha"), mk("./sub/two.txt", b"beta bytes")];
    let bytes = serialize_entries(&entries);
    let mut archive = tar::Archive::new(&bytes[..]);
    let mut seen = Vec::new();
    for entry in archive.entries().unwrap() {
        let mut entry = entry.unwrap();
        let path = entry.path().unwrap().to_string_lossy().into_owned();
        let mut data = Vec::new();
        entry.read_to_end(&mut data).unwrap();
        seen.push((path, data));
    }
    assert_eq!(seen.len(), 2);
    assert_eq!(seen[0].0, "fileA.txt");
    assert_eq!(seen[0].1, b"alpha".to_vec());
    // The reference reader normalizes the leading `./`.
    assert!(seen[1].0 == "./sub/two.txt" || seen[1].0 == "sub/two.txt");
    assert_eq!(seen[1].1, b"beta bytes".to_vec());
}

#[test]
fn our_parser_reads_tar_crate_stream() {
    let mut builder = tar::Builder::new(Vec::new());
    let mut h = tar::Header::new_ustar();
    h.set_size(5);
    h.set_mode(0o644);
    h.set_entry_type(tar::EntryType::Regular);
    builder.append_data(&mut h, "from_tar.txt", &b"12345"[..]).unwrap();
    // A directory entry: carries no file contents and is passed over.
    let mut d = tar::Header::new_ustar();
    d.set_size(0);
    d.set_mode(0o755);
    d.set_entry_type(tar::EntryType::Directory);
    builder.append_data(&mut d, "somedir/", &b""[..]).unwrap();
    let bytes = builder.into_inner().unwrap();

    let parsed = parse_entries(&bytes).unwrap();
    assert_eq!(parsed.len(), 1);
    assert_eq!(parsed[0].path, b"from_tar.txt".to_vec());
    assert_eq!(parsed[0].data, b"12345".to_vec());
}
