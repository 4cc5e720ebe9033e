use lz4pack::entry::Entry;
use lz4pack::pack::{package, unpackage};

fn mk(path: &str, data: &[u8]) -> Entry {
    Entry::new(path.as_bytes().to_vec(), data.to_vec()).unwrap()
}

#[test]
fn round_trip_single_file() {
    let entries = vec![mk("hello.txt", b"hello, world")];
    let payload = package(&entries).unwrap();
    let back = unpackage(&payload).unwrap();
    assert_eq!(back.len(), 1);
    assert_eq!(back[0].path, b"hello.txt".to_vec());
    assert_eq!(back[0].data, b"hello, world".to_vec());
}

#[test]
fn round_trip_file_and_directory_contents() {
    // A file argument next to a directory's flattened contents.
    let entries = vec![
        mk("fileA.txt", b"alpha contents"),
        mk("./one.bin", &[0u8, 1, 2, 3, 255, 254]),
        mk("./sub/two.txt", b"nested text"),
    ];
    let payload = package(&entries).unwrap();
    let back = unpackage(&payload).unwrap();
    assert_eq!(back.len(), 3);
    for (orig, got) in entries.iter().zip(back.iter()) {
        assert_eq!(orig.path, got.path);
        assert_eq!(orig.data, got.data);
    }
}

#[test]
fn round_trip_empty_entry_set() {
    // An empty directory contributes no file entries; the archive is still
    // valid and extracts without error.
    let entries: Vec<Entry> = Vec::new();
    let payload = package(&entries).unwrap();
    let back = unpackage(&payload).unwrap();
    assert_eq!(back.len(), 0);
}

#[test]
fn round_trip_empty_file() {
    let entries = vec![mk("empty", b"")];
    let payload = package(&entries).unwrap();
    let back = unpackage(&payload).unwrap();
    assert_eq!(back.len(), 1);
    assert_eq!(back[0].path, b"empty".to_vec());
    assert_eq!(back[0].data, Vec::<u8>::new());
}

#[test]
fn round_trip_block_boundary_sizes() {
    // Contents of exactly one block, one byte less, and one byte more.
    for n in [511usize, 512, 513, 1024] {
        let data: Vec<u8> = (0..n).map(|i| (i % 251) as u8).collect();
        let entries = vec![Entry::new(b"blk".to_vec(), data.clone()).unwrap()];
        let payload = package(&entries).unwrap();
        let back = unpackage(&payload).unwrap();
        assert_eq!(back.len(), 1);
        assert_eq!(back[0].data, data);
    }
}

#[test]
fn entry_new_rejects_bad_names() {
    // Empty name, NUL in the name, and a name longer than the name field.
    assert!(Entry::new(Vec::new(), b"x".to_vec()).is_none());
    assert!(Entry::new(b"a\0b".to_vec(), b"x".to_vec()).is_none());
    assert!(Entry::new(vec![b'a'; 101], b"x".to_vec()).is_none());
    assert!(Entry::new(vec![b'a'; 100], b"x".to_vec()).is_some());
}
