use bitumen::decode::DecodeError;
use bitumen::flags;
use bitumen::{
    append_to_archive, find, read, read1, read_meta, recursive_archive, ByteStream, EncodeError,
    Entry, FsObject, Metadata, Slot, MAGIC, MAX_PATH_LEN,
};

fn file(path: &str, modified_at: u64, body: &[u8]) -> FsObject {
    FsObject::File { path: path.as_bytes().to_vec(), modified_at, body: body.to_vec() }
}

fn dir(path: &str, modified_at: u64, children: Vec<FsObject>) -> FsObject {
    FsObject::Directory { path: path.as_bytes().to_vec(), modified_at, children }
}

/// src/{a.rs, bin/{main.rs, deep/{x}}, lib.rs, empty/}
fn subtree() -> FsObject {
    dir(
        "src",
        10,
        vec![
            file("src/a.rs", 11, b"alpha"),
            dir(
                "src/bin",
                12,
                vec![
                    file("src/bin/main.rs", 13, b"fn main() {}"),
                    dir("src/bin/deep", 14, vec![file("src/bin/deep/x", 15, b"")]),
                ],
            ),
            file("src/lib.rs", 16, b"pub mod a;"),
            dir("src/empty", 17, vec![]),
        ],
    )
}

fn archive_of(root: &FsObject) -> Vec<u8> {
    let mut archive = Vec::new();
    assert_eq!(recursive_archive(&mut archive, root), Ok(()));
    archive
}

fn report(entry: &Entry) -> (String, String, u64) {
    (entry.kind().to_string(), entry.path_text(), entry.size())
}

fn sealed(meta: Metadata) -> Vec<u8> {
    let mut meta = meta;
    meta.set_checksum();
    meta.as_bytes()
}

#[test]
fn entry_of_a_file_is_header_path_body_footer() {
    let mut archive = vec![0xEE];
    let object = file("hello", 1_700_000_000, b"world");
    assert_eq!(append_to_archive(&mut archive, &object), Ok(()));

    let base = Metadata {
        modified_at: 1_700_000_000,
        file_size: 5,
        path_len: 5,
        perms: 0,
        owner: 0,
        group: 0,
        magic: MAGIC,
        flags: flags::FILE,
        checksum: 0,
    };
    let mut expected = vec![0xEE];
    expected.extend(sealed(Metadata { flags: flags::FILE | flags::HEADER, ..base }));
    expected.extend(b"hello");
    expected.extend(b"world");
    expected.extend(sealed(base));
    assert_eq!(archive, expected);
    assert_eq!(archive.len(), 1 + 40 + 5 + 5 + 40);
    assert_eq!(&archive[33..37], &0x43D95200u32.to_le_bytes());
    assert_eq!(&archive[1 + 50 + 32..1 + 50 + 36], &0x866D7AEFu32.to_le_bytes());
}

#[test]
fn entry_of_a_directory_has_no_body() {
    let mut archive = Vec::new();
    let object = dir("d", 7, vec![file("d/f", 8, b"not written here")]);
    assert_eq!(append_to_archive(&mut archive, &object), Ok(()));
    assert_eq!(archive.len(), 40 + 1 + 40);
    let header = Metadata::from_bytes(&archive[..40]).unwrap();
    let footer = Metadata::from_bytes(&archive[41..]).unwrap();
    assert_eq!(header.flags, flags::DIR | flags::HEADER);
    assert_eq!(footer.flags, flags::DIR);
    assert_eq!(header.file_size, 0);
    assert_eq!(header.path_len, 1);
    assert_eq!(header.modified_at, 7);
    assert_eq!(archive[40], b'd');
}

#[test]
fn header_and_footer_differ_in_header_bit_and_checksum_only() {
    for object in [file("some/file", 99, b"body"), dir("some/dir", 98, vec![])] {
        let mut archive = Vec::new();
        assert_eq!(append_to_archive(&mut archive, &object), Ok(()));
        let header = Metadata::from_bytes(&archive[..40]).unwrap();
        let footer = Metadata::from_bytes(&archive[archive.len() - 40..]).unwrap();
        assert_ne!(header.checksum, footer.checksum);
        assert_eq!(header.flags, footer.flags | flags::HEADER);
        assert_eq!(footer.flags & flags::HEADER, 0);
        assert_eq!(
            Metadata { flags: 0, checksum: 0, ..header },
            Metadata { flags: 0, checksum: 0, ..footer }
        );
        assert_eq!(header.checksum, header.compute_checksum());
        assert_eq!(footer.checksum, footer.compute_checksum());
        assert_eq!(header.magic, MAGIC);
        assert_eq!((header.perms, header.owner, header.group), (0, 0, 0));
    }
}

#[test]
fn path_longer_than_the_length_field_is_rejected() {
    let mut archive = vec![1, 2, 3];
    let long = FsObject::File { path: vec![b'p'; MAX_PATH_LEN + 1], modified_at: 0, body: vec![] };
    assert_eq!(append_to_archive(&mut archive, &long), Err(EncodeError::PathTooLong));
    assert_eq!(archive, vec![1, 2, 3]);
    let long = FsObject::Directory { path: vec![b'p'; 70_000], modified_at: 0, children: vec![] };
    assert_eq!(append_to_archive(&mut archive, &long), Err(EncodeError::PathTooLong));
    assert_eq!(archive, vec![1, 2, 3]);
}

#[test]
fn longest_path_is_accepted_and_read_back() {
    assert_eq!(MAX_PATH_LEN, 65535);
    let mut archive = Vec::new();
    let object = FsObject::File { path: vec![b'p'; 65535], modified_at: 0, body: vec![1] };
    assert_eq!(append_to_archive(&mut archive, &object), Ok(()));
    assert_eq!(archive.len(), 80 + 65535 + 1);
    let entries = read(&mut ByteStream::new(archive));
    assert_eq!(entries.len(), 1);
    assert_eq!(entries[0].header.path_len, 65535);
    assert_eq!(entries[0].path, vec![b'p'; 65535]);
}

#[test]
fn find_lists_a_subtree_root_first_and_depth_first() {
    let root = subtree();
    let mut files = Vec::new();
    find(&root, &mut files);
    let paths: Vec<&[u8]> = files
        .iter()
        .map(|o| match o {
            FsObject::File { path, .. } => path.as_slice(),
            FsObject::Directory { path, .. } => path.as_slice(),
        })
        .collect();
    let expected: Vec<&[u8]> = vec![
        b"src",
        b"src/a.rs",
        b"src/bin",
        b"src/bin/main.rs",
        b"src/bin/deep",
        b"src/bin/deep/x",
        b"src/lib.rs",
        b"src/empty",
    ];
    assert_eq!(paths, expected);
}

#[test]
fn find_appends_to_what_the_list_holds() {
    let first = file("one", 1, b"");
    let second = dir("two", 2, vec![file("two/three", 3, b"")]);
    let mut files = Vec::new();
    find(&first, &mut files);
    find(&second, &mut files);
    assert_eq!(files.len(), 3);
    assert!(std::ptr::eq(files[0], &first));
    assert!(std::ptr::eq(files[1], &second));
    assert!(!files[2].is_dir());
}

#[test]
fn find_survives_a_deep_subtree() {
    let mut root = file("leaf", 0, b"");
    for _ in 0..2000 {
        root = dir("d", 0, vec![root]);
    }
    let mut files = Vec::new();
    find(&root, &mut files);
    assert_eq!(files.len(), 2001);
    assert!(files[1999].is_dir());
    assert!(!files[2000].is_dir());
    // Taken apart by hand: dropping so deep a value would overflow the stack.
    drop(files);
    let mut rest = Some(root);
    while let Some(FsObject::Directory { mut children, .. }) = rest {
        rest = children.pop();
    }
}

#[test]
fn round_trip_reports_directories_first_then_files() {
    let entries = read(&mut ByteStream::new(archive_of(&subtree())));
    let reports: Vec<(String, String, u64)> = entries.iter().map(report).collect();
    let expected: Vec<(String, String, u64)> = [
        ("Directory", "src", 0),
        ("Directory", "src/bin", 0),
        ("Directory", "src/bin/deep", 0),
        ("Directory", "src/empty", 0),
        ("File", "src/a.rs", 5),
        ("File", "src/bin/main.rs", 12),
        ("File", "src/bin/deep/x", 0),
        ("File", "src/lib.rs", 10),
    ]
    .iter()
    .map(|(kind, path, size)| (kind.to_string(), path.to_string(), *size))
    .collect();
    assert_eq!(reports, expected);
    let times: Vec<u64> = entries.iter().map(|e| e.header.modified_at).collect();
    assert_eq!(times, vec![10, 12, 14, 17, 11, 13, 15, 16]);
}

#[test]
fn round_trip_ends_behind_the_last_byte() {
    let archive = archive_of(&subtree());
    let len = archive.len();
    assert_eq!(len, 8 * 80 + 3 + 7 + 12 + 9 + 8 + 15 + 14 + 10 + 5 + 12 + 10);
    let mut stream = ByteStream::new(archive);
    assert_eq!(read(&mut stream).len(), 8);
    assert_eq!(stream.pos, len);
    assert_eq!(stream.bytes.len(), len);
    assert_eq!(read(&mut stream).len(), 0);
    assert_eq!(stream.pos, len);
}

#[test]
fn empty_directory_gives_one_directory_entry_and_no_file_entry() {
    let archive = archive_of(&dir("empty", 5, vec![]));
    assert_eq!(archive.len(), 40 + 5 + 40);
    let entries = read(&mut ByteStream::new(archive));
    assert_eq!(entries.len(), 1);
    assert_eq!(report(&entries[0]), ("Directory".to_string(), "empty".to_string(), 0));
    assert_eq!(entries.iter().filter(|e| e.kind() == "File").count(), 0);
}

#[test]
fn archive_of_nothing_holds_no_entry() {
    let mut stream = ByteStream::new(Vec::new());
    assert_eq!(read1(&mut stream), Err(DecodeError::Exhausted));
    assert_eq!(read(&mut stream), vec![]);
    assert_eq!(stream.pos, 0);
}

#[test]
fn recursive_archive_appends_to_what_the_archive_holds() {
    let mut archive = archive_of(&file("first", 1, b"1"));
    let before = archive.clone();
    assert_eq!(recursive_archive(&mut archive, &dir("second", 2, vec![])), Ok(()));
    assert_eq!(&archive[..before.len()], &before[..]);
    let entries = read(&mut ByteStream::new(archive));
    assert_eq!(entries.len(), 2);
    assert_eq!(entries[0].path_text(), "first");
    assert_eq!(entries[1].path_text(), "second");
}

#[test]
fn recursive_archive_stops_at_the_first_object_that_does_not_fit() {
    let long = String::from_utf8(vec![b'x'; 65536]).unwrap();
    // In the order of writing: d, d/sub, then d/a, the long one, d/sub/b.
    let root = dir(
        "d",
        0,
        vec![file("d/a", 0, b"a"), file(&long, 0, b""), dir("d/sub", 0, vec![file("d/sub/b", 0, b"b")])],
    );
    let mut archive = Vec::new();
    assert_eq!(recursive_archive(&mut archive, &root), Err(EncodeError::PathTooLong));
    let entries = read(&mut ByteStream::new(archive));
    let paths: Vec<String> = entries.iter().map(|e| e.path_text()).collect();
    assert_eq!(paths, vec!["d", "d/sub", "d/a"]);

    // A directory that does not fit ends the work before any file is written.
    let root = dir("d", 0, vec![file("d/a", 0, b"a"), dir(&long, 0, vec![]), dir("d/z", 0, vec![])]);
    let mut archive = Vec::new();
    assert_eq!(recursive_archive(&mut archive, &root), Err(EncodeError::PathTooLong));
    let entries = read(&mut ByteStream::new(archive));
    let paths: Vec<String> = entries.iter().map(|e| e.path_text()).collect();
    assert_eq!(paths, vec!["d"]);
}

#[test]
fn cut_archive_is_read_up_to_the_cut_entry() {
    let mut archive = archive_of(&dir("dir", 1, vec![]));
    let whole = archive.len();
    assert_eq!(whole, 83);
    assert_eq!(append_to_archive(&mut archive, &file("path", 2, b"content")), Ok(()));
    assert_eq!(archive.len(), whole + 40 + 4 + 7 + 40);
    // (cut inside the second entry, error of the attempt at the second entry)
    let cuts = [
        (0, DecodeError::Exhausted),
        (39, DecodeError::Exhausted),
        (40, DecodeError::Crop),
        (42, DecodeError::Crop),
        (44, DecodeError::Crop),
        (48, DecodeError::Crop),
        (51, DecodeError::Exhausted),
        (70, DecodeError::Exhausted),
        (90, DecodeError::Exhausted),
    ];
    for (cut, error) in cuts {
        let mut stream = ByteStream::new(archive[..whole + cut].to_vec());
        let entries = read(&mut stream);
        assert_eq!(entries.len(), 1, "cut at {}", cut);
        assert_eq!(entries[0].path_text(), "dir");
        assert_eq!(stream.pos, whole);
        assert_eq!(read1(&mut stream), Err(error), "cut at {}", cut);
        assert_eq!(stream.pos, whole);
    }
    let entries = read(&mut ByteStream::new(archive));
    assert_eq!(entries.len(), 2);
}

#[test]
fn header_without_magic_is_a_header_error() {
    let mut archive = archive_of(&file("f", 0, b"body"));
    archive[24] ^= 1;
    let mut stream = ByteStream::new(archive);
    assert_eq!(read1(&mut stream), Err(DecodeError::Header));
    assert_eq!(stream.pos, 0);
    assert_eq!(read(&mut stream), vec![]);
}

#[test]
fn footer_without_magic_is_a_footer_error() {
    let mut archive = archive_of(&file("f", 0, b"body"));
    let footer = 40 + 1 + 4;
    archive[footer + 27] ^= 0x80;
    let mut stream = ByteStream::new(archive);
    assert_eq!(read1(&mut stream), Err(DecodeError::Footer));
    assert_eq!(stream.pos, 0);
    assert_eq!(read(&mut stream), vec![]);
}

#[test]
fn checksums_are_not_tested_when_reading() {
    let mut archive = archive_of(&file("f", 0, b"body"));
    archive[32] ^= 0xff;
    archive[40 + 1 + 4 + 33] ^= 0xff;
    archive[39] = 0xff;
    let entries = read(&mut ByteStream::new(archive));
    assert_eq!(entries.len(), 1);
    assert_ne!(entries[0].header.checksum, entries[0].header.compute_checksum());
    assert_ne!(DecodeError::Checksum, DecodeError::Crop);
}

#[test]
fn body_is_passed_over_even_where_it_looks_like_an_entry() {
    let inner = archive_of(&file("inner", 0, b"x"));
    let archive = archive_of(&file("outer", 0, &inner));
    let entries = read(&mut ByteStream::new(archive));
    assert_eq!(entries.len(), 1);
    assert_eq!(report(&entries[0]), ("File".to_string(), "outer".to_string(), inner.len() as u64));
}

#[test]
fn read_meta_tells_header_from_footer() {
    let mut bad = vec![0u8; 40];
    bad.extend(sealed(Metadata { magic: MAGIC, path_len: 9, ..Metadata::default() }));
    let mut stream = ByteStream::new(bad);
    assert_eq!(read_meta(Slot::Header, &mut stream), Err(DecodeError::Header));
    assert_eq!(read_meta(Slot::Footer, &mut stream), Err(DecodeError::Footer));
    assert_eq!(stream.pos, 0);
    stream.pos = 40;
    let meta = read_meta(Slot::Footer, &mut stream).unwrap();
    assert_eq!(meta.path_len, 9);
    assert_eq!(stream.pos, 80);
    assert_eq!(read_meta(Slot::Header, &mut stream), Err(DecodeError::Exhausted));
    stream.pos = 41;
    assert_eq!(read_meta(Slot::Footer, &mut stream), Err(DecodeError::Exhausted));
    assert_eq!(stream.pos, 41);
    stream.pos = 1000;
    assert_eq!(read_meta(Slot::Header, &mut stream), Err(DecodeError::Exhausted));
    assert_eq!(stream.pos, 1000);
}

#[test]
fn read1_reads_the_entry_at_which_the_stream_stands() {
    let mut archive = vec![9u8; 3];
    archive.extend(archive_of(&dir("a", 1, vec![file("b", 2, b"cc")])));
    let mut stream = ByteStream { bytes: archive, pos: 3 };
    let first = read1(&mut stream).unwrap();
    assert_eq!(first.path, b"a".to_vec());
    assert_eq!(first.header.flags, flags::DIR | flags::HEADER);
    assert_eq!(stream.pos, 3 + 81);
    let second = read1(&mut stream).unwrap();
    assert_eq!(second.path, b"b".to_vec());
    assert_eq!(second.size(), 2);
    assert_eq!(second.header.modified_at, 2);
    assert_eq!(stream.pos, 3 + 81 + 83);
    assert_eq!(read1(&mut stream), Err(DecodeError::Exhausted));
}

#[test]
fn link_kinds_are_reported_though_never_written() {
    let mut archive = Vec::new();
    let base = Metadata { magic: MAGIC, path_len: 2, ..Metadata::default() };
    archive.extend(sealed(Metadata { flags: flags::SOFT_LINK | flags::HEADER, ..base }));
    archive.extend(b"sl");
    archive.extend(sealed(Metadata { flags: flags::SOFT_LINK, ..base }));
    archive.extend(sealed(Metadata { flags: flags::HARD_LINK | flags::HEADER, ..base }));
    archive.extend(b"hl");
    archive.extend(sealed(Metadata { flags: flags::HARD_LINK, ..base }));
    let entries = read(&mut ByteStream::new(archive));
    assert_eq!(entries.len(), 2);
    assert_eq!(entries[0].kind(), "Soft Link");
    assert_eq!(entries[1].kind(), "Hard Link");
}

#[test]
fn path_text_replaces_what_is_no_text() {
    let entry = Entry { header: Metadata::default(), path: vec![b'a', 0xff, b'b', 0xc3] };
    assert_eq!(entry.path_text(), "a\u{fffd}b\u{fffd}");
    let entry = Entry { header: Metadata::default(), path: "grüße/日本".as_bytes().to_vec() };
    assert_eq!(entry.path_text(), "grüße/日本");
    let entry = Entry { header: Metadata::default(), path: vec![] };
    assert_eq!(entry.path_text(), "");
}

#[test]
fn raw_path_is_kept_as_it_is() {
    let object = FsObject::File { path: vec![0, 0xff, b'/', 0x80], modified_at: 0, body: vec![] };
    let mut archive = Vec::new();
    assert_eq!(append_to_archive(&mut archive, &object), Ok(()));
    assert_eq!(&archive[40..44], &[0, 0xff, b'/', 0x80]);
    let entries = read(&mut ByteStream::new(archive));
    assert_eq!(entries[0].path, vec![0, 0xff, b'/', 0x80]);
    assert_eq!(entries[0].path_text(), "\u{0}\u{fffd}/\u{fffd}");
}

#[test]
fn stream_reads_and_skips_within_its_bytes_only() {
    let mut stream = ByteStream::new(vec![1, 2, 3, 4, 5]);
    assert_eq!(stream.read_exact(2), Some(vec![1, 2]));
    assert_eq!(stream.pos, 2);
    assert_eq!(stream.read_exact(4), None);
    assert_eq!(stream.pos, 2);
    assert!(stream.skip(1));
    assert_eq!(stream.pos, 3);
    assert!(!stream.skip(3));
    assert!(!stream.skip(u64::MAX));
    assert_eq!(stream.pos, 3);
    assert_eq!(stream.read_exact(0), Some(vec![]));
    assert_eq!(stream.read_exact(2), Some(vec![4, 5]));
    assert!(stream.skip(0));
    assert_eq!(stream.read_exact(1), None);
    assert_eq!(stream.pos, 5);
    stream.pos = 9;
    assert_eq!(stream.read_exact(0), None);
    assert!(!stream.skip(0));
    assert_eq!(stream.pos, 9);
}

#[test]
fn is_dir_tells_directories_from_files() {
    assert!(dir("d", 0, vec![]).is_dir());
    assert!(!file("f", 0, b"").is_dir());
}
