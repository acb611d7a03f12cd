use std::io::Read;
use vision_rust_core::archive::{
    compress_files_to_bytes, extraction_target, is_directory_entry, read_archive, ArchiveError, ExtractionTarget,
};

fn entry(name: &str, data: &[u8]) -> (String, Vec<u8>) {
    (name.to_string(), data.to_vec())
}

fn read_back(bytes: Vec<u8>) -> Vec<(String, Vec<u8>)> {
    let mut archive = zip::ZipArchive::new(std::io::Cursor::new(bytes)).unwrap();
    let mut out = Vec::new();
    for i in 0..archive.len() {
        let mut file = archive.by_index(i).unwrap();
        let name = file.name().to_string();
        let mut data = Vec::new();
        file.read_to_end(&mut data).unwrap();
        out.push((name, data));
    }
    out
}

#[test]
fn archive_holds_the_files_it_was_given_in_order() {
    let entries = vec![
        entry("file1.txt", b"Hello, World!"),
        entry("sub/empty.bin", b""),
        entry("sub/data.json", br#"{"key": "value"}"#),
    ];
    let bytes = compress_files_to_bytes(&entries, 6).unwrap();
    assert_eq!(read_back(bytes), entries);
}

#[test]
fn archive_compresses_repetitive_data() {
    let big = vec![b'a'; 100_000];
    let entries = vec![entry("a.txt", &big)];
    let bytes = compress_files_to_bytes(&entries, 9).unwrap();
    assert!(bytes.len() < 10_000);
    assert_eq!(read_back(bytes), entries);
}

#[test]
fn the_same_files_give_the_same_archive() {
    let entries = vec![entry("x", b"one"), entry("y", b"two")];
    let a = compress_files_to_bytes(&entries, 6).unwrap();
    let b = compress_files_to_bytes(&entries, 6).unwrap();
    assert_eq!(a, b);
}

#[test]
fn an_empty_list_gives_an_empty_archive() {
    let bytes = compress_files_to_bytes(&Vec::new(), 6).unwrap();
    assert!(read_back(bytes).is_empty());
}

#[test]
fn a_name_given_twice_is_refused() {
    let entries = vec![entry("same.txt", b"1"), entry("same.txt", b"2")];
    assert!(matches!(compress_files_to_bytes(&entries, 6), Err(ArchiveError::Zip(_))));
}

#[test]
fn directory_entries_end_with_a_slash() {
    assert!(is_directory_entry("images/"));
    assert!(is_directory_entry("/"));
    assert!(!is_directory_entry("images/a.png"));
    assert!(!is_directory_entry(""));
    assert!(!is_directory_entry("a/b"));
}

fn names_and_data(bytes: Vec<u8>) -> Vec<(String, Vec<u8>)> {
    let (files, failure) = read_archive(bytes).unwrap();
    assert!(failure.is_none());
    files.into_iter().map(|f| (f.name, f.data)).collect()
}

#[test]
fn test_compress_and_extract() {
    let entries = vec![entry("file1.txt", b"Hello, World!")];
    let bytes = compress_files_to_bytes(&entries, 6).unwrap();
    let (files, failure) = read_archive(bytes).unwrap();
    assert!(failure.is_none());
    assert_eq!(files.len(), 1);
    assert_eq!(files[0].name, "file1.txt");
    assert_eq!(files[0].enclosed_name.as_deref(), Some("file1.txt"));
    assert_eq!(String::from_utf8(files[0].data.clone()).unwrap(), "Hello, World!");
}

#[test]
fn reading_gives_back_what_was_written() {
    let entries = vec![
        entry("a.txt", b"alpha"),
        entry("dir/", b""),
        entry("dir/b.bin", &[0u8, 1, 2, 255]),
        entry("c.json", br#"{"k": [1, 2, 3]}"#),
    ];
    let bytes = compress_files_to_bytes(&entries, 9).unwrap();
    assert_eq!(names_and_data(bytes), entries);
}

#[test]
fn names_that_leave_the_destination_are_not_enclosed() {
    let entries = vec![entry("../escape.txt", b"x"), entry("ok/inner.txt", b"y")];
    let (files, _) = read_archive(compress_files_to_bytes(&entries, 6).unwrap()).unwrap();
    assert_eq!(files[0].enclosed_name, None);
    assert_eq!(files[1].enclosed_name.as_deref(), Some("ok/inner.txt"));
}

#[test]
fn bytes_that_are_no_archive_are_refused() {
    assert!(matches!(read_archive(b"not a zip file".to_vec()), Err(ArchiveError::Zip(_))));
    assert!(read_archive(Vec::new()).is_err());
}

#[test]
fn every_accepted_level_builds_the_archive() {
    let entries = vec![entry("a.txt", b"some text, some text, some text")];
    for level in [1u32, 6, 9, 10, 264] {
        let bytes = compress_files_to_bytes(&entries, level).unwrap();
        assert_eq!(names_and_data(bytes), entries);
    }
}

#[test]
fn a_level_outside_the_writers_range_is_refused() {
    let entries = vec![entry("a.txt", b"x")];
    assert!(matches!(compress_files_to_bytes(&entries, 0), Err(ArchiveError::Zip(_))));
    assert!(matches!(compress_files_to_bytes(&entries, 265), Err(ArchiveError::Zip(_))));
}

#[test]
fn extraction_targets_follow_the_safe_name() {
    let entries = vec![
        entry("dir/", b""),
        entry("dir/a.txt", b"a"),
        entry("../escape.txt", b"x"),
        entry("/abs.txt", b"y"),
        entry("x/../../up.txt", b"z"),
        entry("x/../fine.txt", b"w"),
    ];
    let (files, failure) = read_archive(compress_files_to_bytes(&entries, 6).unwrap()).unwrap();
    assert!(failure.is_none());
    let targets: Vec<ExtractionTarget> = files.iter().map(extraction_target).collect();
    assert!(matches!(&targets[0], ExtractionTarget::Directory(p) if p == "dir/"));
    assert!(matches!(&targets[1], ExtractionTarget::File(p) if p == "dir/a.txt"));
    assert!(matches!(&targets[2], ExtractionTarget::Skip));
    assert!(matches!(&targets[3], ExtractionTarget::Skip));
    assert!(matches!(&targets[4], ExtractionTarget::Skip));
    assert!(matches!(&targets[5], ExtractionTarget::File(p) if p == "x/../fine.txt"));
}

#[test]
fn a_damaged_file_stops_reading_after_the_files_before_it() {
    let entries = vec![entry("first.txt", b"first file data"), entry("second.txt", b"second file data, long enough")];
    let mut bytes = compress_files_to_bytes(&entries, 6).unwrap();
    let headers: Vec<usize> = (0..bytes.len() - 3).filter(|&p| bytes[p..p + 4] == [0x50, 0x4b, 0x03, 0x04]).collect();
    assert_eq!(headers.len(), 2);
    let data_start = headers[1] + 30 + "second.txt".len();
    for b in &mut bytes[data_start..data_start + 4] {
        *b ^= 0xff;
    }
    let (files, failure) = read_archive(bytes).unwrap();
    assert_eq!(files.len(), 1);
    assert_eq!(files[0].name, "first.txt");
    assert_eq!(files[0].data, b"first file data".to_vec());
    assert!(failure.is_some());
}
