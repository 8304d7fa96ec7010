use file_rat::archive::{RatError, RatFile};
use file_rat::compression::CompressionType;
use file_rat::format::{
    cut_range, find_flag_index, initial_content, insert_item_bytes, list_entries,
    parse_general_header, rewrite_entries, FormatError, BUFFER_SIZE_HEADERS,
};
use file_rat::item::FileItem;
use std::path::PathBuf;

fn rat() -> RatFile<u32> {
    RatFile::new(PathBuf::from("test.rat"), true, false, CompressionType::Fast).unwrap().0
}

#[test]
fn initial_content_is_general_header_and_item_flag() {
    assert_eq!(initial_content(CompressionType::Fast), b"|1;1;0/".to_vec());
    assert_eq!(initial_content(CompressionType::Best), b"|1;2;0/".to_vec());
    assert_eq!(initial_content(CompressionType::Default), b"|1;3;0/".to_vec());
}

#[test]
fn new_archive_creation_rules() {
    let (r, content) =
        RatFile::<u32>::new(PathBuf::from("a.rat"), false, true, CompressionType::Best).unwrap();
    assert_eq!(content, Some(b"|1;2;0/".to_vec()));
    assert_eq!(r.files.len(), 0);
    assert_eq!(r.file_size, 0);
    assert_eq!(r.compression_type, CompressionType::Best);
    let (_, content) =
        RatFile::<u32>::new(PathBuf::from("a.rat"), true, false, CompressionType::Best).unwrap();
    assert_eq!(content, None);
    let err = RatFile::<u32>::new(PathBuf::from("a.rat"), false, false, CompressionType::Best);
    assert!(matches!(err, Err(RatError::NotFound)));
}

#[test]
fn open_reads_compression_from_general_header() {
    for c in [CompressionType::Fast, CompressionType::Best, CompressionType::Default] {
        let bytes = initial_content(c);
        let r = RatFile::<u32>::open(PathBuf::from("x.rat"), &bytes).unwrap();
        assert_eq!(r.compression_type, c);
        assert_eq!(r.file_size, 7);
    }
    let h = parse_general_header(b"data|1;2;0/").unwrap();
    assert_eq!(h.version, b'1');
    assert_eq!(h.lock, b'0');
    assert_eq!(h.compression_type, CompressionType::Best);
    assert!(matches!(
        RatFile::<u32>::open(PathBuf::from("x.rat"), b"|1;7;0/"),
        Err(RatError::InvalidGeneralHeader)
    ));
    assert!(matches!(
        RatFile::<u32>::open(PathBuf::from("x.rat"), b"|1;1;0"),
        Err(RatError::HeaderNotFound)
    ));
    assert_eq!(parse_general_header(b"|1;1;0;/"), Err(FormatError::InvalidGeneralHeader));
}

#[test]
fn flag_index_is_last_occurrence() {
    assert_eq!(find_flag_index(b"a|b|c", b'|'), Ok(3));
    assert_eq!(find_flag_index(b"abc", b'|'), Err(FormatError::HeaderNotFound));
    assert_eq!(find_flag_index(b"", b'|'), Err(FormatError::HeaderNotFound));
    // across several backward reads
    let mut big = vec![b'x'; 3 * BUFFER_SIZE_HEADERS + 17];
    big[5] = b'|';
    assert_eq!(find_flag_index(&big, b'|'), Ok(5));
    big[BUFFER_SIZE_HEADERS * 2] = b'|';
    assert_eq!(find_flag_index(&big, b'|'), Ok(2 * BUFFER_SIZE_HEADERS));
    let r = rat();
    assert_eq!(r.get_flag_index(&big, b'|'), Ok(2048));
    assert_eq!(r.get_general_header_index(b"ab|1;1;0/"), Ok(2));
    assert_eq!(r.get_item_header_index(b"ab|1;1;0/"), Ok(9));
    assert_eq!(r.get_item_header_index(b"ab|1;1;0"), Err(RatError::HeaderNotFound));
}

#[test]
fn insert_then_list_and_extract() {
    let r = rat();
    let archive = initial_content(CompressionType::Fast);
    let contents = b"hello hello hello hello hello".to_vec();
    let pending = r
        .insert_to_rat_file(&archive, "hello.txt".to_string(), &contents, 7u32, CompressionType::Best)
        .unwrap();
    assert_eq!(pending.item.start, 0);
    assert_eq!(pending.item.end, pending.compressed.len() as u64);
    assert_eq!(pending.item.size, contents.len() as u64);
    assert_eq!(pending.item.name, "hello.txt");
    assert_eq!(pending.item.metadata, 7);
    // bzip2 output, not the contents themselves
    assert_eq!(&pending.compressed[..3], b"BZh");
    assert_ne!(pending.compressed, contents);
    let record = br#"{"a":1}"#.to_vec();
    let written = r.write_item(&archive, &pending.compressed, &record).unwrap();
    // the record is stored base64-encoded, then ';'
    let mut expected = pending.compressed.clone();
    expected.extend_from_slice(b"|1;1;0/eyJhIjoxfQ==;");
    assert_eq!(written, expected);
    assert_eq!(r.list_rat_file(&written).unwrap(), vec![record.clone()]);
    let items = vec![pending.item];
    let id = items[0].id;
    assert_eq!(r.extract(&written, &items, id).unwrap(), contents);
}

#[test]
fn second_item_goes_before_the_general_header() {
    let r = rat();
    let mut archive = initial_content(CompressionType::Fast);
    let mut items: Vec<FileItem<u32>> = Vec::new();
    let mut records = Vec::new();
    for (n, text) in [("a", "first file"), ("b", "second file, a little longer")] {
        let p = r
            .insert_to_rat_file(&archive, n.to_string(), text.as_bytes(), 0, CompressionType::Fast)
            .unwrap();
        let record = format!("{{\"name\":\"{}\"}}", n).into_bytes();
        archive = r.write_item(&archive, &p.compressed, &record).unwrap();
        items.push(p.item);
        records.push(record);
    }
    assert_eq!(items[1].start, items[0].end);
    assert_eq!(r.get_general_header_index(&archive), Ok(items[1].end));
    assert_eq!(r.list_rat_file(&archive).unwrap(), records);
    assert_eq!(r.extract(&archive, &items, items[0].id).unwrap(), b"first file".to_vec());
    assert_eq!(
        r.extract(&archive, &items, items[1].id).unwrap(),
        b"second file, a little longer".to_vec()
    );
}

#[test]
fn remove_cuts_data_and_moves_later_items_back() {
    let mut r = rat();
    let mut archive = initial_content(CompressionType::Fast);
    let mut items: Vec<FileItem<u32>> = Vec::new();
    for (i, text) in ["one one one", "two two two two", "three"].iter().enumerate() {
        let p = r
            .insert_to_rat_file(&archive, format!("f{}", i), text.as_bytes(), i as u32, CompressionType::Default)
            .unwrap();
        archive = r.write_item(&archive, &p.compressed, b"{}").unwrap();
        items.push(p.item);
    }
    let removed = items[1].id;
    let len1 = items[1].end - items[1].start;
    let (s0, e0, s2, e2, id0, id2) =
        (items[0].start, items[0].end, items[2].start, items[2].end, items[0].id, items[2].id);
    let rm = r.remove(&archive, items, removed).unwrap();
    assert_eq!(rm.archive.len(), archive.len() - len1 as usize);
    assert_eq!(r.files.len(), 2);
    assert_eq!((r.files[0].start, r.files[0].end), (s0, e0));
    assert_eq!((r.files[1].start, r.files[1].end), (s2 - len1, e2 - len1));
    assert_eq!(r.get_general_header_index(&rm.archive), Ok(rm.general_header_index as u64));
    let records = vec![b"{\"x\":0}".to_vec(), b"{\"x\":2}".to_vec()];
    let rewritten = r.rewrite_item_headers(&rm.archive, rm.general_header_index, &records).unwrap();
    assert_eq!(r.list_rat_file(&rewritten).unwrap(), records);
    assert_eq!(r.extract(&rewritten, &r.files, id0).unwrap(), b"one one one".to_vec());
    assert_eq!(r.extract(&rewritten, &r.files, id2).unwrap(), b"three".to_vec());
    assert_eq!(r.extract(&rewritten, &r.files, removed), Err(RatError::NotFound));
    // the general header, and the compression it records, survive every step
    for bytes in [&archive, &rm.archive, &rewritten] {
        let h = parse_general_header(bytes).unwrap();
        assert_eq!(h.compression_type, CompressionType::Fast);
        assert_eq!((h.version, h.lock), (b'1', b'0'));
    }
}

fn item(id: u128, start: u64, end: u64) -> FileItem<u32> {
    FileItem { id, name: format!("n{}", id), metadata: 0, start, end, size: 0 }
}

#[test]
fn remove_errors() {
    let mut r = rat();
    let archive = b"0123456789|1;1;0/".to_vec();
    assert!(matches!(r.remove(&archive, vec![item(1, 0, 4)], 2), Err(RatError::NotFound)));
    assert!(matches!(r.remove(&archive, vec![item(1, 5, 4)], 1), Err(RatError::InvalidBounds)));
    assert!(matches!(r.remove(&archive, vec![item(1, 0, 40)], 1), Err(RatError::InvalidBounds)));
    assert!(matches!(r.remove(b"0123", vec![item(1, 0, 2)], 1), Err(RatError::HeaderNotFound)));
    let rm = r.remove(&archive, vec![item(1, 2, 4), item(2, 4, 6)], 1).unwrap();
    assert_eq!(rm.archive, b"01456789|1;1;0/".to_vec());
    assert_eq!(rm.general_header_index, 8);
    assert_eq!((r.files[0].id, r.files[0].start, r.files[0].end), (2, 2, 4));
    // an unrelated item with reversed bounds does not stand in the way
    let rm = r.remove(&archive, vec![item(3, 1, 0), item(1, 2, 4), item(2, 4, 6)], 1).unwrap();
    assert_eq!(rm.archive, b"01456789|1;1;0/".to_vec());
    assert_eq!((r.files[0].id, r.files[0].start, r.files[0].end), (3, 1, 0));
}

#[test]
fn extract_errors() {
    let r = rat();
    let archive = b"not bzip data|1;1;0/".to_vec();
    assert_eq!(r.extract(&archive, &[item(1, 0, 4)], 9), Err(RatError::NotFound));
    assert_eq!(r.extract(&archive, &[item(1, 4, 2)], 1), Err(RatError::InvalidBounds));
    assert_eq!(r.extract(&archive, &[item(1, 0, 400)], 1), Err(RatError::UnexpectedEof));
    assert_eq!(r.extract(&archive, &[item(1, 0, 8)], 1), Err(RatError::DecompressionFailed));
    // the first item with the id is the one extracted
    assert_eq!(r.extract(&archive, &[item(1, 4, 2), item(1, 0, 400)], 1), Err(RatError::InvalidBounds));
}

#[test]
fn list_reads_entries_after_last_item_flag() {
    assert_eq!(list_entries(b"|1;1;0/"), Ok(vec![]));
    assert_eq!(list_entries(b"|1;1;0"), Err(FormatError::HeaderNotFound));
    assert_eq!(list_entries(b"xx/|1;1;0/YQ==;Yg==;"), Ok(vec![b"a".to_vec(), b"b".to_vec()]));
    // an entry with no ';' after it loses its last byte
    assert_eq!(list_entries(b"|1;1;0/YQ==;Yg==X"), Ok(vec![b"a".to_vec(), b"b".to_vec()]));
    assert_eq!(list_entries(b"|1;1;0/Y!==;"), Err(FormatError::InvalidEntry));
    let r = rat();
    assert_eq!(r.list_rat_file(b"|1;1;0/Y!==;"), Err(RatError::InvalidEntry));
}

#[test]
fn insert_bytes_needs_a_general_header() {
    assert_eq!(insert_item_bytes(b"abc/", b"zz", b"r"), Err(FormatError::HeaderNotFound));
    let r = rat();
    assert_eq!(r.write_item(b"abc/", b"zz", b"r"), Err(RatError::HeaderNotFound));
    assert!(matches!(
        r.insert_to_rat_file(b"abc/", "n".to_string(), b"x", 0, CompressionType::Fast),
        Err(RatError::HeaderNotFound)
    ));
    assert_eq!(insert_item_bytes(b"d|h/", b"ZZ", b"a"), Ok(b"dZZ|h/YQ==;".to_vec()));
}

#[test]
fn cut_and_rewrite() {
    assert_eq!(cut_range(b"abcdef", 1, 3), b"adef".to_vec());
    assert_eq!(cut_range(b"abcdef", 2, 2), b"abcdef".to_vec());
    let recs = vec![b"a".to_vec()];
    assert_eq!(rewrite_entries(b"dd|1;1;0/old;", 2, &recs), Ok(b"dd|1;1;0/YQ==;".to_vec()));
    // the general header index past the item flag drops the header bytes
    assert_eq!(rewrite_entries(b"dd|1;1;0/old;", 12, &recs), Ok(b"dd|1;1;0/oldYQ==;".to_vec()));
    // past the end: zero-extended
    assert_eq!(rewrite_entries(b"d/", 4, &recs), Ok(b"d/\0\0YQ==;".to_vec()));
    assert_eq!(rewrite_entries(b"no flag", 0, &recs), Err(FormatError::HeaderNotFound));
}

#[test]
fn entries_use_the_url_safe_alphabet_with_padding() {
    let base = initial_content(CompressionType::Fast);
    let three = insert_item_bytes(&base, b"", &[0xfb, 0xff, 0xbf, 0xfb, 0xff, 0x00]).unwrap();
    assert_eq!(three, b"|1;1;0/-_-_-_8A;".to_vec());
    let two = insert_item_bytes(&base, b"", &[0xfb, 0xff]).unwrap();
    assert_eq!(two, b"|1;1;0/-_8=;".to_vec());
    let one = insert_item_bytes(&base, b"", &[0x00]).unwrap();
    assert_eq!(one, b"|1;1;0/AA==;".to_vec());
    assert_eq!(list_entries(&three).unwrap(), vec![vec![0xfb, 0xff, 0xbf, 0xfb, 0xff, 0x00]]);
}
