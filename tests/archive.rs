use robojules::asar::{extract_files, header_json, parse_offset, read_header, AsarEntry, DecodeError};

fn le(v: u32) -> Vec<u8> {
    v.to_le_bytes().to_vec()
}

/// Lays out an archive: the four fixed fields, the JSON text, padding up to the payload
/// base, then the payload.
fn build_archive(json: &str, header_string_size: u32, payload: &[u8]) -> Vec<u8> {
    let mut data = Vec::new();
    data.extend(le(4));
    data.extend(le(header_string_size + 4));
    data.extend(le(header_string_size));
    data.extend(le(json.len() as u32));
    data.extend(json.as_bytes());
    let base = 8 + header_string_size as usize + 4;
    while data.len() < base {
        data.push(0);
    }
    data.extend(payload);
    data
}

fn file(offset: &str, size: usize) -> AsarEntry {
    AsarEntry::File { offset: offset.to_string(), size }
}

fn dir(files: Vec<(&str, AsarEntry)>) -> AsarEntry {
    AsarEntry::Directory { files: files.into_iter().map(|(n, e)| (n.to_string(), e)).collect() }
}

fn sample_tree() -> AsarEntry {
    dir(vec![
        ("index.js", file("0", 12)),
        ("package.json", file("12", 2)),
        (
            "lib",
            dir(vec![("util.js", file("14", 5)), ("deep", dir(vec![("x.bin", file("19", 3))]))]),
        ),
        ("empty.txt", file("22", 0)),
    ])
}

const PAYLOAD: &[u8] = b"console.log;{}utilsABC";

#[test]
fn decode_then_extract_reproduces_files() {
    let json = "{\"files\":{}}";
    let data = build_archive(json, 20, PAYLOAD);
    let header = read_header(&data).unwrap();
    assert_eq!(header_json(&data, &header), json.as_bytes());
    let tree = extract_files(&data, &header, &sample_tree()).unwrap();
    assert_eq!(tree.len(), 5);
    assert_eq!(tree.get("index.js").unwrap().as_slice(), b"console.log;");
    assert_eq!(tree.get("package.json").unwrap().as_slice(), b"{}");
    assert_eq!(tree.get("lib/util.js").unwrap().as_slice(), b"utils");
    assert_eq!(tree.get("lib/deep/x.bin").unwrap().as_slice(), b"ABC");
    assert_eq!(tree.get("empty.txt").unwrap().len(), 0);
    assert!(tree.get("lib").is_none());
    assert!(tree.get("/index.js").is_none());
}

#[test]
fn header_sizes_fix_json_and_payload_base() {
    let json = "0123456789012345678901234567890123456789";
    assert_eq!(json.len(), 40);
    let data = build_archive(json, 100, b"PAYLOAD");
    let header = read_header(&data).unwrap();
    assert_eq!(header.header_string_size, 100);
    assert_eq!(header.actual_string_size, 40);
    assert_eq!(header.payload_size, 4);
    assert_eq!(header.header_size, 104);
    let j = header_json(&data, &header);
    assert_eq!(j.len(), 40);
    assert_eq!(j, json.as_bytes());
    assert_eq!(header.payload_base(), 112);
    let tree = extract_files(&data, &header, &dir(vec![("p", file("0", 7))])).unwrap();
    assert_eq!(tree.get("p").unwrap().as_slice(), b"PAYLOAD");
}

#[test]
fn fields_are_little_endian() {
    let mut data = vec![1, 0, 0, 0, 0, 1, 0, 0, 0x78, 0x56, 0x34, 0x12, 2, 0, 0, 0];
    data.extend(b"{}");
    let header = read_header(&data).unwrap();
    assert_eq!(header.payload_size, 1);
    assert_eq!(header.header_size, 256);
    assert_eq!(header.header_string_size, 0x12345678);
    assert_eq!(header.actual_string_size, 2);
    assert_eq!(header.payload_base(), 8 + 0x12345678 + 4);
}

#[test]
fn short_stream_is_truncated_header() {
    assert_eq!(read_header(&[1, 2, 3]).unwrap_err(), DecodeError::TruncatedHeader);
    assert_eq!(read_header(&[]).unwrap_err(), DecodeError::TruncatedHeader);
    let mut data = build_archive("{\"files\":{}}", 20, b"");
    data.truncate(20);
    assert_eq!(read_header(&data).unwrap_err(), DecodeError::TruncatedHeader);
}

#[test]
fn non_numeric_offset_is_rejected() {
    let data = build_archive("{}", 8, PAYLOAD);
    let header = read_header(&data).unwrap();
    for bad in ["abc", "", "-1", "1.5", " 1", "+"] {
        let tree = dir(vec![("ok", file("0", 1)), ("bad", file(bad, 1))]);
        assert_eq!(extract_files(&data, &header, &tree).unwrap_err(), DecodeError::InvalidOffset);
    }
}

#[test]
fn payload_past_end_is_truncated_payload() {
    let data = build_archive("{}", 8, PAYLOAD);
    let header = read_header(&data).unwrap();
    let tree = dir(vec![("a", file("20", 3))]);
    assert_eq!(extract_files(&data, &header, &tree).unwrap_err(), DecodeError::TruncatedPayload);
    let tree = dir(vec![("a", file("22", 0))]);
    assert_eq!(extract_files(&data, &header, &tree).unwrap().get("a").unwrap().len(), 0);
    let tree = dir(vec![("a", file("23", 0))]);
    assert_eq!(extract_files(&data, &header, &tree).unwrap_err(), DecodeError::TruncatedPayload);
    let tree = dir(vec![("a", file("1000", 0))]);
    assert_eq!(extract_files(&data, &header, &tree).unwrap_err(), DecodeError::TruncatedPayload);
}

#[test]
fn first_failing_file_decides_the_error() {
    let data = build_archive("{}", 8, PAYLOAD);
    let header = read_header(&data).unwrap();
    let tree = dir(vec![("a", file("500", 3)), ("b", file("x", 1))]);
    assert_eq!(extract_files(&data, &header, &tree).unwrap_err(), DecodeError::TruncatedPayload);
    let tree = dir(vec![("b", file("x", 1)), ("a", file("500", 3))]);
    assert_eq!(extract_files(&data, &header, &tree).unwrap_err(), DecodeError::InvalidOffset);
}

#[test]
fn offsets_parse_like_unsigned_decimals() {
    assert_eq!(parse_offset("0"), Some(0));
    assert_eq!(parse_offset("42"), Some(42));
    assert_eq!(parse_offset("+7"), Some(7));
    assert_eq!(parse_offset("007"), Some(7));
    assert_eq!(parse_offset("18446744073709551615"), Some(u64::MAX));
    assert_eq!(parse_offset("18446744073709551616"), None);
    assert_eq!(parse_offset(""), None);
    assert_eq!(parse_offset("+"), None);
    assert_eq!(parse_offset("++1"), None);
    assert_eq!(parse_offset("12a"), None);
    assert_eq!(parse_offset("٣"), None);
}

#[test]
fn default_entry_is_empty_directory() {
    match AsarEntry::default() {
        AsarEntry::Directory { files } => assert!(files.is_empty()),
        AsarEntry::File { .. } => panic!("expected a directory"),
    }
}

#[test]
fn payload_base_ignores_json_length() {
    let short = build_archive("{\"files\":{}}", 100, PAYLOAD);
    let long = build_archive("{\"files\":{}}                    ", 100, PAYLOAD);
    assert_eq!(short.len(), long.len());
    let h1 = read_header(&short).unwrap();
    let h2 = read_header(&long).unwrap();
    assert_ne!(h1.actual_string_size, h2.actual_string_size);
    assert_eq!(h1.payload_base(), 112);
    assert_eq!(h2.payload_base(), 112);
    let t1 = extract_files(&short, &h1, &sample_tree()).unwrap();
    let t2 = extract_files(&long, &h2, &sample_tree()).unwrap();
    for p in ["index.js", "package.json", "lib/util.js", "lib/deep/x.bin", "empty.txt"] {
        assert_eq!(t1.get(p), t2.get(p));
    }
}
