use toonstore::format::{decode_index, encode_index};
use toonstore::{create_header, parse_header, parse_line, toon_magic};

#[test]
fn test_parse_header() {
    let header = create_header(1, 42);
    let parsed = parse_header(&header).unwrap();
    assert_eq!(parsed.version, 1);
    assert_eq!(parsed.row_count, 42);
}

#[test]
fn test_parse_header_invalid_magic() {
    let mut header = create_header(1, 0);
    header[0] = b'X';
    let result = parse_header(&header);
    assert!(result.is_err());
}

#[test]
fn test_parse_header_too_short() {
    let header = b"TOON001\n";
    let result = parse_header(header);
    assert!(result.is_err());
}

#[test]
fn test_parse_line() {
    let input = b"users[2]{id,name}:\nmore data";
    let (remaining, line) = parse_line(input).unwrap();
    assert_eq!(line, b"users[2]{id,name}:");
    assert_eq!(remaining, b"more data");
}

#[test]
fn test_create_header_format() {
    let header = create_header(1, 100);
    assert_eq!(&header[0..8], toon_magic().as_slice());
    assert_eq!(u32::from_le_bytes([header[8], header[9], header[10], header[11]]), 1);
    assert_eq!(u32::from_le_bytes([header[12], header[13], header[14], header[15]]), 100);
}

#[test]
fn parse_line_without_newline() {
    assert!(parse_line(b"no newline").is_none());
}

#[test]
fn index_round_trip() {
    let ix = vec![Some(16u64), None, Some(40u64)];
    let bytes = encode_index(&ix);
    assert_eq!(bytes.len(), 12 + 24);
    assert_eq!(decode_index(&bytes).unwrap(), ix);
}
