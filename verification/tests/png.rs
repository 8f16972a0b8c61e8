use imgmeta::png::{parse_itxt, parse_text, parse_ztxt};

/// Builds a minimal valid zlib stream (a single uncompressed "stored"
/// DEFLATE block) wrapping `text`, without needing a real compressor.
fn zlib_stored(text: &[u8]) -> Vec<u8> {
    let mut stream = vec![0x78, 0x01];
    stream.push(0x01); // bfinal=1, btype=00 (stored)
    stream.extend_from_slice(&(text.len() as u16).to_le_bytes());
    stream.extend_from_slice(&(!(text.len() as u16)).to_le_bytes());
    stream.extend_from_slice(text);
    stream.extend_from_slice(&[0, 0, 0, 0]); // adler32, unchecked
    stream
}

#[test]
fn parses_ztxt() {
    let mut data = b"Comment\0\0".to_vec();
    data.extend_from_slice(&zlib_stored(b"hello world"));

    let (keyword, value) = parse_ztxt(&data).unwrap();
    assert_eq!(keyword, "Comment");
    assert_eq!(value, "hello world");
}

#[test]
fn rejects_ztxt_unknown_method() {
    let mut data = b"Comment\0\x01".to_vec();
    data.extend_from_slice(&zlib_stored(b"hello"));
    assert!(parse_ztxt(&data).is_none());
}

#[test]
fn parses_itxt_uncompressed() {
    let mut data = b"Title\0".to_vec();
    data.push(0); // compression flag: not compressed
    data.push(0); // compression method
    data.extend_from_slice(b"en\0"); // language tag
    data.extend_from_slice("Titre\0".as_bytes()); // translated keyword
    data.extend_from_slice("caf\u{e9}".as_bytes());

    let (keyword, value) = parse_itxt(&data).unwrap();
    assert_eq!(keyword, "Title");
    assert_eq!(value, "caf\u{e9}");
}

#[test]
fn parses_itxt_compressed() {
    let mut data = b"Title\0".to_vec();
    data.push(1); // compression flag: compressed
    data.push(0); // compression method: zlib
    data.extend_from_slice(b"\0"); // empty language tag
    data.extend_from_slice(b"\0"); // empty translated keyword
    data.extend_from_slice(&zlib_stored(b"compressed text"));

    let (keyword, value) = parse_itxt(&data).unwrap();
    assert_eq!(keyword, "Title");
    assert_eq!(value, "compressed text");
}

#[test]
fn rejects_itxt_unknown_flag() {
    let mut data = b"Title\0".to_vec();
    data.push(2);
    data.push(0);
    data.extend_from_slice(b"\0\0text");
    assert!(parse_itxt(&data).is_none());
}

#[test]
fn rejects_itxt_compressed_with_unknown_method() {
    let mut data = b"Title\0".to_vec();
    data.push(1);
    data.push(1);
    data.extend_from_slice(b"\0\0");
    data.extend_from_slice(&zlib_stored(b"x"));
    assert!(parse_itxt(&data).is_none());
}

#[test]
fn rejects_itxt_missing_separators() {
    assert!(parse_itxt(b"Title\0\0\0en").is_none());
    assert!(parse_itxt(b"Title\0\0").is_none());
    assert!(parse_itxt(b"no separator").is_none());
}

#[test]
fn rejects_ztxt_without_method_byte() {
    assert!(parse_ztxt(b"Comment\0").is_none());
    assert!(parse_ztxt(b"Comment").is_none());
}

#[test]
fn ztxt_with_corrupt_stream_is_rejected() {
    let mut data = b"Comment\0\0".to_vec();
    data.extend_from_slice(&[0x78, 0x01, 0x01, 0x05, 0x00]);
    assert!(parse_ztxt(&data).is_none());
}

#[test]
fn parses_plain_text_chunk() {
    let (keyword, value) = parse_text(b"Software\0some editor").unwrap();
    assert_eq!(keyword, "Software");
    assert_eq!(value, "some editor");
    let (keyword, value) = parse_text(b"Empty\0").unwrap();
    assert_eq!(keyword, "Empty");
    assert_eq!(value, "");
    assert!(parse_text(b"no separator").is_none());
}

#[test]
fn invalid_utf8_is_replaced() {
    let (keyword, value) = parse_text(b"Key\0caf\xe9").unwrap();
    assert_eq!(keyword, "Key");
    assert_eq!(value, "caf\u{fffd}");
}
