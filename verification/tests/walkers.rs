use imgmeta::exif::{ExifTag, ExifValue};
use imgmeta::jpeg::{is_sof, JpegReader};
use imgmeta::png::PngReader;
use imgmeta::{detect_format, Format, ImageMetadata, ParseError, Step};

/// Runs a JPEG walker over `data` (the bytes after SOI) the way a reader
/// loop does; `Err` carries the walker's failure or an early end.
fn walk_jpeg(data: &[u8]) -> Result<ImageMetadata, Option<ParseError>> {
    let mut r = JpegReader::new();
    let mut pos = 0usize;
    let mut step = r.step();
    loop {
        match step {
            Step::Read(n) => {
                if data.len() - pos < n {
                    return Err(None);
                }
                let chunk = &data[pos..pos + n];
                pos += n;
                step = r.feed(chunk);
            }
            Step::Skip(n) => {
                let n = n as usize;
                if data.len() - pos < n {
                    return Err(None);
                }
                pos += n;
                step = r.feed(&[]);
            }
            Step::Done => return Ok(r.into_metadata()),
            Step::Fail(e) => return Err(Some(e)),
        }
    }
}

fn walk_png(data: &[u8]) -> Result<ImageMetadata, Option<ParseError>> {
    let mut r = PngReader::new();
    let mut pos = 0usize;
    let mut step = r.step();
    loop {
        match step {
            Step::Read(n) => {
                if data.len() - pos < n {
                    step = r.end_of_input();
                    if step == Step::Done {
                        return Ok(r.into_metadata());
                    }
                    return Err(None);
                }
                let chunk = &data[pos..pos + n];
                pos += n;
                step = r.feed(chunk);
            }
            Step::Skip(n) => {
                let n = n as usize;
                if data.len() - pos < n {
                    return Err(None);
                }
                pos += n;
                step = r.feed(&[]);
            }
            Step::Done => return Ok(r.into_metadata()),
            Step::Fail(e) => return Err(Some(e)),
        }
    }
}

fn segment(marker: u8, payload: &[u8]) -> Vec<u8> {
    let mut v = vec![0xFF, marker];
    v.extend_from_slice(&((payload.len() + 2) as u16).to_be_bytes());
    v.extend_from_slice(payload);
    v
}

fn exif_payload() -> Vec<u8> {
    let mut p = b"Exif\0\0".to_vec();
    p.extend_from_slice(b"MM");
    p.extend_from_slice(&42u16.to_be_bytes());
    p.extend_from_slice(&8u32.to_be_bytes());
    p.extend_from_slice(&1u16.to_be_bytes());
    p.extend_from_slice(&0x0112u16.to_be_bytes());
    p.extend_from_slice(&3u16.to_be_bytes());
    p.extend_from_slice(&1u32.to_be_bytes());
    p.extend_from_slice(&[0, 6, 0, 0]);
    p.extend_from_slice(&0u32.to_be_bytes());
    p
}

#[test]
fn jpeg_reads_dimensions_and_exif_then_stops_at_scan() {
    let mut data = Vec::new();
    data.extend_from_slice(&segment(0xE0, b"JFIF\0\x01\x01"));
    data.extend_from_slice(&segment(0xE1, &exif_payload()));
    data.extend_from_slice(&[0xFF, 0xFF]); // fill bytes before a marker
    data.extend_from_slice(&segment(0xC0, &[8, 0x0B, 0xD0, 0x0F, 0xC0, 3, 1, 0x22, 0]));
    data.extend_from_slice(&[0xFF, 0xDA]);
    data.extend_from_slice(&[0x12, 0x34]); // scan data, never looked at
    let meta = walk_jpeg(&data).unwrap();
    assert_eq!(meta.format, Format::Jpeg);
    assert_eq!(meta.width, 4032);
    assert_eq!(meta.height, 3024);
    assert_eq!(
        meta.exif,
        vec![ExifTag { id: 0x0112, value: ExifValue::Short(vec![6]) }]
    );
    assert!(meta.text.is_empty());
}

#[test]
fn jpeg_ignores_non_exif_app1_and_standalone_markers() {
    let mut data = Vec::new();
    data.extend_from_slice(&[0xFF, 0xD0, 0xFF, 0x01]);
    data.extend_from_slice(&segment(0xE1, b"http://ns.adobe.com/xap/1.0/\0<x/>"));
    data.extend_from_slice(&segment(0xC2, &[8, 0, 2, 0, 3]));
    data.extend_from_slice(&[0xFF, 0xD9]);
    let meta = walk_jpeg(&data).unwrap();
    assert_eq!((meta.width, meta.height), (3, 2));
    assert!(meta.exif.is_empty());
}

#[test]
fn jpeg_dht_is_not_a_frame() {
    assert!(!is_sof(0xC4));
    assert!(!is_sof(0xC8));
    assert!(!is_sof(0xCC));
    assert!(is_sof(0xC0));
    assert!(is_sof(0xCF));
    assert!(!is_sof(0xD0));
    let mut data = segment(0xC4, &[0, 1, 2, 3, 4, 5]);
    data.extend_from_slice(&[0xFF, 0xDA]);
    let meta = walk_jpeg(&data).unwrap();
    assert_eq!((meta.width, meta.height), (0, 0));
}

#[test]
fn jpeg_errors() {
    assert_eq!(walk_jpeg(&[0x00]).unwrap_err(), Some(ParseError::ExpectedMarker));
    assert_eq!(walk_jpeg(&[0xFF, 0xE0, 0x00, 0x01]).unwrap_err(), Some(ParseError::BadSegmentLength));
    assert_eq!(
        walk_jpeg(&[0xFF, 0xC0, 0x00, 0x06, 8, 0, 1, 0]).unwrap_err(),
        Some(ParseError::TruncatedSof)
    );
    assert_eq!(walk_jpeg(&[0xFF, 0xE0, 0x00, 0x10, 1]).unwrap_err(), None);
}

fn chunk(kind: &[u8; 4], data: &[u8]) -> Vec<u8> {
    let mut v = (data.len() as u32).to_be_bytes().to_vec();
    v.extend_from_slice(kind);
    v.extend_from_slice(data);
    v.extend_from_slice(&[0, 0, 0, 0]);
    v
}

fn ihdr(w: u32, h: u32) -> Vec<u8> {
    let mut d = w.to_be_bytes().to_vec();
    d.extend_from_slice(&h.to_be_bytes());
    d.extend_from_slice(&[8, 6, 0, 0, 0]);
    chunk(b"IHDR", &d)
}

#[test]
fn png_reads_header_and_text_chunks() {
    let mut data = ihdr(1920, 1080);
    data.extend_from_slice(&chunk(b"tEXt", b"Software\0some editor"));
    data.extend_from_slice(&chunk(b"IDAT", &[1, 2, 3, 4, 5]));
    data.extend_from_slice(&chunk(b"zTXt", b"Broken\0\0\x78\x01\x01")); // skipped
    data.extend_from_slice(&chunk(b"iTXt", b"Title\0\0\0en\0\0Hello"));
    data.extend_from_slice(&chunk(b"IEND", &[]));
    data.extend_from_slice(b"trailing bytes after IEND are never read");
    let meta = walk_png(&data).unwrap();
    assert_eq!(meta.format, Format::Png);
    assert_eq!((meta.width, meta.height), (1920, 1080));
    assert!(meta.exif.is_empty());
    assert_eq!(
        meta.text,
        vec![
            ("Software".to_string(), "some editor".to_string()),
            ("Title".to_string(), "Hello".to_string()),
        ]
    );
}

#[test]
fn png_end_between_chunks_is_fine_but_not_inside_one() {
    let data = ihdr(2, 3);
    let meta = walk_png(&data).unwrap();
    assert_eq!((meta.width, meta.height), (2, 3));
    assert_eq!(walk_png(&data[..data.len() - 2]).unwrap_err(), None);
}

#[test]
fn png_rejects_bad_ihdr_length() {
    let data = chunk(b"IHDR", &[0; 12]);
    assert_eq!(walk_png(&data).unwrap_err(), Some(ParseError::InvalidIhdrLength));
}

#[test]
fn png_skips_oversized_text_chunk() {
    let mut r = PngReader::new();
    assert_eq!(r.step(), Step::Read(4));
    assert_eq!(r.feed(&1_000_001u32.to_be_bytes()), Step::Read(4));
    assert_eq!(r.feed(b"tEXt"), Step::Skip(1_000_001));
    assert_eq!(r.feed(&[]), Step::Read(4));
    let mut r = PngReader::new();
    r.feed(&1_000_000u32.to_be_bytes());
    assert_eq!(r.feed(b"tEXt"), Step::Read(1_000_000));
}

#[test]
fn detects_formats_from_magic() {
    assert_eq!(detect_format([0xFF, 0xD8, 0xFF, 0xE0, 0, 0, 0, 0]), Some(Format::Jpeg));
    assert_eq!(
        detect_format([0x89, 0x50, 0x4E, 0x47, 0x0D, 0x0A, 0x1A, 0x0A]),
        Some(Format::Png)
    );
    assert_eq!(detect_format(*b"GIF89a\0\0"), None);
    assert_eq!(detect_format([0x89, 0x50, 0x4E, 0x47, 0x0D, 0x0A, 0x1A, 0x0B]), None);
}
