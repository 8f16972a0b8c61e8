use imgmeta::exif::{parse_ifd0, ByteOrder, ExifTag, ExifValue};

// Little-endian TIFF header with IFD0 at offset 8 holding two tags:
// Orientation (0x0112, SHORT, value 1) and Make (0x010F, ASCII, "ABC").
fn sample_le() -> Vec<u8> {
    let mut buf = Vec::new();
    buf.extend_from_slice(b"II"); // byte order
    buf.extend_from_slice(&42u16.to_le_bytes()); // magic
    buf.extend_from_slice(&8u32.to_le_bytes()); // IFD0 offset
    buf.extend_from_slice(&2u16.to_le_bytes()); // entry count

    // Orientation: tag, type=SHORT, count=1, inline value=1
    buf.extend_from_slice(&0x0112u16.to_le_bytes());
    buf.extend_from_slice(&3u16.to_le_bytes());
    buf.extend_from_slice(&1u32.to_le_bytes());
    buf.extend_from_slice(&[1, 0, 0, 0]);

    // Make: tag, type=ASCII, count=4, inline value="ABC\0"
    buf.extend_from_slice(&0x010Fu16.to_le_bytes());
    buf.extend_from_slice(&2u16.to_le_bytes());
    buf.extend_from_slice(&4u32.to_le_bytes());
    buf.extend_from_slice(b"ABC\0");

    buf.extend_from_slice(&0u32.to_le_bytes()); // next IFD offset
    buf
}

#[test]
fn parses_inline_short_and_ascii() {
    let tags = parse_ifd0(&sample_le());
    assert_eq!(
        tags,
        vec![
            ExifTag {
                id: 0x0112,
                value: ExifValue::Short(vec![1]),
            },
            ExifTag {
                id: 0x010F,
                value: ExifValue::Ascii("ABC".to_string()),
            },
        ]
    );
}

#[test]
fn parses_out_of_line_rational() {
    // A single RATIONAL (8 bytes) doesn't fit inline, so it's stored at
    // an offset and the entry's value field holds that offset instead.
    let mut buf = Vec::new();
    buf.extend_from_slice(b"MM");
    buf.extend_from_slice(&42u16.to_be_bytes());
    buf.extend_from_slice(&8u32.to_be_bytes());
    buf.extend_from_slice(&1u16.to_be_bytes()); // one entry

    buf.extend_from_slice(&0x829Du16.to_be_bytes()); // FNumber
    buf.extend_from_slice(&5u16.to_be_bytes()); // RATIONAL
    buf.extend_from_slice(&1u32.to_be_bytes()); // count
    let value_offset = buf.len() as u32 + 4 /* next-IFD offset field */ + 4;
    buf.extend_from_slice(&value_offset.to_be_bytes());
    buf.extend_from_slice(&0u32.to_be_bytes()); // next IFD offset

    buf.extend_from_slice(&28u32.to_be_bytes());
    buf.extend_from_slice(&10u32.to_be_bytes());

    let tags = parse_ifd0(&buf);
    assert_eq!(
        tags,
        vec![ExifTag {
            id: 0x829D,
            value: ExifValue::Rational(vec![(28, 10)]),
        }]
    );
}

#[test]
fn rejects_bad_header() {
    assert!(parse_ifd0(b"not exif").is_empty());
    assert!(parse_ifd0(&[]).is_empty());
}

fn entry(buf: &mut Vec<u8>, id: u16, type_code: u16, count: u32, value: [u8; 4]) {
    buf.extend_from_slice(&id.to_le_bytes());
    buf.extend_from_slice(&type_code.to_le_bytes());
    buf.extend_from_slice(&count.to_le_bytes());
    buf.extend_from_slice(&value);
}

#[test]
fn decodes_every_type_and_skips_unknown_ones() {
    let mut buf = Vec::new();
    buf.extend_from_slice(b"II");
    buf.extend_from_slice(&42u16.to_le_bytes());
    buf.extend_from_slice(&8u32.to_le_bytes());
    let n: u16 = 13;
    buf.extend_from_slice(&n.to_le_bytes());
    let data_at = 8 + 2 + 12 * n as u32 + 4;
    entry(&mut buf, 1, 1, 3, [1, 2, 3, 0]); // BYTE
    entry(&mut buf, 2, 6, 2, [0xff, 0x7f, 0, 0]); // SBYTE
    entry(&mut buf, 3, 7, 4, [9, 8, 7, 6]); // UNDEFINED
    entry(&mut buf, 4, 8, 2, [0xfe, 0xff, 0x05, 0x00]); // SSHORT -2, 5
    entry(&mut buf, 5, 4, 1, 70000u32.to_le_bytes()); // LONG
    entry(&mut buf, 6, 9, 1, (-5i32).to_le_bytes()); // SLONG
    entry(&mut buf, 7, 11, 1, 1.5f32.to_bits().to_le_bytes()); // FLOAT
    entry(&mut buf, 8, 12, 1, data_at.to_le_bytes()); // DOUBLE at data_at
    entry(&mut buf, 9, 10, 1, (data_at + 8).to_le_bytes()); // SRATIONAL
    entry(&mut buf, 10, 99, 1, [0, 0, 0, 0]); // unknown type: skipped
    entry(&mut buf, 11, 3, 4, (data_at + 16).to_le_bytes()); // 4 SHORTs
    entry(&mut buf, 12, 5, 1, 5000u32.to_le_bytes()); // out of range: skipped
    entry(&mut buf, 13, 2, 0, [0, 0, 0, 0]); // empty ASCII
    buf.extend_from_slice(&0u32.to_le_bytes());
    assert_eq!(buf.len() as u32, data_at);
    buf.extend_from_slice(&(-0.25f64).to_bits().to_le_bytes());
    buf.extend_from_slice(&(-3i32).to_le_bytes());
    buf.extend_from_slice(&4i32.to_le_bytes());
    for v in [10u16, 20, 30, 40] {
        buf.extend_from_slice(&v.to_le_bytes());
    }

    let tags = parse_ifd0(&buf);
    let expected = vec![
        ExifTag { id: 1, value: ExifValue::Byte(vec![1, 2, 3]) },
        ExifTag { id: 2, value: ExifValue::SByte(vec![-1, 127]) },
        ExifTag { id: 3, value: ExifValue::Undefined(vec![9, 8, 7, 6]) },
        ExifTag { id: 4, value: ExifValue::SShort(vec![-2, 5]) },
        ExifTag { id: 5, value: ExifValue::Long(vec![70000]) },
        ExifTag { id: 6, value: ExifValue::SLong(vec![-5]) },
        ExifTag { id: 7, value: ExifValue::Float(vec![1.5f32.to_bits()]) },
        ExifTag { id: 8, value: ExifValue::Double(vec![(-0.25f64).to_bits()]) },
        ExifTag { id: 9, value: ExifValue::SRational(vec![(-3, 4)]) },
        ExifTag { id: 11, value: ExifValue::Short(vec![10, 20, 30, 40]) },
        ExifTag { id: 13, value: ExifValue::Ascii(String::new()) },
    ];
    assert_eq!(tags, expected);
}

#[test]
fn truncated_entry_table_gives_no_tags() {
    let mut buf = sample_le();
    buf.truncate(8 + 2 + 12 + 5);
    assert!(parse_ifd0(&buf).is_empty());
}

#[test]
fn bad_magic_gives_no_tags() {
    let mut buf = sample_le();
    buf[2] = 43;
    assert!(parse_ifd0(&buf).is_empty());
}

#[test]
fn byte_orders_read_both_ways() {
    assert_eq!(ByteOrder::Little.u16([0x34, 0x12]), 0x1234);
    assert_eq!(ByteOrder::Big.u16([0x12, 0x34]), 0x1234);
    assert_eq!(ByteOrder::Little.u32([0x78, 0x56, 0x34, 0x12]), 0x12345678);
    assert_eq!(ByteOrder::Big.u32([0x12, 0x34, 0x56, 0x78]), 0x12345678);
    assert_eq!(ByteOrder::Big.i16([0xff, 0xfe]), -2);
    assert_eq!(ByteOrder::Little.i32([0xfe, 0xff, 0xff, 0xff]), -2);
    assert_eq!(ByteOrder::Big.f32_bits(2.5f32.to_be_bytes()), 2.5f32.to_bits());
    assert_eq!(ByteOrder::Little.f64_bits(2.5f64.to_le_bytes()), 2.5f64.to_bits());
    assert_eq!(ByteOrder::Big.f64_bits(2.5f64.to_be_bytes()), 2.5f64.to_bits());
}
