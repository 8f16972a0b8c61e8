use imgmeta::inflate::{fixed_dist_tree, fixed_lit_tree, inflate, inflate_block, zlib_decompress, BitReader, Huffman};

fn zlib_stored(text: &[u8]) -> Vec<u8> {
    let mut stream = vec![0x78, 0x01]; // valid zlib header, no dictionary
    stream.push(0x01); // bfinal=1, btype=00 (stored)
    stream.extend_from_slice(&(text.len() as u16).to_le_bytes());
    stream.extend_from_slice(&(!(text.len() as u16)).to_le_bytes());
    stream.extend_from_slice(text);
    stream.extend_from_slice(&[0, 0, 0, 0]); // adler32, unchecked
    stream
}

#[test]
fn decompresses_stored_block() {
    let stream = zlib_stored(b"hello");
    assert_eq!(zlib_decompress(&stream, 1024).unwrap(), b"hello");
}

#[test]
fn enforces_output_cap() {
    let stream = zlib_stored(b"hello");
    assert!(zlib_decompress(&stream, 3).is_none());
}

#[test]
fn rejects_non_deflate_method() {
    let stream = [0x79, 0x00, 0, 0];
    assert!(zlib_decompress(&stream, 1024).is_none());
}

#[test]
fn rejects_preset_dictionary() {
    // FDICT bit set, with FLG otherwise chosen so the header checksum
    // still passes - isolates the failure to the FDICT check.
    let stream = [0x78, 0x20, 0, 0];
    assert!(zlib_decompress(&stream, 1024).is_none());
}

#[test]
fn rejects_truncated_stream() {
    assert!(zlib_decompress(&[0x78, 0x01, 0x01], 1024).is_none());
}

#[test]
fn rejects_empty_input() {
    assert!(zlib_decompress(&[], 1024).is_none());
    assert!(zlib_decompress(&[0x78], 1024).is_none());
}

// "hello hello hello" compressed by zlib with fixed Huffman codes; the
// second and third words are back-references.
const FIXED_HELLO: [u8; 16] = [
    120, 1, 203, 72, 205, 201, 201, 87, 200, 64, 144, 0, 58, 46, 6, 125,
];

#[test]
fn decompresses_fixed_huffman_with_back_reference() {
    let out = zlib_decompress(&FIXED_HELLO, 1024).unwrap();
    assert_eq!(out, b"hello hello hello");
}

#[test]
fn back_reference_respects_output_cap() {
    assert!(zlib_decompress(&FIXED_HELLO, 16).is_none());
    assert_eq!(zlib_decompress(&FIXED_HELLO, 17).unwrap().len(), 17);
}

#[test]
fn rejects_bad_header_check() {
    // CM = 8 but (CMF * 256 + FLG) is not a multiple of 31.
    assert!(zlib_decompress(&[0x78, 0x02, 0x01, 0x00, 0x00, 0xff, 0xff], 1024).is_none());
}

#[test]
fn rejects_stored_length_mismatch() {
    // LEN = 1 but NLEN is not its complement.
    assert!(inflate(&[0x01, 0x01, 0x00, 0x00, 0x00, 0x41], 1024).is_none());
}

#[test]
fn rejects_reserved_block_type() {
    // bfinal = 1, btype = 3
    assert!(inflate(&[0x07], 1024).is_none());
}

#[test]
fn reads_two_stored_blocks() {
    let data = [
        0x00, 0x02, 0x00, 0xfd, 0xff, b'a', b'b', // not final
        0x01, 0x01, 0x00, 0xfe, 0xff, b'c', // final
    ];
    assert_eq!(inflate(&data, 1024).unwrap(), b"abc");
}

#[test]
fn empty_stored_block_gives_empty_output() {
    assert_eq!(inflate(&[0x01, 0x00, 0x00, 0xff, 0xff], 0).unwrap(), Vec::<u8>::new());
}

// A zlib stream whose single block uses dynamic Huffman tables.
const DYNAMIC: [u8; 253] = [
    0x78, 0xda, 0x7d, 0x53, 0x5b, 0x0e, 0x83, 0x30, 0x0c, 0xbb, 0x0a, 0x57, 0x4b, 0x45, 0x05, 0x68,
    0x65, 0x20, 0x8d, 0xaf, 0x9e, 0x7e, 0xac, 0x6e, 0x1b, 0x27, 0x45, 0xfb, 0x18, 0x83, 0xd4, 0xb1,
    0x9d, 0x47, 0x17, 0xd9, 0x77, 0x99, 0x5e, 0x72, 0x9e, 0x32, 0x85, 0x78, 0xc9, 0x14, 0xcf, 0xcf,
    0x96, 0x8e, 0x37, 0x3e, 0xae, 0xd5, 0x3f, 0x93, 0xec, 0x61, 0xbe, 0x51, 0xf7, 0xeb, 0x1c, 0xd3,
    0x25, 0x8c, 0x93, 0x74, 0xae, 0x38, 0xfa, 0xfd, 0xc0, 0x89, 0x18, 0xce, 0x1b, 0x35, 0x12, 0x49,
    0x33, 0x6b, 0x36, 0x3f, 0xab, 0xd6, 0x76, 0x18, 0xee, 0x1a, 0x05, 0x89, 0x26, 0x16, 0x14, 0x82,
    0xec, 0x97, 0xc2, 0x59, 0x4d, 0x1b, 0x0e, 0x6b, 0x4e, 0x85, 0x4a, 0x6a, 0x45, 0x16, 0x9b, 0x4b,
    0xe9, 0x55, 0xeb, 0x00, 0xf7, 0x29, 0x77, 0xbc, 0x4f, 0xac, 0x36, 0x2b, 0xb8, 0xfd, 0xa3, 0x76,
    0x72, 0xf8, 0xdc, 0x30, 0xad, 0x91, 0x0a, 0x87, 0x8b, 0xec, 0x85, 0x4a, 0x20, 0x0c, 0x83, 0x2a,
    0x10, 0x72, 0xdf, 0xd5, 0xb2, 0x9f, 0x9b, 0x99, 0xa1, 0xf1, 0xc9, 0xcf, 0xc1, 0x08, 0xd1, 0xc2,
    0x2e, 0x18, 0xf0, 0x5e, 0xc2, 0x74, 0xd6, 0x4d, 0x67, 0x2d, 0x98, 0x8c, 0x34, 0x59, 0xf6, 0xce,
    0x5d, 0xe9, 0xe9, 0x24, 0xea, 0xd8, 0xb9, 0x16, 0x12, 0x21, 0x54, 0xef, 0x00, 0x81, 0xdc, 0x12,
    0x2a, 0x31, 0x97, 0x4e, 0x46, 0xd9, 0x94, 0xd9, 0x28, 0x32, 0x06, 0x0c, 0x02, 0x41, 0x07, 0x6d,
    0xd6, 0x8c, 0xb7, 0x2b, 0xfc, 0x1f, 0x85, 0x5d, 0xa4, 0x10, 0x9d, 0x42, 0x1e, 0xee, 0x2e, 0x8f,
    0xa7, 0x1d, 0x50, 0xf3, 0xdc, 0x1a, 0xbb, 0x4f, 0xea, 0x0d, 0xdf, 0xa6, 0x30, 0xfa, 0x32, 0x3d,
    0x7c, 0x30, 0x69, 0xa4, 0xf9, 0xe6, 0x77, 0xaa, 0x2f, 0x86, 0xd8, 0xa2, 0x62,
];

const DYNAMIC_TEXT: &str = "gamma kappa beta epsilon beta theta theta theta lambda eta delta beta theta alpha eta eta kappa alpha theta epsilon delta kappa beta zeta alpha alpha alpha lambda iota alpha eta lambda delta eta alpha iota delta theta theta iota delta zeta delta lambda delta theta epsilon alpha eta iota lambda beta gamma lambda epsilon beta zeta iota eta iota lambda delta epsilon epsilon kappa theta iota eta kappa alpha theta delta eta eta lambda gamma zeta iota lambda zeta beta theta lambda iota beta gamma iota eta zeta theta alpha theta alpha epsilon kappa kappa kappa eta lambda gamma gamma iota delta alpha delta iota iota delta eta iota zeta kappa zeta theta epsilon lambda iota kappa alpha eta iota gamma iota iota delta eta alpha theta zeta kappa iota delta iota eta theta zeta eta zeta alpha iota iota kappa kappa zeta theta kappa alpha delta lambda gamma iota kappa gamma beta iota epsilon alpha lambda beta beta alpha theta alpha epsilon delta epsilon beta kappa gamma zeta epsilon beta gamma gamma epsilon iota gamma lambda epsilon lambda epsilon theta zeta theta theta beta alpha epsilon eta zeta eta delta epsilon beta epsilon iota delta kappa eta alpha";

#[test]
fn decompresses_dynamic_huffman_block() {
    assert_eq!(DYNAMIC[2] >> 1 & 3, 2);
    let out = zlib_decompress(&DYNAMIC, 1 << 20).unwrap();
    assert_eq!(out, DYNAMIC_TEXT.as_bytes());
}

#[test]
fn dynamic_block_respects_output_cap() {
    assert!(zlib_decompress(&DYNAMIC, DYNAMIC_TEXT.len() - 1).is_none());
}

#[test]
fn corrupt_dynamic_stream_is_rejected_or_differs() {
    let mut broken = DYNAMIC.to_vec();
    broken.truncate(40);
    assert!(zlib_decompress(&broken, 1 << 20).is_none());
}

#[test]
fn checksum_bytes_are_not_looked_at() {
    let mut a = zlib_stored(b"text");
    let n = a.len();
    a[n - 4..].copy_from_slice(&[0xde, 0xad, 0xbe, 0xef]);
    assert_eq!(zlib_decompress(&a, 1024).unwrap(), b"text");
}

#[test]
fn trailing_bytes_after_stream_are_ignored() {
    let mut data = DYNAMIC.to_vec();
    data.extend_from_slice(b"anything at all");
    assert_eq!(zlib_decompress(&data, 1 << 20).unwrap(), DYNAMIC_TEXT.as_bytes());
}

#[test]
fn canonical_codes_decode_to_their_symbols() {
    // RFC 1951's example: lengths (2, 1, 3, 3) give codes 10, 0, 110, 111.
    let tree = Huffman::build(&[2, 1, 3, 3]);
    // Codes go in most significant bit first, into bits packed from the
    // least significant bit of each byte: 0, 10, 110, 111 -> bits
    // 0 1 0 1 1 0 1 1 1.
    let data = [0b1101_1010u8, 0b0000_0001];
    let mut br = BitReader::new(&data);
    assert_eq!(tree.decode(&mut br), Some(1));
    assert_eq!(tree.decode(&mut br), Some(0));
    assert_eq!(tree.decode(&mut br), Some(2));
    assert_eq!(tree.decode(&mut br), Some(3));
    assert_eq!(br.bits(7), Some(0));
    assert_eq!(tree.decode(&mut br), None);
}

#[test]
fn bit_reader_reads_fields_lsb_first() {
    let data = [0b1010_1100u8, 0xff, 0x34, 0x12];
    let mut br = BitReader::new(&data);
    assert_eq!(br.bits(3), Some(0b100));
    assert_eq!(br.bits(7), Some(0b11_10101));
    br.align_to_byte();
    assert_eq!(br.read_u16_le(), Some(0x1234));
    assert_eq!(br.read_bytes(1), None);
    assert_eq!(br.bits(1), None);
}

#[test]
fn failed_block_leaves_output_untouched() {
    // Length code 257 then distance code 0: a copy from one byte back,
    // with nothing written yet.
    let data = [0x40u8, 0x00, 0x00];
    let mut br = BitReader::new(&data);
    let mut out = Vec::new();
    assert_eq!(inflate_block(&mut br, &fixed_lit_tree(), &fixed_dist_tree(), &mut out, 10), None);
    assert!(out.is_empty());
}

#[test]
fn failed_block_keeps_earlier_literals() {
    // Literal 'A' (code 01110001), then literal 'B' with no room for it.
    // Fixed codes go in most significant bit first.
    let data = [0b1000_1110u8, 0b0100_1110, 0x00];
    let mut br = BitReader::new(&data);
    let mut out = vec![b'x'];
    assert_eq!(inflate_block(&mut br, &fixed_lit_tree(), &fixed_dist_tree(), &mut out, 2), None);
    assert_eq!(out, b"xA");
}

#[test]
fn end_of_block_code_takes_seven_bits() {
    let data = [0x00u8, 0x00];
    let mut br = BitReader::new(&data);
    assert_eq!(fixed_lit_tree().decode(&mut br), Some(256));
    assert_eq!(br.bits(9), Some(0));
    assert_eq!(br.bits(1), None);
}

#[test]
fn split_reads_match_one_wide_read() {
    let data = [0xB4u8];
    let mut br = BitReader::new(&data);
    assert_eq!(br.bits(3), Some(4));
    assert_eq!(br.bits(5), Some(22));
    assert_eq!(br.bits(1), None);
    let mut whole = BitReader::new(&data);
    assert_eq!(whole.bits(8), Some(4 + (22 << 3)));
}

#[test]
fn read_bytes_keeps_buffered_bits() {
    let data = [0b0000_0101u8, 0x11, 0x22, 0b0000_0010];
    let mut br = BitReader::new(&data);
    assert_eq!(br.bits(1), Some(1));
    assert_eq!(br.read_bytes(2), Some(&data[1..3]));
    assert_eq!(br.bits(7), Some(0b10));
    assert_eq!(br.bits(2), Some(0b10));
}

#[test]
fn missing_checksum_gives_same_output() {
    let full = zlib_stored(b"abc");
    let short = &full[..full.len() - 4];
    assert_eq!(zlib_decompress(short, 64).unwrap(), b"abc");
    assert_eq!(zlib_decompress(&full, 64).unwrap(), b"abc");
}

#[test]
fn output_cap_only_decides_success() {
    let data = zlib_stored(b"hello");
    assert_eq!(zlib_decompress(&data, 5).unwrap(), b"hello");
    assert_eq!(zlib_decompress(&data, 1000).unwrap(), b"hello");
    assert!(zlib_decompress(&data, 4).is_none());
}
