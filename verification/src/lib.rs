//! Reads dimensions and embedded metadata out of JPEG and PNG containers.
//!
//! The container walkers are written as step machines: each step says how
//! many bytes it needs next (or how many to skip), and the caller performs
//! the read. That keeps memory use bounded by the format's own small
//! structures while every decision about the bytes is made here.

pub mod exif;
pub mod inflate;
pub mod jpeg;
pub mod png;
pub mod json;
pub mod text;
pub mod report;

use vstd::prelude::*;

pub use exif::{ExifTag, ExifValue};

verus! {

#[derive(Debug, Clone, Copy, PartialEq, Eq, Structural)]
pub enum Format {
    Jpeg,
    Png,
}

#[derive(Debug, Clone)]
pub struct ImageMetadata {
    pub format: Format,
    pub width: u32,
    pub height: u32,
    /// Tags decoded from IFD0 of a JPEG APP1 Exif segment. Empty if the
    /// image has no Exif segment or its TIFF header doesn't parse.
    pub exif: Vec<ExifTag>,
    /// PNG tEXt, zTXt, and iTXt chunks as (keyword, text) pairs, with
    /// zTXt/iTXt decompressed. A chunk that fails to decompress or doesn't
    /// parse is skipped rather than surfaced as an error.
    pub text: Vec<(String, String)>,
}

/// Why a container walk stopped without a result.
#[derive(Debug, Clone, Copy, PartialEq, Eq, Structural)]
pub enum ParseError {
    /// The leading bytes are neither a JPEG SOI marker nor the PNG signature.
    UnrecognizedFormat,
    /// A PNG IHDR chunk whose length is not 13.
    InvalidIhdrLength,
    /// A JPEG segment that does not start with a 0xFF marker byte.
    ExpectedMarker,
    /// A JPEG segment length below 2 (the length counts itself).
    BadSegmentLength,
    /// A JPEG start-of-frame segment too short to hold the dimensions.
    TruncatedSof,
    /// The input ended in the middle of a structure.
    UnexpectedEnd,
}

/// What a container walker asks of its caller next.
#[derive(Debug, Clone, Copy, PartialEq, Eq, Structural)]
pub enum Step {
    /// Read exactly this many bytes and hand them back.
    Read(usize),
    /// Read past this many bytes, then hand back an empty slice.
    Skip(u64),
    /// The walk is over; the metadata is complete.
    Done,
    /// The walk failed.
    Fail(ParseError),
}

/// Big-endian value of two bytes.
pub open spec fn be16(b: Seq<u8>) -> u16 {
    (256 * b[0] + b[1]) as u16
}

/// Big-endian value of four bytes.
pub open spec fn be32(b: Seq<u8>) -> u32 {
    (0x1000000 * b[0] + 0x10000 * b[1] + 0x100 * b[2] + b[3]) as u32
}

pub fn read_be16(b0: u8, b1: u8) -> (r: u16)
    ensures
        r == be16(seq![b0, b1]),
{
    let r = ((b0 as u16) << 8u16) | (b1 as u16);
    assert(r == 256 * b0 + b1) by (bit_vector)
        requires
            r == ((b0 as u16) << 8u16) | (b1 as u16),
    ;
    r
}

pub fn read_be32(b0: u8, b1: u8, b2: u8, b3: u8) -> (r: u32)
    ensures
        r == be32(seq![b0, b1, b2, b3]),
{
    let r = ((b0 as u32) << 24u32) | ((b1 as u32) << 16u32) | ((b2 as u32) << 8u32) | (b3 as u32);
    assert(r == 0x1000000 * b0 + 0x10000 * b1 + 0x100 * b2 + b3) by (bit_vector)
        requires
            r == ((b0 as u32) << 24u32) | ((b1 as u32) << 16u32) | ((b2 as u32) << 8u32) | (
            b3 as u32),
    ;
    r
}

/// The format named by the first eight bytes of a file: JPEG starts with
/// the SOI marker FF D8, PNG with its eight-byte signature.
pub open spec fn format_of(magic: Seq<u8>) -> Option<Format> {
    if magic[0] == 0xFF && magic[1] == 0xD8 {
        Some(Format::Jpeg)
    } else if magic == png::SIGNATURE@ {
        Some(Format::Png)
    } else {
        None
    }
}

/// Every input that opens with the SOI marker FF D8 is JPEG, whatever the
/// six bytes after it (a JFIF APP0, an Exif APP1, or anything else); the
/// eight bytes 89 50 4E 47 0D 0A 1A 0A are PNG; nothing else is either.
pub proof fn lemma_format_of(magic: Seq<u8>)
    requires
        magic.len() == 8,
    ensures
        magic[0] == 0xFF && magic[1] == 0xD8 ==> format_of(magic) == Some(Format::Jpeg),
        magic =~= seq![0x89u8, 0x50u8, 0x4Eu8, 0x47u8, 0x0Du8, 0x0Au8, 0x1Au8, 0x0Au8]
            ==> format_of(magic) == Some(Format::Png),
        !(magic[0] == 0xFF && magic[1] == 0xD8) && !(magic =~= seq![
            0x89u8,
            0x50u8,
            0x4Eu8,
            0x47u8,
            0x0Du8,
            0x0Au8,
            0x1Au8,
            0x0Au8,
        ]) ==> format_of(magic) is None,
{
    assert(png::SIGNATURE@ =~= seq![0x89u8, 0x50u8, 0x4Eu8, 0x47u8, 0x0Du8, 0x0Au8, 0x1Au8, 0x0Au8]);
}

pub fn detect_format(magic: [u8; 8]) -> (r: Option<Format>)
    ensures
        r == format_of(magic@),
        magic@[0] == 0xFF && magic@[1] == 0xD8 ==> r == Some(Format::Jpeg),
{
    if magic[0] == 0xFF && magic[1] == 0xD8 {
        return Some(Format::Jpeg);
    }
    let sig = png::SIGNATURE;
    let mut i: usize = 0;
    while i < 8
        invariant
            i <= 8,
            sig@ == png::SIGNATURE@,
            !(magic@[0] == 0xFF && magic@[1] == 0xD8),
            forall|k: int| 0 <= k < i ==> magic@[k] == sig@[k],
        decreases 8 - i,
    {
        if magic[i] != sig[i] {
            assert(magic@[i as int] != png::SIGNATURE@[i as int]);
            return None;
        }
        i = i + 1;
    }
    assert(magic@ =~= png::SIGNATURE@);
    Some(Format::Png)
}

} // verus!
