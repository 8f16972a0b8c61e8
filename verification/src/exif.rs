//! Decodes the tags in IFD0 of a TIFF-structured Exif payload - the bytes
//! that follow the "Exif\0\0" marker in a JPEG APP1 segment. The Exif and
//! GPS sub-IFDs (reached via the pointer tags 0x8769 and 0x8825) are left
//! alone; they use their own tag numbering and mixing them into a single
//! flat list would make tag IDs ambiguous.

use vstd::prelude::*;

use crate::text::{lossy_string, find_zero, utf8_lossy, zero_pos};

verus! {

#[derive(Debug, Clone, Copy, PartialEq, Eq, Structural)]
pub enum ByteOrder {
    Little,
    Big,
}

/// The unsigned value of two bytes in the given order.
pub open spec fn order_u16(order: ByteOrder, b: Seq<u8>) -> u16 {
    match order {
        ByteOrder::Little => (b[0] + 256 * b[1]) as u16,
        ByteOrder::Big => (256 * b[0] + b[1]) as u16,
    }
}

/// The unsigned value of four bytes in the given order.
pub open spec fn order_u32(order: ByteOrder, b: Seq<u8>) -> u32 {
    match order {
        ByteOrder::Little => (b[0] + 0x100 * b[1] + 0x10000 * b[2] + 0x1000000 * b[3]) as u32,
        ByteOrder::Big => (0x1000000 * b[0] + 0x10000 * b[1] + 0x100 * b[2] + b[3]) as u32,
    }
}

/// The unsigned value of eight bytes in the given order.
pub open spec fn order_u64(order: ByteOrder, b: Seq<u8>) -> u64 {
    match order {
        ByteOrder::Little => (order_u32(order, b.subrange(0, 4)) + 0x1_0000_0000 * order_u32(
            order,
            b.subrange(4, 8),
        )) as u64,
        ByteOrder::Big => (0x1_0000_0000 * order_u32(order, b.subrange(0, 4)) + order_u32(
            order,
            b.subrange(4, 8),
        )) as u64,
    }
}

/// Two's complement reading of two bytes in the given order.
pub open spec fn order_i16(order: ByteOrder, b: Seq<u8>) -> i16 {
    let u = order_u16(order, b);
    if u < 0x8000 {
        u as i16
    } else {
        (u - 0x10000) as i16
    }
}

/// Two's complement reading of four bytes in the given order.
pub open spec fn order_i32(order: ByteOrder, b: Seq<u8>) -> i32 {
    let u = order_u32(order, b);
    if u < 0x8000_0000 {
        u as i32
    } else {
        (u - 0x1_0000_0000) as i32
    }
}

impl ByteOrder {
    pub fn u16(self, b: [u8; 2]) -> (r: u16)
        ensures
            r == order_u16(self, b@),
    {
        let b0 = b[0];
        let b1 = b[1];
        match self {
            ByteOrder::Little => {
                let r = (b0 as u16) | ((b1 as u16) << 8u16);
                assert(r == b0 + 256 * b1) by (bit_vector)
                    requires
                        r == (b0 as u16) | ((b1 as u16) << 8u16),
                ;
                r
            },
            ByteOrder::Big => {
                let r = ((b0 as u16) << 8u16) | (b1 as u16);
                assert(r == 256 * b0 + b1) by (bit_vector)
                    requires
                        r == ((b0 as u16) << 8u16) | (b1 as u16),
                ;
                r
            },
        }
    }

    pub fn u32(self, b: [u8; 4]) -> (r: u32)
        ensures
            r == order_u32(self, b@),
    {
        let b0 = b[0];
        let b1 = b[1];
        let b2 = b[2];
        let b3 = b[3];
        match self {
            ByteOrder::Little => {
                let r = (b0 as u32) | ((b1 as u32) << 8u32) | ((b2 as u32) << 16u32) | ((
                b3 as u32) << 24u32);
                assert(r == b0 + 0x100 * b1 + 0x10000 * b2 + 0x1000000 * b3) by (bit_vector)
                    requires
                        r == (b0 as u32) | ((b1 as u32) << 8u32) | ((b2 as u32) << 16u32) | ((
                        b3 as u32) << 24u32),
                ;
                r
            },
            ByteOrder::Big => {
                let r = ((b0 as u32) << 24u32) | ((b1 as u32) << 16u32) | ((b2 as u32) << 8u32)
                    | (b3 as u32);
                assert(r == 0x1000000 * b0 + 0x10000 * b1 + 0x100 * b2 + b3) by (bit_vector)
                    requires
                        r == ((b0 as u32) << 24u32) | ((b1 as u32) << 16u32) | ((b2 as u32)
                            << 8u32) | (b3 as u32),
                ;
                r
            },
        }
    }

    pub fn i16(self, b: [u8; 2]) -> (r: i16)
        ensures
            r == order_i16(self, b@),
    {
        let u = self.u16(b);
        let r = u as i16;
        assert(r as int == if u < 0x8000 { u as int } else { u - 0x10000 }) by (bit_vector)
            requires
                r == u as i16,
        ;
        r
    }

    pub fn i32(self, b: [u8; 4]) -> (r: i32)
        ensures
            r == order_i32(self, b@),
    {
        let u = self.u32(b);
        let r = u as i32;
        assert(r as int == if u < 0x8000_0000 { u as int } else { u - 0x1_0000_0000 })
            by (bit_vector)
            requires
                r == u as i32,
        ;
        r
    }

    /// The IEEE 754 single-precision value of four bytes, as its bit
    /// pattern (the bits that `from_bits` of the single-precision type takes).
    pub fn f32_bits(self, b: [u8; 4]) -> (r: u32)
        ensures
            r == order_u32(self, b@),
    {
        self.u32(b)
    }

    /// The IEEE 754 double-precision value of eight bytes, as its bit
    /// pattern (the bits that `from_bits` of the double-precision type takes).
    pub fn f64_bits(self, b: [u8; 8]) -> (r: u64)
        ensures
            r == order_u64(self, b@),
    {
        let lo = self.u32([b[0], b[1], b[2], b[3]]);
        let hi = self.u32([b[4], b[5], b[6], b[7]]);
        assert([b[0], b[1], b[2], b[3]]@ =~= b@.subrange(0, 4));
        assert([b[4], b[5], b[6], b[7]]@ =~= b@.subrange(4, 8));
        match self {
            ByteOrder::Little => {
                let r = (lo as u64) | ((hi as u64) << 32u64);
                assert(r == lo + 0x1_0000_0000 * hi) by (bit_vector)
                    requires
                        r == (lo as u64) | ((hi as u64) << 32u64),
                ;
                r
            },
            ByteOrder::Big => {
                let r = ((lo as u64) << 32u64) | (hi as u64);
                assert(r == 0x1_0000_0000 * lo + hi) by (bit_vector)
                    requires
                        r == ((lo as u64) << 32u64) | (hi as u64),
                ;
                r
            },
        }
    }
}

} // verus!

verus! {

/// A decoded Exif field. Rational values are kept as (numerator,
/// denominator) pairs rather than reduced, since the reduction is lossy and
/// different tags want different precision. FLOAT and DOUBLE fields are
/// kept as their IEEE 754 bit patterns.
#[derive(Debug, Clone, PartialEq)]
pub enum ExifValue {
    Byte(Vec<u8>),
    Ascii(String),
    Short(Vec<u16>),
    Long(Vec<u32>),
    Rational(Vec<(u32, u32)>),
    SByte(Vec<i8>),
    Undefined(Vec<u8>),
    SShort(Vec<i16>),
    SLong(Vec<i32>),
    SRational(Vec<(i32, i32)>),
    Float(Vec<u32>),
    Double(Vec<u64>),
}

/// What an `ExifValue` holds.
pub enum ExifData {
    Byte(Seq<u8>),
    Ascii(Seq<char>),
    Short(Seq<u16>),
    Long(Seq<u32>),
    Rational(Seq<(u32, u32)>),
    SByte(Seq<i8>),
    Undefined(Seq<u8>),
    SShort(Seq<i16>),
    SLong(Seq<i32>),
    SRational(Seq<(i32, i32)>),
    Float(Seq<u32>),
    Double(Seq<u64>),
}

impl View for ExifValue {
    type V = ExifData;

    open spec fn view(&self) -> ExifData {
        match self {
            ExifValue::Byte(v) => ExifData::Byte(v@),
            ExifValue::Ascii(s) => ExifData::Ascii(s@),
            ExifValue::Short(v) => ExifData::Short(v@),
            ExifValue::Long(v) => ExifData::Long(v@),
            ExifValue::Rational(v) => ExifData::Rational(v@),
            ExifValue::SByte(v) => ExifData::SByte(v@),
            ExifValue::Undefined(v) => ExifData::Undefined(v@),
            ExifValue::SShort(v) => ExifData::SShort(v@),
            ExifValue::SLong(v) => ExifData::SLong(v@),
            ExifValue::SRational(v) => ExifData::SRational(v@),
            ExifValue::Float(v) => ExifData::Float(v@),
            ExifValue::Double(v) => ExifData::Double(v@),
        }
    }
}

#[derive(Debug, Clone, PartialEq)]
pub struct ExifTag {
    pub id: u16,
    pub value: ExifValue,
}

impl View for ExifTag {
    type V = (u16, ExifData);

    open spec fn view(&self) -> (u16, ExifData) {
        (self.id, self.value@)
    }
}

pub open spec fn tags_view(tags: Seq<ExifTag>) -> Seq<(u16, ExifData)> {
    tags.map_values(|t: ExifTag| t@)
}

/// Size in bytes of one element of each TIFF field type (1 BYTE, 2 ASCII,
/// 3 SHORT, 4 LONG, 5 RATIONAL, 6 SBYTE, 7 UNDEFINED, 8 SSHORT, 9 SLONG,
/// 10 SRATIONAL, 11 FLOAT, 12 DOUBLE).
pub open spec fn type_size(type_code: u16) -> Option<nat> {
    if type_code == 1 || type_code == 2 || type_code == 6 || type_code == 7 {
        Some(1)
    } else if type_code == 3 || type_code == 8 {
        Some(2)
    } else if type_code == 4 || type_code == 9 || type_code == 11 {
        Some(4)
    } else if type_code == 5 || type_code == 10 || type_code == 12 {
        Some(8)
    } else {
        None
    }
}

pub fn elem_size(type_code: u16) -> (r: Option<usize>)
    ensures
        r == (match type_size(type_code) {
            Some(n) => Some(n as usize),
            None => None::<usize>,
        }),
{
    if type_code == 1 || type_code == 2 || type_code == 6 || type_code == 7 {
        Some(1)
    } else if type_code == 3 || type_code == 8 {
        Some(2)
    } else if type_code == 4 || type_code == 9 || type_code == 11 {
        Some(4)
    } else if type_code == 5 || type_code == 10 || type_code == 12 {
        Some(8)
    } else {
        None
    }
}

pub fn read2(data: &[u8], offset: usize) -> (r: Option<[u8; 2]>)
    ensures
        r is Some <==> offset + 2 <= data@.len(),
        r matches Some(b) ==> b@ == data@.subrange(offset as int, offset + 2),
{
    if offset > data.len() || data.len() - offset < 2 {
        return None;
    }
    let b = [data[offset], data[offset + 1]];
    assert(b@ =~= data@.subrange(offset as int, offset + 2));
    Some(b)
}

pub fn read4(data: &[u8], offset: usize) -> (r: Option<[u8; 4]>)
    ensures
        r is Some <==> offset + 4 <= data@.len(),
        r matches Some(b) ==> b@ == data@.subrange(offset as int, offset + 4),
{
    if offset > data.len() || data.len() - offset < 4 {
        return None;
    }
    let b = [data[offset], data[offset + 1], data[offset + 2], data[offset + 3]];
    assert(b@ =~= data@.subrange(offset as int, offset + 4));
    Some(b)
}

} // verus!

verus! {

/// Consecutive two-byte unsigned values.
pub open spec fn decode_u16s_spec(order: ByteOrder, bytes: Seq<u8>) -> Seq<u16> {
    Seq::new(bytes.len() / 2, |i: int| order_u16(order, bytes.subrange(2 * i, 2 * i + 2)))
}

fn decode_u16s(order: ByteOrder, bytes: &[u8]) -> (r: Vec<u16>)
    requires
        bytes@.len() % 2 == 0,
    ensures
        r@ == decode_u16s_spec(order, bytes@),
{
    let ghost goal = decode_u16s_spec(order, bytes@);
    let n = bytes.len() / 2;
    let mut r: Vec<u16> = Vec::new();
    let mut i: usize = 0;
    while i < n
        invariant
            n == bytes@.len() / 2,
            bytes@.len() % 2 == 0,
            bytes@.len() <= usize::MAX,
            goal == decode_u16s_spec(order, bytes@),
            i <= n,
            r@ == goal.take(i as int),
        decreases n - i,
    {
        assert(2 * i + 2 <= bytes@.len()) by (nonlinear_arith)
            requires
                i < n,
                n == bytes@.len() / 2,
                bytes@.len() % 2 == 0,
        ;
        let w = [bytes[2 * i], bytes[2 * i + 1]];
        assert(w@ =~= bytes@.subrange(2 * i as int, 2 * i as int + 2));
        let x = order.u16(w);
        r.push(x);
        i = i + 1;
        assert(r@ =~= goal.take(i as int));
    }
    assert(goal.take(n as int) =~= goal);
    r
}

/// Consecutive two-byte signed values.
pub open spec fn decode_i16s_spec(order: ByteOrder, bytes: Seq<u8>) -> Seq<i16> {
    Seq::new(bytes.len() / 2, |i: int| order_i16(order, bytes.subrange(2 * i, 2 * i + 2)))
}

fn decode_i16s(order: ByteOrder, bytes: &[u8]) -> (r: Vec<i16>)
    requires
        bytes@.len() % 2 == 0,
    ensures
        r@ == decode_i16s_spec(order, bytes@),
{
    let ghost goal = decode_i16s_spec(order, bytes@);
    let n = bytes.len() / 2;
    let mut r: Vec<i16> = Vec::new();
    let mut i: usize = 0;
    while i < n
        invariant
            n == bytes@.len() / 2,
            bytes@.len() % 2 == 0,
            bytes@.len() <= usize::MAX,
            goal == decode_i16s_spec(order, bytes@),
            i <= n,
            r@ == goal.take(i as int),
        decreases n - i,
    {
        assert(2 * i + 2 <= bytes@.len()) by (nonlinear_arith)
            requires
                i < n,
                n == bytes@.len() / 2,
                bytes@.len() % 2 == 0,
        ;
        let w = [bytes[2 * i], bytes[2 * i + 1]];
        assert(w@ =~= bytes@.subrange(2 * i as int, 2 * i as int + 2));
        let x = order.i16(w);
        r.push(x);
        i = i + 1;
        assert(r@ =~= goal.take(i as int));
    }
    assert(goal.take(n as int) =~= goal);
    r
}

/// Consecutive four-byte unsigned values.
pub open spec fn decode_u32s_spec(order: ByteOrder, bytes: Seq<u8>) -> Seq<u32> {
    Seq::new(bytes.len() / 4, |i: int| order_u32(order, bytes.subrange(4 * i, 4 * i + 4)))
}

fn decode_u32s(order: ByteOrder, bytes: &[u8]) -> (r: Vec<u32>)
    requires
        bytes@.len() % 4 == 0,
    ensures
        r@ == decode_u32s_spec(order, bytes@),
{
    let ghost goal = decode_u32s_spec(order, bytes@);
    let n = bytes.len() / 4;
    let mut r: Vec<u32> = Vec::new();
    let mut i: usize = 0;
    while i < n
        invariant
            n == bytes@.len() / 4,
            bytes@.len() % 4 == 0,
            bytes@.len() <= usize::MAX,
            goal == decode_u32s_spec(order, bytes@),
            i <= n,
            r@ == goal.take(i as int),
        decreases n - i,
    {
        assert(4 * i + 4 <= bytes@.len()) by (nonlinear_arith)
            requires
                i < n,
                n == bytes@.len() / 4,
                bytes@.len() % 4 == 0,
        ;
        let w = [bytes[4 * i], bytes[4 * i + 1], bytes[4 * i + 2], bytes[4 * i + 3]];
        assert(w@ =~= bytes@.subrange(4 * i as int, 4 * i as int + 4));
        let x = order.u32(w);
        r.push(x);
        i = i + 1;
        assert(r@ =~= goal.take(i as int));
    }
    assert(goal.take(n as int) =~= goal);
    r
}

/// Consecutive four-byte signed values.
pub open spec fn decode_i32s_spec(order: ByteOrder, bytes: Seq<u8>) -> Seq<i32> {
    Seq::new(bytes.len() / 4, |i: int| order_i32(order, bytes.subrange(4 * i, 4 * i + 4)))
}

fn decode_i32s(order: ByteOrder, bytes: &[u8]) -> (r: Vec<i32>)
    requires
        bytes@.len() % 4 == 0,
    ensures
        r@ == decode_i32s_spec(order, bytes@),
{
    let ghost goal = decode_i32s_spec(order, bytes@);
    let n = bytes.len() / 4;
    let mut r: Vec<i32> = Vec::new();
    let mut i: usize = 0;
    while i < n
        invariant
            n == bytes@.len() / 4,
            bytes@.len() % 4 == 0,
            bytes@.len() <= usize::MAX,
            goal == decode_i32s_spec(order, bytes@),
            i <= n,
            r@ == goal.take(i as int),
        decreases n - i,
    {
        assert(4 * i + 4 <= bytes@.len()) by (nonlinear_arith)
            requires
                i < n,
                n == bytes@.len() / 4,
                bytes@.len() % 4 == 0,
        ;
        let w = [bytes[4 * i], bytes[4 * i + 1], bytes[4 * i + 2], bytes[4 * i + 3]];
        assert(w@ =~= bytes@.subrange(4 * i as int, 4 * i as int + 4));
        let x = order.i32(w);
        r.push(x);
        i = i + 1;
        assert(r@ =~= goal.take(i as int));
    }
    assert(goal.take(n as int) =~= goal);
    r
}

/// Consecutive single-precision values, as bit patterns.
pub open spec fn decode_f32_bits_spec(order: ByteOrder, bytes: Seq<u8>) -> Seq<u32> {
    Seq::new(bytes.len() / 4, |i: int| order_u32(order, bytes.subrange(4 * i, 4 * i + 4)))
}

fn decode_f32_bits(order: ByteOrder, bytes: &[u8]) -> (r: Vec<u32>)
    requires
        bytes@.len() % 4 == 0,
    ensures
        r@ == decode_f32_bits_spec(order, bytes@),
{
    let ghost goal = decode_f32_bits_spec(order, bytes@);
    let n = bytes.len() / 4;
    let mut r: Vec<u32> = Vec::new();
    let mut i: usize = 0;
    while i < n
        invariant
            n == bytes@.len() / 4,
            bytes@.len() % 4 == 0,
            bytes@.len() <= usize::MAX,
            goal == decode_f32_bits_spec(order, bytes@),
            i <= n,
            r@ == goal.take(i as int),
        decreases n - i,
    {
        assert(4 * i + 4 <= bytes@.len()) by (nonlinear_arith)
            requires
                i < n,
                n == bytes@.len() / 4,
                bytes@.len() % 4 == 0,
        ;
        let w = [bytes[4 * i], bytes[4 * i + 1], bytes[4 * i + 2], bytes[4 * i + 3]];
        assert(w@ =~= bytes@.subrange(4 * i as int, 4 * i as int + 4));
        let x = order.f32_bits(w);
        r.push(x);
        i = i + 1;
        assert(r@ =~= goal.take(i as int));
    }
    assert(goal.take(n as int) =~= goal);
    r
}

/// Consecutive double-precision values, as bit patterns.
pub open spec fn decode_f64_bits_spec(order: ByteOrder, bytes: Seq<u8>) -> Seq<u64> {
    Seq::new(bytes.len() / 8, |i: int| order_u64(order, bytes.subrange(8 * i, 8 * i + 8)))
}

fn decode_f64_bits(order: ByteOrder, bytes: &[u8]) -> (r: Vec<u64>)
    requires
        bytes@.len() % 8 == 0,
    ensures
        r@ == decode_f64_bits_spec(order, bytes@),
{
    let ghost goal = decode_f64_bits_spec(order, bytes@);
    let n = bytes.len() / 8;
    let mut r: Vec<u64> = Vec::new();
    let mut i: usize = 0;
    while i < n
        invariant
            n == bytes@.len() / 8,
            bytes@.len() % 8 == 0,
            bytes@.len() <= usize::MAX,
            goal == decode_f64_bits_spec(order, bytes@),
            i <= n,
            r@ == goal.take(i as int),
        decreases n - i,
    {
        assert(8 * i + 8 <= bytes@.len()) by (nonlinear_arith)
            requires
                i < n,
                n == bytes@.len() / 8,
                bytes@.len() % 8 == 0,
        ;
        let w = [bytes[8 * i], bytes[8 * i + 1], bytes[8 * i + 2], bytes[8 * i + 3], bytes[8 * i + 4], bytes[8 * i + 5], bytes[8 * i + 6], bytes[8 * i + 7]];
        assert(w@ =~= bytes@.subrange(8 * i as int, 8 * i as int + 8));
        let x = order.f64_bits(w);
        r.push(x);
        i = i + 1;
        assert(r@ =~= goal.take(i as int));
    }
    assert(goal.take(n as int) =~= goal);
    r
}

/// Consecutive unsigned numerator/denominator pairs.
pub open spec fn decode_rationals_spec(order: ByteOrder, bytes: Seq<u8>) -> Seq<(u32, u32)> {
    Seq::new(bytes.len() / 8, |i: int| (order_u32(order, bytes.subrange(8 * i, 8 * i + 4)), order_u32(order, bytes.subrange(8 * i + 4, 8 * i + 8))))
}

fn decode_rationals(order: ByteOrder, bytes: &[u8]) -> (r: Vec<(u32, u32)>)
    requires
        bytes@.len() % 8 == 0,
    ensures
        r@ == decode_rationals_spec(order, bytes@),
{
    let ghost goal = decode_rationals_spec(order, bytes@);
    let n = bytes.len() / 8;
    let mut r: Vec<(u32, u32)> = Vec::new();
    let mut i: usize = 0;
    while i < n
        invariant
            n == bytes@.len() / 8,
            bytes@.len() % 8 == 0,
            bytes@.len() <= usize::MAX,
            goal == decode_rationals_spec(order, bytes@),
            i <= n,
            r@ == goal.take(i as int),
        decreases n - i,
    {
        assert(8 * i + 8 <= bytes@.len()) by (nonlinear_arith)
            requires
                i < n,
                n == bytes@.len() / 8,
                bytes@.len() % 8 == 0,
        ;
        let w = [bytes[8 * i], bytes[8 * i + 1], bytes[8 * i + 2], bytes[8 * i + 3], bytes[8 * i + 4], bytes[8 * i + 5], bytes[8 * i + 6], bytes[8 * i + 7]];
        assert(w@ =~= bytes@.subrange(8 * i as int, 8 * i as int + 8));
        let x = (order.u32([w[0], w[1], w[2], w[3]]), order.u32([w[4], w[5], w[6], w[7]]));
        r.push(x);
        i = i + 1;
        assert(r@ =~= goal.take(i as int));
    }
    assert(goal.take(n as int) =~= goal);
    r
}

/// Consecutive signed numerator/denominator pairs.
pub open spec fn decode_srationals_spec(order: ByteOrder, bytes: Seq<u8>) -> Seq<(i32, i32)> {
    Seq::new(bytes.len() / 8, |i: int| (order_i32(order, bytes.subrange(8 * i, 8 * i + 4)), order_i32(order, bytes.subrange(8 * i + 4, 8 * i + 8))))
}

fn decode_srationals(order: ByteOrder, bytes: &[u8]) -> (r: Vec<(i32, i32)>)
    requires
        bytes@.len() % 8 == 0,
    ensures
        r@ == decode_srationals_spec(order, bytes@),
{
    let ghost goal = decode_srationals_spec(order, bytes@);
    let n = bytes.len() / 8;
    let mut r: Vec<(i32, i32)> = Vec::new();
    let mut i: usize = 0;
    while i < n
        invariant
            n == bytes@.len() / 8,
            bytes@.len() % 8 == 0,
            bytes@.len() <= usize::MAX,
            goal == decode_srationals_spec(order, bytes@),
            i <= n,
            r@ == goal.take(i as int),
        decreases n - i,
    {
        assert(8 * i + 8 <= bytes@.len()) by (nonlinear_arith)
            requires
                i < n,
                n == bytes@.len() / 8,
                bytes@.len() % 8 == 0,
        ;
        let w = [bytes[8 * i], bytes[8 * i + 1], bytes[8 * i + 2], bytes[8 * i + 3], bytes[8 * i + 4], bytes[8 * i + 5], bytes[8 * i + 6], bytes[8 * i + 7]];
        assert(w@ =~= bytes@.subrange(8 * i as int, 8 * i as int + 8));
        let x = (order.i32([w[0], w[1], w[2], w[3]]), order.i32([w[4], w[5], w[6], w[7]]));
        r.push(x);
        i = i + 1;
        assert(r@ =~= goal.take(i as int));
    }
    assert(goal.take(n as int) =~= goal);
    r
}

} // verus!

verus! {

/// The bytes of a field's value: inside the entry's four-byte value field
/// when they fit there, else at the offset that field holds (read in the
/// file's byte order). `None` for an unknown type, or a value that runs
/// past the end of `data`.
pub open spec fn value_bytes(
    data: Seq<u8>,
    order: ByteOrder,
    type_code: u16,
    count: nat,
    inline: Seq<u8>,
) -> Option<Seq<u8>> {
    match type_size(type_code) {
        None => None,
        Some(size) => {
            let total = size * count;
            if total > usize::MAX {
                None
            } else if total <= 4 {
                Some(inline.take(total as int))
            } else {
                let offset = order_u32(order, inline) as int;
                if offset + total > data.len() {
                    None
                } else {
                    Some(data.subrange(offset, offset + total))
                }
            }
        },
    }
}

/// A field's bytes read as its type. ASCII stops at the first NUL.
pub open spec fn decode_value(order: ByteOrder, type_code: u16, bytes: Seq<u8>) -> Option<ExifData> {
    if type_code == 1 {
        Some(ExifData::Byte(bytes))
    } else if type_code == 2 {
        let end = match zero_pos(bytes) {
            Some(p) => p,
            None => bytes.len() as int,
        };
        Some(ExifData::Ascii(utf8_lossy(bytes.take(end))))
    } else if type_code == 3 {
        Some(ExifData::Short(decode_u16s_spec(order, bytes)))
    } else if type_code == 4 {
        Some(ExifData::Long(decode_u32s_spec(order, bytes)))
    } else if type_code == 5 {
        Some(ExifData::Rational(decode_rationals_spec(order, bytes)))
    } else if type_code == 6 {
        Some(ExifData::SByte(Seq::new(bytes.len(), |i: int| bytes[i] as i8)))
    } else if type_code == 7 {
        Some(ExifData::Undefined(bytes))
    } else if type_code == 8 {
        Some(ExifData::SShort(decode_i16s_spec(order, bytes)))
    } else if type_code == 9 {
        Some(ExifData::SLong(decode_i32s_spec(order, bytes)))
    } else if type_code == 10 {
        Some(ExifData::SRational(decode_srationals_spec(order, bytes)))
    } else if type_code == 11 {
        Some(ExifData::Float(decode_f32_bits_spec(order, bytes)))
    } else if type_code == 12 {
        Some(ExifData::Double(decode_f64_bits_spec(order, bytes)))
    } else {
        None
    }
}

/// The value of an IFD entry with the given type, count and raw value field.
pub open spec fn field_value(
    data: Seq<u8>,
    order: ByteOrder,
    type_code: u16,
    count: nat,
    inline: Seq<u8>,
) -> Option<ExifData> {
    match value_bytes(data, order, type_code, count, inline) {
        None => None,
        Some(bytes) => decode_value(order, type_code, bytes),
    }
}

fn decode_sbytes(bytes: &[u8]) -> (r: Vec<i8>)
    ensures
        r@ == Seq::new(bytes@.len(), |i: int| bytes@[i] as i8),
{
    let mut r: Vec<i8> = Vec::new();
    let mut i: usize = 0;
    while i < bytes.len()
        invariant
            i <= bytes@.len(),
            r@ == Seq::new(i as nat, |k: int| bytes@[k] as i8),
        decreases bytes@.len() - i,
    {
        r.push(bytes[i] as i8);
        i = i + 1;
        assert(r@ =~= Seq::new(i as nat, |k: int| bytes@[k] as i8));
    }
    r
}

/// `inline` is the raw 4-byte value/offset field from the IFD entry, taken
/// verbatim (not byte-order-converted) since a value that fits in it is
/// stored left-justified as plain bytes, not as a swapped integer.
pub fn read_value(
    data: &[u8],
    order: ByteOrder,
    type_code: u16,
    count: usize,
    inline: [u8; 4],
) -> (r: Option<ExifValue>)
    ensures
        r is Some <==> field_value(data@, order, type_code, count as nat, inline@) is Some,
        r matches Some(v) ==> field_value(data@, order, type_code, count as nat, inline@) == Some(
            v@,
        ),
{
    let size = elem_size(type_code)?;
    let total = size.checked_mul(count)?;
    let bytes: &[u8] = if total <= 4 {
        vstd::slice::slice_subrange(inline.as_slice(), 0, total)
    } else {
        let offset = order.u32(inline) as usize;
        if offset > data.len() || total > data.len() - offset {
            return None;
        }
        vstd::slice::slice_subrange(data, offset, offset + total)
    };
    assert(value_bytes(data@, order, type_code, count as nat, inline@) == Some(bytes@));
    proof {
        assert(bytes@.len() == size * count);
        if size == 2 {
            assert(bytes@.len() % 2 == 0) by (nonlinear_arith)
                requires
                    bytes@.len() == 2 * count,
            ;
        } else if size == 4 {
            assert(bytes@.len() % 4 == 0) by (nonlinear_arith)
                requires
                    bytes@.len() == 4 * count,
            ;
        } else if size == 8 {
            assert(bytes@.len() % 8 == 0) by (nonlinear_arith)
                requires
                    bytes@.len() == 8 * count,
            ;
        }
    }
    let value = if type_code == 1 {
        ExifValue::Byte(vstd::slice::slice_to_vec(bytes))
    } else if type_code == 2 {
        proof {
            crate::text::lemma_zero_pos(bytes@);
        }
        let end = match find_zero(bytes) {
            Some(p) => p,
            None => bytes.len(),
        };
        ExifValue::Ascii(lossy_string(vstd::slice::slice_subrange(bytes, 0, end)))
    } else if type_code == 3 {
        ExifValue::Short(decode_u16s(order, bytes))
    } else if type_code == 4 {
        ExifValue::Long(decode_u32s(order, bytes))
    } else if type_code == 5 {
        ExifValue::Rational(decode_rationals(order, bytes))
    } else if type_code == 6 {
        ExifValue::SByte(decode_sbytes(bytes))
    } else if type_code == 7 {
        ExifValue::Undefined(vstd::slice::slice_to_vec(bytes))
    } else if type_code == 8 {
        ExifValue::SShort(decode_i16s(order, bytes))
    } else if type_code == 9 {
        ExifValue::SLong(decode_i32s(order, bytes))
    } else if type_code == 10 {
        ExifValue::SRational(decode_srationals(order, bytes))
    } else if type_code == 11 {
        ExifValue::Float(decode_f32_bits(order, bytes))
    } else {
        ExifValue::Double(decode_f64_bits(order, bytes))
    };
    Some(value)
}

} // verus!

verus! {

/// Entry `i` of the IFD whose 12-byte entries start at `start`: `None` if
/// the entry runs past the end of `data`; `Some(None)` for an entry whose
/// value can't be read, which is skipped; else its tag id and value.
pub open spec fn ifd_entry(data: Seq<u8>, order: ByteOrder, start: int, i: int) -> Option<
    Option<(u16, ExifData)>,
> {
    let e = start + 12 * i;
    if e + 12 > data.len() {
        None
    } else {
        let id = order_u16(order, data.subrange(e, e + 2));
        let type_code = order_u16(order, data.subrange(e + 2, e + 4));
        let count = order_u32(order, data.subrange(e + 4, e + 8));
        match field_value(data, order, type_code, count as nat, data.subrange(e + 8, e + 12)) {
            None => Some(None),
            Some(v) => Some(Some((id, v))),
        }
    }
}

/// The tags of the first `n` entries, in entry order; `None` as soon as one
/// entry runs past the end of `data`.
pub open spec fn ifd_tags(data: Seq<u8>, order: ByteOrder, start: int, n: int) -> Option<
    Seq<(u16, ExifData)>,
>
    decreases n,
{
    if n <= 0 {
        Some(Seq::empty())
    } else {
        match ifd_tags(data, order, start, n - 1) {
            None => None,
            Some(prev) => match ifd_entry(data, order, start, n - 1) {
                None => None,
                Some(None) => Some(prev),
                Some(Some(t)) => Some(prev.push(t)),
            },
        }
    }
}

/// The IFD at `offset`: a two-byte entry count, then the entries.
pub open spec fn ifd_spec(data: Seq<u8>, order: ByteOrder, offset: int) -> Option<
    Seq<(u16, ExifData)>,
> {
    if offset + 2 > data.len() {
        None
    } else {
        ifd_tags(
            data,
            order,
            offset + 2,
            order_u16(order, data.subrange(offset, offset + 2)) as int,
        )
    }
}

/// A TIFF header: "II" (little-endian) or "MM" (big-endian), the magic
/// number 42, and the offset of IFD0, whose tags are the result.
pub open spec fn tiff_spec(data: Seq<u8>) -> Option<Seq<(u16, ExifData)>> {
    if data.len() < 8 {
        None
    } else {
        let order = if data[0] == 0x49 && data[1] == 0x49 {
            Some(ByteOrder::Little)
        } else if data[0] == 0x4D && data[1] == 0x4D {
            Some(ByteOrder::Big)
        } else {
            None
        };
        match order {
            None => None,
            Some(o) => if order_u16(o, data.subrange(2, 4)) != 42 {
                None
            } else {
                ifd_spec(data, o, order_u32(o, data.subrange(4, 8)) as int)
            },
        }
    }
}

proof fn lemma_ifd_tags_fail(data: Seq<u8>, order: ByteOrder, start: int, m: int, n: int)
    requires
        0 <= m <= n,
        ifd_tags(data, order, start, m) is None,
    ensures
        ifd_tags(data, order, start, n) is None,
    decreases n - m,
{
    if m < n {
        lemma_ifd_tags_fail(data, order, start, m, n - 1);
    }
}

pub fn parse_ifd(data: &[u8], order: ByteOrder, offset: usize) -> (r: Option<Vec<ExifTag>>)
    ensures
        r is Some <==> ifd_spec(data@, order, offset as int) is Some,
        r matches Some(tags) ==> ifd_spec(data@, order, offset as int) == Some(
            tags_view(tags@),
        ),
{
    let dlen = data.len();
    let count = order.u16(read2(data, offset)?) as usize;
    let entries_start = offset + 2;
    let ghost start = entries_start as int;
    let mut tags: Vec<ExifTag> = Vec::new();
    assert(tags_view(tags@) =~= Seq::empty());
    let mut i: usize = 0;
    while i < count
        invariant
            i <= count,
            offset + 2 <= data@.len(),
            dlen == data@.len(),
            start == entries_start,
            entries_start == offset + 2,
            count == order_u16(order, data@.subrange(offset as int, offset + 2)),
            ifd_tags(data@, order, start, i as int) == Some(tags_view(tags@)),
        decreases count - i,
    {
        let ghost prev = tags@;
        let fail = i > (usize::MAX - entries_start) / 12;
        if fail {
            assert(start + 12 * i + 12 > data@.len()) by (nonlinear_arith)
                requires
                    i > (usize::MAX - start) / 12,
                    data@.len() <= usize::MAX,
                    start <= usize::MAX,
            ;
            proof {
                lemma_ifd_tags_fail(data@, order, start, i as int + 1, count as int);
            }
            return None;
        }
        assert(12 * i <= usize::MAX - entries_start) by (nonlinear_arith)
            requires
                i <= (usize::MAX - entries_start) / 12,
                entries_start <= usize::MAX,
        ;
        let entry = entries_start + i * 12;
        if entry > data.len() || data.len() - entry < 12 {
            proof {
                lemma_ifd_tags_fail(data@, order, start, i as int + 1, count as int);
            }
            return None;
        }
        let id = order.u16(read2(data, entry).unwrap());
        let type_code = order.u16(read2(data, entry + 2).unwrap());
        let field_count = order.u32(read4(data, entry + 4).unwrap()) as usize;
        let inline = read4(data, entry + 8).unwrap();
        if let Some(value) = read_value(data, order, type_code, field_count, inline) {
            let tag = ExifTag { id, value };
            tags.push(tag);
            assert(tags_view(tags@) =~= tags_view(prev).push(tag@));
        }
        i = i + 1;
    }
    Some(tags)
}

pub fn parse(data: &[u8]) -> (r: Option<Vec<ExifTag>>)
    ensures
        r is Some <==> tiff_spec(data@) is Some,
        r matches Some(tags) ==> tiff_spec(data@) == Some(tags_view(tags@)),
{
    if data.len() < 8 {
        return None;
    }
    let order = if data[0] == 0x49 && data[1] == 0x49 {
        ByteOrder::Little
    } else if data[0] == 0x4D && data[1] == 0x4D {
        ByteOrder::Big
    } else {
        return None;
    };
    if order.u16(read2(data, 2).unwrap()) != 42 {
        return None;
    }
    let ifd0_offset = order.u32(read4(data, 4).unwrap()) as usize;
    parse_ifd(data, order, ifd0_offset)
}

/// Parses IFD0 out of a raw TIFF-structured Exif payload. Returns an empty
/// list if the header doesn't look like valid TIFF or any offset in it runs
/// past the end of `data` - a photo with garbled Exif is still a valid
/// photo, and the caller cares more about width/height than a broken
/// metadata block.
pub fn parse_ifd0(data: &[u8]) -> (tags: Vec<ExifTag>)
    ensures
        tags_view(tags@) == (match tiff_spec(data@) {
            Some(t) => t,
            None => Seq::empty(),
        }),
{
    match parse(data) {
        Some(tags) => tags,
        None => {
            let tags: Vec<ExifTag> = Vec::new();
            assert(tags_view(tags@) =~= Seq::empty());
            tags
        },
    }
}

/// A RATIONAL field holds one numerator/denominator pair per eight bytes,
/// in either byte order: the numerator is always the first four bytes of
/// the eight and the denominator the last four, each read in the file's
/// order (Intel "II": least significant byte first; Motorola "MM": most
/// significant first).
pub proof fn lemma_rational_layout(order: ByteOrder, bytes: Seq<u8>, i: int)
    requires
        0 <= i < bytes.len() / 8,
    ensures
        decode_value(order, 5, bytes) matches Some(ExifData::Rational(v)) && v.len() == bytes.len()
            / 8 && v[i].0 as int == (match order {
            ByteOrder::Little => bytes[8 * i] + 0x100 * bytes[8 * i + 1] + 0x10000 * bytes[8 * i
                + 2] + 0x1000000 * bytes[8 * i + 3],
            ByteOrder::Big => 0x1000000 * bytes[8 * i] + 0x10000 * bytes[8 * i + 1] + 0x100
                * bytes[8 * i + 2] + bytes[8 * i + 3],
        }) && v[i].1 as int == (match order {
            ByteOrder::Little => bytes[8 * i + 4] + 0x100 * bytes[8 * i + 5] + 0x10000 * bytes[8
                * i + 6] + 0x1000000 * bytes[8 * i + 7],
            ByteOrder::Big => 0x1000000 * bytes[8 * i + 4] + 0x10000 * bytes[8 * i + 5] + 0x100
                * bytes[8 * i + 6] + bytes[8 * i + 7],
        }),
{
    assert(8 * i + 8 <= bytes.len()) by (nonlinear_arith)
        requires
            0 <= i < bytes.len() / 8,
    ;
    let a = bytes.subrange(8 * i, 8 * i + 4);
    let b = bytes.subrange(8 * i + 4, 8 * i + 8);
    assert(a[0] == bytes[8 * i] && a[1] == bytes[8 * i + 1] && a[2] == bytes[8 * i + 2] && a[3]
        == bytes[8 * i + 3]);
    assert(b[0] == bytes[8 * i + 4] && b[1] == bytes[8 * i + 5] && b[2] == bytes[8 * i + 6]
        && b[3] == bytes[8 * i + 7]);
}

/// SHORT and SSHORT fields hold one value per two bytes, read in the
/// file's byte order; SSHORT reads them as two's complement.
pub proof fn lemma_short_layout(order: ByteOrder, bytes: Seq<u8>, i: int)
    requires
        0 <= i < bytes.len() / 2,
    ensures
        ({
            let u: int = match order {
                ByteOrder::Little => bytes[2 * i] + 0x100 * bytes[2 * i + 1],
                ByteOrder::Big => 0x100 * bytes[2 * i] + bytes[2 * i + 1],
            };
            &&& decode_value(order, 3, bytes) matches Some(ExifData::Short(v)) && v.len()
                == bytes.len() / 2 && v[i] as int == u
            &&& decode_value(order, 8, bytes) matches Some(ExifData::SShort(v)) && v.len()
                == bytes.len() / 2 && v[i] as int == (if u < 0x8000 {
                u
            } else {
                u - 0x10000
            })
        }),
{
    assert(2 * i + 2 <= bytes.len()) by (nonlinear_arith)
        requires
            0 <= i < bytes.len() / 2,
    ;
    let a = bytes.subrange(2 * i, 2 * i + 2);
    assert(a[0] == bytes[2 * i] && a[1] == bytes[2 * i + 1]);
}

/// LONG, SLONG and FLOAT fields hold one value per four bytes, read in the
/// file's byte order; SLONG reads them as two's complement, and FLOAT is
/// kept as the IEEE 754 bit pattern so read.
pub proof fn lemma_long_layout(order: ByteOrder, bytes: Seq<u8>, i: int)
    requires
        0 <= i < bytes.len() / 4,
    ensures
        ({
            let u: int = match order {
                ByteOrder::Little => bytes[4 * i] + 0x100 * bytes[4 * i + 1] + 0x10000 * bytes[4
                    * i + 2] + 0x1000000 * bytes[4 * i + 3],
                ByteOrder::Big => 0x1000000 * bytes[4 * i] + 0x10000 * bytes[4 * i + 1] + 0x100
                    * bytes[4 * i + 2] + bytes[4 * i + 3],
            };
            &&& decode_value(order, 4, bytes) matches Some(ExifData::Long(v)) && v.len()
                == bytes.len() / 4 && v[i] as int == u
            &&& decode_value(order, 11, bytes) matches Some(ExifData::Float(v)) && v.len()
                == bytes.len() / 4 && v[i] as int == u
            &&& decode_value(order, 9, bytes) matches Some(ExifData::SLong(v)) && v.len()
                == bytes.len() / 4 && v[i] as int == (if u < 0x8000_0000 {
                u
            } else {
                u - 0x1_0000_0000
            })
        }),
{
    assert(4 * i + 4 <= bytes.len()) by (nonlinear_arith)
        requires
            0 <= i < bytes.len() / 4,
    ;
    let a = bytes.subrange(4 * i, 4 * i + 4);
    assert(a[0] == bytes[4 * i] && a[1] == bytes[4 * i + 1] && a[2] == bytes[4 * i + 2] && a[3]
        == bytes[4 * i + 3]);
}

/// An SRATIONAL field holds one signed numerator/denominator pair per eight
/// bytes: the numerator from the first four, the denominator from the last
/// four, each read in the file's byte order as two's complement.
pub proof fn lemma_srational_layout(order: ByteOrder, bytes: Seq<u8>, i: int)
    requires
        0 <= i < bytes.len() / 8,
    ensures
        ({
            let n: int = match order {
                ByteOrder::Little => bytes[8 * i] + 0x100 * bytes[8 * i + 1] + 0x10000 * bytes[8
                    * i + 2] + 0x1000000 * bytes[8 * i + 3],
                ByteOrder::Big => 0x1000000 * bytes[8 * i] + 0x10000 * bytes[8 * i + 1] + 0x100
                    * bytes[8 * i + 2] + bytes[8 * i + 3],
            };
            let d: int = match order {
                ByteOrder::Little => bytes[8 * i + 4] + 0x100 * bytes[8 * i + 5] + 0x10000
                    * bytes[8 * i + 6] + 0x1000000 * bytes[8 * i + 7],
                ByteOrder::Big => 0x1000000 * bytes[8 * i + 4] + 0x10000 * bytes[8 * i + 5]
                    + 0x100 * bytes[8 * i + 6] + bytes[8 * i + 7],
            };
            decode_value(order, 10, bytes) matches Some(ExifData::SRational(v)) && v.len()
                == bytes.len() / 8 && v[i].0 as int == (if n < 0x8000_0000 {
                n
            } else {
                n - 0x1_0000_0000
            }) && v[i].1 as int == (if d < 0x8000_0000 {
                d
            } else {
                d - 0x1_0000_0000
            })
        }),
{
    assert(8 * i + 8 <= bytes.len()) by (nonlinear_arith)
        requires
            0 <= i < bytes.len() / 8,
    ;
    let a = bytes.subrange(8 * i, 8 * i + 4);
    let b = bytes.subrange(8 * i + 4, 8 * i + 8);
    assert(a[0] == bytes[8 * i] && a[1] == bytes[8 * i + 1] && a[2] == bytes[8 * i + 2] && a[3]
        == bytes[8 * i + 3]);
    assert(b[0] == bytes[8 * i + 4] && b[1] == bytes[8 * i + 5] && b[2] == bytes[8 * i + 6]
        && b[3] == bytes[8 * i + 7]);
}

/// BYTE and UNDEFINED fields are their bytes as they stand, and SBYTE
/// fields the same bytes read as two's complement.
pub proof fn lemma_byte_layout(order: ByteOrder, bytes: Seq<u8>)
    ensures
        decode_value(order, 1, bytes) == Some(ExifData::Byte(bytes)),
        decode_value(order, 7, bytes) == Some(ExifData::Undefined(bytes)),
        decode_value(order, 6, bytes) matches Some(ExifData::SByte(v)) && v.len() == bytes.len()
            && forall|i: int| 0 <= i < bytes.len() ==> v[i] as int == (if bytes[i] < 0x80 {
                bytes[i] as int
            } else {
                bytes[i] - 0x100
            }),
{
    assert forall|i: int| 0 <= i < bytes.len() implies (bytes[i] as i8) as int == (if bytes[i]
        < 0x80 {
        bytes[i] as int
    } else {
        bytes[i] - 0x100
    }) by {
        let b = bytes[i];
        assert(((b as i8) as i16) == (if b < 128u8 {
            b as i16
        } else {
            ((b as i16) - 256i16) as i16
        })) by (bit_vector);
    }
}

/// The element size of each TIFF field type (TIFF 6.0 section 2): one byte
/// for BYTE, ASCII, SBYTE and UNDEFINED, two for SHORT and SSHORT, four
/// for LONG, SLONG and FLOAT, eight for RATIONAL, SRATIONAL and DOUBLE;
/// other type codes are not known.
pub proof fn lemma_type_sizes(type_code: u16)
    ensures
        type_size(type_code) == (if type_code == 1 || type_code == 2 || type_code == 6 || type_code
            == 7 {
            Some(1nat)
        } else if type_code == 3 || type_code == 8 {
            Some(2nat)
        } else if type_code == 4 || type_code == 9 || type_code == 11 {
            Some(4nat)
        } else if type_code == 5 || type_code == 10 || type_code == 12 {
            Some(8nat)
        } else {
            None
        }),
{
}

/// A TIFF header is "II" 2A 00 (Intel order) or "MM" 00 2A (Motorola
/// order) followed by the offset of IFD0 in that order; the tags are those
/// of that IFD read in that order. Data with any other header has none.
pub proof fn lemma_tiff_header(data: Seq<u8>)
    requires
        data.len() >= 8,
    ensures
        data[0] == 0x49 && data[1] == 0x49 && data[2] == 0x2A && data[3] == 0 ==> tiff_spec(data)
            == ifd_spec(
            data,
            ByteOrder::Little,
            data[4] + 0x100 * data[5] + 0x10000 * data[6] + 0x1000000 * data[7],
        ),
        data[0] == 0x4D && data[1] == 0x4D && data[2] == 0 && data[3] == 0x2A ==> tiff_spec(data)
            == ifd_spec(
            data,
            ByteOrder::Big,
            0x1000000 * data[4] + 0x10000 * data[5] + 0x100 * data[6] + data[7],
        ),
        !(data[0] == 0x49 && data[1] == 0x49 && data[2] == 0x2A && data[3] == 0) && !(data[0]
            == 0x4D && data[1] == 0x4D && data[2] == 0 && data[3] == 0x2A) ==> tiff_spec(data)
            is None,
{
    let m = data.subrange(2, 4);
    let f = data.subrange(4, 8);
    assert(m[0] == data[2] && m[1] == data[3]);
    assert(f[0] == data[4] && f[1] == data[5] && f[2] == data[6] && f[3] == data[7]);
}

/// An IFD entry is twelve bytes: the tag id (two bytes), the field type
/// (two bytes), the count of values (four bytes), then four bytes that hold
/// the value itself or its offset, each read in the file's byte order. An
/// entry that runs past the end of the data ends the IFD; one whose value
/// cannot be read is skipped.
pub proof fn lemma_ifd_entry_layout(data: Seq<u8>, order: ByteOrder, start: int, i: int)
    requires
        0 <= start,
        0 <= i,
    ensures
        ({
            let e = start + 12 * i;
            let u16_at = |k: int|
                match order {
                    ByteOrder::Little => data[k] + 0x100 * data[k + 1],
                    ByteOrder::Big => 0x100 * data[k] + data[k + 1],
                };
            let u32_at = |k: int|
                match order {
                    ByteOrder::Little => data[k] + 0x100 * data[k + 1] + 0x10000 * data[k + 2]
                        + 0x1000000 * data[k + 3],
                    ByteOrder::Big => 0x1000000 * data[k] + 0x10000 * data[k + 1] + 0x100 * data[k
                        + 2] + data[k + 3],
                };
            &&& e + 12 > data.len() ==> ifd_entry(data, order, start, i) is None
            &&& e + 12 <= data.len() ==> ifd_entry(data, order, start, i) == match field_value(
                data,
                order,
                u16_at(e + 2) as u16,
                u32_at(e + 4) as nat,
                data.subrange(e + 8, e + 12),
            ) {
                None => Some(None),
                Some(v) => Some(Some((u16_at(e) as u16, v))),
            }
        }),
{
    let e = start + 12 * i;
    if e + 12 <= data.len() {
        let a = data.subrange(e, e + 2);
        let b = data.subrange(e + 2, e + 4);
        let c = data.subrange(e + 4, e + 8);
        assert(a[0] == data[e] && a[1] == data[e + 1]);
        assert(b[0] == data[e + 2] && b[1] == data[e + 3]);
        assert(c[0] == data[e + 4] && c[1] == data[e + 5] && c[2] == data[e + 6] && c[3] == data[e
            + 7]);
    }
}

/// Where a field's value stands: inside the entry when its type's element
/// size times its count is at most four bytes (the first bytes of the value
/// field), else at the offset that the value field holds, read in the file's
/// byte order; a value that runs past the end of the data cannot be read.
pub proof fn lemma_value_place(
    data: Seq<u8>,
    order: ByteOrder,
    type_code: u16,
    count: nat,
    inline: Seq<u8>,
)
    requires
        inline.len() == 4,
    ensures
        type_size(type_code) matches Some(size) ==> {
            let total = size * count;
            let offset: int = match order {
                ByteOrder::Little => inline[0] + 0x100 * inline[1] + 0x10000 * inline[2]
                    + 0x1000000 * inline[3],
                ByteOrder::Big => 0x1000000 * inline[0] + 0x10000 * inline[1] + 0x100 * inline[2]
                    + inline[3],
            };
            &&& total <= 4 ==> value_bytes(data, order, type_code, count, inline) == Some(
                inline.take(total as int),
            )
            &&& 4 < total && offset + total <= data.len() && total <= usize::MAX ==> value_bytes(
                data,
                order,
                type_code,
                count,
                inline,
            ) == Some(data.subrange(offset, offset + total))
            &&& 4 < total && offset + total > data.len() ==> value_bytes(
                data,
                order,
                type_code,
                count,
                inline,
            ) is None
        },
        type_size(type_code) is None ==> value_bytes(data, order, type_code, count, inline) is None,
{
}

} // verus!
