//! The metadata report as JSON text.

use vstd::prelude::*;

use crate::exif::{tags_view, ExifData, ExifValue};
use crate::png::pair_view;
use crate::json::{hex, hex_digit, hex_value, json_quoted, json_string, push_char};
use crate::{Format, ImageMetadata};

verus! {

fn push_str(out: &mut String, s: &str)
    ensures
        final(out)@ == old(out)@ + s@,
{
    broadcast use vstd::string::group_string_axioms;

    for c in it: s.chars()
        invariant
            it.seq() == s@,
            out@ == old(out)@ + s@.take(it.index()),
    {
        assert(s@.take(it.index() + 1) =~= s@.take(it.index()).push(c));
        push_char(out, c);
        assert(out@ =~= old(out)@ + s@.take(it.index() + 1));
    }
    assert(s@.take(s@.len() as int) =~= s@);
}

/// The decimal digits of `n`, most significant first, without leading
/// zeros.
pub open spec fn decimal(n: nat) -> Seq<char>
    decreases n,
{
    if n < 10 {
        seq![(48 + n) as char]
    } else {
        decimal(n / 10).push((48 + n % 10) as char)
    }
}

/// `i` in decimal, with a minus sign when it is negative.
pub open spec fn signed_decimal(i: int) -> Seq<char> {
    if i < 0 {
        seq!['-'] + decimal((-i) as nat)
    } else {
        decimal(i as nat)
    }
}

fn push_decimal(out: &mut String, n: u64)
    ensures
        final(out)@ == old(out)@ + decimal(n as nat),
    decreases n,
{
    if n >= 10 {
        push_decimal(out, n / 10);
    }
    let d = n % 10;
    let c = ((48 + d) as u8) as char;
    push_char(out, c);
    assert(out@ =~= old(out)@ + decimal(n as nat));
}

fn push_signed(out: &mut String, i: i32)
    ensures
        final(out)@ == old(out)@ + signed_decimal(i as int),
{
    if i < 0 {
        push_char(out, '-');
        push_decimal(out, (0 - (i as i64)) as u64);
        assert(out@ =~= old(out)@ + signed_decimal(i as int));
    } else {
        push_decimal(out, i as u64);
    }
}

/// Items separated by commas.
pub open spec fn comma_list(items: Seq<Seq<char>>) -> Seq<char>
    decreases items.len(),
{
    if items.len() == 0 {
        Seq::empty()
    } else if items.len() == 1 {
        items[0]
    } else {
        comma_list(items.drop_last()) + seq![','] + items.last()
    }
}


proof fn lemma_comma_list_push(items: Seq<Seq<char>>, y: Seq<char>)
    ensures
        comma_list(items.push(y)) == comma_list(items) + separator(items.len()) + y,
{
    assert(items.push(y).drop_last() =~= items);
    if items.len() == 0 {
        assert(comma_list(items) + separator(items.len()) + y =~= y);
    }
}

/// The comma that goes before item `k` of a list.
pub open spec fn separator(k: nat) -> Seq<char> {
    if k == 0 {
        Seq::empty()
    } else {
        seq![',']
    }
}

fn push_separator(out: &mut String, k: usize)
    ensures
        final(out)@ == old(out)@ + separator(k as nat),
{
    if k > 0 {
        push_char(out, ',');
    } else {
        assert(out@ =~= old(out)@ + separator(k as nat));
    }
}

/// Numbers as the contents of a JSON array.
pub open spec fn number_list(v: Seq<int>) -> Seq<char> {
    comma_list(v.map_values(|x: int| signed_decimal(x)))
}

proof fn lemma_number_list_push(v: Seq<int>, x: int)
    ensures
        number_list(v.push(x)) == number_list(v) + separator(v.len()) + signed_decimal(x),
{
    assert(v.push(x).map_values(|x: int| signed_decimal(x)) =~= v.map_values(
        |x: int| signed_decimal(x),
    ).push(signed_decimal(x)));
    lemma_comma_list_push(v.map_values(|x: int| signed_decimal(x)), signed_decimal(x));
}

/// A fraction as a two-element JSON array.
pub open spec fn pair_text(p: (int, int)) -> Seq<char> {
    seq!['['] + signed_decimal(p.0) + seq![','] + signed_decimal(p.1) + seq![']']
}

/// Fractions as the contents of a JSON array.
pub open spec fn pair_list(v: Seq<(int, int)>) -> Seq<char> {
    comma_list(v.map_values(|p: (int, int)| pair_text(p)))
}

proof fn lemma_pair_list_push(v: Seq<(int, int)>, p: (int, int))
    ensures
        pair_list(v.push(p)) == pair_list(v) + separator(v.len()) + pair_text(p),
{
    assert(v.push(p).map_values(|p: (int, int)| pair_text(p)) =~= v.map_values(
        |p: (int, int)| pair_text(p),
    ).push(pair_text(p)));
    lemma_comma_list_push(v.map_values(|p: (int, int)| pair_text(p)), pair_text(p));
}

pub open spec fn u8_ints(v: Seq<u8>) -> Seq<int> {
    v.map_values(|x: u8| x as int)
}

pub open spec fn u16_ints(v: Seq<u16>) -> Seq<int> {
    v.map_values(|x: u16| x as int)
}

pub open spec fn u32_ints(v: Seq<u32>) -> Seq<int> {
    v.map_values(|x: u32| x as int)
}

pub open spec fn i8_ints(v: Seq<i8>) -> Seq<int> {
    v.map_values(|x: i8| x as int)
}

pub open spec fn i16_ints(v: Seq<i16>) -> Seq<int> {
    v.map_values(|x: i16| x as int)
}

pub open spec fn i32_ints(v: Seq<i32>) -> Seq<int> {
    v.map_values(|x: i32| x as int)
}

pub open spec fn u32_pairs(v: Seq<(u32, u32)>) -> Seq<(int, int)> {
    v.map_values(|p: (u32, u32)| (p.0 as int, p.1 as int))
}

pub open spec fn i32_pairs(v: Seq<(i32, i32)>) -> Seq<(int, int)> {
    v.map_values(|p: (i32, i32)| (p.0 as int, p.1 as int))
}

pub open spec fn texts(v: Seq<String>) -> Seq<Seq<char>> {
    v.map_values(|s: String| s@)
}

fn push_u8s(out: &mut String, v: &Vec<u8>)
    ensures
        final(out)@ == old(out)@ + number_list(u8_ints(v@)),
{
    let mut k: usize = 0;
    while k < v.len()
        invariant
            k <= v.len(),
            out@ == old(out)@ + number_list(u8_ints(v@.take(k as int))),
        decreases v.len() - k,
    {
        assert(u8_ints(v@.take(k + 1)) =~= u8_ints(v@.take(k as int)).push(v@[k as int] as int));
        proof {
            lemma_number_list_push(u8_ints(v@.take(k as int)), v@[k as int] as int);
        }
        push_separator(out, k);
        push_decimal(out, v[k] as u64);
        k = k + 1;
        assert(out@ =~= old(out)@ + number_list(u8_ints(v@.take(k as int))));
    }
    assert(v@.take(v.len() as int) =~= v@);
}

fn push_u16s(out: &mut String, v: &Vec<u16>)
    ensures
        final(out)@ == old(out)@ + number_list(u16_ints(v@)),
{
    let mut k: usize = 0;
    while k < v.len()
        invariant
            k <= v.len(),
            out@ == old(out)@ + number_list(u16_ints(v@.take(k as int))),
        decreases v.len() - k,
    {
        assert(u16_ints(v@.take(k + 1)) =~= u16_ints(v@.take(k as int)).push(v@[k as int] as int));
        proof {
            lemma_number_list_push(u16_ints(v@.take(k as int)), v@[k as int] as int);
        }
        push_separator(out, k);
        push_decimal(out, v[k] as u64);
        k = k + 1;
        assert(out@ =~= old(out)@ + number_list(u16_ints(v@.take(k as int))));
    }
    assert(v@.take(v.len() as int) =~= v@);
}

fn push_u32s(out: &mut String, v: &Vec<u32>)
    ensures
        final(out)@ == old(out)@ + number_list(u32_ints(v@)),
{
    let mut k: usize = 0;
    while k < v.len()
        invariant
            k <= v.len(),
            out@ == old(out)@ + number_list(u32_ints(v@.take(k as int))),
        decreases v.len() - k,
    {
        assert(u32_ints(v@.take(k + 1)) =~= u32_ints(v@.take(k as int)).push(v@[k as int] as int));
        proof {
            lemma_number_list_push(u32_ints(v@.take(k as int)), v@[k as int] as int);
        }
        push_separator(out, k);
        push_decimal(out, v[k] as u64);
        k = k + 1;
        assert(out@ =~= old(out)@ + number_list(u32_ints(v@.take(k as int))));
    }
    assert(v@.take(v.len() as int) =~= v@);
}

fn push_i8s(out: &mut String, v: &Vec<i8>)
    ensures
        final(out)@ == old(out)@ + number_list(i8_ints(v@)),
{
    let mut k: usize = 0;
    while k < v.len()
        invariant
            k <= v.len(),
            out@ == old(out)@ + number_list(i8_ints(v@.take(k as int))),
        decreases v.len() - k,
    {
        assert(i8_ints(v@.take(k + 1)) =~= i8_ints(v@.take(k as int)).push(v@[k as int] as int));
        proof {
            lemma_number_list_push(i8_ints(v@.take(k as int)), v@[k as int] as int);
        }
        push_separator(out, k);
        push_signed(out, v[k] as i32);
        k = k + 1;
        assert(out@ =~= old(out)@ + number_list(i8_ints(v@.take(k as int))));
    }
    assert(v@.take(v.len() as int) =~= v@);
}

fn push_i16s(out: &mut String, v: &Vec<i16>)
    ensures
        final(out)@ == old(out)@ + number_list(i16_ints(v@)),
{
    let mut k: usize = 0;
    while k < v.len()
        invariant
            k <= v.len(),
            out@ == old(out)@ + number_list(i16_ints(v@.take(k as int))),
        decreases v.len() - k,
    {
        assert(i16_ints(v@.take(k + 1)) =~= i16_ints(v@.take(k as int)).push(v@[k as int] as int));
        proof {
            lemma_number_list_push(i16_ints(v@.take(k as int)), v@[k as int] as int);
        }
        push_separator(out, k);
        push_signed(out, v[k] as i32);
        k = k + 1;
        assert(out@ =~= old(out)@ + number_list(i16_ints(v@.take(k as int))));
    }
    assert(v@.take(v.len() as int) =~= v@);
}

fn push_i32s(out: &mut String, v: &Vec<i32>)
    ensures
        final(out)@ == old(out)@ + number_list(i32_ints(v@)),
{
    let mut k: usize = 0;
    while k < v.len()
        invariant
            k <= v.len(),
            out@ == old(out)@ + number_list(i32_ints(v@.take(k as int))),
        decreases v.len() - k,
    {
        assert(i32_ints(v@.take(k + 1)) =~= i32_ints(v@.take(k as int)).push(v@[k as int] as int));
        proof {
            lemma_number_list_push(i32_ints(v@.take(k as int)), v@[k as int] as int);
        }
        push_separator(out, k);
        push_signed(out, v[k]);
        k = k + 1;
        assert(out@ =~= old(out)@ + number_list(i32_ints(v@.take(k as int))));
    }
    assert(v@.take(v.len() as int) =~= v@);
}

fn push_u32_pairs(out: &mut String, v: &Vec<(u32, u32)>)
    ensures
        final(out)@ == old(out)@ + pair_list(u32_pairs(v@)),
{
    let mut k: usize = 0;
    while k < v.len()
        invariant
            k <= v.len(),
            out@ == old(out)@ + pair_list(u32_pairs(v@.take(k as int))),
        decreases v.len() - k,
    {
        let (n, d) = v[k];
        assert(u32_pairs(v@.take(k + 1)) =~= u32_pairs(v@.take(k as int)).push((n as int, d as int)));
        proof {
            lemma_pair_list_push(u32_pairs(v@.take(k as int)), (n as int, d as int));
        }
        push_separator(out, k);
        push_char(out, '[');
        push_decimal(out, n as u64);
        push_char(out, ',');
        push_decimal(out, d as u64);
        push_char(out, ']');
        k = k + 1;
        assert(out@ =~= old(out)@ + pair_list(u32_pairs(v@.take(k as int))));
    }
    assert(v@.take(v.len() as int) =~= v@);
}

fn push_i32_pairs(out: &mut String, v: &Vec<(i32, i32)>)
    ensures
        final(out)@ == old(out)@ + pair_list(i32_pairs(v@)),
{
    let mut k: usize = 0;
    while k < v.len()
        invariant
            k <= v.len(),
            out@ == old(out)@ + pair_list(i32_pairs(v@.take(k as int))),
        decreases v.len() - k,
    {
        let (n, d) = v[k];
        assert(i32_pairs(v@.take(k + 1)) =~= i32_pairs(v@.take(k as int)).push((n as int, d as int)));
        proof {
            lemma_pair_list_push(i32_pairs(v@.take(k as int)), (n as int, d as int));
        }
        push_separator(out, k);
        push_char(out, '[');
        push_signed(out, n);
        push_char(out, ',');
        push_signed(out, d);
        push_char(out, ']');
        k = k + 1;
        assert(out@ =~= old(out)@ + pair_list(i32_pairs(v@.take(k as int))));
    }
    assert(v@.take(v.len() as int) =~= v@);
}

fn push_texts(out: &mut String, v: &Vec<String>)
    ensures
        final(out)@ == old(out)@ + comma_list(texts(v@)),
{
    let mut k: usize = 0;
    while k < v.len()
        invariant
            k <= v.len(),
            out@ == old(out)@ + comma_list(texts(v@.take(k as int))),
        decreases v.len() - k,
    {
        assert(texts(v@.take(k + 1)) =~= texts(v@.take(k as int)).push(v@[k as int]@));
        proof {
            lemma_comma_list_push(texts(v@.take(k as int)), v@[k as int]@);
        }
        push_separator(out, k);
        push_str(out, v[k].as_str());
        k = k + 1;
        assert(out@ =~= old(out)@ + comma_list(texts(v@.take(k as int))));
    }
    assert(v@.take(v.len() as int) =~= v@);
}

/// A field's type name and its values, as the members of a JSON object.
pub open spec fn typed_values(name: Seq<char>, values: Seq<char>) -> Seq<char> {
    "\"type\":\""@ + name + "\",\"value\":["@ + values + "]"@
}

/// An Exif field as JSON object members: a `"type"` that tells apart the
/// numeric kinds, which would otherwise all read as plain numbers, and
/// its `"value"`. FLOAT and DOUBLE values come already written out, in
/// `floats`.
pub open spec fn value_json(v: ExifData, floats: Seq<Seq<char>>) -> Seq<char> {
    match v {
        ExifData::Byte(x) => typed_values("Byte"@, number_list(u8_ints(x))),
        ExifData::Ascii(s) => "\"type\":\"Ascii\",\"value\":"@ + json_quoted(s),
        ExifData::Short(x) => typed_values("Short"@, number_list(u16_ints(x))),
        ExifData::Long(x) => typed_values("Long"@, number_list(u32_ints(x))),
        ExifData::Rational(x) => typed_values("Rational"@, pair_list(u32_pairs(x))),
        ExifData::SByte(x) => typed_values("SByte"@, number_list(i8_ints(x))),
        ExifData::Undefined(x) => typed_values("Undefined"@, number_list(u8_ints(x))),
        ExifData::SShort(x) => typed_values("SShort"@, number_list(i16_ints(x))),
        ExifData::SLong(x) => typed_values("SLong"@, number_list(i32_ints(x))),
        ExifData::SRational(x) => typed_values("SRational"@, pair_list(i32_pairs(x))),
        ExifData::Float(_) => typed_values("Float"@, comma_list(floats)),
        ExifData::Double(_) => typed_values("Double"@, comma_list(floats)),
    }
}

fn push_typed_start(out: &mut String, name: &str)
    ensures
        final(out)@ == old(out)@ + "\"type\":\""@ + name@ + "\",\"value\":["@,
{
    push_str(out, "\"type\":\"");
    push_str(out, name);
    push_str(out, "\",\"value\":[");
}

pub fn exif_value_json(value: &ExifValue, floats: &Vec<String>) -> (out: String)
    ensures
        out@ == value_json(value@, texts(floats@)),
{
    let mut out = String::new();
    match value {
        ExifValue::Ascii(s) => {
            push_str(&mut out, "\"type\":\"Ascii\",\"value\":");
            let q = json_string(s.as_str());
            push_str(&mut out, q.as_str());
            return out;
        },
        ExifValue::Byte(x) => {
            push_typed_start(&mut out, "Byte");
            push_u8s(&mut out, x);
        },
        ExifValue::Short(x) => {
            push_typed_start(&mut out, "Short");
            push_u16s(&mut out, x);
        },
        ExifValue::Long(x) => {
            push_typed_start(&mut out, "Long");
            push_u32s(&mut out, x);
        },
        ExifValue::Rational(x) => {
            push_typed_start(&mut out, "Rational");
            push_u32_pairs(&mut out, x);
        },
        ExifValue::SByte(x) => {
            push_typed_start(&mut out, "SByte");
            push_i8s(&mut out, x);
        },
        ExifValue::Undefined(x) => {
            push_typed_start(&mut out, "Undefined");
            push_u8s(&mut out, x);
        },
        ExifValue::SShort(x) => {
            push_typed_start(&mut out, "SShort");
            push_i16s(&mut out, x);
        },
        ExifValue::SLong(x) => {
            push_typed_start(&mut out, "SLong");
            push_i32s(&mut out, x);
        },
        ExifValue::SRational(x) => {
            push_typed_start(&mut out, "SRational");
            push_i32_pairs(&mut out, x);
        },
        ExifValue::Float(_) => {
            push_typed_start(&mut out, "Float");
            push_texts(&mut out, floats);
        },
        ExifValue::Double(_) => {
            push_typed_start(&mut out, "Double");
            push_texts(&mut out, floats);
        },
    }
    push_str(&mut out, "]");
    out
}

/// A tag number as `0x` and four lower-case hexadecimal digits.
pub open spec fn hex_id(id: u16) -> Seq<char> {
    let n = id as int;
    seq!['0', 'x', hex_digit(n / 4096), hex_digit(n / 256 % 16), hex_digit(n / 16 % 16), hex_digit(n % 16)]
}

/// One Exif field as a JSON object.
pub open spec fn tag_json(tag: (u16, ExifData), floats: Seq<Seq<char>>) -> Seq<char> {
    "{\"id\":\""@ + hex_id(tag.0) + "\","@ + value_json(tag.1, floats) + "}"@
}

/// One text chunk as a JSON object.
pub open spec fn text_json(kv: (Seq<char>, Seq<char>)) -> Seq<char> {
    "{\"keyword\":"@ + json_quoted(kv.0) + ",\"value\":"@ + json_quoted(kv.1) + "}"@
}

pub open spec fn format_name(f: Format) -> Seq<char> {
    match f {
        Format::Jpeg => "jpeg"@,
        Format::Png => "png"@,
    }
}

/// The written-out FLOAT or DOUBLE values of field `i`; none where
/// `floats` has no entry for it.
pub open spec fn floats_at(floats: Seq<Seq<Seq<char>>>, i: int) -> Seq<Seq<char>> {
    if 0 <= i < floats.len() {
        floats[i]
    } else {
        Seq::empty()
    }
}

/// The Exif fields as the contents of a JSON array.
pub open spec fn tags_json(tags: Seq<(u16, ExifData)>, floats: Seq<Seq<Seq<char>>>) -> Seq<char> {
    comma_list(Seq::new(tags.len(), |i: int| tag_json(tags[i], floats_at(floats, i))))
}

/// The text chunks as the contents of a JSON array.
pub open spec fn texts_json(text: Seq<(Seq<char>, Seq<char>)>) -> Seq<char> {
    comma_list(text.map_values(|kv: (Seq<char>, Seq<char>)| text_json(kv)))
}

/// The whole report: format, dimensions, Exif fields and text chunks.
pub open spec fn metadata_json(
    format: Format,
    width: u32,
    height: u32,
    tags: Seq<(u16, ExifData)>,
    floats: Seq<Seq<Seq<char>>>,
    text: Seq<(Seq<char>, Seq<char>)>,
) -> Seq<char> {
    "{\"format\":\""@ + format_name(format) + "\",\"width\":"@ + decimal(width as nat)
        + ",\"height\":"@ + decimal(height as nat) + ",\"exif\":["@ + tags_json(tags, floats)
        + "],\"text\":["@ + texts_json(text) + "]}"@
}

fn push_hex_id(out: &mut String, id: u16)
    ensures
        final(out)@ == old(out)@ + hex_id(id),
{
    let n = id as u32;
    push_char(out, '0');
    push_char(out, 'x');
    push_char(out, hex(n / 4096));
    push_char(out, hex(n / 256 % 16));
    push_char(out, hex(n / 16 % 16));
    push_char(out, hex(n % 16));
    assert(out@ =~= old(out)@ + hex_id(id));
}

/// The written-out float values of each field, as character sequences.
pub open spec fn float_views(floats: Seq<Vec<String>>) -> Seq<Seq<Seq<char>>> {
    floats.map_values(|v: Vec<String>| texts(v@))
}

/// Renders the metadata as one line of JSON. FLOAT and DOUBLE Exif values
/// are taken already written out: entry `i` of `floats` for field `i`.
pub fn to_json(meta: &ImageMetadata, floats: &Vec<Vec<String>>) -> (out: String)
    ensures
        out@ == metadata_json(
            meta.format,
            meta.width,
            meta.height,
            tags_view(meta.exif@),
            float_views(floats@),
            meta.text@.map_values(|p: (String, String)| pair_view(p)),
        ),
{
    let ghost tags = tags_view(meta.exif@);
    let ghost fl = float_views(floats@);
    let mut out = String::new();
    push_str(&mut out, "{\"format\":\"");
    match meta.format {
        Format::Jpeg => push_str(&mut out, "jpeg"),
        Format::Png => push_str(&mut out, "png"),
    }
    push_str(&mut out, "\",\"width\":");
    push_decimal(&mut out, meta.width as u64);
    push_str(&mut out, ",\"height\":");
    push_decimal(&mut out, meta.height as u64);
    push_str(&mut out, ",\"exif\":[");
    let ghost start = out@;
    let empty: Vec<String> = Vec::new();
    let mut k: usize = 0;
    while k < meta.exif.len()
        invariant
            k <= meta.exif.len(),
            tags == tags_view(meta.exif@),
            fl == float_views(floats@),
            empty@.len() == 0,
            out@ == start + comma_list(
                Seq::new(k as nat, |i: int| tag_json(tags[i], floats_at(fl, i))),
            ),
        decreases meta.exif.len() - k,
    {
        let tag = &meta.exif[k];
        let f = if k < floats.len() {
            &floats[k]
        } else {
            &empty
        };
        assert(texts(f@) == floats_at(fl, k as int)) by {
            if k < floats.len() {
            } else {
                assert(texts(f@) =~= Seq::<Seq<char>>::empty());
            }
        }
        let ghost items = Seq::new(k as nat, |i: int| tag_json(tags[i], floats_at(fl, i)));
        proof {
            lemma_comma_list_push(items, tag_json(tags[k as int], floats_at(fl, k as int)));
        }
        push_separator(&mut out, k);
        push_str(&mut out, "{\"id\":\"");
        push_hex_id(&mut out, tag.id);
        push_str(&mut out, "\",");
        let v = exif_value_json(&tag.value, f);
        push_str(&mut out, v.as_str());
        push_str(&mut out, "}");
        k = k + 1;
        assert(Seq::new(k as nat, |i: int| tag_json(tags[i], floats_at(fl, i))) =~= items.push(
            tag_json(tags[k - 1], floats_at(fl, k - 1)),
        ));
        assert(out@ =~= start + comma_list(
            Seq::new(k as nat, |i: int| tag_json(tags[i], floats_at(fl, i))),
        ));
    }
    assert(Seq::new(meta.exif@.len(), |i: int| tag_json(tags[i], floats_at(fl, i))) =~= Seq::new(
        tags.len(),
        |i: int| tag_json(tags[i], floats_at(fl, i)),
    ));
    push_str(&mut out, "],\"text\":[");
    let ghost start2 = out@;
    let ghost text = meta.text@.map_values(|p: (String, String)| pair_view(p));
    let mut j: usize = 0;
    while j < meta.text.len()
        invariant
            j <= meta.text.len(),
            text == meta.text@.map_values(|p: (String, String)| pair_view(p)),
            out@ == start2 + texts_json(text.take(j as int)),
        decreases meta.text.len() - j,
    {
        let ghost items = text.take(j as int).map_values(
            |kv: (Seq<char>, Seq<char>)| text_json(kv),
        );
        assert(text.take(j + 1).map_values(|kv: (Seq<char>, Seq<char>)| text_json(kv))
            =~= items.push(text_json(text[j as int])));
        proof {
            lemma_comma_list_push(items, text_json(text[j as int]));
        }
        push_separator(&mut out, j);
        push_str(&mut out, "{\"keyword\":");
        let key = json_string(meta.text[j].0.as_str());
        push_str(&mut out, key.as_str());
        push_str(&mut out, ",\"value\":");
        let val = json_string(meta.text[j].1.as_str());
        push_str(&mut out, val.as_str());
        push_str(&mut out, "}");
        j = j + 1;
        assert(out@ =~= start2 + texts_json(text.take(j as int)));
    }
    assert(text.take(text.len() as int) =~= text);
    push_str(&mut out, "]}");
    out
}

/// The number that decimal digits stand for, most significant first.
pub open spec fn digits_value(s: Seq<char>) -> int
    decreases s.len(),
{
    if s.len() == 0 {
        0
    } else {
        10 * digits_value(s.drop_last()) + ((s.last() as u32) as int - 48)
    }
}

/// Numbers are written in plain decimal: only the digits 0-9, no leading
/// zero, and read back as digits they give the number again.
pub proof fn lemma_decimal_reads_back(n: nat)
    ensures
        decimal(n).len() >= 1,
        forall|i: int| 0 <= i < decimal(n).len() ==> 48 <= (#[trigger] decimal(n)[i]) as u32 <= 57,
        n > 0 ==> decimal(n)[0] != '0',
        digits_value(decimal(n)) == n,
    decreases n,
{
    let c = (48 + n % 10) as char;
    assert((c as u32) as int == 48 + n % 10);
    if n >= 10 {
        lemma_decimal_reads_back(n / 10);
        let d = decimal(n);
        assert(d.drop_last() =~= decimal(n / 10));
        assert(d[0] == decimal(n / 10)[0]);
        assert forall|i: int| 0 <= i < d.len() implies 48 <= (#[trigger] d[i]) as u32 <= 57 by {
            if i < d.len() - 1 {
                assert(d[i] == decimal(n / 10)[i]);
            }
        }
        assert(d.last() == c);
        assert(digits_value(d) == 10 * digits_value(d.drop_last()) + ((d.last() as u32) as int
            - 48));
        assert(10 * (n / 10) + n % 10 == n);
    } else {
        let d = decimal(n);
        assert(d.drop_last() =~= Seq::<char>::empty());
        assert(d.last() == c);
        assert(digits_value(d.drop_last()) == 0);
        assert(digits_value(d) == 10 * digits_value(d.drop_last()) + ((d.last() as u32) as int
            - 48));
    }
}

/// A tag number is written as `0x` and four hexadecimal digits that read
/// back as the number, most significant first.
pub proof fn lemma_hex_id_reads_back(id: u16)
    ensures
        hex_id(id).len() == 6,
        hex_id(id)[0] == '0' && hex_id(id)[1] == 'x',
        hex_value(hex_id(id)[2]) matches Some(a) && hex_value(hex_id(id)[3]) matches Some(b)
            && hex_value(hex_id(id)[4]) matches Some(c) && hex_value(hex_id(id)[5]) matches Some(d)
            && 4096 * a + 256 * b + 16 * c + d == id,
{
    let n = id as int;
    assert(n / 4096 < 16);
    assert(n == 4096 * (n / 4096) + 256 * (n / 256 % 16) + 16 * (n / 16 % 16) + n % 16);
}

} // verus!
