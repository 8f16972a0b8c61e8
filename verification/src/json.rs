//! JSON string quoting for the metadata report.

use vstd::prelude::*;

verus! {

/// Calls `String::push`, which appends one character.
#[verifier::external_body]
pub(crate) fn push_char(s: &mut String, c: char)
    ensures
        final(s)@ == old(s)@.push(c),
{
    s.push(c);
}

/// Lower-case hexadecimal digit of `d` (0..15).
pub open spec fn hex_digit(d: int) -> char {
    if d < 10 {
        (48 + d) as char
    } else {
        (87 + d) as char
    }
}

/// How one character appears inside a JSON string literal: quote and
/// backslash escaped, newline, carriage return and tab by their short
/// escapes, other control characters as `\u00XX`, everything else as is.
pub open spec fn escape_char(c: char) -> Seq<char> {
    if c == '"' {
        seq!['\\', '"']
    } else if c == '\\' {
        seq!['\\', '\\']
    } else if c == '\n' {
        seq!['\\', 'n']
    } else if c == '\r' {
        seq!['\\', 'r']
    } else if c == '\t' {
        seq!['\\', 't']
    } else if (c as u32) < 0x20 {
        seq!['\\', 'u', '0', '0', hex_digit((c as u32) as int / 16), hex_digit((c as u32) as int % 16)]
    } else {
        seq![c]
    }
}

pub open spec fn escape_chars(s: Seq<char>) -> Seq<char>
    decreases s.len(),
{
    if s.len() == 0 {
        Seq::empty()
    } else {
        escape_chars(s.drop_last()) + escape_char(s.last())
    }
}

/// `s` as a JSON string literal.
pub open spec fn json_quoted(s: Seq<char>) -> Seq<char> {
    seq!['"'] + escape_chars(s) + seq!['"']
}

proof fn lemma_escape_chars_printable(s: Seq<char>)
    ensures
        forall|i: int| 0 <= i < escape_chars(s).len() ==> (escape_chars(s)[i] as u32) >= 0x20,
    decreases s.len(),
{
    if s.len() > 0 {
        lemma_escape_chars_printable(s.drop_last());
        let c = s.last();
        let e = escape_char(c);
        if (c as u32) < 0x20 && c != '\n' && c != '\r' && c != '\t' {
            assert((c as u32) as int / 16 < 2);
        }
        assert forall|i: int| 0 <= i < e.len() implies (e[i] as u32) >= 0x20 by {}
        let p = escape_chars(s.drop_last());
        assert forall|i: int| 0 <= i < (p + e).len() implies ((p + e)[i] as u32) >= 0x20 by {
            if i >= p.len() {
                assert((p + e)[i] == e[i - p.len()]);
            }
        }
    }
}

/// A quoted JSON string holds no raw control character: every character
/// below U+0020 in the input comes out escaped, and the result opens and
/// closes with a double quote.
pub proof fn lemma_json_quoted_printable(s: Seq<char>)
    ensures
        forall|i: int| 0 <= i < json_quoted(s).len() ==> (json_quoted(s)[i] as u32) >= 0x20,
        json_quoted(s)[0] == '"',
        json_quoted(s).last() == '"',
        json_quoted(s).len() >= 2,
{
    lemma_escape_chars_printable(s);
    let q = json_quoted(s);
    let e = escape_chars(s);
    assert forall|i: int| 0 <= i < q.len() implies (q[i] as u32) >= 0x20 by {
        if 1 <= i < q.len() - 1 {
            assert(q[i] == e[i - 1]);
        }
    }
}

/// The value of a hexadecimal digit of either case.
pub open spec fn hex_value(c: char) -> Option<int> {
    let u = c as u32;
    if 48 <= u <= 57 {
        Some(u - 48)
    } else if 97 <= u <= 102 {
        Some(u - 87)
    } else if 65 <= u <= 70 {
        Some(u - 55)
    } else {
        None
    }
}

/// The number written by the four hexadecimal digits at the front of `s`.
pub open spec fn hex4(s: Seq<char>) -> Option<int> {
    if s.len() < 4 {
        None
    } else {
        match (hex_value(s[0]), hex_value(s[1]), hex_value(s[2]), hex_value(s[3])) {
            (Some(a), Some(b), Some(c), Some(d)) => Some(a * 4096 + b * 256 + c * 16 + d),
            _ => None,
        }
    }
}

/// What the escape sequence whose backslash was just taken off the front
/// of `s` stands for (RFC 8259 section 7), and how many characters it takes
/// after the backslash. A `\u` escape of a high surrogate must be followed by
/// one of a low surrogate; the two name one character together.
pub open spec fn json_escape_at(s: Seq<char>) -> Option<(char, int)> {
    if s.len() == 0 {
        None
    } else if s[0] == '"' {
        Some(('"', 1))
    } else if s[0] == '\\' {
        Some(('\\', 1))
    } else if s[0] == '/' {
        Some(('/', 1))
    } else if s[0] == 'b' {
        Some(('\u{8}', 1))
    } else if s[0] == 'f' {
        Some(('\u{c}', 1))
    } else if s[0] == 'n' {
        Some(('\n', 1))
    } else if s[0] == 'r' {
        Some(('\r', 1))
    } else if s[0] == 't' {
        Some(('\t', 1))
    } else if s[0] == 'u' {
        match hex4(s.skip(1)) {
            None => None,
            Some(h) => {
                if 0xD800 <= h < 0xDC00 {
                    if s.len() >= 11 && s[5] == '\\' && s[6] == 'u' {
                        match hex4(s.skip(7)) {
                            Some(l) => if 0xDC00 <= l < 0xE000 {
                                Some(
                                    (
                                        (0x10000 + (h - 0xD800) * 0x400 + (l - 0xDC00)) as char,
                                        11,
                                    ),
                                )
                            } else {
                                None
                            },
                            None => None,
                        }
                    } else {
                        None
                    }
                } else if 0xDC00 <= h < 0xE000 {
                    None
                } else {
                    Some((h as char, 5))
                }
            },
        }
    } else {
        None
    }
}

/// The characters that the inside of a JSON string literal stands for;
/// `None` where it holds a raw quote, a raw control character or a bad
/// escape.
pub open spec fn json_unescape(s: Seq<char>) -> Option<Seq<char>>
    decreases s.len(),
{
    if s.len() == 0 {
        Some(Seq::empty())
    } else if s[0] == '\\' {
        match json_escape_at(s.drop_first()) {
            None => None,
            Some((c, k)) => {
                if 1 <= k && k + 1 <= s.len() {
                    match json_unescape(s.skip(k + 1)) {
                        Some(r) => Some(seq![c] + r),
                        None => None,
                    }
                } else {
                    None
                }
            },
        }
    } else if s[0] == '"' || (s[0] as u32) < 0x20 {
        None
    } else {
        match json_unescape(s.drop_first()) {
            Some(r) => Some(seq![s[0]] + r),
            None => None,
        }
    }
}

/// The characters that a JSON string literal, quotes included, stands for.
pub open spec fn json_unquote(s: Seq<char>) -> Option<Seq<char>> {
    if s.len() >= 2 && s[0] == '"' && s.last() == '"' {
        json_unescape(s.subrange(1, s.len() - 1))
    } else {
        None
    }
}

proof fn lemma_escape_chars_prepend(c: char, s: Seq<char>)
    ensures
        escape_chars(seq![c] + s) == escape_char(c) + escape_chars(s),
    decreases s.len(),
{
    if s.len() == 0 {
        assert(seq![c] + s =~= seq![c]);
        assert(seq![c].drop_last() =~= Seq::<char>::empty());
        assert(escape_chars(Seq::<char>::empty()) + escape_char(c) =~= escape_char(c) + escape_chars(s));
    } else {
        lemma_escape_chars_prepend(c, s.drop_last());
        assert((seq![c] + s).drop_last() =~= seq![c] + s.drop_last());
        assert((seq![c] + s).last() == s.last());
        assert(escape_char(c) + escape_chars(s.drop_last()) + escape_char(s.last())
            =~= escape_char(c) + (escape_chars(s.drop_last()) + escape_char(s.last())));
    }
}

proof fn lemma_hex_digit_value(d: int)
    requires
        0 <= d < 16,
    ensures
        hex_value(hex_digit(d)) == Some(d),
{
}

proof fn lemma_unescape_one(c: char, rest: Seq<char>)
    ensures
        json_unescape(escape_char(c) + rest) == match json_unescape(rest) {
            Some(r) => Some(seq![c] + r),
            None => None,
        },
{
    let e = escape_char(c);
    let t = e + rest;
    assert(t.skip(e.len() as int) =~= rest);
    if e.len() == 1 {
        assert(t[0] == c);
        assert(t.drop_first() =~= rest);
    } else {
        assert(t[0] == '\\');
        let u = t.drop_first();
        if (c as u32) < 0x20 && c != '\n' && c != '\r' && c != '\t' {
            let x = (c as u32) as int;
            lemma_hex_digit_value(x / 16);
            lemma_hex_digit_value(x % 16);
            let h = u.skip(1);
            assert(h[0] == '0' && h[1] == '0');
            assert(h[2] == hex_digit(x / 16) && h[3] == hex_digit(x % 16));
            assert(hex4(h) == Some(x));
            assert(json_escape_at(u) == Some((c, 5int)));
        } else {
            assert(json_escape_at(u) == Some((c, 1int)));
        }
    }
}

proof fn lemma_unescape_escaped(s: Seq<char>)
    ensures
        json_unescape(escape_chars(s)) == Some(s),
    decreases s.len(),
{
    if s.len() == 0 {
        assert(escape_chars(s) == Seq::<char>::empty());
    } else {
        let rest = s.drop_first();
        assert(s =~= seq![s[0]] + rest);
        lemma_escape_chars_prepend(s[0], rest);
        lemma_unescape_escaped(rest);
        lemma_unescape_one(s[0], escape_chars(rest));
        assert(seq![s[0]] + rest =~= s);
    }
}

/// Quoting is undone by reading the result back as a JSON string literal:
/// the characters it stands for are exactly those of the input.
pub proof fn lemma_json_quoted_round_trip(s: Seq<char>)
    ensures
        json_unquote(json_quoted(s)) == Some(s),
{
    let q = json_quoted(s);
    assert(q.subrange(1, q.len() - 1) =~= escape_chars(s));
    lemma_unescape_escaped(s);
}

/// How single characters are written: quote and backslash behind a
/// backslash, newline, carriage return and tab as `\n`, `\r` and `\t`, any
/// other character below U+0020 as `\u00` and two lower-case hexadecimal
/// digits, and every other character as it is.
pub proof fn lemma_json_escapes(c: char)
    ensures
        c == '"' ==> json_quoted(seq![c]) == seq!['"', '\\', '"', '"'],
        c == '\\' ==> json_quoted(seq![c]) == seq!['"', '\\', '\\', '"'],
        c == '\n' ==> json_quoted(seq![c]) == seq!['"', '\\', 'n', '"'],
        c == '\r' ==> json_quoted(seq![c]) == seq!['"', '\\', 'r', '"'],
        c == '\t' ==> json_quoted(seq![c]) == seq!['"', '\\', 't', '"'],
        (c as u32) < 0x20 && c != '\n' && c != '\r' && c != '\t' ==> ({
            let hi = (c as u32) / 16;
            let lo = (c as u32) % 16;
            json_quoted(seq![c]) == seq![
                '"',
                '\\',
                'u',
                '0',
                '0',
                (48 + hi) as char,
                (if lo < 10 { 48 + lo } else { 87 + lo }) as char,
                '"',
            ]
        }),
        (c as u32) >= 0x20 && c != '"' && c != '\\' ==> json_quoted(seq![c]) == seq!['"', c, '"'],
{
    assert(seq![c].drop_last() =~= Seq::<char>::empty());
    assert(seq![c].last() == c);
    assert(escape_chars(Seq::<char>::empty()) == Seq::<char>::empty());
    assert(escape_chars(seq![c]) =~= escape_char(c));
    let q = json_quoted(seq![c]);
    assert(q =~= seq!['"'] + escape_char(c) + seq!['"']);
    if (c as u32) < 0x20 && c != '\n' && c != '\r' && c != '\t' {
        let hi = (c as u32) / 16;
        let lo = (c as u32) % 16;
        assert(q =~= seq![
            '"',
            '\\',
            'u',
            '0',
            '0',
            (48 + hi) as char,
            (if lo < 10 { 48 + lo } else { 87 + lo }) as char,
            '"',
        ]);
    } else {
        assert(q =~= seq!['"'] + escape_char(c) + seq!['"']);
    }
    if c == '"' {
        assert(q =~= seq!['"', '\\', '"', '"']);
    } else if c == '\\' {
        assert(q =~= seq!['"', '\\', '\\', '"']);
    } else if c == '\n' {
        assert(q =~= seq!['"', '\\', 'n', '"']);
    } else if c == '\r' {
        assert(q =~= seq!['"', '\\', 'r', '"']);
    } else if c == '\t' {
        assert(q =~= seq!['"', '\\', 't', '"']);
    } else if (c as u32) >= 0x20 {
        assert(q =~= seq!['"', c, '"']);
    }
}

pub(crate) fn hex(d: u32) -> (c: char)
    requires
        d < 16,
    ensures
        c == hex_digit(d as int),
{
    if d < 10 {
        ((48 + d) as u8) as char
    } else {
        ((87 + d) as u8) as char
    }
}

pub fn json_string(s: &str) -> (out: String)
    ensures
        out@ == json_quoted(s@),
{
    broadcast use vstd::string::group_string_axioms;

    let mut out = String::new();
    push_char(&mut out, '"');
    for c in it: s.chars()
        invariant
            it.seq() == s@,
            out@ == seq!['"'] + escape_chars(s@.take(it.index())),
    {
        let ghost before = out@;
        if c == '"' {
            push_char(&mut out, '\\');
            push_char(&mut out, '"');
        } else if c == '\\' {
            push_char(&mut out, '\\');
            push_char(&mut out, '\\');
        } else if c == '\n' {
            push_char(&mut out, '\\');
            push_char(&mut out, 'n');
        } else if c == '\r' {
            push_char(&mut out, '\\');
            push_char(&mut out, 'r');
        } else if c == '\t' {
            push_char(&mut out, '\\');
            push_char(&mut out, 't');
        } else if (c as u32) < 0x20 {
            let v = c as u32;
            push_char(&mut out, '\\');
            push_char(&mut out, 'u');
            push_char(&mut out, '0');
            push_char(&mut out, '0');
            let h = hex(v / 16);
            let l = hex(v % 16);
            assert(h == hex_digit((c as u32) as int / 16));
            assert(l == hex_digit((c as u32) as int % 16));
            push_char(&mut out, h);
            push_char(&mut out, l);
        } else {
            push_char(&mut out, c);
        }
        assert(out@ =~= before + escape_char(c));
        assert(s@.take(it.index() + 1).drop_last() =~= s@.take(it.index()));
    }
    assert(s@.take(s@.len() as int) =~= s@);
    push_char(&mut out, '"');
    out
}

} // verus!
