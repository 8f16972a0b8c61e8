//! PNG: the chunk walker and the decoders of the tEXt, zTXt and iTXt text
//! chunks.

use vstd::prelude::*;

use crate::inflate::{zlib_decompress, zlib_spec};
use crate::{be32, Format, ImageMetadata, ParseError, Step};
use crate::text::{find_zero, lemma_zero_pos, lemma_zero_pos_at, lossy_string, utf8_lossy, zero_pos};

verus! {

pub const SIGNATURE: [u8; 8] = [0x89, 0x50, 0x4E, 0x47, 0x0D, 0x0A, 0x1A, 0x0A];

/// tEXt/zTXt/iTXt chunks larger than this are skipped rather than buffered.
/// A well-formed image has no reason to carry megabytes of text metadata,
/// and the chunk length field is attacker-controlled input.
pub const MAX_TEXT_CHUNK: u64 = 1_000_000;

/// Cap on the decompressed size of a zTXt/iTXt chunk. DEFLATE can expand a
/// small input by three orders of magnitude, so the compressed-size cap
/// above isn't enough on its own to bound memory use.
pub const MAX_DECOMPRESSED_TEXT: usize = 20_000_000;

pub open spec fn pair_view(p: (String, String)) -> (Seq<char>, Seq<char>) {
    (p.0@, p.1@)
}

/// A tEXt chunk is keyword \0 text, both Latin-1 in principle; they are
/// read as UTF-8, lossily.
pub open spec fn text_spec(data: Seq<u8>) -> Option<(Seq<char>, Seq<char>)> {
    match zero_pos(data) {
        None => None,
        Some(p) => Some((utf8_lossy(data.take(p)), utf8_lossy(data.skip(p + 1)))),
    }
}

/// A zTXt chunk is keyword \0 compression-method compressed-text. The
/// method byte must be 0 (zlib/DEFLATE).
pub open spec fn ztxt_spec(data: Seq<u8>) -> Option<(Seq<char>, Seq<char>)> {
    match zero_pos(data) {
        None => None,
        Some(p) => {
            let rest = data.skip(p + 1);
            if rest.len() == 0 || rest[0] != 0 {
                None
            } else {
                match zlib_spec(rest.skip(1), MAX_DECOMPRESSED_TEXT as int) {
                    None => None,
                    Some(bytes) => Some((utf8_lossy(data.take(p)), utf8_lossy(bytes))),
                }
            }
        },
    }
}

/// An iTXt chunk is keyword \0 compression-flag compression-method
/// language-tag \0 translated-keyword \0 text. The text is compressed only
/// if the flag is 1, and then only method 0 (zlib/DEFLATE) is accepted; a
/// flag other than 0 or 1 is rejected.
pub open spec fn itxt_spec(data: Seq<u8>) -> Option<(Seq<char>, Seq<char>)> {
    match zero_pos(data) {
        None => None,
        Some(p) => {
            let keyword = utf8_lossy(data.take(p));
            let rest = data.skip(p + 1);
            if rest.len() < 2 {
                None
            } else {
                let flag = rest[0];
                let method = rest[1];
                let after_flags = rest.skip(2);
                match zero_pos(after_flags) {
                    None => None,
                    Some(l) => {
                        let after_lang = after_flags.skip(l + 1);
                        match zero_pos(after_lang) {
                            None => None,
                            Some(t) => {
                                let text = after_lang.skip(t + 1);
                                if flag == 0 {
                                    Some((keyword, utf8_lossy(text)))
                                } else if flag == 1 && method == 0 {
                                    match zlib_spec(text, MAX_DECOMPRESSED_TEXT as int) {
                                        None => None,
                                        Some(bytes) => Some((keyword, utf8_lossy(bytes))),
                                    }
                                } else {
                                    None
                                }
                            },
                        }
                    },
                }
            }
        },
    }
}

fn tail(data: &[u8], from: usize) -> (r: &[u8])
    requires
        from <= data@.len(),
    ensures
        r@ == data@.skip(from as int),
{
    let r = vstd::slice::slice_subrange(data, from, data.len());
    assert(r@ =~= data@.skip(from as int));
    r
}

pub fn parse_text(data: &[u8]) -> (r: Option<(String, String)>)
    ensures
        r is Some <==> text_spec(data@) is Some,
        r matches Some(p) ==> text_spec(data@) == Some(pair_view(p)),
{
    proof {
        assert(data.len() == data@.len());
        lemma_zero_pos(data@);
    }
    let pos = match find_zero(data) {
        Some(p) => p,
        None => {
            return None;
        },
    };
    assert(zero_pos(data@) == Some(pos as int));
    let keyword = lossy_string(vstd::slice::slice_subrange(data, 0, pos));
    let value = lossy_string(tail(data, pos + 1));
    Some((keyword, value))
}

pub fn parse_ztxt(data: &[u8]) -> (r: Option<(String, String)>)
    ensures
        r is Some <==> ztxt_spec(data@) is Some,
        r matches Some(p) ==> ztxt_spec(data@) == Some(pair_view(p)),
{
    proof {
        assert(data.len() == data@.len());
        lemma_zero_pos(data@);
    }
    let kw_end = match find_zero(data) {
        Some(p) => p,
        None => {
            return None;
        },
    };
    assert(zero_pos(data@) == Some(kw_end as int));
    let keyword = lossy_string(vstd::slice::slice_subrange(data, 0, kw_end));
    let rest = tail(data, kw_end + 1);
    if rest.len() == 0 {
        return None;
    }
    let method = rest[0];
    if method != 0 {
        return None;
    }
    let compressed = tail(rest, 1);
    let bytes = zlib_decompress(compressed, MAX_DECOMPRESSED_TEXT)?;
    Some((keyword, lossy_string(bytes.as_slice())))
}

pub fn parse_itxt(data: &[u8]) -> (r: Option<(String, String)>)
    ensures
        r is Some <==> itxt_spec(data@) is Some,
        r matches Some(p) ==> itxt_spec(data@) == Some(pair_view(p)),
{
    proof {
        assert(data.len() == data@.len());
        lemma_zero_pos(data@);
    }
    let kw_end = match find_zero(data) {
        Some(p) => p,
        None => {
            return None;
        },
    };
    assert(zero_pos(data@) == Some(kw_end as int));
    let keyword = lossy_string(vstd::slice::slice_subrange(data, 0, kw_end));
    let rest = tail(data, kw_end + 1);
    if rest.len() < 2 {
        return None;
    }
    let compressed_flag = rest[0];
    let compression_method = rest[1];
    let after_flags = tail(rest, 2);
    proof {
        lemma_zero_pos(after_flags@);
    }
    let lang_end = match find_zero(after_flags) {
        Some(p) => p,
        None => {
            return None;
        },
    };
    assert(zero_pos(after_flags@) == Some(lang_end as int));
    let after_lang = tail(after_flags, lang_end + 1);
    proof {
        lemma_zero_pos(after_lang@);
    }
    let tr_end = match find_zero(after_lang) {
        Some(p) => p,
        None => {
            return None;
        },
    };
    assert(zero_pos(after_lang@) == Some(tr_end as int));
    let text_bytes = tail(after_lang, tr_end + 1);
    let value = if compressed_flag == 0 {
        lossy_string(text_bytes)
    } else if compressed_flag == 1 && compression_method == 0 {
        let bytes = zlib_decompress(text_bytes, MAX_DECOMPRESSED_TEXT)?;
        lossy_string(bytes.as_slice())
    } else {
        return None;
    };
    Some((keyword, value))
}

} // verus!

verus! {

/// Chunk type "IHDR".
pub const IHDR: [u8; 4] = [0x49, 0x48, 0x44, 0x52];

/// Chunk type "tEXt".
pub const TEXT: [u8; 4] = [0x74, 0x45, 0x58, 0x74];

/// Chunk type "zTXt".
pub const ZTXT: [u8; 4] = [0x7A, 0x54, 0x58, 0x74];

/// Chunk type "iTXt".
pub const ITXT: [u8; 4] = [0x69, 0x54, 0x58, 0x74];

/// Chunk type "IEND".
pub const IEND: [u8; 4] = [0x49, 0x45, 0x4E, 0x44];

#[derive(Debug, Clone, Copy, PartialEq, Eq, Structural)]
pub enum TextKind {
    /// tEXt
    Plain,
    /// zTXt
    Compressed,
    /// iTXt
    International,
}

/// Where the PNG chunk walker stands. Each chunk is a 4-byte big-endian
/// length, a 4-byte type, the data, and a 4-byte CRC (not checked).
#[derive(Debug, Clone, Copy, PartialEq, Eq, Structural)]
pub enum PngState {
    /// Next: a chunk's length; the input may also end here.
    ChunkLength,
    /// Next: the type of a chunk with this data length.
    ChunkKind(u32),
    /// Next: the 13 bytes of IHDR.
    Header,
    /// Next: the data of a text chunk of this kind and length.
    Text(TextKind, u32),
    /// Next: data to read past; the flag says the chunk is IEND.
    Skipping(u32, bool),
    /// Next: the CRC; the flag says the chunk was IEND.
    Crc(bool),
    Done,
    Failed(ParseError),
}

/// What the walker asks for in each state.
pub open spec fn png_request(st: PngState) -> Step {
    match st {
        PngState::ChunkLength => Step::Read(4),
        PngState::ChunkKind(_) => Step::Read(4),
        PngState::Header => Step::Read(13),
        PngState::Text(_, len) => Step::Read(len as usize),
        PngState::Skipping(len, _) => Step::Skip(len as u64),
        PngState::Crc(_) => Step::Read(4),
        PngState::Done => Step::Done,
        PngState::Failed(e) => Step::Fail(e),
    }
}

/// The state after the bytes asked for in `st` have been handed over. IHDR
/// must be 13 bytes long; text chunks longer than `MAX_TEXT_CHUNK` and all
/// other chunks are read past; the walk ends after IEND's CRC.
pub open spec fn png_after(st: PngState, bytes: Seq<u8>) -> PngState {
    match st {
        PngState::ChunkLength => PngState::ChunkKind(be32(bytes)),
        PngState::ChunkKind(len) => {
            if bytes == IHDR@ {
                if len != 13 {
                    PngState::Failed(ParseError::InvalidIhdrLength)
                } else {
                    PngState::Header
                }
            } else if bytes == TEXT@ && len <= MAX_TEXT_CHUNK {
                PngState::Text(TextKind::Plain, len)
            } else if bytes == ZTXT@ && len <= MAX_TEXT_CHUNK {
                PngState::Text(TextKind::Compressed, len)
            } else if bytes == ITXT@ && len <= MAX_TEXT_CHUNK {
                PngState::Text(TextKind::International, len)
            } else {
                PngState::Skipping(len, bytes == IEND@)
            }
        },
        PngState::Header => PngState::Crc(false),
        PngState::Text(_, _) => PngState::Crc(false),
        PngState::Skipping(_, last) => PngState::Crc(last),
        PngState::Crc(last) => if last {
            PngState::Done
        } else {
            PngState::ChunkLength
        },
        PngState::Done => PngState::Done,
        PngState::Failed(e) => PngState::Failed(e),
    }
}

/// The (keyword, text) pair a text chunk of this kind yields, if any.
pub open spec fn text_entry(kind: TextKind, data: Seq<u8>) -> Option<(Seq<char>, Seq<char>)> {
    match kind {
        TextKind::Plain => text_spec(data),
        TextKind::Compressed => ztxt_spec(data),
        TextKind::International => itxt_spec(data),
    }
}

/// Walks the chunks that follow the PNG signature.
pub struct PngReader {
    state: PngState,
    width: u32,
    height: u32,
    text: Vec<(String, String)>,
}

fn same4(a: &[u8], b: [u8; 4]) -> (r: bool)
    requires
        a@.len() == 4,
    ensures
        r == (a@ == b@),
{
    let r = a[0] == b[0] && a[1] == b[1] && a[2] == b[2] && a[3] == b[3];
    if r {
        assert(a@ =~= b@);
    }
    r
}

impl PngReader {
    /// Only text chunks within `MAX_TEXT_CHUNK` are ever buffered.
    pub closed spec fn wf(&self) -> bool {
        self.state matches PngState::Text(_, len) ==> len <= MAX_TEXT_CHUNK
    }

    pub closed spec fn state(&self) -> PngState {
        self.state
    }

    pub closed spec fn width(&self) -> u32 {
        self.width
    }

    pub closed spec fn height(&self) -> u32 {
        self.height
    }

    pub closed spec fn text(&self) -> Seq<(Seq<char>, Seq<char>)> {
        self.text@.map_values(|p: (String, String)| pair_view(p))
    }

    pub fn new() -> (r: PngReader)
        ensures
            r.wf(),
            r.state() == PngState::ChunkLength,
            r.width() == 0,
            r.height() == 0,
            r.text() == Seq::<(Seq<char>, Seq<char>)>::empty(),
    {
        let r = PngReader { state: PngState::ChunkLength, width: 0, height: 0, text: Vec::new() };
        assert(r.text() =~= Seq::<(Seq<char>, Seq<char>)>::empty());
        r
    }

    /// What to do next. No read asks for more than `MAX_TEXT_CHUNK` bytes,
    /// whatever the chunk lengths in the file say.
    pub fn step(&self) -> (s: Step)
        requires
            self.wf(),
        ensures
            s == png_request(self.state()),
            s matches Step::Read(n) ==> n <= MAX_TEXT_CHUNK,
    {
        match self.state {
            PngState::ChunkLength => Step::Read(4),
            PngState::ChunkKind(_) => Step::Read(4),
            PngState::Header => Step::Read(13),
            PngState::Text(_, len) => Step::Read(len as usize),
            PngState::Skipping(len, _) => Step::Skip(len as u64),
            PngState::Crc(_) => Step::Read(4),
            PngState::Done => Step::Done,
            PngState::Failed(e) => Step::Fail(e),
        }
    }

    /// Takes the bytes asked for (none after a skip) and says what to do
    /// next.
    pub fn feed(&mut self, bytes: &[u8]) -> (s: Step)
        requires
            old(self).wf(),
            png_request(old(self).state()) matches Step::Read(n) ==> bytes@.len() == n,
            png_request(old(self).state()) is Skip ==> bytes@.len() == 0,
        ensures
            final(self).wf(),
            final(self).state() == png_after(old(self).state(), bytes@),
            s == png_request(final(self).state()),
            s matches Step::Read(n) ==> n <= MAX_TEXT_CHUNK,
            final(self).width() == (if old(self).state() == PngState::Header {
                be32(bytes@.subrange(0, 4))
            } else {
                old(self).width()
            }),
            final(self).height() == (if old(self).state() == PngState::Header {
                be32(bytes@.subrange(4, 8))
            } else {
                old(self).height()
            }),
            old(self).state() == PngState::Header ==> final(self).width() == 0x1000000 * bytes@[0]
                + 0x10000 * bytes@[1] + 0x100 * bytes@[2] + bytes@[3] && final(self).height()
                == 0x1000000 * bytes@[4] + 0x10000 * bytes@[5] + 0x100 * bytes@[6] + bytes@[7],
            final(self).text() == (match old(self).state() {
                PngState::Text(kind, _) => match text_entry(kind, bytes@) {
                    Some(t) => old(self).text().push(t),
                    None => old(self).text(),
                },
                _ => old(self).text(),
            }),
    {
        match self.state {
            PngState::ChunkLength => {
                let len = crate::read_be32(bytes[0], bytes[1], bytes[2], bytes[3]);
                assert(seq![bytes@[0], bytes@[1], bytes@[2], bytes@[3]] =~= bytes@);
                self.state = PngState::ChunkKind(len);
            },
            PngState::ChunkKind(len) => {
                self.state = if same4(bytes, IHDR) {
                    if len != 13 {
                        PngState::Failed(ParseError::InvalidIhdrLength)
                    } else {
                        PngState::Header
                    }
                } else if same4(bytes, TEXT) && len as u64 <= MAX_TEXT_CHUNK {
                    PngState::Text(TextKind::Plain, len)
                } else if same4(bytes, ZTXT) && len as u64 <= MAX_TEXT_CHUNK {
                    PngState::Text(TextKind::Compressed, len)
                } else if same4(bytes, ITXT) && len as u64 <= MAX_TEXT_CHUNK {
                    PngState::Text(TextKind::International, len)
                } else {
                    PngState::Skipping(len, same4(bytes, IEND))
                };
            },
            PngState::Header => {
                self.width = crate::read_be32(bytes[0], bytes[1], bytes[2], bytes[3]);
                self.height = crate::read_be32(bytes[4], bytes[5], bytes[6], bytes[7]);
                assert(seq![bytes@[0], bytes@[1], bytes@[2], bytes@[3]] =~= bytes@.subrange(0, 4));
                assert(seq![bytes@[4], bytes@[5], bytes@[6], bytes@[7]] =~= bytes@.subrange(4, 8));
                self.state = PngState::Crc(false);
            },
            PngState::Text(kind, _) => {
                let entry = match kind {
                    TextKind::Plain => parse_text(bytes),
                    TextKind::Compressed => parse_ztxt(bytes),
                    TextKind::International => parse_itxt(bytes),
                };
                let ghost before = self.text@;
                if let Some(e) = entry {
                    self.text.push(e);
                    assert(self.text@.map_values(|p: (String, String)| pair_view(p)) =~= before.map_values(
                        |p: (String, String)| pair_view(p),
                    ).push(pair_view(e)));
                }
                self.state = PngState::Crc(false);
            },
            PngState::Skipping(_, last) => {
                self.state = PngState::Crc(last);
            },
            PngState::Crc(last) => {
                self.state = if last {
                    PngState::Done
                } else {
                    PngState::ChunkLength
                };
            },
            PngState::Done => {},
            PngState::Failed(_) => {},
        }
        self.step()
    }

    /// The input ended where the next request would have been read. That
    /// is the normal end only between chunks.
    pub fn end_of_input(&mut self) -> (s: Step)
        requires
            old(self).wf(),
        ensures
            final(self).wf(),
            final(self).state() == (match old(self).state() {
                PngState::ChunkLength => PngState::Done,
                PngState::Done => PngState::Done,
                PngState::Failed(e) => PngState::Failed(e),
                _ => PngState::Failed(ParseError::UnexpectedEnd),
            }),
            final(self).width() == old(self).width(),
            final(self).height() == old(self).height(),
            final(self).text() == old(self).text(),
            s == png_request(final(self).state()),
            s matches Step::Read(n) ==> n <= MAX_TEXT_CHUNK,
    {
        self.state = match self.state {
            PngState::ChunkLength => PngState::Done,
            PngState::Done => PngState::Done,
            PngState::Failed(e) => PngState::Failed(e),
            _ => PngState::Failed(ParseError::UnexpectedEnd),
        };
        self.step()
    }

    pub fn into_metadata(self) -> (m: ImageMetadata)
        ensures
            m.format == Format::Png,
            m.width == self.width(),
            m.height == self.height(),
            m.exif@.len() == 0,
            m.text@.map_values(|p: (String, String)| pair_view(p)) == self.text(),
    {
        ImageMetadata {
            format: Format::Png,
            width: self.width,
            height: self.height,
            exif: Vec::new(),
            text: self.text,
        }
    }
}

/// A text chunk of type tEXt, zTXt or iTXt whose data fits in
/// `MAX_TEXT_CHUNK` bytes is read, not read past: the walker asks for
/// exactly its data, and the pair it then adds is the one that chunk type's
/// decoding gives (tEXt as is, zTXt inflated, iTXt inflated where flagged).
/// A longer one is read past.
pub proof fn lemma_text_chunks_read(len: u32, kind: Seq<u8>)
    ensures
        kind == seq![0x74u8, 0x45u8, 0x58u8, 0x74u8] && len <= MAX_TEXT_CHUNK ==> {
            &&& png_request(png_after(PngState::ChunkKind(len), kind)) == Step::Read(len as usize)
            &&& png_after(PngState::ChunkKind(len), kind) matches PngState::Text(k, _)
                && forall|d: Seq<u8>| text_entry(k, d) == text_spec(d)
        },
        kind == seq![0x7Au8, 0x54u8, 0x58u8, 0x74u8] && len <= MAX_TEXT_CHUNK ==> {
            &&& png_request(png_after(PngState::ChunkKind(len), kind)) == Step::Read(len as usize)
            &&& png_after(PngState::ChunkKind(len), kind) matches PngState::Text(k, _)
                && forall|d: Seq<u8>| text_entry(k, d) == ztxt_spec(d)
        },
        kind == seq![0x69u8, 0x54u8, 0x58u8, 0x74u8] && len <= MAX_TEXT_CHUNK ==> {
            &&& png_request(png_after(PngState::ChunkKind(len), kind)) == Step::Read(len as usize)
            &&& png_after(PngState::ChunkKind(len), kind) matches PngState::Text(k, _)
                && forall|d: Seq<u8>| text_entry(k, d) == itxt_spec(d)
        },
        (kind == seq![0x74u8, 0x45u8, 0x58u8, 0x74u8] || kind == seq![0x7Au8, 0x54u8, 0x58u8, 0x74u8]
            || kind == seq![0x69u8, 0x54u8, 0x58u8, 0x74u8]) && len > MAX_TEXT_CHUNK ==> png_request(
            png_after(PngState::ChunkKind(len), kind),
        ) == Step::Skip(len as u64),
{
    assert(TEXT@ =~= seq![0x74u8, 0x45u8, 0x58u8, 0x74u8]);
    assert(ZTXT@ =~= seq![0x7Au8, 0x54u8, 0x58u8, 0x74u8]);
    assert(ITXT@ =~= seq![0x69u8, 0x54u8, 0x58u8, 0x74u8]);
    assert(IHDR@ != seq![0x74u8, 0x45u8, 0x58u8, 0x74u8] && IHDR@ != seq![0x7Au8, 0x54u8, 0x58u8, 0x74u8]
        && IHDR@ != seq![0x69u8, 0x54u8, 0x58u8, 0x74u8]) by {
        assert(IHDR@[0] == 0x49u8);
    }
    assert(TEXT@ != ZTXT@ && TEXT@ != ITXT@ && ZTXT@ != ITXT@) by {
        assert(TEXT@[0] != ZTXT@[0] && TEXT@[0] != ITXT@[0] && ZTXT@[0] != ITXT@[0]);
    }
}

/// A tEXt chunk is its keyword, a zero byte and its text; a zTXt chunk is
/// its keyword, a zero byte, the method byte 0 and a zlib stream, which
/// is inflated (any other method byte is refused). The keyword ends at the
/// first zero byte, so whatever follows it may hold zeros.
pub proof fn lemma_text_layout(keyword: Seq<u8>, text: Seq<u8>, method: u8)
    requires
        forall|j: int| 0 <= j < keyword.len() ==> keyword[j] != 0,
    ensures
        text_spec(keyword + seq![0u8] + text) == Some((utf8_lossy(keyword), utf8_lossy(text))),
        text_spec(keyword) is None,
        method == 0 ==> ztxt_spec(keyword + seq![0u8, method] + text) == (match zlib_spec(
            text,
            MAX_DECOMPRESSED_TEXT as int,
        ) {
            Some(t) => Some((utf8_lossy(keyword), utf8_lossy(t))),
            None => None,
        }),
        method != 0 ==> ztxt_spec(keyword + seq![0u8, method] + text) is None,
{
    let n = keyword.len() as int;
    let a = keyword + seq![0u8] + text;
    lemma_zero_pos_at(a, n);
    lemma_zero_pos_at(keyword, n);
    assert(a.take(n) =~= keyword);
    assert(a.skip(n + 1) =~= text);
    let z = keyword + seq![0u8, method] + text;
    lemma_zero_pos_at(z, n);
    assert(z.take(n) =~= keyword);
    assert(z.skip(n + 1) =~= seq![method] + text);
    assert((seq![method] + text).skip(1) =~= text);
}

/// An iTXt chunk is its keyword, a zero byte, a compression flag, a
/// method byte, a language tag, a zero byte, a translated keyword, a zero
/// byte and the text. With flag 0 the text stands as it is; with flag 1
/// and method 0 it is a zlib stream, which is inflated. Any other flag, or
/// flag 1 with another method, is refused.
pub proof fn lemma_itxt_layout(
    keyword: Seq<u8>,
    flag: u8,
    method: u8,
    language: Seq<u8>,
    translated: Seq<u8>,
    text: Seq<u8>,
)
    requires
        forall|j: int| 0 <= j < keyword.len() ==> keyword[j] != 0,
        forall|j: int| 0 <= j < language.len() ==> language[j] != 0,
        forall|j: int| 0 <= j < translated.len() ==> translated[j] != 0,
    ensures
        ({
            let data = keyword + seq![0u8, flag, method] + language + seq![0u8] + translated
                + seq![0u8] + text;
            &&& flag == 0 ==> itxt_spec(data) == Some((utf8_lossy(keyword), utf8_lossy(text)))
            &&& flag == 1 && method == 0 ==> itxt_spec(data) == (match zlib_spec(
                text,
                MAX_DECOMPRESSED_TEXT as int,
            ) {
                Some(t) => Some((utf8_lossy(keyword), utf8_lossy(t))),
                None => None,
            })
            &&& (flag > 1 || (flag == 1 && method != 0)) ==> itxt_spec(data) is None
        }),
{
    let n = keyword.len() as int;
    let data = keyword + seq![0u8, flag, method] + language + seq![0u8] + translated + seq![0u8]
        + text;
    lemma_zero_pos_at(data, n);
    assert(data.take(n) =~= keyword);
    let rest = data.skip(n + 1);
    assert(rest =~= seq![flag, method] + language + seq![0u8] + translated + seq![0u8] + text);
    let after_flags = rest.skip(2);
    assert(after_flags =~= language + seq![0u8] + translated + seq![0u8] + text);
    lemma_zero_pos_at(after_flags, language.len() as int);
    let after_lang = after_flags.skip(language.len() as int + 1);
    assert(after_lang =~= translated + seq![0u8] + text);
    lemma_zero_pos_at(after_lang, translated.len() as int);
    assert(after_lang.skip(translated.len() as int + 1) =~= text);
}

/// The chunk layout: a four-byte big-endian length, a four-byte type, the
/// data and a four-byte CRC. IHDR must be 13 bytes long and is read; IEND
/// is read past and the walk ends after its CRC; a chunk of any type other
/// than IHDR, IEND and the three text types is read past, and the walker
/// then expects the next chunk.
pub proof fn lemma_chunk_walk(b: Seq<u8>, kind: Seq<u8>, len: u32, data: Seq<u8>)
    requires
        b.len() == 4,
    ensures
        png_after(PngState::ChunkLength, b) == PngState::ChunkKind(
            (0x1000000 * b[0] + 0x10000 * b[1] + 0x100 * b[2] + b[3]) as u32,
        ),
        kind == seq![0x49u8, 0x48u8, 0x44u8, 0x52u8] && len == 13 ==> {
            &&& png_request(png_after(PngState::ChunkKind(len), kind)) == Step::Read(13)
            &&& png_request(png_after(png_after(PngState::ChunkKind(len), kind), data))
                == Step::Read(4)
        },
        kind == seq![0x49u8, 0x48u8, 0x44u8, 0x52u8] && len != 13 ==> png_after(
            PngState::ChunkKind(len),
            kind,
        ) == PngState::Failed(ParseError::InvalidIhdrLength),
        kind == seq![0x49u8, 0x45u8, 0x4Eu8, 0x44u8] ==> {
            let st = png_after(PngState::ChunkKind(len), kind);
            &&& png_request(st) == Step::Skip(len as u64)
            &&& png_request(png_after(st, data)) == Step::Read(4)
            &&& png_after(png_after(st, data), data) == PngState::Done
        },
        kind.len() == 4 && kind != seq![0x49u8, 0x48u8, 0x44u8, 0x52u8] && kind != seq![
            0x49u8,
            0x45u8,
            0x4Eu8,
            0x44u8,
        ] && kind != seq![0x74u8, 0x45u8, 0x58u8, 0x74u8] && kind != seq![
            0x7Au8,
            0x54u8,
            0x58u8,
            0x74u8,
        ] && kind != seq![0x69u8, 0x54u8, 0x58u8, 0x74u8] ==> {
            let st = png_after(PngState::ChunkKind(len), kind);
            &&& png_request(st) == Step::Skip(len as u64)
            &&& png_request(png_after(st, data)) == Step::Read(4)
            &&& png_after(png_after(st, data), data) == PngState::ChunkLength
        },
{
    assert(IHDR@ =~= seq![0x49u8, 0x48u8, 0x44u8, 0x52u8]);
    assert(IEND@ =~= seq![0x49u8, 0x45u8, 0x4Eu8, 0x44u8]);
    assert(TEXT@ =~= seq![0x74u8, 0x45u8, 0x58u8, 0x74u8]);
    assert(ZTXT@ =~= seq![0x7Au8, 0x54u8, 0x58u8, 0x74u8]);
    assert(ITXT@ =~= seq![0x69u8, 0x54u8, 0x58u8, 0x74u8]);
    assert(IEND@ != IHDR@) by {
        assert(IEND@[1] != IHDR@[1]);
    }
    assert(IEND@ != TEXT@ && IEND@ != ZTXT@ && IEND@ != ITXT@) by {
        assert(IEND@[0] != TEXT@[0] && IEND@[0] != ZTXT@[0] && IEND@[0] != ITXT@[0]);
    }
}

} // verus!
