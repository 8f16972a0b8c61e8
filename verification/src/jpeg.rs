//! JPEG: the marker walker. It stops at the start-of-scan marker, since
//! every segment it cares about comes before the entropy-coded data.

use vstd::prelude::*;

use crate::exif::{parse_ifd0, tags_view, tiff_spec, ExifData, ExifTag};
use crate::{be16, Format, ImageMetadata, ParseError, Step};

verus! {

/// Start-of-frame markers carry the dimensions. 0xC4, 0xC8 and 0xCC fall in
/// the same numeric range but are DHT / JPG / DAC, not SOF.
pub open spec fn sof_marker(marker: u8) -> bool {
    0xC0 <= marker <= 0xCF && marker != 0xC4 && marker != 0xC8 && marker != 0xCC
}

pub fn is_sof(marker: u8) -> (r: bool)
    ensures
        r == sof_marker(marker),
{
    0xC0 <= marker && marker <= 0xCF && marker != 0xC4 && marker != 0xC8 && marker != 0xCC
}

/// The identifier that opens an Exif APP1 segment: "Exif\0\0".
pub const EXIF_HEADER: [u8; 6] = [0x45, 0x78, 0x69, 0x66, 0x00, 0x00];

/// Where the JPEG marker walker stands.
#[derive(Debug, Clone, Copy, PartialEq, Eq, Structural)]
pub enum JpegState {
    /// Next: the 0xFF that opens a marker.
    MarkerStart,
    /// Next: a marker code, possibly after more 0xFF fill bytes.
    MarkerCode,
    /// Next: the two-byte length of the segment this marker opens.
    SegmentLength(u8),
    /// Next: the first five bytes of a start-of-frame segment with this
    /// data length: precision, height, width.
    FrameHeader(u16),
    /// Next: the data of an APP1 segment of this length.
    App1(u16),
    /// Next: this many bytes to read past.
    Skipping(u16),
    Done,
    Failed(ParseError),
}

pub open spec fn jpeg_request(st: JpegState) -> Step {
    match st {
        JpegState::MarkerStart => Step::Read(1),
        JpegState::MarkerCode => Step::Read(1),
        JpegState::SegmentLength(_) => Step::Read(2),
        JpegState::FrameHeader(_) => Step::Read(5),
        JpegState::App1(len) => Step::Read(len as usize),
        JpegState::Skipping(len) => Step::Skip(len as u64),
        JpegState::Done => Step::Done,
        JpegState::Failed(e) => Step::Fail(e),
    }
}

/// The state after the bytes asked for in `st` have been handed over.
/// Standalone markers (TEM, RSTn, a stray SOI) carry no length; SOS and
/// EOI end the walk; a segment's length counts its own two bytes.
pub open spec fn jpeg_after(st: JpegState, bytes: Seq<u8>) -> JpegState {
    match st {
        JpegState::MarkerStart => if bytes[0] != 0xFF {
            JpegState::Failed(ParseError::ExpectedMarker)
        } else {
            JpegState::MarkerCode
        },
        JpegState::MarkerCode => {
            let m = bytes[0];
            if m == 0xFF {
                JpegState::MarkerCode
            } else if m == 0x01 || (0xD0 <= m <= 0xD8) {
                JpegState::MarkerStart
            } else if m == 0xD9 || m == 0xDA {
                JpegState::Done
            } else {
                JpegState::SegmentLength(m)
            }
        },
        JpegState::SegmentLength(m) => {
            let len = be16(bytes);
            if len < 2 {
                JpegState::Failed(ParseError::BadSegmentLength)
            } else if sof_marker(m) {
                if len - 2 < 5 {
                    JpegState::Failed(ParseError::TruncatedSof)
                } else {
                    JpegState::FrameHeader((len - 2) as u16)
                }
            } else if m == 0xE1 {
                JpegState::App1((len - 2) as u16)
            } else {
                JpegState::Skipping((len - 2) as u16)
            }
        },
        JpegState::FrameHeader(data_len) => JpegState::Skipping((data_len - 5) as u16),
        JpegState::App1(_) => JpegState::MarkerStart,
        JpegState::Skipping(_) => JpegState::MarkerStart,
        JpegState::Done => JpegState::Done,
        JpegState::Failed(e) => JpegState::Failed(e),
    }
}

/// An APP1 segment is Exif when it opens with "Exif\0\0"; its IFD0 tags
/// then replace any found earlier (an empty list if the TIFF data is
/// broken). Other APP1 segments (XMP and the like) are ignored.
pub open spec fn app1_exif(data: Seq<u8>) -> Option<Seq<(u16, ExifData)>> {
    if data.len() >= 6 && data.take(6) == EXIF_HEADER@ {
        Some(
            match tiff_spec(data.skip(6)) {
                Some(t) => t,
                None => Seq::empty(),
            },
        )
    } else {
        None
    }
}

/// Walks the markers of a JPEG file, from just after its SOI marker.
pub struct JpegReader {
    state: JpegState,
    width: u32,
    height: u32,
    exif: Vec<ExifTag>,
}

impl JpegReader {
    /// A frame header is only ever awaited for a segment long enough to
    /// hold it.
    #[verifier::type_invariant]
    spec fn frame_fits(&self) -> bool {
        self.state matches JpegState::FrameHeader(d) ==> d >= 5
    }

    pub closed spec fn state(&self) -> JpegState {
        self.state
    }

    pub closed spec fn width(&self) -> u32 {
        self.width
    }

    pub closed spec fn height(&self) -> u32 {
        self.height
    }

    pub closed spec fn exif(&self) -> Seq<(u16, ExifData)> {
        tags_view(self.exif@)
    }

    pub fn new() -> (r: JpegReader)
        ensures
            r.state() == JpegState::MarkerStart,
            r.width() == 0,
            r.height() == 0,
            r.exif() == Seq::<(u16, ExifData)>::empty(),
    {
        let r = JpegReader { state: JpegState::MarkerStart, width: 0, height: 0, exif: Vec::new() };
        assert(r.exif() =~= Seq::<(u16, ExifData)>::empty());
        r
    }

    /// What to do next. No read asks for more than a segment can hold.
    pub fn step(&self) -> (s: Step)
        ensures
            s == jpeg_request(self.state()),
            s matches Step::Read(n) ==> n <= 65535,
    {
        match self.state {
            JpegState::MarkerStart => Step::Read(1),
            JpegState::MarkerCode => Step::Read(1),
            JpegState::SegmentLength(_) => Step::Read(2),
            JpegState::FrameHeader(_) => Step::Read(5),
            JpegState::App1(len) => Step::Read(len as usize),
            JpegState::Skipping(len) => Step::Skip(len as u64),
            JpegState::Done => Step::Done,
            JpegState::Failed(e) => Step::Fail(e),
        }
    }

    /// Takes the bytes asked for (none after a skip) and says what to do
    /// next.
    pub fn feed(&mut self, bytes: &[u8]) -> (s: Step)
        requires
            jpeg_request(old(self).state()) matches Step::Read(n) ==> bytes@.len() == n,
            jpeg_request(old(self).state()) is Skip ==> bytes@.len() == 0,
        ensures
            final(self).state() == jpeg_after(old(self).state(), bytes@),
            s == jpeg_request(final(self).state()),
            s matches Step::Read(n) ==> n <= 65535,
            final(self).height() == (if old(self).state() is FrameHeader {
                be16(bytes@.subrange(1, 3)) as u32
            } else {
                old(self).height()
            }),
            final(self).width() == (if old(self).state() is FrameHeader {
                be16(bytes@.subrange(3, 5)) as u32
            } else {
                old(self).width()
            }),
            final(self).exif() == (if old(self).state() is App1 {
                match app1_exif(bytes@) {
                    Some(t) => t,
                    None => old(self).exif(),
                }
            } else {
                old(self).exif()
            }),
            old(self).state() is FrameHeader ==> final(self).height() == 256 * bytes@[1]
                + bytes@[2] && final(self).width() == 256 * bytes@[3] + bytes@[4],
            !(bytes@.len() >= 6 && bytes@[0] == 0x45 && bytes@[1] == 0x78 && bytes@[2] == 0x69
                && bytes@[3] == 0x66 && bytes@[4] == 0 && bytes@[5] == 0) ==> final(self).exif()
                == old(self).exif(),
    {
        proof {
            use_type_invariant(&*self);
        }
        match self.state {
            JpegState::MarkerStart => {
                self.state = if bytes[0] != 0xFF {
                    JpegState::Failed(ParseError::ExpectedMarker)
                } else {
                    JpegState::MarkerCode
                };
            },
            JpegState::MarkerCode => {
                let m = bytes[0];
                self.state = if m == 0xFF {
                    JpegState::MarkerCode
                } else if m == 0x01 || (0xD0 <= m && m <= 0xD8) {
                    JpegState::MarkerStart
                } else if m == 0xD9 || m == 0xDA {
                    JpegState::Done
                } else {
                    JpegState::SegmentLength(m)
                };
            },
            JpegState::SegmentLength(m) => {
                let len = crate::read_be16(bytes[0], bytes[1]);
                assert(seq![bytes@[0], bytes@[1]] =~= bytes@);
                self.state = if len < 2 {
                    JpegState::Failed(ParseError::BadSegmentLength)
                } else if is_sof(m) {
                    if len - 2 < 5 {
                        JpegState::Failed(ParseError::TruncatedSof)
                    } else {
                        JpegState::FrameHeader(len - 2)
                    }
                } else if m == 0xE1 {
                    JpegState::App1(len - 2)
                } else {
                    JpegState::Skipping(len - 2)
                };
            },
            JpegState::FrameHeader(data_len) => {
                self.height = crate::read_be16(bytes[1], bytes[2]) as u32;
                self.width = crate::read_be16(bytes[3], bytes[4]) as u32;
                assert(seq![bytes@[1], bytes@[2]] =~= bytes@.subrange(1, 3));
                assert(seq![bytes@[3], bytes@[4]] =~= bytes@.subrange(3, 5));
                self.state = JpegState::Skipping(data_len - 5);
            },
            JpegState::App1(_) => {
                if bytes.len() >= 6 && bytes[0] == 0x45 && bytes[1] == 0x78 && bytes[2] == 0x69
                    && bytes[3] == 0x66 && bytes[4] == 0x00 && bytes[5] == 0x00 {
                    assert(bytes@.take(6) =~= EXIF_HEADER@);
                    let payload = vstd::slice::slice_subrange(bytes, 6, bytes.len());
                    assert(payload@ =~= bytes@.skip(6));
                    self.exif = parse_ifd0(payload);
                } else {
                    assert(bytes@.len() >= 6 ==> bytes@.take(6) != EXIF_HEADER@) by {
                        if bytes@.len() >= 6 && bytes@.take(6) == EXIF_HEADER@ {
                            assert(bytes@.take(6)[0] == bytes@[0]);
                            assert(bytes@.take(6)[1] == bytes@[1]);
                            assert(bytes@.take(6)[2] == bytes@[2]);
                            assert(bytes@.take(6)[3] == bytes@[3]);
                            assert(bytes@.take(6)[4] == bytes@[4]);
                            assert(bytes@.take(6)[5] == bytes@[5]);
                        }
                    }
                }
                self.state = JpegState::MarkerStart;
            },
            JpegState::Skipping(_) => {
                self.state = JpegState::MarkerStart;
            },
            JpegState::Done => {},
            JpegState::Failed(_) => {},
        }
        self.step()
    }

    pub fn into_metadata(self) -> (m: ImageMetadata)
        ensures
            m.format == Format::Jpeg,
            m.width == self.width(),
            m.height == self.height(),
            tags_view(m.exif@) == self.exif(),
            m.text@.len() == 0,
    {
        ImageMetadata {
            format: Format::Jpeg,
            width: self.width,
            height: self.height,
            exif: self.exif,
            text: Vec::new(),
        }
    }
}

/// Only an APP1 segment that opens with "Exif\0\0" (45 78 69 66 00 00)
/// carries Exif tags, and such a segment always yields a tag list (empty
/// where its TIFF data is broken). Any other APP1 segment, such as the XMP
/// packet that editors write after the Exif one, leaves the tags found so
/// far as they are.
pub proof fn lemma_app1_exif_only(data: Seq<u8>)
    ensures
        (data.len() >= 6 && data[0] == 0x45 && data[1] == 0x78 && data[2] == 0x69 && data[3]
            == 0x66 && data[4] == 0 && data[5] == 0) <==> app1_exif(data) is Some,
{
    if data.len() >= 6 {
        let h = data.take(6);
        if data[0] == 0x45 && data[1] == 0x78 && data[2] == 0x69 && data[3] == 0x66 && data[4] == 0
            && data[5] == 0 {
            assert(h =~= EXIF_HEADER@);
        } else {
            assert(h[0] == data[0] && h[1] == data[1] && h[2] == data[2] && h[3] == data[3] && h[4]
                == data[4] && h[5] == data[5]);
        }
    }
}

/// A segment's length field counts itself, so after it the walker takes
/// exactly `len - 2` more bytes of the segment before looking for the next
/// marker: all of them read for APP1, five read (precision, height, width)
/// and the rest read past for a start-of-frame marker (C0-CF other than
/// C4, C8 and CC), all read past for any other marker. A length below 2,
/// or a frame header too short for its five bytes, is refused.
pub proof fn lemma_segment_sizes(m: u8, b0: u8, b1: u8, data: Seq<u8>)
    requires
        m != 0xFF && m != 0x01 && !(0xD0 <= m <= 0xDA),
    ensures
        ({
            let len = 256 * b0 + b1;
            let st = jpeg_after(JpegState::SegmentLength(m), seq![b0, b1]);
            let sof = 0xC0 <= m <= 0xCF && m != 0xC4 && m != 0xC8 && m != 0xCC;
            &&& len < 2 ==> st == JpegState::Failed(ParseError::BadSegmentLength)
            &&& len >= 2 && m == 0xE1 ==> jpeg_request(st) == Step::Read((len - 2) as usize)
                && jpeg_after(st, data) == JpegState::MarkerStart
            &&& len >= 2 && sof && len < 7 ==> st == JpegState::Failed(ParseError::TruncatedSof)
            &&& len >= 7 && sof ==> jpeg_request(st) == Step::Read(5) && jpeg_request(
                jpeg_after(st, data),
            ) == Step::Skip((len - 7) as u64) && jpeg_after(jpeg_after(st, data), data)
                == JpegState::MarkerStart
            &&& len >= 2 && !sof && m != 0xE1 ==> jpeg_request(st) == Step::Skip((len - 2) as u64)
                && jpeg_after(st, data) == JpegState::MarkerStart
        }),
{
    assert(be16(seq![b0, b1]) == 256 * b0 + b1);
}

/// Marker codes: 0xFF is fill before the code, TEM (01), RST0-RST7
/// (D0-D7) and SOI (D8) stand alone with no length, EOI (D9) and SOS (DA)
/// end the walk, and every other code opens a segment with a length.
pub proof fn lemma_marker_codes(m: u8)
    ensures
        m == 0xFF ==> jpeg_after(JpegState::MarkerCode, seq![m]) == JpegState::MarkerCode,
        m == 0x01 || (0xD0 <= m <= 0xD8) ==> jpeg_after(JpegState::MarkerCode, seq![m])
            == JpegState::MarkerStart,
        m == 0xD9 || m == 0xDA ==> jpeg_after(JpegState::MarkerCode, seq![m]) == JpegState::Done,
        m != 0xFF && m != 0x01 && !(0xD0 <= m <= 0xDA) ==> jpeg_after(
            JpegState::MarkerCode,
            seq![m],
        ) == JpegState::SegmentLength(m),
        jpeg_after(JpegState::MarkerStart, seq![m]) == (if m == 0xFF {
            JpegState::MarkerCode
        } else {
            JpegState::Failed(ParseError::ExpectedMarker)
        }),
{
}

} // verus!
