//! A minimal DEFLATE (RFC 1951) and zlib (RFC 1950) decompressor for
//! self-contained byte slices with a bounded output.

use vstd::prelude::*;

verus! {

/// Bit `i` of `data`, counting the bits of each byte from the least
/// significant one, which is the order in which DEFLATE packs its fields.
pub open spec fn data_bit(data: Seq<u8>, i: int) -> bool {
    (data[i / 8] >> ((i % 8) as u8)) & 1u8 == 1u8
}

/// All bits of `data`, in stream order.
pub open spec fn data_bits(data: Seq<u8>) -> Seq<bool> {
    Seq::new((data.len() * 8) as nat, |i: int| data_bit(data, i))
}

/// The number whose binary digits, least significant first, are `s`.
pub open spec fn bits_value(s: Seq<bool>) -> nat
    decreases s.len(),
{
    if s.len() == 0 {
        0
    } else {
        (if s[0] { 1nat } else { 0nat }) + 2 * bits_value(s.drop_first())
    }
}

/// The low `n` bits of `x`, least significant first.
pub open spec fn word_bits(x: u32, n: nat) -> Seq<bool> {
    Seq::new(n, |k: int| (x >> (k as u32)) & 1u32 == 1u32)
}

proof fn lemma_word_bits_value(x: u32, n: nat)
    requires
        n < 32,
        x >> (n as u32) == 0,
    ensures
        bits_value(word_bits(x, n)) == x,
    decreases n,
{
    if n == 0 {
        assert(x >> 0u32 == x) by (bit_vector);
    } else {
        let y = x >> 1u32;
        let m = (n - 1) as u32;
        assert(y >> m == 0) by (bit_vector)
            requires
                y == x >> 1u32,
                x >> ((m + 1) as u32) == 0,
                m < 31,
        ;
        lemma_word_bits_value(y, (n - 1) as nat);
        assert(word_bits(x, n).drop_first() =~= word_bits(y, (n - 1) as nat)) by {
            assert forall|k: int| 0 <= k < n - 1 implies #[trigger] word_bits(x, n).drop_first()[k]
                == word_bits(y, (n - 1) as nat)[k] by {
                let kk = k as u32;
                assert((y >> kk) & 1u32 == (x >> ((kk + 1) as u32)) & 1u32) by (bit_vector)
                    requires
                        y == x >> 1u32,
                        kk < 31,
                ;
            }
        }
        assert(x == (x & 1u32) + 2 * y) by (bit_vector)
            requires
                y == x >> 1u32,
        ;
        assert((x >> 0u32) & 1u32 == x & 1u32) by (bit_vector);
        assert((x & 1u32) == 0u32 || (x & 1u32) == 1u32) by (bit_vector);
        let s = word_bits(x, n);
        assert(s[0] == ((x & 1u32) == 1u32));
        assert(bits_value(s) == (if s[0] { 1nat } else { 0nat }) + 2 * bits_value(s.drop_first()));
    }
}

pub proof fn lemma_bits_value_bound(s: Seq<bool>)
    ensures
        bits_value(s) < vstd::arithmetic::power2::pow2(s.len()),
    decreases s.len(),
{
    if s.len() > 0 {
        lemma_bits_value_bound(s.drop_first());
        vstd::arithmetic::power2::lemma_pow2_unfold(s.len());
    } else {
        vstd::arithmetic::power2::lemma_pow2_pos(0);
    }
}


proof fn lemma_fill_bits(bb: u32, bc: u32, byte: u8)
    requires
        bc < 16,
        bb >> bc == 0,
    ensures
        (bb | ((byte as u32) << bc)) >> ((bc + 8) as u32) == 0,
        word_bits(bb | ((byte as u32) << bc), (bc + 8) as nat) =~= word_bits(bb, bc as nat)
            + word_bits(byte as u32, 8),
{
    let nb = bb | ((byte as u32) << bc);
    let b = byte as u32;
    assert(nb >> ((bc + 8) as u32) == 0) by (bit_vector)
        requires
            nb == bb | (b << bc),
            bb >> bc == 0,
            bc < 16,
            b < 256,
    ;
    assert forall|k: int| 0 <= k < bc + 8 implies #[trigger] word_bits(nb, (bc + 8) as nat)[k]
        == (word_bits(bb, bc as nat) + word_bits(b, 8))[k] by {
        let kk = k as u32;
        if k < bc {
            assert((nb >> kk) & 1u32 == (bb >> kk) & 1u32) by (bit_vector)
                requires
                    nb == bb | (b << bc),
                    kk < bc,
                    bc < 16,
            ;
        } else {
            let j = (k - bc) as u32;
            assert((nb >> kk) & 1u32 == (b >> j) & 1u32) by (bit_vector)
                requires
                    nb == bb | (b << bc),
                    bb >> bc == 0,
                    kk == bc + j,
                    j < 8,
                    bc < 16,
                    b < 256,
            ;
        }
    }
}

proof fn lemma_byte_bits(data: Seq<u8>, pos: int)
    requires
        0 <= pos < data.len(),
    ensures
        data_bits(data).skip(8 * pos) =~= word_bits(data[pos] as u32, 8) + data_bits(data).skip(
            8 * pos + 8,
        ),
{
    let b = data[pos];
    assert forall|j: int| 0 <= j < 8 implies #[trigger] data_bits(data).skip(8 * pos)[j]
        == word_bits(b as u32, 8)[j] by {
        assert((8 * pos + j) / 8 == pos);
        assert((8 * pos + j) % 8 == j);
        let jj = j as u8;
        let jw = j as u32;
        assert(((b >> jj) & 1u8 == 1u8) == (((b as u32) >> jw) & 1u32 == 1u32)) by (bit_vector)
            requires
                jj < 8,
                jw == jj as u32,
        ;
    }
}

proof fn lemma_take_bits(bb: u32, bc: u32, n: u32)
    requires
        n <= bc,
        bc < 32,
        n <= 16,
        bb >> bc == 0,
    ensures
        (bb & (((1u32 << n) - 1u32) as u32)) >> n == 0,
        word_bits(bb, bc as nat).take(n as int) =~= word_bits(bb & (((1u32 << n) - 1u32) as u32), n as nat),
        word_bits(bb, bc as nat).skip(n as int) =~= word_bits(bb >> n, (bc - n) as nat),
        (bb >> n) >> ((bc - n) as u32) == 0,
{
    let v = bb & (((1u32 << n) - 1u32) as u32);
    let r = bb >> n;
    assert(v >> n == 0) by (bit_vector)
        requires
            v == bb & (((1u32 << n) - 1u32) as u32),
            n <= 16,
    ;
    assert(r >> ((bc - n) as u32) == 0) by (bit_vector)
        requires
            r == bb >> n,
            bb >> bc == 0,
            n <= bc,
            bc < 32,
    ;
    assert forall|k: int| 0 <= k < n implies #[trigger] word_bits(bb, bc as nat).take(n as int)[k]
        == word_bits(v, n as nat)[k] by {
        let kk = k as u32;
        assert((v >> kk) & 1u32 == (bb >> kk) & 1u32) by (bit_vector)
            requires
                v == bb & (((1u32 << n) - 1u32) as u32),
                kk < n,
                n <= 16,
        ;
    }
    assert forall|k: int| 0 <= k < bc - n implies #[trigger] word_bits(bb, bc as nat).skip(
        n as int,
    )[k] == word_bits(r, (bc - n) as nat)[k] by {
        let kk = k as u32;
        let m = (k + n) as u32;
        assert((r >> kk) & 1u32 == (bb >> m) & 1u32) by (bit_vector)
            requires
                r == bb >> n,
                m == kk + n,
                m < 32,
        ;
    }
}

/// Reads DEFLATE's bit-packed fields out of a byte slice.
pub struct BitReader<'a> {
    data: &'a [u8],
    pos: usize,
    bitbuf: u32,
    bitcount: u32,
}

impl<'a> BitReader<'a> {
    pub closed spec fn input(&self) -> Seq<u8> {
        self.data@
    }

    pub closed spec fn byte_pos(&self) -> int {
        self.pos as int
    }

    pub closed spec fn pending(&self) -> nat {
        self.bitcount as nat
    }

    /// The buffered bits are the low `bitcount` bits of `bitbuf`, and fewer
    /// than a byte's worth of them are ever carried between reads.
    pub closed spec fn wf(&self) -> bool {
        &&& self.pos <= self.data@.len()
        &&& self.bitcount < 8
        &&& self.bitbuf >> self.bitcount == 0
    }

    /// The bits this reader will hand out, in order: the buffered ones, then
    /// those of every byte not yet loaded.
    pub closed spec fn stream(&self) -> Seq<bool> {
        word_bits(self.bitbuf, self.bitcount as nat) + data_bits(self.data@).skip(
            8 * self.pos as int,
        )
    }

    /// How many bits are left: those buffered, then eight for each byte
    /// not yet loaded. Fewer than eight bits are ever buffered.
    pub proof fn lemma_stream_len(&self)
        requires
            self.wf(),
        ensures
            self.pending() < 8,
            0 <= self.byte_pos() <= self.input().len(),
            self.stream().len() == self.pending() + 8 * (self.input().len() - self.byte_pos()),
            self.pending() == 0 ==> self.stream() == data_bits(self.input()).skip(
                8 * self.byte_pos(),
            ),
    {
        if self.bitcount == 0 {
            assert(self.stream() =~= data_bits(self.input()).skip(8 * self.byte_pos()));
        }
    }

    pub fn new(data: &'a [u8]) -> (r: Self)
        ensures
            r.wf(),
            r.input() == data@,
            r.byte_pos() == 0,
            r.pending() == 0,
            r.stream() == data_bits(data@),
    {
        let r = BitReader { data, pos: 0, bitbuf: 0, bitcount: 0 };
        assert(0u32 >> 0u32 == 0) by (bit_vector);
        assert(r.stream() =~= data_bits(data@));
        r
    }

    /// Reads `n` bits (n <= 16) packed least-significant-bit first, which is
    /// how every DEFLATE field except Huffman codes themselves is packed.
    pub fn bits(&mut self, n: u32) -> (r: Option<u32>)
        requires
            old(self).wf(),
            n <= 16,
        ensures
            final(self).input() == old(self).input(),
            r is Some <==> n <= old(self).stream().len(),
            r matches Some(v) ==> {
                &&& final(self).wf()
                &&& v == bits_value(old(self).stream().take(n as int))
                &&& (v as nat) < vstd::arithmetic::power2::pow2(n as nat)
                &&& final(self).stream() == old(self).stream().skip(n as int)
                &&& final(self).pending() < 8
                &&& old(self).byte_pos() <= final(self).byte_pos()
                &&& final(self).pending() == old(self).pending() + 8 * (final(self).byte_pos()
                    - old(self).byte_pos()) - n
            },
            r is None ==> {
                &&& final(self).stream() == old(self).stream()
                &&& final(self).byte_pos() == final(self).input().len()
                &&& final(self).pending() == old(self).stream().len()
            },
    {
        let ghost s0 = self.stream();
        assert(s0 == old(self).stream());
        while self.bitcount < n
            invariant
                self.pos <= self.data@.len(),
                old(self).pos <= self.pos,
                self.bitcount == old(self).bitcount + 8 * (self.pos - old(self).pos),
                self.bitcount <= 24,
                self.bitcount < n + 8,
                self.bitbuf >> self.bitcount == 0,
                self.stream() == s0,
                s0 == old(self).stream(),
                self.data@ == old(self).data@,
                n <= 16,
            decreases self.data@.len() - self.pos,
        {
            if self.pos >= self.data.len() {
                assert(self.stream().len() == self.bitcount);
                return None;
            }
            let byte = self.data[self.pos];
            proof {
                lemma_fill_bits(self.bitbuf, self.bitcount, byte);
                lemma_byte_bits(self.data@, self.pos as int);
            }
            self.pos = self.pos + 1;
            self.bitbuf = self.bitbuf | ((byte as u32) << self.bitcount);
            self.bitcount = self.bitcount + 8;
            assert(self.stream() =~= s0);
        }
        proof {
            lemma_take_bits(self.bitbuf, self.bitcount, n);
        }
        assert(1u32 << n >= 1) by (bit_vector)
            requires
                n <= 16,
        ;
        let value = self.bitbuf & ((1u32 << n) - 1);
        let ghost d = data_bits(self.data@).skip(8 * self.pos as int);
        assert(s0.take(n as int) =~= word_bits(value, n as nat));
        proof {
            lemma_word_bits_value(value, n as nat);
            lemma_bits_value_bound(s0.take(n as int));
        }
        self.bitbuf = self.bitbuf >> n;
        self.bitcount = self.bitcount - n;
        assert(self.stream() =~= s0.skip(n as int));
        Some(value)
    }

    /// Discards any bits buffered but not yet consumed from the current
    /// byte, moving the reader to the next byte boundary.
    pub fn align_to_byte(&mut self)
        requires
            old(self).wf(),
        ensures
            final(self).wf(),
            final(self).input() == old(self).input(),
            final(self).byte_pos() == old(self).byte_pos(),
            final(self).pending() == 0,
            final(self).stream() == old(self).stream().skip(old(self).pending() as int),
    {
        self.bitbuf = 0;
        self.bitcount = 0;
        assert(0u32 >> 0u32 == 0) by (bit_vector);
        assert(self.stream() =~= old(self).stream().skip(old(self).pending() as int));
    }

    /// Takes the next `n` whole bytes, starting at the current byte
    /// position; the bit buffer is left as it is.
    pub fn read_bytes(&mut self, n: usize) -> (r: Option<&'a [u8]>)
        requires
            old(self).wf(),
        ensures
            final(self).wf(),
            final(self).input() == old(self).input(),
            final(self).pending() == old(self).pending(),
            r is Some <==> old(self).byte_pos() + n <= old(self).input().len(),
            r matches Some(b) ==> {
                &&& b@ == old(self).input().subrange(
                    old(self).byte_pos(),
                    old(self).byte_pos() + n,
                )
                &&& final(self).byte_pos() == old(self).byte_pos() + n
                &&& final(self).stream() == old(self).stream().take(old(self).pending() as int)
                    + old(self).stream().skip(old(self).pending() + 8 * n)
                &&& (old(self).pending() == 0 ==> final(self).stream() == old(self).stream().skip(
                    8 * n,
                ))
            },
            r is None ==> *final(self) == *old(self),
    {
        if n > self.data.len() - self.pos {
            return None;
        }
        let end = self.pos + n;
        let slice = vstd::slice::slice_subrange(self.data, self.pos, end);
        let ghost old_pos = self.pos;
        self.pos = end;
        proof {
            let p = self.bitcount as int;
            let d = data_bits(self.data@);
            assert(old(self).stream().take(p) =~= word_bits(self.bitbuf, self.bitcount as nat));
            assert(old(self).stream().skip(p + 8 * n) =~= d.skip(8 * end as int));
            assert(self.stream() =~= old(self).stream().take(p) + old(self).stream().skip(
                p + 8 * n,
            ));
            if self.bitcount == 0 {
                assert(word_bits(self.bitbuf, 0) =~= Seq::<bool>::empty());
                assert(self.stream() =~= old(self).stream().skip(8 * n));
            }
        }
        Some(slice)
    }

    pub fn read_u16_le(&mut self) -> (r: Option<u16>)
        requires
            old(self).wf(),
        ensures
            final(self).wf(),
            final(self).input() == old(self).input(),
            final(self).pending() == old(self).pending(),
            r is Some <==> old(self).byte_pos() + 2 <= old(self).input().len(),
            r matches Some(v) ==> {
                &&& v == old(self).input()[old(self).byte_pos()] + 256 * old(self).input()[
                    old(self).byte_pos() + 1]
                &&& final(self).byte_pos() == old(self).byte_pos() + 2
                &&& (old(self).pending() == 0 ==> final(self).stream() == old(self).stream().skip(
                    16,
                ))
            },
    {
        let b = self.read_bytes(2)?;
        let lo = b[0];
        let hi = b[1];
        let v = (lo as u16) | ((hi as u16) << 8u16);
        assert(v == lo + 256 * hi) by (bit_vector)
            requires
                v == (lo as u16) | ((hi as u16) << 8u16),
        ;
        Some(v)
    }
}

} // verus!

verus! {

/// How many of the symbols `0..upto` have code length `l`.
pub open spec fn count_len(lengths: Seq<u8>, l: int, upto: int) -> nat
    decreases upto,
{
    if upto <= 0 {
        0
    } else {
        count_len(lengths, l, upto - 1) + (if lengths[upto - 1] == l { 1nat } else { 0nat })
    }
}

/// How many of the symbols `0..upto` have a code, and one shorter than `l`.
pub open spec fn count_shorter(lengths: Seq<u8>, l: int, upto: int) -> nat
    decreases upto,
{
    if upto <= 0 {
        0
    } else {
        count_shorter(lengths, l, upto - 1) + (if 1 <= lengths[upto - 1] < l {
            1nat
        } else {
            0nat
        })
    }
}

/// Where symbol `s` stands in the canonical order of RFC 1951 section
/// 3.2.2: coded symbols sorted by code length, then by symbol value.
pub open spec fn canonical_index(lengths: Seq<u8>, s: int) -> int {
    (count_shorter(lengths, lengths[s] as int, lengths.len() as int) + count_len(
        lengths,
        lengths[s] as int,
        s,
    )) as int
}

/// The symbol table after the symbols `0..upto` have been put at their
/// canonical index; unused entries are 0.
pub open spec fn placed_symbols(lengths: Seq<u8>, upto: int) -> Seq<u16>
    decreases upto,
{
    if upto <= 0 {
        Seq::new(lengths.len(), |i: int| 0u16)
    } else {
        let prev = placed_symbols(lengths, upto - 1);
        if lengths[upto - 1] == 0 {
            prev
        } else {
            prev.update(canonical_index(lengths, upto - 1), (upto - 1) as u16)
        }
    }
}

/// Number of codes of each length 1..15 (entry 0 is always 0).
pub open spec fn huffman_counts(lengths: Seq<u8>) -> Seq<u16> {
    Seq::new(16, |l: int| if l == 0 { 0u16 } else { count_len(lengths, l, lengths.len() as int) as u16 })
}

/// All symbols with a code, in canonical order, followed by zeros.
pub open spec fn huffman_symbols(lengths: Seq<u8>) -> Seq<u16> {
    placed_symbols(lengths, lengths.len() as int)
}

/// Codes of length 1 up to (not including) `l`.
pub open spec fn codes_below(counts: Seq<u16>, l: int) -> int
    decreases l,
{
    if l <= 1 {
        0
    } else {
        codes_below(counts, l - 1) + counts[l - 1]
    }
}

proof fn lemma_codes_below_mono(counts: Seq<u16>, a: int, b: int)
    requires
        a <= b,
    ensures
        codes_below(counts, a) <= codes_below(counts, b),
    decreases b - a,
{
    if a < b {
        lemma_codes_below_mono(counts, a, b - 1);
    }
}

proof fn lemma_count_len_mono(lengths: Seq<u8>, l: int, a: int, b: int)
    requires
        0 <= a <= b <= lengths.len(),
    ensures
        count_len(lengths, l, a) <= count_len(lengths, l, b),
        0 <= a < b && lengths[a] == l ==> count_len(lengths, l, a) < count_len(lengths, l, b),
    decreases b - a,
{
    if a < b {
        lemma_count_len_mono(lengths, l, a, b - 1);
        if lengths[a] == l && a == b - 1 {
        }
    }
}

proof fn lemma_count_len_le(lengths: Seq<u8>, l: int, u: int)
    requires
        0 <= u,
    ensures
        count_len(lengths, l, u) <= u,
    decreases u,
{
    if u > 0 {
        lemma_count_len_le(lengths, l, u - 1);
    }
}

proof fn lemma_placed_len(lengths: Seq<u8>, u: int)
    requires
        u <= lengths.len(),
    ensures
        placed_symbols(lengths, u).len() == lengths.len(),
    decreases u,
{
    if u > 0 {
        lemma_placed_len(lengths, u - 1);
        let s = u - 1;
        if lengths[s] != 0 {
            lemma_canonical_index_bound(lengths, s);
        }
    }
}

proof fn lemma_canonical_index_bound(lengths: Seq<u8>, s: int)
    requires
        0 <= s < lengths.len(),
        lengths[s] != 0,
    ensures
        0 <= canonical_index(lengths, s) < lengths.len(),
{
    let n = lengths.len() as int;
    let l = lengths[s] as int;
    lemma_count_len_mono(lengths, l, s, n);
    lemma_count_bound(lengths, l, n);
}

proof fn lemma_count_bound(lengths: Seq<u8>, l: int, u: int)
    requires
        1 <= l,
        0 <= u <= lengths.len(),
    ensures
        count_shorter(lengths, l, u) + count_len(lengths, l, u) <= u,
        count_shorter(lengths, l + 1, u) == count_shorter(lengths, l, u) + count_len(lengths, l, u),
        count_shorter(lengths, 1, u) == 0,
    decreases u,
{
    if u > 0 {
        lemma_count_bound(lengths, l, u - 1);
    }
}

proof fn lemma_codes_below(lengths: Seq<u8>, l: int)
    requires
        1 <= l <= 16,
        lengths.len() < 65536,
    ensures
        codes_below(huffman_counts(lengths), l) == count_shorter(
            lengths,
            l,
            lengths.len() as int,
        ),
    decreases l,
{
    let n = lengths.len() as int;
    if l == 1 {
        lemma_count_bound(lengths, 1, n);
    } else {
        lemma_codes_below(lengths, l - 1);
        lemma_count_bound(lengths, l - 1, n);
        lemma_count_bound(lengths, l - 1, n);
        assert(count_len(lengths, l - 1, n) <= n);
        assert(huffman_counts(lengths)[l - 1] == count_len(lengths, l - 1, n));
    }
}

} // verus!

verus! {


/// Canonical Huffman decoding of the front of bit stream `s` (RFC 1951
/// section 3.2.2): codes are read most-significant bit first, one bit per
/// length; `first` is the first code of the current length and `index`
/// the table position of that code's symbol. The result is the symbol and
/// the stream that follows its code.
pub open spec fn decode_from(
    counts: Seq<u16>,
    symbols: Seq<u16>,
    s: Seq<bool>,
    len: int,
    code: int,
    first: int,
    index: int,
) -> Option<(u16, Seq<bool>)>
    decreases 16 - len,
{
    if len < 1 || len >= 16 || s.len() == 0 {
        None
    } else {
        let code1 = code + (if s[0] { 1int } else { 0int });
        let count = counts[len] as int;
        if code1 - first < count {
            Some((symbols[index + code1 - first], s.drop_first()))
        } else {
            decode_from(
                counts,
                symbols,
                s.drop_first(),
                len + 1,
                2 * code1,
                2 * (first + count),
                index + count,
            )
        }
    }
}

pub open spec fn huffman_decode(counts: Seq<u16>, symbols: Seq<u16>, s: Seq<bool>) -> Option<
    (u16, Seq<bool>),
> {
    decode_from(counts, symbols, s, 1, 0, 0, 0)
}

pub proof fn lemma_decode_shrinks(
    counts: Seq<u16>,
    symbols: Seq<u16>,
    s: Seq<bool>,
    len: int,
    code: int,
    first: int,
    index: int,
)
    ensures
        decode_from(counts, symbols, s, len, code, first, index) matches Some((sym, rest)) ==> rest.len()
            < s.len(),
    decreases 16 - len,
{
    if len >= 1 && len < 16 && s.len() > 0 {
        let code1 = code + (if s[0] { 1int } else { 0int });
        let count = counts[len] as int;
        if code1 - first >= count {
            lemma_decode_shrinks(
                counts,
                symbols,
                s.drop_first(),
                len + 1,
                2 * code1,
                2 * (first + count),
                index + count,
            );
        }
    }
}

/// A canonical Huffman decoder built from a list of per-symbol code
/// lengths, following the counting/offset construction from RFC 1951
/// section 3.2.2 rather than building an explicit tree.
pub struct Huffman {
    counts: Vec<u16>,
    symbols: Vec<u16>,
}

impl Huffman {
    pub closed spec fn counts(&self) -> Seq<u16> {
        self.counts@
    }

    pub closed spec fn symbols(&self) -> Seq<u16> {
        self.symbols@
    }

    /// Sixteen length counts, and a symbol table long enough to hold every
    /// code they count.
    pub open spec fn wf(&self) -> bool {
        &&& self.counts().len() == 16
        &&& codes_below(self.counts(), 16) <= self.symbols().len()
        &&& self.symbols().len() < 65536
    }

    pub fn build(lengths: &[u8]) -> (h: Huffman)
        requires
            lengths@.len() < 65536,
            forall|i: int| 0 <= i < lengths@.len() ==> lengths@[i] < 16,
        ensures
            h.wf(),
            h.counts() == huffman_counts(lengths@),
            h.symbols() == huffman_symbols(lengths@),
    {
        let ghost ls = lengths@;
        let n = lengths.len();
        let mut counts: Vec<u16> = vec![0u16; 16];
        assert(counts@ =~= Seq::new(16, |l: int| count_len(ls, l, 0) as u16));
        let mut i: usize = 0;
        while i < n
            invariant
                n == ls.len(),
                ls == lengths@,
                n < 65536,
                i <= n,
                forall|k: int| 0 <= k < n ==> ls[k] < 16,
                counts@.len() == 16,
                forall|l: int| 0 <= l < 16 ==> counts@[l] == count_len(ls, l, i as int),
            decreases n - i,
        {
            let l = lengths[i] as usize;
            proof {
                lemma_count_len_le(ls, l as int, i as int);
            }
            let c = counts[l];
            assert(c == count_len(ls, l as int, i as int));
            assert(count_len(ls, l as int, i as int) <= i);
            counts.set(l, c + 1);
            i = i + 1;
        }
        counts.set(0, 0);
        assert(counts@ =~= huffman_counts(ls));

        let mut offsets: Vec<u16> = vec![0u16; 16];
        let mut j: usize = 1;
        while j < 16
            invariant
                1 <= j <= 16,
                n == ls.len(),
                n < 65536,
                counts@ == huffman_counts(ls),
                offsets@.len() == 16,
                offsets@[0] == 0,
                forall|l: int| 1 <= l < j ==> offsets@[l] == count_shorter(ls, l, n as int),
            decreases 16 - j,
        {
            proof {
                lemma_count_bound(ls, 1, n as int);
                if j > 1 {
                    lemma_count_bound(ls, (j - 1) as int, n as int);
                    lemma_count_bound(ls, j as int, n as int);
                    assert(counts@[j - 1] == count_len(ls, j - 1, n as int));
                }
            }
            let o = offsets[j - 1] + counts[j - 1];
            offsets.set(j, o);
            j = j + 1;
        }

        let mut symbols: Vec<u16> = vec![0u16; n];
        assert(symbols@ =~= placed_symbols(ls, 0));
        let mut sym: usize = 0;
        while sym < n
            invariant
                n == ls.len(),
                ls == lengths@,
                n < 65536,
                sym <= n,
                forall|k: int| 0 <= k < n ==> ls[k] < 16,
                offsets@.len() == 16,
                forall|l: int|
                    1 <= l < 16 ==> offsets@[l] == count_shorter(ls, l, n as int) + count_len(
                        ls,
                        l,
                        sym as int,
                    ),
                symbols@ == placed_symbols(ls, sym as int),
            decreases n - sym,
        {
            let l = lengths[sym];
            if l != 0 {
                let lu = l as usize;
                proof {
                    lemma_count_len_mono(ls, lu as int, sym as int, n as int);
                    lemma_count_bound(ls, lu as int, n as int);
                }
                let o = offsets[lu];
                proof {
                    lemma_placed_len(ls, sym as int);
                }
                symbols.set(o as usize, sym as u16);
                offsets.set(lu, o + 1);
            }
            sym = sym + 1;
        }
        proof {
            lemma_codes_below(ls, 16);
            lemma_count_bound(ls, 16, n as int);
            lemma_placed_len(ls, n as int);
        }
        Huffman { counts, symbols }
    }

    /// Decodes one symbol. Huffman codes are packed most-significant-bit
    /// first (the one exception to DEFLATE's usual bit order), so the code
    /// value is built up by reading a bit at a time and comparing against
    /// the first code of each length, per the canonical decode algorithm.
    pub fn decode(&self, br: &mut BitReader) -> (r: Option<u16>)
        requires
            self.wf(),
            old(br).wf(),
        ensures
            final(br).input() == old(br).input(),
            r is Some <==> huffman_decode(self.counts(), self.symbols(), old(br).stream()) is Some,
            r matches Some(sym) ==> {
                &&& final(br).wf()
                &&& final(br).pending() < 8
                &&& final(br).stream().len() == final(br).pending() + 8 * (final(br).input().len()
                    - final(br).byte_pos())
                &&& huffman_decode(self.counts(), self.symbols(), old(br).stream()) == Some(
                    (sym, final(br).stream()),
                )
            },
    {
        let ghost s0 = br.stream();
        let mut code: i32 = 0;
        let mut first: i32 = 0;
        let mut index: i32 = 0;
        let mut len: usize = 1;
        proof {
            vstd::arithmetic::power2::lemma2_to64();
        }
        while len < 16
            invariant
                self.wf(),
                br.wf(),
                br.input() == old(br).input(),
                s0 == old(br).stream(),
                1 <= len <= 16,
                0 <= first <= code,
                code + 2 <= vstd::arithmetic::power2::pow2(len as nat),
                index == codes_below(self.counts(), len as int),
                huffman_decode(self.counts(), self.symbols(), s0) == decode_from(
                    self.counts(),
                    self.symbols(),
                    br.stream(),
                    len as int,
                    code as int,
                    first as int,
                    index as int,
                ),
            decreases 16 - len,
        {
            proof {
                lemma_codes_below_mono(self.counts(), len as int + 1, 16);
                lemma_codes_below_mono(self.counts(), 1, len as int);
                vstd::arithmetic::power2::lemma2_to64();
                if len < 15 {
                    vstd::arithmetic::power2::lemma_pow2_strictly_increases(len as nat, 15);
                }
                vstd::arithmetic::power2::lemma_pow2_unfold((len + 1) as nat);
            }
            let ghost st = br.stream();
            let b = match br.bits(1) {
                Some(b) => b,
                None => {
                    return None;
                },
            };
            assert(st.take(1).drop_first() =~= Seq::<bool>::empty());
            assert(st.take(1)[0] == st[0]);
            assert(br.stream() =~= st.drop_first());
            code = code + b as i32;
            let count = self.counts[len] as i32;
            assert(codes_below(self.counts(), len as int + 1) == index + count);
            assert(0 <= index + count <= self.symbols@.len());
            if code - first < count {
                assert(0 <= code - first);
                let at = (index + (code - first)) as usize;
                proof {
                    br.lemma_stream_len();
                }
                return Some(self.symbols[at]);
            }
            index = index + count;
            first = (first + count) * 2;
            code = code * 2;
            len = len + 1;
        }
        None
    }
}

} // verus!

verus! {

/// Takes an `n`-bit field, least significant bit first, off the front of
/// `s`; `None` if `s` is shorter than that.
pub open spec fn take_bits(s: Seq<bool>, n: int) -> Option<(nat, Seq<bool>)> {
    if 0 <= n <= s.len() {
        Some((bits_value(s.take(n)), s.skip(n)))
    } else {
        None
    }
}

pub const LENGTH_BASE: [u16; 29] = [
    3, 4, 5, 6, 7, 8, 9, 10, 11, 13, 15, 17, 19, 23, 27, 31, 35, 43, 51, 59, 67, 83, 99, 115, 131,
    163, 195, 227, 258,
];

pub const LENGTH_EXTRA: [u8; 29] = [
    0, 0, 0, 0, 0, 0, 0, 0, 1, 1, 1, 1, 2, 2, 2, 2, 3, 3, 3, 3, 4, 4, 4, 4, 5, 5, 5, 5, 0,
];

pub const DIST_BASE: [u16; 30] = [
    1, 2, 3, 4, 5, 7, 9, 13, 17, 25, 33, 49, 65, 97, 129, 193, 257, 385, 513, 769, 1025, 1537,
    2049, 3073, 4097, 6145, 8193, 12289, 16385, 24577,
];

pub const DIST_EXTRA: [u8; 30] = [
    0, 0, 0, 0, 1, 1, 2, 2, 3, 3, 4, 4, 5, 5, 6, 6, 7, 7, 8, 8, 9, 9, 10, 10, 11, 11, 12, 12, 13,
    13,
];

pub const CODE_LENGTH_ORDER: [usize; 19] = [
    16, 17, 18, 0, 8, 7, 9, 6, 10, 5, 11, 4, 12, 3, 13, 2, 14, 1, 15,
];

/// Code lengths of the fixed literal/length code (RFC 1951 section 3.2.6).
pub open spec fn fixed_lit_lengths() -> Seq<u8> {
    Seq::new(
        288,
        |i: int|
            if i < 144 {
                8u8
            } else if i < 256 {
                9u8
            } else if i < 280 {
                7u8
            } else {
                8u8
            },
    )
}

/// Code lengths of the fixed distance code: 5 bits for each of 30 symbols.
pub open spec fn fixed_dist_lengths() -> Seq<u8> {
    Seq::new(30, |i: int| 5u8)
}

pub fn fixed_lit_tree() -> (h: Huffman)
    ensures
        h.wf(),
        h.counts() == huffman_counts(fixed_lit_lengths()),
        h.symbols() == huffman_symbols(fixed_lit_lengths()),
{
    let mut lengths: Vec<u8> = vec![8u8; 288];
    let mut i: usize = 144;
    while i < 256
        invariant
            144 <= i <= 256,
            lengths@.len() == 288,
            forall|k: int| 0 <= k < 288 ==> lengths@[k] == (if 144 <= k < i { 9u8 } else { 8u8 }),
        decreases 256 - i,
    {
        lengths.set(i, 9);
        i = i + 1;
    }
    while i < 280
        invariant
            256 <= i <= 280,
            lengths@.len() == 288,
            forall|k: int|
                0 <= k < 288 ==> lengths@[k] == (if 144 <= k < 256 {
                    9u8
                } else if 256 <= k < i {
                    7u8
                } else {
                    8u8
                }),
        decreases 280 - i,
    {
        lengths.set(i, 7);
        i = i + 1;
    }
    assert(lengths@ =~= fixed_lit_lengths());
    Huffman::build(lengths.as_slice())
}

pub fn fixed_dist_tree() -> (h: Huffman)
    ensures
        h.wf(),
        h.counts() == huffman_counts(fixed_dist_lengths()),
        h.symbols() == huffman_symbols(fixed_dist_lengths()),
{
    let lengths: Vec<u8> = vec![5u8; 30];
    assert(lengths@ =~= fixed_dist_lengths());
    Huffman::build(lengths.as_slice())
}

} // verus!

verus! {

/// The code-length alphabet of a dynamic block header (RFC 1951 section
/// 3.2.7): symbols 0..15 are lengths, 16 repeats the previous length 3..6
/// times, 17 and 18 give runs of 3..10 and 11..138 zeros. Reading stops
/// once `total` lengths are known; a run that would overshoot is an error.
pub open spec fn code_lengths_from(
    counts: Seq<u16>,
    symbols: Seq<u16>,
    s: Seq<bool>,
    total: int,
    lengths: Seq<u8>,
    prev: u8,
) -> Option<(Seq<u8>, Seq<bool>)>
    decreases total - lengths.len(),
{
    if lengths.len() >= total {
        Some((lengths, s))
    } else {
        match huffman_decode(counts, symbols, s) {
            None => None,
            Some((sym, s1)) => {
                if sym <= 15 {
                    code_lengths_from(
                        counts,
                        symbols,
                        s1,
                        total,
                        lengths.push(sym as u8),
                        sym as u8,
                    )
                } else if sym == 16 {
                    if lengths.len() == 0 {
                        None
                    } else {
                        match take_bits(s1, 2) {
                            None => None,
                            Some((v, s2)) => {
                                let rep = 3 + v;
                                if lengths.len() + rep > total {
                                    None
                                } else {
                                    code_lengths_from(
                                        counts,
                                        symbols,
                                        s2,
                                        total,
                                        lengths + Seq::new(rep, |k: int| prev),
                                        prev,
                                    )
                                }
                            },
                        }
                    }
                } else if sym == 17 || sym == 18 {
                    let nbits: int = if sym == 17 { 3 } else { 7 };
                    let base: int = if sym == 17 { 3 } else { 11 };
                    match take_bits(s1, nbits) {
                        None => None,
                        Some((v, s2)) => {
                            let rep = base + v;
                            if lengths.len() + rep > total {
                                None
                            } else {
                                code_lengths_from(
                                    counts,
                                    symbols,
                                    s2,
                                    total,
                                    lengths + Seq::new(rep as nat, |k: int| 0u8),
                                    0u8,
                                )
                            }
                        },
                    }
                } else {
                    None
                }
            },
        }
    }
}

/// Pushes `value` until `lengths` holds `rep` more entries; fails, as the
/// decoder does, when that would run past `total`.
fn push_run(lengths: &mut Vec<u8>, value: u8, rep: u32, total: usize) -> (ok: bool)
    requires
        old(lengths)@.len() <= total,
    ensures
        ok <==> old(lengths)@.len() + rep <= total,
        ok ==> final(lengths)@ == old(lengths)@ + Seq::new(rep as nat, |k: int| value),
{
    let mut k: u32 = 0;
    while k < rep
        invariant
            k <= rep,
            lengths@.len() == old(lengths)@.len() + k,
            lengths@ == old(lengths)@ + Seq::new(k as nat, |j: int| value),
            old(lengths)@.len() <= total,
            lengths@.len() <= total,
        decreases rep - k,
    {
        if lengths.len() >= total {
            return false;
        }
        lengths.push(value);
        k = k + 1;
        assert(lengths@ =~= old(lengths)@ + Seq::new(k as nat, |j: int| value));
    }
    true
}

pub fn read_code_lengths(br: &mut BitReader, cl_tree: &Huffman, total: usize) -> (r: Option<
    Vec<u8>,
>)
    requires
        old(br).wf(),
        cl_tree.wf(),
    ensures
        final(br).input() == old(br).input(),
        r is Some <==> code_lengths_from(
            cl_tree.counts(),
            cl_tree.symbols(),
            old(br).stream(),
            total as int,
            Seq::empty(),
            0,
        ) is Some,
        r matches Some(v) ==> {
            &&& final(br).wf()
            &&& code_lengths_from(
                cl_tree.counts(),
                cl_tree.symbols(),
                old(br).stream(),
                total as int,
                Seq::empty(),
                0,
            ) == Some((v@, final(br).stream()))
            &&& forall|i: int| 0 <= i < v@.len() ==> v@[i] < 16
            &&& v@.len() == total
        },
{
    let ghost c = cl_tree.counts();
    let ghost sy = cl_tree.symbols();
    let ghost goal = code_lengths_from(c, sy, br.stream(), total as int, Seq::empty(), 0);
    let mut lengths: Vec<u8> = Vec::new();
    let mut prev: u8 = 0;
    while lengths.len() < total
        invariant
            cl_tree.wf(),
            c == cl_tree.counts(),
            sy == cl_tree.symbols(),
            br.wf(),
            br.input() == old(br).input(),
            goal == code_lengths_from(c, sy, old(br).stream(), total as int, Seq::empty(), 0),
            goal == code_lengths_from(c, sy, br.stream(), total as int, lengths@, prev),
            lengths@.len() <= total,
            prev < 16,
            forall|i: int| 0 <= i < lengths@.len() ==> lengths@[i] < 16,
        decreases total - lengths@.len(),
    {
        let sym = match cl_tree.decode(br) {
            Some(sym) => sym,
            None => {
                return None;
            },
        };
        if sym <= 15 {
            lengths.push(sym as u8);
            prev = sym as u8;
        } else if sym == 16 {
            if lengths.len() == 0 {
                return None;
            }
            let v = match br.bits(2) {
                Some(v) => v,
                None => {
                    return None;
                },
            };
            proof {
                vstd::arithmetic::power2::lemma2_to64();
            }
            if !push_run(&mut lengths, prev, 3 + v, total) {
                return None;
            }
        } else if sym == 17 {
            let v = match br.bits(3) {
                Some(v) => v,
                None => {
                    return None;
                },
            };
            proof {
                vstd::arithmetic::power2::lemma2_to64();
            }
            if !push_run(&mut lengths, 0, 3 + v, total) {
                return None;
            }
            prev = 0;
        } else if sym == 18 {
            let v = match br.bits(7) {
                Some(v) => v,
                None => {
                    return None;
                },
            };
            proof {
                vstd::arithmetic::power2::lemma2_to64();
            }
            if !push_run(&mut lengths, 0, 11 + v, total) {
                return None;
            }
            prev = 0;
        } else {
            return None;
        }
    }
    Some(lengths)
}

} // verus!

verus! {

/// Reads the `hclen` 3-bit code-length code lengths, which are stored in
/// the permuted order `CODE_LENGTH_ORDER`.
pub open spec fn cl_lengths_from(s: Seq<bool>, i: int, hclen: int, acc: Seq<u8>) -> Option<
    (Seq<u8>, Seq<bool>),
>
    decreases hclen - i,
{
    if i >= hclen {
        Some((acc, s))
    } else {
        match take_bits(s, 3) {
            None => None,
            Some((v, s1)) => cl_lengths_from(
                s1,
                i + 1,
                hclen,
                acc.update(CODE_LENGTH_ORDER@[i] as int, v as u8),
            ),
        }
    }
}

/// What follows the three counts of a dynamic block header: the permuted
/// code-length code, then `hlit + hdist` code lengths coded with it.
pub open spec fn dynamic_lengths_after(s: Seq<bool>, hlit: int, hdist: int, hclen: int) -> Option<
    (Seq<u8>, Seq<u8>, Seq<bool>),
> {
    match cl_lengths_from(s, 0, hclen, Seq::new(19, |k: int| 0u8)) {
        None => None,
        Some((cl, s1)) => match code_lengths_from(
            huffman_counts(cl),
            huffman_symbols(cl),
            s1,
            hlit + hdist,
            Seq::empty(),
            0,
        ) {
            None => None,
            Some((lengths, s2)) => Some((lengths.take(hlit), lengths.skip(hlit), s2)),
        },
    }
}

/// The header of a dynamic block: the literal/length code lengths, the
/// distance code lengths, and the stream after them.
pub open spec fn dynamic_lengths(s: Seq<bool>) -> Option<(Seq<u8>, Seq<u8>, Seq<bool>)> {
    match take_bits(s, 5) {
        None => None,
        Some((a, s1)) => match take_bits(s1, 5) {
            None => None,
            Some((b, s2)) => match take_bits(s2, 4) {
                None => None,
                Some((c, s3)) => dynamic_lengths_after(
                    s3,
                    257 + a as int,
                    1 + b as int,
                    4 + c as int,
                ),
            },
        },
    }
}

pub fn read_dynamic_tables(br: &mut BitReader) -> (r: Option<(Huffman, Huffman)>)
    requires
        old(br).wf(),
    ensures
        final(br).input() == old(br).input(),
        r is Some <==> dynamic_lengths(old(br).stream()) is Some,
        r matches Some((lit, dist)) ==> {
            let (ll, dl, rest) = dynamic_lengths(old(br).stream()).unwrap();
            &&& final(br).wf()
            &&& final(br).stream() == rest
            &&& lit.wf()
            &&& dist.wf()
            &&& lit.counts() == huffman_counts(ll)
            &&& lit.symbols() == huffman_symbols(ll)
            &&& dist.counts() == huffman_counts(dl)
            &&& dist.symbols() == huffman_symbols(dl)
        },
{
    let ghost s0 = br.stream();
    proof {
        vstd::arithmetic::power2::lemma2_to64();
    }
    let hlit = 257 + br.bits(5)? as usize;
    let hdist = 1 + br.bits(5)? as usize;
    let hclen = 4 + br.bits(4)? as usize;
    let ghost s3 = br.stream();
    assert(dynamic_lengths(s0) == dynamic_lengths_after(
        s3,
        hlit as int,
        hdist as int,
        hclen as int,
    ));

    let mut cl_lengths: Vec<u8> = vec![0u8; 19];
    assert(cl_lengths@ =~= Seq::new(19, |k: int| 0u8));
    let mut i: usize = 0;
    while i < hclen
        invariant
            i <= hclen <= 19,
            br.wf(),
            br.input() == old(br).input(),
            cl_lengths@.len() == 19,
            forall|k: int| 0 <= k < 19 ==> cl_lengths@[k] < 8,
            cl_lengths_from(s3, 0, hclen as int, Seq::new(19, |k: int| 0u8))
                == cl_lengths_from(br.stream(), i as int, hclen as int, cl_lengths@),
            s0 == old(br).stream(),
            dynamic_lengths(s0) == dynamic_lengths_after(
                s3,
                hlit as int,
                hdist as int,
                hclen as int,
            ),
        decreases hclen - i,
    {
        let v = match br.bits(3) {
            Some(v) => v,
            None => {
                return None;
            },
        };
        proof {
            vstd::arithmetic::power2::lemma2_to64();
        }
        let at = CODE_LENGTH_ORDER[i];
        cl_lengths.set(at, v as u8);
        i = i + 1;
    }
    let cl_tree = Huffman::build(cl_lengths.as_slice());

    let lengths = read_code_lengths(br, &cl_tree, hlit + hdist)?;
    let lit_tree = Huffman::build(vstd::slice::slice_subrange(lengths.as_slice(), 0, hlit));
    let dist_tree = Huffman::build(
        vstd::slice::slice_subrange(lengths.as_slice(), hlit, lengths.len()),
    );
    Some((lit_tree, dist_tree))
}

} // verus!

verus! {

/// Appends `length` bytes, each copied from `distance` bytes back in the
/// output as it grows, so a copy may overlap the bytes it produces.
pub open spec fn lz_copy(out: Seq<u8>, distance: int, length: int) -> Seq<u8>
    decreases length,
{
    if length <= 0 {
        out
    } else {
        lz_copy(out.push(out[out.len() - distance]), distance, length - 1)
    }
}

/// Decodes the symbols of one compressed block until its end-of-block
/// symbol (RFC 1951 section 3.2.5). Literals are appended; a length and a
/// distance copy earlier output. No byte is appended past `max`.
pub open spec fn block_from(
    lit_counts: Seq<u16>,
    lit_symbols: Seq<u16>,
    dist_counts: Seq<u16>,
    dist_symbols: Seq<u16>,
    s: Seq<bool>,
    out: Seq<u8>,
    max: int,
) -> Option<(Seq<u8>, Seq<bool>)>
    decreases s.len(),
{
    match huffman_decode(lit_counts, lit_symbols, s) {
        None => None,
        Some((sym, s1)) => {
            proof {
                lemma_decode_shrinks(lit_counts, lit_symbols, s, 1, 0, 0, 0);
            }
            if sym < 256 {
                if out.len() >= max {
                    None
                } else {
                    block_from(
                        lit_counts,
                        lit_symbols,
                        dist_counts,
                        dist_symbols,
                        s1,
                        out.push(sym as u8),
                        max,
                    )
                }
            } else if sym == 256 {
                Some((out, s1))
            } else if sym - 257 >= 29 {
                None
            } else {
                let idx = sym - 257;
                match take_bits(s1, LENGTH_EXTRA@[idx] as int) {
                    None => None,
                    Some((e, s2)) => {
                        let length = LENGTH_BASE@[idx] + e;
                        match huffman_decode(dist_counts, dist_symbols, s2) {
                            None => None,
                            Some((dsym, s3)) => {
                                proof {
                                    lemma_decode_shrinks(dist_counts, dist_symbols, s2, 1, 0, 0, 0);
                                }
                                if dsym >= 30 {
                                    None
                                } else {
                                    match take_bits(s3, DIST_EXTRA@[dsym as int] as int) {
                                        None => None,
                                        Some((de, s4)) => {
                                            let distance = DIST_BASE@[dsym as int] + de;
                                            if distance == 0 || distance > out.len() || out.len()
                                                + length > max {
                                                None
                                            } else {
                                                block_from(
                                                    lit_counts,
                                                    lit_symbols,
                                                    dist_counts,
                                                    dist_symbols,
                                                    s4,
                                                    lz_copy(out, distance, length),
                                                    max,
                                                )
                                            }
                                        },
                                    }
                                }
                            },
                        }
                    },
                }
            }
        },
    }
}

/// The output as `block_from` leaves it, also where decoding fails: what
/// was appended before the failing symbol stays.
pub open spec fn block_output(
    lit_counts: Seq<u16>,
    lit_symbols: Seq<u16>,
    dist_counts: Seq<u16>,
    dist_symbols: Seq<u16>,
    s: Seq<bool>,
    out: Seq<u8>,
    max: int,
) -> Seq<u8>
    decreases s.len(),
{
    match huffman_decode(lit_counts, lit_symbols, s) {
        None => out,
        Some((sym, s1)) => {
            proof {
                lemma_decode_shrinks(lit_counts, lit_symbols, s, 1, 0, 0, 0);
            }
            if sym < 256 {
                if out.len() >= max {
                    out
                } else {
                    block_output(
                        lit_counts,
                        lit_symbols,
                        dist_counts,
                        dist_symbols,
                        s1,
                        out.push(sym as u8),
                        max,
                    )
                }
            } else if sym == 256 {
                out
            } else if sym - 257 >= 29 {
                out
            } else {
                let idx = sym - 257;
                match take_bits(s1, LENGTH_EXTRA@[idx] as int) {
                    None => out,
                    Some((e, s2)) => {
                        let length = LENGTH_BASE@[idx] + e;
                        match huffman_decode(dist_counts, dist_symbols, s2) {
                            None => out,
                            Some((dsym, s3)) => {
                                proof {
                                    lemma_decode_shrinks(dist_counts, dist_symbols, s2, 1, 0, 0, 0);
                                }
                                if dsym >= 30 {
                                    out
                                } else {
                                    match take_bits(s3, DIST_EXTRA@[dsym as int] as int) {
                                        None => out,
                                        Some((de, s4)) => {
                                            let distance = DIST_BASE@[dsym as int] + de;
                                            if distance == 0 || distance > out.len() || out.len()
                                                + length > max {
                                                out
                                            } else {
                                                block_output(
                                                    lit_counts,
                                                    lit_symbols,
                                                    dist_counts,
                                                    dist_symbols,
                                                    s4,
                                                    lz_copy(out, distance, length),
                                                    max,
                                                )
                                            }
                                        },
                                    }
                                }
                            },
                        }
                    },
                }
            }
        },
    }
}

/// Decoding a block, whether it succeeds or not, only appends to the
/// output, and appends nothing past `max`; where it succeeds, the output
/// it leaves is the one `block_from` gives.
pub proof fn lemma_block_output(
    lc: Seq<u16>,
    ls: Seq<u16>,
    dc: Seq<u16>,
    ds: Seq<u16>,
    s: Seq<bool>,
    out: Seq<u8>,
    max: int,
)
    ensures
        out.is_prefix_of(block_output(lc, ls, dc, ds, s, out, max)),
        block_output(lc, ls, dc, ds, s, out, max).len() <= if out.len() >= max {
            out.len() as int
        } else {
            max
        },
        block_from(lc, ls, dc, ds, s, out, max) matches Some((o, rest)) ==> o == block_output(
            lc,
            ls,
            dc,
            ds,
            s,
            out,
            max,
        ),
    decreases s.len(),
{
    lemma_decode_shrinks(lc, ls, s, 1, 0, 0, 0);
    if let Some((sym, s1)) = huffman_decode(lc, ls, s) {
        if sym < 256 {
            if out.len() < max {
                let next = out.push(sym as u8);
                lemma_block_output(lc, ls, dc, ds, s1, next, max);
                assert(out.is_prefix_of(next));
            }
        } else if sym > 256 && sym - 257 < 29 {
            let idx = sym - 257;
            if let Some((e, s2)) = take_bits(s1, LENGTH_EXTRA@[idx] as int) {
                let length = LENGTH_BASE@[idx] + e;
                lemma_decode_shrinks(dc, ds, s2, 1, 0, 0, 0);
                if let Some((dsym, s3)) = huffman_decode(dc, ds, s2) {
                    if dsym < 30 {
                        if let Some((de, s4)) = take_bits(s3, DIST_EXTRA@[dsym as int] as int) {
                            let distance = DIST_BASE@[dsym as int] + de;
                            if !(distance == 0 || distance > out.len() || out.len() + length
                                > max) {
                                let next = lz_copy(out, distance, length);
                                lemma_lz_copy(out, distance, length);
                                lemma_block_output(lc, ls, dc, ds, s4, next, max);
                            }
                        }
                    }
                }
            }
        }
    }
}

} // verus!

verus! {

pub fn inflate_block(
    br: &mut BitReader,
    lit: &Huffman,
    dist: &Huffman,
    out: &mut Vec<u8>,
    max_output: usize,
) -> (r: Option<()>)
    requires
        old(br).wf(),
        lit.wf(),
        dist.wf(),
    ensures
        final(br).input() == old(br).input(),
        r is Some <==> block_from(
            lit.counts(),
            lit.symbols(),
            dist.counts(),
            dist.symbols(),
            old(br).stream(),
            old(out)@,
            max_output as int,
        ) is Some,
        r is Some ==> {
            &&& final(br).wf()
            &&& block_from(
                lit.counts(),
                lit.symbols(),
                dist.counts(),
                dist.symbols(),
                old(br).stream(),
                old(out)@,
                max_output as int,
            ) == Some((final(out)@, final(br).stream()))
        },
        final(out)@ == block_output(
            lit.counts(),
            lit.symbols(),
            dist.counts(),
            dist.symbols(),
            old(br).stream(),
            old(out)@,
            max_output as int,
        ),
        old(out)@.is_prefix_of(final(out)@),
        final(out)@.len() <= if old(out)@.len() >= max_output {
            old(out)@.len() as int
        } else {
            max_output as int
        },
{
    let ghost goal = block_from(
        lit.counts(),
        lit.symbols(),
        dist.counts(),
        dist.symbols(),
        br.stream(),
        out@,
        max_output as int,
    );
    let ghost goal_out = block_output(
        lit.counts(),
        lit.symbols(),
        dist.counts(),
        dist.symbols(),
        br.stream(),
        out@,
        max_output as int,
    );
    proof {
        lemma_block_output(
            lit.counts(),
            lit.symbols(),
            dist.counts(),
            dist.symbols(),
            br.stream(),
            out@,
            max_output as int,
        );
    }
    loop
        invariant
            goal_out == block_output(
                lit.counts(),
                lit.symbols(),
                dist.counts(),
                dist.symbols(),
                old(br).stream(),
                old(out)@,
                max_output as int,
            ),
            goal_out == block_output(
                lit.counts(),
                lit.symbols(),
                dist.counts(),
                dist.symbols(),
                br.stream(),
                out@,
                max_output as int,
            ),
            old(out)@.is_prefix_of(goal_out),
            goal_out.len() <= if old(out)@.len() >= max_output {
                old(out)@.len() as int
            } else {
                max_output as int
            },
            br.wf(),
            lit.wf(),
            dist.wf(),
            br.input() == old(br).input(),
            goal == block_from(
                lit.counts(),
                lit.symbols(),
                dist.counts(),
                dist.symbols(),
                old(br).stream(),
                old(out)@,
                max_output as int,
            ),
            goal == block_from(
                lit.counts(),
                lit.symbols(),
                dist.counts(),
                dist.symbols(),
                br.stream(),
                out@,
                max_output as int,
            ),
        decreases br.stream().len(),
    {
        let ghost s0 = br.stream();
        proof {
            lemma_decode_shrinks(lit.counts(), lit.symbols(), s0, 1, 0, 0, 0);
        }
        let sym = match lit.decode(br) {
            Some(sym) => sym,
            None => {
                return None;
            },
        };
        if sym < 256 {
            if out.len() >= max_output {
                return None;
            }
            out.push(sym as u8);
        } else if sym == 256 {
            return Some(());
        } else {
            let idx = (sym - 257) as usize;
            if idx >= 29 {
                return None;
            }
            let base = LENGTH_BASE[idx] as usize;
            let extra = LENGTH_EXTRA[idx] as u32;
            assert(extra <= 16);
            let e = match br.bits(extra) {
                Some(e) => e,
                None => {
                    return None;
                },
            };
            proof {
                vstd::arithmetic::power2::lemma2_to64();
                if extra < 16 {
                    vstd::arithmetic::power2::lemma_pow2_strictly_increases(extra as nat, 16);
                }
            }
            let length = base + e as usize;
            let ghost s2 = br.stream();
            proof {
                lemma_decode_shrinks(dist.counts(), dist.symbols(), s2, 1, 0, 0, 0);
            }
            let dsym = match dist.decode(br) {
                Some(d) => d as usize,
                None => {
                    return None;
                },
            };
            if dsym >= 30 {
                return None;
            }
            let dbase = DIST_BASE[dsym] as usize;
            let dextra = DIST_EXTRA[dsym] as u32;
            assert(dextra <= 16);
            let de = match br.bits(dextra) {
                Some(de) => de,
                None => {
                    return None;
                },
            };
            proof {
                vstd::arithmetic::power2::lemma2_to64();
                if dextra < 16 {
                    vstd::arithmetic::power2::lemma_pow2_strictly_increases(dextra as nat, 16);
                }
            }
            let distance = dbase + de as usize;
            if distance == 0 || distance > out.len() || out.len() > max_output || length
                > max_output - out.len() {
                return None;
            }
            let ghost before = out@;
            let mut k: usize = 0;
            while k < length
                invariant
                    k <= length,
                    0 < distance <= out@.len(),
                    lz_copy(before, distance as int, length as int) == lz_copy(
                        out@,
                        distance as int,
                        (length - k) as int,
                    ),
                    out@.len() == before.len() + k,
                    before.len() + length <= max_output,
                decreases length - k,
            {
                let b = out[out.len() - distance];
                out.push(b);
                k = k + 1;
            }
        }
    }
}

} // verus!

verus! {

/// The `n` bytes at the front of a byte-aligned bit stream.
pub open spec fn stream_bytes(s: Seq<bool>, n: int) -> Seq<u8> {
    Seq::new(n as nat, |i: int| bits_value(s.subrange(8 * i, 8 * i + 8)) as u8)
}

/// A stored block (RFC 1951 section 3.2.4): skip to a byte boundary, read
/// LEN and its ones' complement NLEN, then copy LEN bytes.
pub open spec fn stored_block(s: Seq<bool>, out: Seq<u8>, max: int) -> Option<(Seq<u8>, Seq<bool>)> {
    let a = s.skip((s.len() % 8) as int);
    match take_bits(a, 16) {
        None => None,
        Some((len, a1)) => match take_bits(a1, 16) {
            None => None,
            Some((nlen, a2)) => {
                if len + nlen != 0xFFFF {
                    None
                } else if a2.len() < 8 * len {
                    None
                } else if out.len() + len > max {
                    None
                } else {
                    Some((out + stream_bytes(a2, len as int), a2.skip((8 * len) as int)))
                }
            },
        },
    }
}

pub proof fn lemma_block_shrinks(
    lc: Seq<u16>,
    ls: Seq<u16>,
    dc: Seq<u16>,
    ds: Seq<u16>,
    s: Seq<bool>,
    out: Seq<u8>,
    max: int,
)
    ensures
        block_from(lc, ls, dc, ds, s, out, max) matches Some((o, rest)) ==> rest.len() < s.len(),
    decreases s.len(),
{
    lemma_decode_shrinks(lc, ls, s, 1, 0, 0, 0);
    if let Some((sym, s1)) = huffman_decode(lc, ls, s) {
        if sym < 256 {
            if out.len() < max {
                lemma_block_shrinks(lc, ls, dc, ds, s1, out.push(sym as u8), max);
            }
        } else if sym > 256 && sym - 257 < 29 {
            let idx = sym - 257;
            if let Some((e, s2)) = take_bits(s1, LENGTH_EXTRA@[idx] as int) {
                let length = LENGTH_BASE@[idx] + e;
                lemma_decode_shrinks(dc, ds, s2, 1, 0, 0, 0);
                if let Some((dsym, s3)) = huffman_decode(dc, ds, s2) {
                    if dsym < 30 {
                        if let Some((de, s4)) = take_bits(s3, DIST_EXTRA@[dsym as int] as int) {
                            let distance = DIST_BASE@[dsym as int] + de;
                            if !(distance == 0 || distance > out.len() || out.len() + length
                                > max) {
                                lemma_block_shrinks(
                                    lc,
                                    ls,
                                    dc,
                                    ds,
                                    s4,
                                    lz_copy(out, distance, length),
                                    max,
                                );
                            }
                        }
                    }
                }
            }
        }
    }
}

pub proof fn lemma_code_lengths_shrinks(
    counts: Seq<u16>,
    symbols: Seq<u16>,
    s: Seq<bool>,
    total: int,
    lengths: Seq<u8>,
    prev: u8,
)
    ensures
        code_lengths_from(counts, symbols, s, total, lengths, prev) matches Some((l, rest))
            ==> rest.len() <= s.len(),
    decreases total - lengths.len(),
{
    if lengths.len() < total {
        lemma_decode_shrinks(counts, symbols, s, 1, 0, 0, 0);
        if let Some((sym, s1)) = huffman_decode(counts, symbols, s) {
            if sym <= 15 {
                lemma_code_lengths_shrinks(
                    counts,
                    symbols,
                    s1,
                    total,
                    lengths.push(sym as u8),
                    sym as u8,
                );
            } else if sym == 16 {
                if lengths.len() != 0 {
                    if let Some((v, s2)) = take_bits(s1, 2) {
                        let rep = 3 + v;
                        if lengths.len() + rep <= total {
                            lemma_code_lengths_shrinks(
                                counts,
                                symbols,
                                s2,
                                total,
                                lengths + Seq::new(rep, |k: int| prev),
                                prev,
                            );
                        }
                    }
                }
            } else if sym == 17 || sym == 18 {
                let nbits: int = if sym == 17 { 3 } else { 7 };
                let base: int = if sym == 17 { 3 } else { 11 };
                if let Some((v, s2)) = take_bits(s1, nbits) {
                    let rep = base + v;
                    if lengths.len() + rep <= total {
                        lemma_code_lengths_shrinks(
                            counts,
                            symbols,
                            s2,
                            total,
                            lengths + Seq::new(rep as nat, |k: int| 0u8),
                            0u8,
                        );
                    }
                }
            }
        }
    }
}

pub proof fn lemma_cl_shrinks(s: Seq<bool>, i: int, hclen: int, acc: Seq<u8>)
    ensures
        cl_lengths_from(s, i, hclen, acc) matches Some((cl, rest)) ==> rest.len() <= s.len(),
    decreases hclen - i,
{
    if i < hclen {
        if let Some((v, s1)) = take_bits(s, 3) {
            lemma_cl_shrinks(s1, i + 1, hclen, acc.update(CODE_LENGTH_ORDER@[i] as int, v as u8));
        }
    }
}

pub proof fn lemma_dynamic_shrinks(s: Seq<bool>)
    ensures
        dynamic_lengths(s) matches Some((ll, dl, rest)) ==> rest.len() <= s.len(),
{
    if let Some((a, s1)) = take_bits(s, 5) {
        if let Some((b, s2)) = take_bits(s1, 5) {
            if let Some((c, s3)) = take_bits(s2, 4) {
                let hlit = 257 + a as int;
                let hdist = 1 + b as int;
                let zeros = Seq::new(19, |k: int| 0u8);
                lemma_cl_shrinks(s3, 0, 4 + c as int, zeros);
                if let Some((cl, s4)) = cl_lengths_from(s3, 0, 4 + c as int, zeros) {
                    lemma_code_lengths_shrinks(
                        huffman_counts(cl),
                        huffman_symbols(cl),
                        s4,
                        hlit + hdist,
                        Seq::empty(),
                        0,
                    );
                }
            }
        }
    }
}

/// One block of any type, as selected by its 2-bit type field.
pub open spec fn block_of_type(btype: nat, s: Seq<bool>, out: Seq<u8>, max: int) -> Option<
    (Seq<u8>, Seq<bool>),
> {
    if btype == 0 {
        stored_block(s, out, max)
    } else if btype == 1 {
        block_from(
            huffman_counts(fixed_lit_lengths()),
            huffman_symbols(fixed_lit_lengths()),
            huffman_counts(fixed_dist_lengths()),
            huffman_symbols(fixed_dist_lengths()),
            s,
            out,
            max,
        )
    } else if btype == 2 {
        match dynamic_lengths(s) {
            None => None,
            Some((ll, dl, s1)) => block_from(
                huffman_counts(ll),
                huffman_symbols(ll),
                huffman_counts(dl),
                huffman_symbols(dl),
                s1,
                out,
                max,
            ),
        }
    } else {
        None
    }
}

pub proof fn lemma_block_of_type_shrinks(btype: nat, s: Seq<bool>, out: Seq<u8>, max: int)
    ensures
        block_of_type(btype, s, out, max) matches Some((o, rest)) ==> rest.len() <= s.len(),
{
    if btype == 1 {
        lemma_block_shrinks(
            huffman_counts(fixed_lit_lengths()),
            huffman_symbols(fixed_lit_lengths()),
            huffman_counts(fixed_dist_lengths()),
            huffman_symbols(fixed_dist_lengths()),
            s,
            out,
            max,
        );
    } else if btype == 2 {
        lemma_dynamic_shrinks(s);
        if let Some((ll, dl, s1)) = dynamic_lengths(s) {
            lemma_block_shrinks(
                huffman_counts(ll),
                huffman_symbols(ll),
                huffman_counts(dl),
                huffman_symbols(dl),
                s1,
                out,
                max,
            );
        }
    }
}

/// Blocks are decoded in turn, each after a 1-bit "final" flag and a 2-bit
/// type, until a final block has been decoded.
pub open spec fn inflate_from(s: Seq<bool>, out: Seq<u8>, max: int) -> Option<Seq<u8>>
    decreases s.len(),
{
    match take_bits(s, 1) {
        None => None,
        Some((fin, s1)) => match take_bits(s1, 2) {
            None => None,
            Some((btype, s2)) => match block_of_type(btype, s2, out, max) {
                None => None,
                Some((o, s3)) => {
                    if fin != 0 {
                        Some(o)
                    } else {
                        proof {
                            lemma_block_of_type_shrinks(btype, s2, out, max);
                        }
                        inflate_from(s3, o, max)
                    }
                },
            },
        },
    }
}

/// The result of inflating the raw DEFLATE stream `data` into at most
/// `max` bytes.
pub open spec fn inflate_spec(data: Seq<u8>, max: int) -> Option<Seq<u8>> {
    inflate_from(data_bits(data), Seq::empty(), max)
}

/// The result of decompressing the zlib stream `data` (RFC 1950) into at
/// most `max` bytes: a CMF/FLG header naming DEFLATE, with a valid check
/// value and no preset dictionary, then a DEFLATE stream. The trailing
/// Adler-32 checksum is not looked at.
pub open spec fn zlib_spec(data: Seq<u8>, max: int) -> Option<Seq<u8>> {
    if data.len() < 2 {
        None
    } else if data[0] & 0x0Fu8 != 8 {
        None
    } else if (data[0] as int * 256 + data[1] as int) % 31 != 0 {
        None
    } else if data[1] & 0x20u8 != 0 {
        None
    } else {
        inflate_spec(data.skip(2), max)
    }
}

} // verus!

verus! {

/// Reading `a` bits and then `b` more takes the same bits as reading
/// `a + b` at once, and one succeeds where the other does: the first value
/// is the low `a` bits of the combined field and the second the rest.
pub proof fn lemma_take_bits_split(s: Seq<bool>, a: nat, b: nat)
    ensures
        take_bits(s, (a + b) as int) == match take_bits(s, a as int) {
            None => None,
            Some((x, s1)) => match take_bits(s1, b as int) {
                None => None,
                Some((y, s2)) => Some(((x + vstd::arithmetic::power2::pow2(a) * y) as nat, s2)),
            },
        },
{
    if a + b <= s.len() {
        let s1 = s.skip(a as int);
        assert(s.take((a + b) as int) =~= s.take(a as int) + s1.take(b as int));
        assert(s1.skip(b as int) =~= s.skip((a + b) as int));
        lemma_bits_value_concat(s.take(a as int), s1.take(b as int));
    }
}

/// Two readers over the same input with as many bits left stand at the
/// same byte with as many bits buffered.
pub proof fn lemma_same_position(r1: &BitReader, r2: &BitReader)
    requires
        r1.wf(),
        r2.wf(),
        r1.input() == r2.input(),
        r1.stream().len() == r2.stream().len(),
    ensures
        r1.byte_pos() == r2.byte_pos(),
        r1.pending() == r2.pending(),
{
    r1.lemma_stream_len();
    r2.lemma_stream_len();
}

pub proof fn lemma_bits_value_concat(a: Seq<bool>, b: Seq<bool>)
    ensures
        bits_value(a + b) == bits_value(a) + vstd::arithmetic::power2::pow2(a.len()) * bits_value(
            b,
        ),
    decreases a.len(),
{
    if a.len() == 0 {
        assert(a + b =~= b);
        vstd::arithmetic::power2::lemma2_to64();
        assert(bits_value(a) == 0);
        assert(vstd::arithmetic::power2::pow2(a.len()) * bits_value(b) == bits_value(b));
    } else {
        vstd::arithmetic::power2::lemma_pow2_unfold(a.len());
        lemma_bits_value_concat(a.drop_first(), b);
        assert((a + b).drop_first() =~= a.drop_first() + b);
        let p = vstd::arithmetic::power2::pow2((a.len() - 1) as nat);
        let x = bits_value(a.drop_first());
        let y = bits_value(b);
        let bit: nat = if a[0] { 1nat } else { 0nat };
        assert((a + b)[0] == a[0]);
        assert(bits_value(a + b) == bit + 2 * bits_value((a + b).drop_first()));
        assert(bits_value(a) == bit + 2 * x);
        assert(2 * (x + p * y) == 2 * x + (2 * p) * y) by (nonlinear_arith);
        assert(bits_value(a.drop_first() + b) == x + p * y);
        assert(vstd::arithmetic::power2::pow2(a.len()) == 2 * p);
        assert(bits_value(a + b) == bit + 2 * x + (2 * p) * y);
        assert(vstd::arithmetic::power2::pow2(a.len()) * y == (2 * p) * y);
    }
}

proof fn lemma_data_byte(data: Seq<u8>, k: int)
    requires
        0 <= k < data.len(),
    ensures
        bits_value(data_bits(data).subrange(8 * k, 8 * k + 8)) == data[k],
{
    let b = data[k];
    let w = b as u32;
    assert(data_bits(data).subrange(8 * k, 8 * k + 8) =~= word_bits(w, 8)) by {
        assert forall|j: int| 0 <= j < 8 implies #[trigger] data_bits(data).subrange(
            8 * k,
            8 * k + 8,
        )[j] == word_bits(w, 8)[j] by {
            assert((8 * k + j) / 8 == k);
            assert((8 * k + j) % 8 == j);
            let jj = j as u8;
            let jw = j as u32;
            assert(((b >> jj) & 1u8 == 1u8) == ((w >> jw) & 1u32 == 1u32)) by (bit_vector)
                requires
                    jj < 8,
                    jw == jj as u32,
                    w == b as u32,
            ;
        }
    }
    assert(w >> 8u32 == 0) by (bit_vector)
        requires
            w == b as u32,
    ;
    lemma_word_bits_value(w, 8);
}

/// Reading whole bytes off a byte-aligned stream gives the input bytes.
proof fn lemma_aligned_bytes(data: Seq<u8>, pos: int, n: int)
    requires
        0 <= pos,
        0 <= n,
        pos + n <= data.len(),
    ensures
        stream_bytes(data_bits(data).skip(8 * pos), n) == data.subrange(pos, pos + n),
{
    let a = data_bits(data).skip(8 * pos);
    assert forall|i: int| 0 <= i < n implies #[trigger] stream_bytes(a, n)[i] == data.subrange(
        pos,
        pos + n,
    )[i] by {
        assert(a.subrange(8 * i, 8 * i + 8) =~= data_bits(data).subrange(
            8 * (pos + i),
            8 * (pos + i) + 8,
        ));
        lemma_data_byte(data, pos + i);
    }
    assert(stream_bytes(a, n) =~= data.subrange(pos, pos + n));
}

/// The first 16 bits of a byte-aligned stream are a little-endian `u16`.
proof fn lemma_aligned_u16(data: Seq<u8>, pos: int)
    requires
        0 <= pos,
        pos + 2 <= data.len(),
    ensures
        bits_value(data_bits(data).skip(8 * pos).take(16)) == data[pos] + 256 * data[pos + 1],
{
    let a = data_bits(data).skip(8 * pos);
    assert(a.take(16) =~= a.subrange(0, 8) + a.subrange(8, 16));
    lemma_bits_value_concat(a.subrange(0, 8), a.subrange(8, 16));
    assert(a.subrange(0, 8) =~= data_bits(data).subrange(8 * pos, 8 * pos + 8));
    assert(a.subrange(8, 16) =~= data_bits(data).subrange(8 * (pos + 1), 8 * (pos + 1) + 8));
    lemma_data_byte(data, pos);
    lemma_data_byte(data, pos + 1);
    vstd::arithmetic::power2::lemma2_to64();
}



/// Copies a stored block's bytes to `out` (RFC 1951 section 3.2.4).
fn inflate_stored(br: &mut BitReader, out: &mut Vec<u8>, max_output: usize) -> (r: Option<()>)
    requires
        old(br).wf(),
    ensures
        final(br).input() == old(br).input(),
        r is Some <==> stored_block(old(br).stream(), old(out)@, max_output as int) is Some,
        r is Some ==> {
            &&& final(br).wf()
            &&& stored_block(old(br).stream(), old(out)@, max_output as int) == Some(
                (final(out)@, final(br).stream()),
            )
        },
{
    let ghost data = br.input();
    let ghost out0 = out@;
    let ghost s0 = br.stream();
    proof {
        br.lemma_stream_len();
    }
    br.align_to_byte();
    let ghost a = br.stream();
    assert(a == s0.skip((s0.len() % 8) as int));
    proof {
        br.lemma_stream_len();
        if br.byte_pos() + 2 <= data.len() {
            lemma_aligned_u16(data, br.byte_pos());
        }
    }
    let len = match br.read_u16_le() {
        Some(v) => v,
        None => {
            assert(take_bits(a, 16) is None);
            return None;
        },
    };
    let ghost a1 = br.stream();
    assert(take_bits(a, 16) == Some((len as nat, a1)));
    proof {
        br.lemma_stream_len();
        if br.byte_pos() + 2 <= data.len() {
            lemma_aligned_u16(data, br.byte_pos());
        }
    }
    let nlen = match br.read_u16_le() {
        Some(v) => v,
        None => {
            assert(take_bits(a1, 16) is None);
            return None;
        },
    };
    let ghost a2 = br.stream();
    assert(take_bits(a1, 16) == Some((nlen as nat, a2)));
    assert(!nlen == 0xFFFF - nlen) by (bit_vector);
    if len != !nlen {
        return None;
    }
    proof {
        br.lemma_stream_len();
        if br.byte_pos() + len <= data.len() {
            lemma_aligned_bytes(data, br.byte_pos(), len as int);
        }
    }
    let bytes = match br.read_bytes(len as usize) {
        Some(b) => b,
        None => {
            assert(a2.len() < 8 * len);
            return None;
        },
    };
    assert(bytes@ == stream_bytes(a2, len as int));
    if out.len() > max_output || bytes.len() > max_output - out.len() {
        return None;
    }
    out.extend_from_slice(bytes);
    assert(out@ =~= out0 + bytes@);
    Some(())
}

/// Inflates a raw (headerless) DEFLATE stream, stopping at the first final
/// block and refusing to grow the output past `max_output` bytes - a small
/// compressed chunk can expand enormously, and this is decompressing
/// attacker-controlled input.
pub fn inflate(data: &[u8], max_output: usize) -> (r: Option<Vec<u8>>)
    ensures
        r is Some <==> inflate_spec(data@, max_output as int) is Some,
        r matches Some(v) ==> inflate_spec(data@, max_output as int) == Some(v@),
{
    let mut br = BitReader::new(data);
    let mut out: Vec<u8> = Vec::new();
    let fixed_lit = fixed_lit_tree();
    let fixed_dist = fixed_dist_tree();
    let ghost max = max_output as int;
    let ghost goal = inflate_spec(data@, max);
    assert(out@ =~= Seq::<u8>::empty());

    loop
        invariant
            br.wf(),
            br.input() == data@,
            fixed_lit.wf(),
            fixed_dist.wf(),
            fixed_lit.counts() == huffman_counts(fixed_lit_lengths()),
            fixed_lit.symbols() == huffman_symbols(fixed_lit_lengths()),
            fixed_dist.counts() == huffman_counts(fixed_dist_lengths()),
            fixed_dist.symbols() == huffman_symbols(fixed_dist_lengths()),
            max == max_output as int,
            goal == inflate_spec(data@, max),
            goal == inflate_from(br.stream(), out@, max),
        decreases br.stream().len(),
    {
        let ghost s0 = br.stream();
        let ghost out0 = out@;
        let fin = match br.bits(1) {
            Some(v) => v,
            None => {
                return None;
            },
        };
        let final_block = fin != 0;
        let block_type = match br.bits(2) {
            Some(v) => v,
            None => {
                return None;
            },
        };
        let ghost s2 = br.stream();
        proof {
            lemma_block_of_type_shrinks(block_type as nat, s2, out0, max);
        }
        if block_type == 0 {
            if inflate_stored(&mut br, &mut out, max_output).is_none() {
                return None;
            }
        } else if block_type == 1 {
            if inflate_block(&mut br, &fixed_lit, &fixed_dist, &mut out, max_output).is_none() {
                return None;
            }
        } else if block_type == 2 {
            let (lit_tree, dist_tree) = match read_dynamic_tables(&mut br) {
                Some(t) => t,
                None => {
                    return None;
                },
            };
            if inflate_block(&mut br, &lit_tree, &dist_tree, &mut out, max_output).is_none() {
                return None;
            }
        } else {
            return None;
        }
        if final_block {
            return Some(out);
        }
    }
}

} // verus!

verus! {

/// Decompresses a zlib-wrapped (RFC 1950) DEFLATE stream, as used by PNG's
/// zTXt and compressed iTXt chunks. The trailing Adler-32 checksum is not
/// verified: this is metadata extraction, not integrity checking.
pub fn zlib_decompress(data: &[u8], max_output: usize) -> (r: Option<Vec<u8>>)
    ensures
        r is Some <==> zlib_spec(data@, max_output as int) is Some,
        r matches Some(v) ==> zlib_spec(data@, max_output as int) == Some(v@),
{
    if data.len() < 2 {
        return None;
    }
    let cmf = data[0];
    let flg = data[1];
    if cmf & 0x0F != 8 {
        return None;
    }
    if ((cmf as u16) * 256 + flg as u16) % 31 != 0 {
        return None;
    }
    if flg & 0x20 != 0 {
        return None;
    }
    let rest = vstd::slice::slice_subrange(data, 2, data.len());
    assert(rest@ =~= data@.skip(2));
    inflate(rest, max_output)
}

} // verus!

verus! {

proof fn lemma_lz_copy(out: Seq<u8>, distance: int, length: int)
    requires
        0 <= length,
    ensures
        lz_copy(out, distance, length).len() == out.len() + length,
        out.is_prefix_of(lz_copy(out, distance, length)),
    decreases length,
{
    if length > 0 {
        let next = out.push(out[out.len() - distance]);
        lemma_lz_copy(next, distance, length - 1);
        assert(out.is_prefix_of(next));
    }
}

/// A compressed block only appends to the output, and never past `max`.
proof fn lemma_block_bounded(
    lc: Seq<u16>,
    ls: Seq<u16>,
    dc: Seq<u16>,
    ds: Seq<u16>,
    s: Seq<bool>,
    out: Seq<u8>,
    max: int,
)
    requires
        out.len() <= max,
    ensures
        block_from(lc, ls, dc, ds, s, out, max) matches Some((o, rest)) ==> o.len() <= max
            && out.is_prefix_of(o),
    decreases s.len(),
{
    lemma_decode_shrinks(lc, ls, s, 1, 0, 0, 0);
    if let Some((sym, s1)) = huffman_decode(lc, ls, s) {
        if sym < 256 {
            if out.len() < max {
                let next = out.push(sym as u8);
                lemma_block_bounded(lc, ls, dc, ds, s1, next, max);
                if let Some((o, rest)) = block_from(lc, ls, dc, ds, s1, next, max) {
                    assert(out.is_prefix_of(next));
                    assert(out.is_prefix_of(o));
                }
            }
        } else if sym > 256 && sym - 257 < 29 {
            let idx = sym - 257;
            if let Some((e, s2)) = take_bits(s1, LENGTH_EXTRA@[idx] as int) {
                let length = LENGTH_BASE@[idx] + e;
                lemma_decode_shrinks(dc, ds, s2, 1, 0, 0, 0);
                if let Some((dsym, s3)) = huffman_decode(dc, ds, s2) {
                    if dsym < 30 {
                        if let Some((de, s4)) = take_bits(s3, DIST_EXTRA@[dsym as int] as int) {
                            let distance = DIST_BASE@[dsym as int] + de;
                            if !(distance == 0 || distance > out.len() || out.len() + length
                                > max) {
                                let next = lz_copy(out, distance, length);
                                lemma_lz_copy(out, distance, length);
                                lemma_block_bounded(lc, ls, dc, ds, s4, next, max);
                                if let Some((o, rest)) = block_from(lc, ls, dc, ds, s4, next, max) {
                                    assert(out.is_prefix_of(o));
                                }
                            }
                        }
                    }
                }
            }
        }
    }
}

proof fn lemma_block_of_type_bounded(btype: nat, s: Seq<bool>, out: Seq<u8>, max: int)
    requires
        out.len() <= max,
    ensures
        block_of_type(btype, s, out, max) matches Some((o, rest)) ==> o.len() <= max
            && out.is_prefix_of(o),
{
    if btype == 0 {
        if let Some((o, rest)) = stored_block(s, out, max) {
            assert(out.is_prefix_of(o));
        }
    } else if btype == 1 {
        lemma_block_bounded(
            huffman_counts(fixed_lit_lengths()),
            huffman_symbols(fixed_lit_lengths()),
            huffman_counts(fixed_dist_lengths()),
            huffman_symbols(fixed_dist_lengths()),
            s,
            out,
            max,
        );
    } else if btype == 2 {
        if let Some((ll, dl, s1)) = dynamic_lengths(s) {
            lemma_block_bounded(
                huffman_counts(ll),
                huffman_symbols(ll),
                huffman_counts(dl),
                huffman_symbols(dl),
                s1,
                out,
                max,
            );
        }
    }
}

proof fn lemma_inflate_from_bounded(s: Seq<bool>, out: Seq<u8>, max: int)
    requires
        out.len() <= max,
    ensures
        inflate_from(s, out, max) matches Some(o) ==> o.len() <= max && out.is_prefix_of(o),
    decreases s.len(),
{
    if let Some((fin, s1)) = take_bits(s, 1) {
        if let Some((btype, s2)) = take_bits(s1, 2) {
            lemma_block_of_type_bounded(btype, s2, out, max);
            lemma_block_of_type_shrinks(btype, s2, out, max);
            if let Some((o, s3)) = block_of_type(btype, s2, out, max) {
                if fin == 0 {
                    lemma_inflate_from_bounded(s3, o, max);
                    if let Some(o2) = inflate_from(s3, o, max) {
                        assert(out.is_prefix_of(o2));
                    }
                }
            }
        }
    }
}

proof fn lemma_block_cap(
    lc: Seq<u16>,
    ls: Seq<u16>,
    dc: Seq<u16>,
    ds: Seq<u16>,
    s: Seq<bool>,
    out: Seq<u8>,
    m1: int,
    m2: int,
)
    requires
        out.len() <= m2,
    ensures
        block_from(lc, ls, dc, ds, s, out, m1) matches Some((o, rest)) ==> block_from(
            lc,
            ls,
            dc,
            ds,
            s,
            out,
            m2,
        ) == (if o.len() <= m2 {
            Some((o, rest))
        } else {
            None
        }),
    decreases s.len(),
{
    lemma_decode_shrinks(lc, ls, s, 1, 0, 0, 0);
    if let Some((sym, s1)) = huffman_decode(lc, ls, s) {
        if sym < 256 {
            if out.len() < m1 {
                let next = out.push(sym as u8);
                lemma_block_output(lc, ls, dc, ds, s1, next, m1);
                if out.len() < m2 {
                    lemma_block_cap(lc, ls, dc, ds, s1, next, m1, m2);
                }
            }
        } else if sym > 256 && sym - 257 < 29 {
            let idx = sym - 257;
            if let Some((e, s2)) = take_bits(s1, LENGTH_EXTRA@[idx] as int) {
                let length = LENGTH_BASE@[idx] + e;
                lemma_decode_shrinks(dc, ds, s2, 1, 0, 0, 0);
                if let Some((dsym, s3)) = huffman_decode(dc, ds, s2) {
                    if dsym < 30 {
                        if let Some((de, s4)) = take_bits(s3, DIST_EXTRA@[dsym as int] as int) {
                            let distance = DIST_BASE@[dsym as int] + de;
                            if !(distance == 0 || distance > out.len() || out.len() + length
                                > m1) {
                                let next = lz_copy(out, distance, length);
                                lemma_lz_copy(out, distance, length);
                                lemma_block_output(lc, ls, dc, ds, s4, next, m1);
                                if out.len() + length <= m2 {
                                    lemma_block_cap(lc, ls, dc, ds, s4, next, m1, m2);
                                }
                            }
                        }
                    }
                }
            }
        }
    }
}

proof fn lemma_block_of_type_cap(btype: nat, s: Seq<bool>, out: Seq<u8>, m1: int, m2: int)
    requires
        out.len() <= m2,
    ensures
        block_of_type(btype, s, out, m1) matches Some((o, rest)) ==> block_of_type(
            btype,
            s,
            out,
            m2,
        ) == (if o.len() <= m2 {
            Some((o, rest))
        } else {
            None
        }),
{
    if btype == 1 {
        lemma_block_cap(
            huffman_counts(fixed_lit_lengths()),
            huffman_symbols(fixed_lit_lengths()),
            huffman_counts(fixed_dist_lengths()),
            huffman_symbols(fixed_dist_lengths()),
            s,
            out,
            m1,
            m2,
        );
    } else if btype == 2 {
        if let Some((ll, dl, s1)) = dynamic_lengths(s) {
            lemma_block_cap(
                huffman_counts(ll),
                huffman_symbols(ll),
                huffman_counts(dl),
                huffman_symbols(dl),
                s1,
                out,
                m1,
                m2,
            );
        }
    }
}

proof fn lemma_inflate_from_cap(s: Seq<bool>, out: Seq<u8>, m1: int, m2: int)
    requires
        out.len() <= m1,
        out.len() <= m2,
    ensures
        inflate_from(s, out, m1) matches Some(v) ==> inflate_from(s, out, m2) == (if v.len()
            <= m2 {
            Some(v)
        } else {
            None
        }),
    decreases s.len(),
{
    if let Some((fin, s1)) = take_bits(s, 1) {
        if let Some((btype, s2)) = take_bits(s1, 2) {
            lemma_block_of_type_cap(btype, s2, out, m1, m2);
            lemma_block_of_type_bounded(btype, s2, out, m1);
            lemma_block_of_type_shrinks(btype, s2, out, m1);
            if let Some((o, s3)) = block_of_type(btype, s2, out, m1) {
                if fin == 0 {
                    lemma_inflate_from_bounded(s3, o, m1);
                    if o.len() <= m2 {
                        lemma_inflate_from_cap(s3, o, m1, m2);
                    }
                }
            }
        }
    }
}

/// The output limit only decides whether decompression succeeds: where a
/// stream decompresses under one limit, it gives the same bytes under any
/// other limit they fit in, and fails under one they do not fit in.
pub proof fn lemma_cap_decides_only_success(data: Seq<u8>, m1: int, m2: int)
    requires
        0 <= m1,
        0 <= m2,
    ensures
        zlib_spec(data, m1) matches Some(v) ==> zlib_spec(data, m2) == (if v.len() <= m2 {
            Some(v)
        } else {
            None
        }),
        inflate_spec(data, m1) matches Some(v) ==> inflate_spec(data, m2) == (if v.len() <= m2 {
            Some(v)
        } else {
            None
        }),
{
    lemma_inflate_from_cap(data_bits(data), Seq::empty(), m1, m2);
    if data.len() >= 2 {
        lemma_inflate_from_cap(data_bits(data.skip(2)), Seq::empty(), m1, m2);
    }
}

/// Decompression never produces more than `max` bytes, however much the
/// compressed data would expand to.
pub proof fn lemma_zlib_output_bounded(data: Seq<u8>, max: int)
    requires
        0 <= max,
    ensures
        zlib_spec(data, max) matches Some(o) ==> o.len() <= max,
        inflate_spec(data, max) matches Some(o) ==> o.len() <= max,
{
    lemma_inflate_from_bounded(data_bits(data), Seq::empty(), max);
    if data.len() >= 2 {
        lemma_inflate_from_bounded(data_bits(data.skip(2)), Seq::empty(), max);
    }
}

} // verus!

verus! {

/// A zlib stream holding a single final stored block with `payload`:
/// header 78 01, the block header byte 0x01 (BFINAL = 1, BTYPE = 00), LEN
/// and NLEN in little-endian order, the payload, and then `check` in the
/// place of the Adler-32 checksum.
pub open spec fn stored_stream(payload: Seq<u8>, check: Seq<u8>) -> Seq<u8> {
    let n = payload.len();
    seq![
        0x78u8,
        0x01u8,
        0x01u8,
        (n % 256) as u8,
        (n / 256) as u8,
        (255 - n % 256) as u8,
        (255 - n / 256) as u8,
    ] + payload + check
}

/// Storing bytes in an uncompressed block and decompressing the stream
/// gives them back, whatever stands where the checksum goes.
pub proof fn lemma_stored_round_trip(payload: Seq<u8>, check: Seq<u8>, max: int)
    requires
        payload.len() < 65536,
        payload.len() <= max,
    ensures
        zlib_spec(stored_stream(payload, check), max) == Some(payload),
{
    let data = stored_stream(payload, check);
    let n = payload.len() as int;
    let d = data.skip(2);
    assert(data[0] == 0x78u8 && data[1] == 0x01u8);
    assert(0x78u8 & 0x0Fu8 == 8u8) by (bit_vector);
    assert(0x01u8 & 0x20u8 == 0u8) by (bit_vector);
    assert((0x78int * 256 + 1) % 31 == 0);
    let b = data_bits(d);
    assert(d[0] == 1u8);
    assert((1u8 >> 0u8) & 1u8 == 1u8) by (bit_vector);
    assert((1u8 >> 1u8) & 1u8 == 0u8) by (bit_vector);
    assert((1u8 >> 2u8) & 1u8 == 0u8) by (bit_vector);
    assert(b[0] == true);
    assert(b[1] == false);
    assert(b[2] == false);
    // BFINAL
    let t1 = b.take(1);
    assert(t1.drop_first() =~= Seq::<bool>::empty());
    assert(t1[0] == b[0]);
    assert(bits_value(t1.drop_first()) == 0);
    assert(bits_value(t1) == 1);
    let s1 = b.skip(1);
    // BTYPE
    let t2 = s1.take(2);
    assert(t2.drop_first().drop_first() =~= Seq::<bool>::empty());
    assert(t2[0] == b[1]);
    assert(t2[1] == b[2]);
    assert(t2.drop_first()[0] == b[2]);
    assert(bits_value(t2.drop_first().drop_first()) == 0);
    assert(bits_value(t2.drop_first()) == 0);
    assert(bits_value(t2) == 0);
    let s2 = s1.skip(2);
    assert(s2 =~= b.skip(3));
    assert(s2.len() % 8 == 5);
    let a = s2.skip(5);
    assert(a =~= b.skip(8));
    lemma_aligned_u16(d, 1);
    assert(d[1] == (n % 256) as u8 && d[2] == (n / 256) as u8);
    assert(bits_value(a.take(16)) == n);
    let a1 = a.skip(16);
    assert(a1 =~= b.skip(24));
    lemma_aligned_u16(d, 3);
    assert(bits_value(a1.take(16)) == 65535 - n);
    let a2 = a1.skip(16);
    assert(a2 =~= b.skip(40));
    lemma_aligned_bytes(d, 5, n);
    assert(d.subrange(5, 5 + n) =~= payload);
    assert(Seq::<u8>::empty() + payload =~= payload);
    assert(stored_block(s2, Seq::empty(), max) == Some((payload, a2.skip(8 * n))));
}

} // verus!

verus! {

proof fn lemma_take_bits_ext(s: Seq<bool>, t: Seq<bool>, n: int)
    ensures
        take_bits(s, n) matches Some((v, r)) ==> take_bits(s + t, n) == Some((v, r + t)),
{
    if 0 <= n <= s.len() {
        assert((s + t).take(n) =~= s.take(n));
        assert((s + t).skip(n) =~= s.skip(n) + t);
    }
}

proof fn lemma_decode_ext(
    counts: Seq<u16>,
    symbols: Seq<u16>,
    s: Seq<bool>,
    t: Seq<bool>,
    len: int,
    code: int,
    first: int,
    index: int,
)
    ensures
        decode_from(counts, symbols, s, len, code, first, index) matches Some((sym, r))
            ==> decode_from(counts, symbols, s + t, len, code, first, index) == Some((sym, r + t)),
    decreases 16 - len,
{
    if len >= 1 && len < 16 && s.len() > 0 {
        assert((s + t)[0] == s[0]);
        assert((s + t).drop_first() =~= s.drop_first() + t);
        let code1 = code + (if s[0] { 1int } else { 0int });
        let count = counts[len] as int;
        if code1 - first >= count {
            lemma_decode_ext(
                counts,
                symbols,
                s.drop_first(),
                t,
                len + 1,
                2 * code1,
                2 * (first + count),
                index + count,
            );
        }
    }
}

proof fn lemma_huffman_decode_ext(counts: Seq<u16>, symbols: Seq<u16>, s: Seq<bool>, t: Seq<bool>)
    ensures
        huffman_decode(counts, symbols, s) matches Some((sym, r)) ==> huffman_decode(
            counts,
            symbols,
            s + t,
        ) == Some((sym, r + t)),
{
    lemma_decode_ext(counts, symbols, s, t, 1, 0, 0, 0);
}

proof fn lemma_code_lengths_ext(
    counts: Seq<u16>,
    symbols: Seq<u16>,
    s: Seq<bool>,
    t: Seq<bool>,
    total: int,
    lengths: Seq<u8>,
    prev: u8,
)
    ensures
        code_lengths_from(counts, symbols, s, total, lengths, prev) matches Some((l, r))
            ==> code_lengths_from(counts, symbols, s + t, total, lengths, prev) == Some((l, r + t)),
    decreases total - lengths.len(),
{
    if lengths.len() < total {
        lemma_huffman_decode_ext(counts, symbols, s, t);
        if let Some((sym, s1)) = huffman_decode(counts, symbols, s) {
            if sym <= 15 {
                lemma_code_lengths_ext(
                    counts,
                    symbols,
                    s1,
                    t,
                    total,
                    lengths.push(sym as u8),
                    sym as u8,
                );
            } else if sym == 16 {
                lemma_take_bits_ext(s1, t, 2);
                if lengths.len() != 0 {
                    if let Some((v, s2)) = take_bits(s1, 2) {
                        let rep = 3 + v;
                        if lengths.len() + rep <= total {
                            lemma_code_lengths_ext(
                                counts,
                                symbols,
                                s2,
                                t,
                                total,
                                lengths + Seq::new(rep, |k: int| prev),
                                prev,
                            );
                        }
                    }
                }
            } else if sym == 17 || sym == 18 {
                let nbits: int = if sym == 17 { 3 } else { 7 };
                let base: int = if sym == 17 { 3 } else { 11 };
                lemma_take_bits_ext(s1, t, nbits);
                if let Some((v, s2)) = take_bits(s1, nbits) {
                    let rep = base + v;
                    if lengths.len() + rep <= total {
                        lemma_code_lengths_ext(
                            counts,
                            symbols,
                            s2,
                            t,
                            total,
                            lengths + Seq::new(rep as nat, |k: int| 0u8),
                            0u8,
                        );
                    }
                }
            }
        }
    }
}

proof fn lemma_cl_ext(s: Seq<bool>, t: Seq<bool>, i: int, hclen: int, acc: Seq<u8>)
    ensures
        cl_lengths_from(s, i, hclen, acc) matches Some((cl, r)) ==> cl_lengths_from(
            s + t,
            i,
            hclen,
            acc,
        ) == Some((cl, r + t)),
    decreases hclen - i,
{
    if i < hclen {
        lemma_take_bits_ext(s, t, 3);
        if let Some((v, s1)) = take_bits(s, 3) {
            lemma_cl_ext(s1, t, i + 1, hclen, acc.update(CODE_LENGTH_ORDER@[i] as int, v as u8));
        }
    }
}

proof fn lemma_dynamic_ext(s: Seq<bool>, t: Seq<bool>)
    ensures
        dynamic_lengths(s) matches Some((ll, dl, r)) ==> dynamic_lengths(s + t) == Some(
            (ll, dl, r + t),
        ),
{
    lemma_take_bits_ext(s, t, 5);
    if let Some((a, s1)) = take_bits(s, 5) {
        lemma_take_bits_ext(s1, t, 5);
        if let Some((b, s2)) = take_bits(s1, 5) {
            lemma_take_bits_ext(s2, t, 4);
            if let Some((c, s3)) = take_bits(s2, 4) {
                let hlit = 257 + a as int;
                let hdist = 1 + b as int;
                let zeros = Seq::new(19, |k: int| 0u8);
                lemma_cl_ext(s3, t, 0, 4 + c as int, zeros);
                if let Some((cl, s4)) = cl_lengths_from(s3, 0, 4 + c as int, zeros) {
                    lemma_code_lengths_ext(
                        huffman_counts(cl),
                        huffman_symbols(cl),
                        s4,
                        t,
                        hlit + hdist,
                        Seq::empty(),
                        0,
                    );
                }
            }
        }
    }
}

proof fn lemma_block_ext(
    lc: Seq<u16>,
    ls: Seq<u16>,
    dc: Seq<u16>,
    ds: Seq<u16>,
    s: Seq<bool>,
    t: Seq<bool>,
    out: Seq<u8>,
    max: int,
)
    ensures
        block_from(lc, ls, dc, ds, s, out, max) matches Some((o, r)) ==> block_from(
            lc,
            ls,
            dc,
            ds,
            s + t,
            out,
            max,
        ) == Some((o, r + t)),
    decreases s.len(),
{
    lemma_decode_shrinks(lc, ls, s, 1, 0, 0, 0);
    lemma_huffman_decode_ext(lc, ls, s, t);
    if let Some((sym, s1)) = huffman_decode(lc, ls, s) {
        if sym < 256 {
            if out.len() < max {
                lemma_block_ext(lc, ls, dc, ds, s1, t, out.push(sym as u8), max);
            }
        } else if sym > 256 && sym - 257 < 29 {
            let idx = sym - 257;
            lemma_take_bits_ext(s1, t, LENGTH_EXTRA@[idx] as int);
            if let Some((e, s2)) = take_bits(s1, LENGTH_EXTRA@[idx] as int) {
                let length = LENGTH_BASE@[idx] + e;
                lemma_decode_shrinks(dc, ds, s2, 1, 0, 0, 0);
                lemma_huffman_decode_ext(dc, ds, s2, t);
                if let Some((dsym, s3)) = huffman_decode(dc, ds, s2) {
                    if dsym < 30 {
                        lemma_take_bits_ext(s3, t, DIST_EXTRA@[dsym as int] as int);
                        if let Some((de, s4)) = take_bits(s3, DIST_EXTRA@[dsym as int] as int) {
                            let distance = DIST_BASE@[dsym as int] + de;
                            if !(distance == 0 || distance > out.len() || out.len() + length
                                > max) {
                                lemma_block_ext(
                                    lc,
                                    ls,
                                    dc,
                                    ds,
                                    s4,
                                    t,
                                    lz_copy(out, distance, length),
                                    max,
                                );
                            }
                        }
                    }
                }
            }
        }
    }
}

proof fn lemma_stored_ext(s: Seq<bool>, t: Seq<bool>, out: Seq<u8>, max: int)
    requires
        t.len() % 8 == 0,
    ensures
        stored_block(s, out, max) matches Some((o, r)) ==> stored_block(s + t, out, max) == Some(
            (o, r + t),
        ),
{
    if let Some((o, r)) = stored_block(s, out, max) {
        let k = (s.len() % 8) as int;
        assert((s + t).len() % 8 == k);
        let a = s.skip(k);
        assert((s + t).skip(k) =~= a + t);
        lemma_take_bits_ext(a, t, 16);
        let (len, a1) = take_bits(a, 16).unwrap();
        lemma_take_bits_ext(a1, t, 16);
        let (nlen, a2) = take_bits(a1, 16).unwrap();
        assert(stream_bytes(a2 + t, len as int) =~= stream_bytes(a2, len as int)) by {
            assert forall|i: int| 0 <= i < len implies #[trigger] stream_bytes(a2 + t, len as int)[i]
                == stream_bytes(a2, len as int)[i] by {
                assert((a2 + t).subrange(8 * i, 8 * i + 8) =~= a2.subrange(8 * i, 8 * i + 8));
            }
        }
        assert((a2 + t).skip((8 * len) as int) =~= a2.skip((8 * len) as int) + t);
    }
}

proof fn lemma_block_of_type_ext(btype: nat, s: Seq<bool>, t: Seq<bool>, out: Seq<u8>, max: int)
    requires
        t.len() % 8 == 0,
    ensures
        block_of_type(btype, s, out, max) matches Some((o, r)) ==> block_of_type(
            btype,
            s + t,
            out,
            max,
        ) == Some((o, r + t)),
{
    if btype == 0 {
        lemma_stored_ext(s, t, out, max);
    } else if btype == 1 {
        lemma_block_ext(
            huffman_counts(fixed_lit_lengths()),
            huffman_symbols(fixed_lit_lengths()),
            huffman_counts(fixed_dist_lengths()),
            huffman_symbols(fixed_dist_lengths()),
            s,
            t,
            out,
            max,
        );
    } else if btype == 2 {
        lemma_dynamic_ext(s, t);
        if let Some((ll, dl, s1)) = dynamic_lengths(s) {
            lemma_block_ext(
                huffman_counts(ll),
                huffman_symbols(ll),
                huffman_counts(dl),
                huffman_symbols(dl),
                s1,
                t,
                out,
                max,
            );
        }
    }
}

proof fn lemma_inflate_from_ext(s: Seq<bool>, t: Seq<bool>, out: Seq<u8>, max: int)
    requires
        t.len() % 8 == 0,
    ensures
        inflate_from(s, out, max) matches Some(o) ==> inflate_from(s + t, out, max) == Some(o),
    decreases s.len(),
{
    lemma_take_bits_ext(s, t, 1);
    if let Some((fin, s1)) = take_bits(s, 1) {
        lemma_take_bits_ext(s1, t, 2);
        if let Some((btype, s2)) = take_bits(s1, 2) {
            lemma_block_of_type_ext(btype, s2, t, out, max);
            lemma_block_of_type_shrinks(btype, s2, out, max);
            if let Some((o, s3)) = block_of_type(btype, s2, out, max) {
                if fin == 0 {
                    lemma_inflate_from_ext(s3, t, o, max);
                }
            }
        }
    }
}

proof fn lemma_data_bits_concat(x: Seq<u8>, y: Seq<u8>)
    ensures
        data_bits(x + y) =~= data_bits(x) + data_bits(y),
{
    let n = x.len() as int;
    assert forall|i: int| 0 <= i < 8 * (n + y.len()) implies #[trigger] data_bits(x + y)[i] == (
    data_bits(x) + data_bits(y))[i] by {
        if i >= 8 * n {
            let j = i - 8 * n;
            assert(j / 8 == i / 8 - n && j % 8 == i % 8) by (nonlinear_arith)
                requires
                    j == i - 8 * n,
                    i >= 8 * n,
            ;
        } else {
            assert(i / 8 < n) by (nonlinear_arith)
                requires
                    0 <= i < 8 * n,
            ;
        }
    }
}

/// Whatever follows a complete DEFLATE stream - the zlib checksum, or
/// anything else - is never read: appending bytes to a stream that
/// decompresses leaves its result unchanged.
pub proof fn lemma_trailing_bytes_ignored(data: Seq<u8>, extra: Seq<u8>, max: int)
    ensures
        inflate_spec(data, max) matches Some(o) ==> inflate_spec(data + extra, max) == Some(o),
        zlib_spec(data, max) matches Some(o) ==> zlib_spec(data + extra, max) == Some(o),
{
    lemma_data_bits_concat(data, extra);
    lemma_inflate_from_ext(data_bits(data), data_bits(extra), Seq::empty(), max);
    if data.len() >= 2 {
        assert((data + extra).skip(2) =~= data.skip(2) + extra);
        lemma_data_bits_concat(data.skip(2), extra);
        lemma_inflate_from_ext(data_bits(data.skip(2)), data_bits(extra), Seq::empty(), max);
        assert((data + extra)[0] == data[0]);
        assert((data + extra)[1] == data[1]);
    }
}

} // verus!

verus! {

/// `s` with its last `k` bits replaced by `t`.
pub open spec fn replace_tail(s: Seq<bool>, k: int, t: Seq<bool>) -> Seq<bool> {
    s.take(s.len() - k) + t
}

proof fn lemma_take_bits_swap(s: Seq<bool>, k: int, t: Seq<bool>, n: int)
    requires
        0 <= k <= s.len(),
    ensures
        take_bits(s, n) matches Some((v, q)) ==> k <= q.len() ==> take_bits(
            replace_tail(s, k, t),
            n,
        ) == Some((v, replace_tail(q, k, t))),
{
    if 0 <= n <= s.len() && k <= s.len() - n {
        let s2 = replace_tail(s, k, t);
        assert(s2.take(n) =~= s.take(n));
        assert(s2.skip(n) =~= replace_tail(s.skip(n), k, t));
    }
}

proof fn lemma_decode_swap(
    counts: Seq<u16>,
    symbols: Seq<u16>,
    s: Seq<bool>,
    k: int,
    t: Seq<bool>,
    len: int,
    code: int,
    first: int,
    index: int,
)
    requires
        0 <= k <= s.len(),
    ensures
        decode_from(counts, symbols, s, len, code, first, index) matches Some((sym, q)) ==> k
            <= q.len() ==> decode_from(
            counts,
            symbols,
            replace_tail(s, k, t),
            len,
            code,
            first,
            index,
        ) == Some((sym, replace_tail(q, k, t))),
    decreases 16 - len,
{
    lemma_decode_shrinks(counts, symbols, s, len, code, first, index);
    if len >= 1 && len < 16 && s.len() > k {
        let s2 = replace_tail(s, k, t);
        assert(s2[0] == s[0]);
        assert(s2.drop_first() =~= replace_tail(s.drop_first(), k, t));
        let code1 = code + (if s[0] { 1int } else { 0int });
        let count = counts[len] as int;
        if code1 - first >= count {
            lemma_decode_swap(
                counts,
                symbols,
                s.drop_first(),
                k,
                t,
                len + 1,
                2 * code1,
                2 * (first + count),
                index + count,
            );
        }
    }
}

proof fn lemma_huffman_decode_swap(
    counts: Seq<u16>,
    symbols: Seq<u16>,
    s: Seq<bool>,
    k: int,
    t: Seq<bool>,
)
    requires
        0 <= k <= s.len(),
    ensures
        huffman_decode(counts, symbols, s) matches Some((sym, q)) ==> k <= q.len()
            ==> huffman_decode(counts, symbols, replace_tail(s, k, t)) == Some(
            (sym, replace_tail(q, k, t)),
        ),
        huffman_decode(counts, symbols, s) matches Some((sym, q)) ==> q.len() < s.len(),
{
    lemma_decode_swap(counts, symbols, s, k, t, 1, 0, 0, 0);
    lemma_decode_shrinks(counts, symbols, s, 1, 0, 0, 0);
}

proof fn lemma_code_lengths_swap(
    counts: Seq<u16>,
    symbols: Seq<u16>,
    s: Seq<bool>,
    k: int,
    t: Seq<bool>,
    total: int,
    lengths: Seq<u8>,
    prev: u8,
)
    requires
        0 <= k <= s.len(),
    ensures
        code_lengths_from(counts, symbols, s, total, lengths, prev) matches Some((l, q)) ==> k
            <= q.len() ==> code_lengths_from(
            counts,
            symbols,
            replace_tail(s, k, t),
            total,
            lengths,
            prev,
        ) == Some((l, replace_tail(q, k, t))),
    decreases total - lengths.len(),
{
    if lengths.len() < total {
        lemma_huffman_decode_swap(counts, symbols, s, k, t);
        if let Some((sym, s1)) = huffman_decode(counts, symbols, s) {
            if sym <= 15 {
                let next = lengths.push(sym as u8);
                if k <= s1.len() {
                    lemma_code_lengths_swap(counts, symbols, s1, k, t, total, next, sym as u8);
                } else {
                    lemma_code_lengths_shrinks(counts, symbols, s1, total, next, sym as u8);
                }
            } else if sym == 16 || sym == 17 || sym == 18 {
                let nbits: int = if sym == 16 { 2 } else if sym == 17 { 3 } else { 7 };
                if let Some((v, s2)) = take_bits(s1, nbits) {
                    let next = if sym == 16 {
                        lengths + Seq::new((3 + v) as nat, |k: int| prev)
                    } else if sym == 17 {
                        lengths + Seq::new((3 + v) as nat, |k: int| 0u8)
                    } else {
                        lengths + Seq::new((11 + v) as nat, |k: int| 0u8)
                    };
                    let p: u8 = if sym == 16 { prev } else { 0u8 };
                    let rep: int = if sym == 18 { 11 + v as int } else { 3 + v as int };
                    assert(next.len() == lengths.len() + rep);
                    if lengths.len() + rep > total {
                    } else if k <= s2.len() {
                        lemma_take_bits_swap(s1, k, t, nbits);
                        lemma_code_lengths_swap(counts, symbols, s2, k, t, total, next, p);
                    } else {
                        lemma_code_lengths_shrinks(counts, symbols, s2, total, next, p);
                    }
                }
            }
        }
    }
}

proof fn lemma_cl_swap(s: Seq<bool>, k: int, t: Seq<bool>, i: int, hclen: int, acc: Seq<u8>)
    requires
        0 <= k <= s.len(),
    ensures
        cl_lengths_from(s, i, hclen, acc) matches Some((cl, q)) ==> k <= q.len() ==> cl_lengths_from(
            replace_tail(s, k, t),
            i,
            hclen,
            acc,
        ) == Some((cl, replace_tail(q, k, t))),
    decreases hclen - i,
{
    if i < hclen {
        if let Some((v, s1)) = take_bits(s, 3) {
            let next = acc.update(CODE_LENGTH_ORDER@[i] as int, v as u8);
            if k <= s1.len() {
                lemma_take_bits_swap(s, k, t, 3);
                lemma_cl_swap(s1, k, t, i + 1, hclen, next);
            } else {
                lemma_cl_shrinks(s1, i + 1, hclen, next);
            }
        }
    }
}

proof fn lemma_dynamic_swap(s: Seq<bool>, k: int, t: Seq<bool>)
    requires
        0 <= k <= s.len(),
    ensures
        dynamic_lengths(s) matches Some((ll, dl, q)) ==> k <= q.len() ==> dynamic_lengths(
            replace_tail(s, k, t),
        ) == Some((ll, dl, replace_tail(q, k, t))),
{
    if let Some((a, s1)) = take_bits(s, 5) {
        if let Some((b, s2)) = take_bits(s1, 5) {
            if let Some((c, s3)) = take_bits(s2, 4) {
                let zeros = Seq::new(19, |k: int| 0u8);
                let hclen = 4 + c as int;
                lemma_cl_shrinks(s3, 0, hclen, zeros);
                if let Some((cl, s4)) = cl_lengths_from(s3, 0, hclen, zeros) {
                    let total = 257 + a as int + 1 + b as int;
                    lemma_code_lengths_shrinks(
                        huffman_counts(cl),
                        huffman_symbols(cl),
                        s4,
                        total,
                        Seq::empty(),
                        0,
                    );
                    if k <= s4.len() {
                        lemma_take_bits_swap(s, k, t, 5);
                        lemma_take_bits_swap(s1, k, t, 5);
                        lemma_take_bits_swap(s2, k, t, 4);
                        lemma_cl_swap(s3, k, t, 0, hclen, zeros);
                        lemma_code_lengths_swap(
                            huffman_counts(cl),
                            huffman_symbols(cl),
                            s4,
                            k,
                            t,
                            total,
                            Seq::empty(),
                            0,
                        );
                    }
                }
            }
        }
    }
}

proof fn lemma_block_swap(
    lc: Seq<u16>,
    ls: Seq<u16>,
    dc: Seq<u16>,
    ds: Seq<u16>,
    s: Seq<bool>,
    k: int,
    t: Seq<bool>,
    out: Seq<u8>,
    max: int,
)
    requires
        0 <= k <= s.len(),
    ensures
        block_from(lc, ls, dc, ds, s, out, max) matches Some((o, q)) ==> k <= q.len()
            ==> block_from(lc, ls, dc, ds, replace_tail(s, k, t), out, max) == Some(
            (o, replace_tail(q, k, t)),
        ),
    decreases s.len(),
{
    lemma_huffman_decode_swap(lc, ls, s, k, t);
    if let Some((sym, s1)) = huffman_decode(lc, ls, s) {
        if sym < 256 {
            if out.len() < max {
                let next = out.push(sym as u8);
                if k <= s1.len() {
                    lemma_block_swap(lc, ls, dc, ds, s1, k, t, next, max);
                } else {
                    lemma_block_shrinks(lc, ls, dc, ds, s1, next, max);
                }
            }
        } else if sym == 256 {
        } else if sym - 257 < 29 {
            let idx = sym - 257;
            if let Some((e, s2)) = take_bits(s1, LENGTH_EXTRA@[idx] as int) {
                let length = LENGTH_BASE@[idx] + e;
                lemma_decode_shrinks(dc, ds, s2, 1, 0, 0, 0);
                if let Some((dsym, s3)) = huffman_decode(dc, ds, s2) {
                    if dsym < 30 {
                        if let Some((de, s4)) = take_bits(s3, DIST_EXTRA@[dsym as int] as int) {
                            let distance = DIST_BASE@[dsym as int] + de;
                            if !(distance == 0 || distance > out.len() || out.len() + length
                                > max) {
                                let next = lz_copy(out, distance, length);
                                if k <= s4.len() {
                                    lemma_take_bits_swap(s1, k, t, LENGTH_EXTRA@[idx] as int);
                                    lemma_huffman_decode_swap(dc, ds, s2, k, t);
                                    lemma_take_bits_swap(
                                        s3,
                                        k,
                                        t,
                                        DIST_EXTRA@[dsym as int] as int,
                                    );
                                    lemma_block_swap(lc, ls, dc, ds, s4, k, t, next, max);
                                } else {
                                    lemma_block_shrinks(lc, ls, dc, ds, s4, next, max);
                                }
                            }
                        }
                    }
                }
            }
        }
    }
}

proof fn lemma_stored_swap(s: Seq<bool>, k: int, t: Seq<bool>, out: Seq<u8>, max: int)
    requires
        0 <= k <= s.len(),
        t.len() % 8 == k % 8,
    ensures
        stored_block(s, out, max) matches Some((o, q)) ==> k <= q.len() ==> stored_block(
            replace_tail(s, k, t),
            out,
            max,
        ) == Some((o, replace_tail(q, k, t))),
{
    if let Some((o, q)) = stored_block(s, out, max) {
        if k <= q.len() {
            let s2 = replace_tail(s, k, t);
            let m = (s.len() % 8) as int;
            assert(s2.len() == s.len() - k + t.len());
            assert(s2.len() % 8 == m) by (nonlinear_arith)
                requires
                    s2.len() == s.len() - k + t.len(),
                    t.len() % 8 == k % 8,
                    m == s.len() % 8,
                    0 <= k <= s.len(),
            ;
            let a = s.skip(m);
            assert(s2.skip(m) =~= replace_tail(a, k, t));
            lemma_take_bits_swap(a, k, t, 16);
            let (len, a1) = take_bits(a, 16).unwrap();
            lemma_take_bits_swap(a1, k, t, 16);
            let (nlen, a2) = take_bits(a1, 16).unwrap();
            let b = replace_tail(a2, k, t);
            assert(stream_bytes(b, len as int) =~= stream_bytes(a2, len as int)) by {
                assert forall|i: int| 0 <= i < len implies #[trigger] stream_bytes(b, len as int)[i]
                    == stream_bytes(a2, len as int)[i] by {
                    assert(b.subrange(8 * i, 8 * i + 8) =~= a2.subrange(8 * i, 8 * i + 8));
                }
            }
            assert(b.skip((8 * len) as int) =~= replace_tail(q, k, t));
        }
    }
}

proof fn lemma_block_of_type_swap(
    btype: nat,
    s: Seq<bool>,
    k: int,
    t: Seq<bool>,
    out: Seq<u8>,
    max: int,
)
    requires
        0 <= k <= s.len(),
        t.len() % 8 == k % 8,
    ensures
        block_of_type(btype, s, out, max) matches Some((o, q)) ==> k <= q.len() ==> block_of_type(
            btype,
            replace_tail(s, k, t),
            out,
            max,
        ) == Some((o, replace_tail(q, k, t))),
{
    if btype == 0 {
        lemma_stored_swap(s, k, t, out, max);
    } else if btype == 1 {
        lemma_block_swap(
            huffman_counts(fixed_lit_lengths()),
            huffman_symbols(fixed_lit_lengths()),
            huffman_counts(fixed_dist_lengths()),
            huffman_symbols(fixed_dist_lengths()),
            s,
            k,
            t,
            out,
            max,
        );
    } else if btype == 2 {
        lemma_dynamic_shrinks(s);
        if let Some((ll, dl, s1)) = dynamic_lengths(s) {
            lemma_block_shrinks(
                huffman_counts(ll),
                huffman_symbols(ll),
                huffman_counts(dl),
                huffman_symbols(dl),
                s1,
                out,
                max,
            );
            if k <= s1.len() {
                lemma_dynamic_swap(s, k, t);
                lemma_block_swap(
                    huffman_counts(ll),
                    huffman_symbols(ll),
                    huffman_counts(dl),
                    huffman_symbols(dl),
                    s1,
                    k,
                    t,
                    out,
                    max,
                );
            }
        }
    }
}

} // verus!

verus! {

/// The bits left unread after the final block, where `inflate_from`
/// succeeds.
pub open spec fn inflate_rest(s: Seq<bool>, out: Seq<u8>, max: int) -> Option<Seq<bool>>
    decreases s.len(),
{
    match take_bits(s, 1) {
        None => None,
        Some((fin, s1)) => match take_bits(s1, 2) {
            None => None,
            Some((btype, s2)) => match block_of_type(btype, s2, out, max) {
                None => None,
                Some((o, s3)) => {
                    if fin != 0 {
                        Some(s3)
                    } else {
                        proof {
                            lemma_block_of_type_shrinks(btype, s2, out, max);
                        }
                        inflate_rest(s3, o, max)
                    }
                },
            },
        },
    }
}

/// The bits of `data` left unread once its zlib stream has been
/// decompressed: where it stops reading.
pub open spec fn zlib_rest(data: Seq<u8>, max: int) -> Option<Seq<bool>> {
    if zlib_spec(data, max) is Some {
        inflate_rest(data_bits(data.skip(2)), Seq::empty(), max)
    } else {
        None
    }
}

proof fn lemma_inflate_rest(s: Seq<bool>, out: Seq<u8>, max: int)
    ensures
        inflate_from(s, out, max) is Some <==> inflate_rest(s, out, max) is Some,
        inflate_rest(s, out, max) matches Some(q) ==> q.len() <= s.len(),
    decreases s.len(),
{
    if let Some((fin, s1)) = take_bits(s, 1) {
        if let Some((btype, s2)) = take_bits(s1, 2) {
            lemma_block_of_type_shrinks(btype, s2, out, max);
            if let Some((o, s3)) = block_of_type(btype, s2, out, max) {
                if fin == 0 {
                    lemma_inflate_rest(s3, o, max);
                }
            }
        }
    }
}

proof fn lemma_inflate_swap(s: Seq<bool>, k: int, t: Seq<bool>, out: Seq<u8>, max: int)
    requires
        0 <= k <= s.len(),
        t.len() % 8 == k % 8,
    ensures
        inflate_rest(s, out, max) matches Some(q) ==> k <= q.len() ==> {
            &&& inflate_rest(replace_tail(s, k, t), out, max) == Some(replace_tail(q, k, t))
            &&& inflate_from(replace_tail(s, k, t), out, max) == inflate_from(s, out, max)
        },
    decreases s.len(),
{
    if let Some((fin, s1)) = take_bits(s, 1) {
        if let Some((btype, s2)) = take_bits(s1, 2) {
            lemma_block_of_type_shrinks(btype, s2, out, max);
            if let Some((o, s3)) = block_of_type(btype, s2, out, max) {
                if fin == 0 {
                    lemma_inflate_rest(s3, o, max);
                }
                if k <= s3.len() {
                    lemma_take_bits_swap(s, k, t, 1);
                    lemma_take_bits_swap(s1, k, t, 2);
                    lemma_block_of_type_swap(btype, s2, k, t, out, max);
                    if fin == 0 {
                        lemma_inflate_swap(s3, k, t, o, max);
                    }
                }
            }
        }
    }
}

proof fn lemma_data_bits_take(data: Seq<u8>, m: int)
    requires
        0 <= m <= data.len(),
    ensures
        data_bits(data.take(m)) =~= data_bits(data).take(8 * m),
{
    assert forall|i: int| 0 <= i < 8 * m implies #[trigger] data_bits(data.take(m))[i]
        == data_bits(data)[i] by {
        assert(i / 8 < m) by (nonlinear_arith)
            requires
                0 <= i < 8 * m,
        ;
    }
}

/// Decompression reads nothing past the end of the final block, so the
/// checksum that follows is never looked at: where the stream ends before
/// the last `k` bytes of `data`, those bytes may differ or be missing
/// without changing the result. Every stream that decompresses has such an
/// end.
pub proof fn lemma_checksum_ignored(data: Seq<u8>, k: nat, tail: Seq<u8>, max: int)
    requires
        k <= data.len(),
    ensures
        zlib_spec(data, max) is Some <==> zlib_rest(data, max) is Some,
        zlib_rest(data, max) matches Some(r) ==> 8 * k <= r.len() ==> zlib_spec(
            data.take(data.len() - k) + tail,
            max,
        ) == zlib_spec(data, max),
{
    if data.len() >= 2 {
        let d = data.skip(2);
        let b = data_bits(d);
        lemma_inflate_rest(b, Seq::empty(), max);
        if let Some(r) = zlib_rest(data, max) {
            if 8 * k <= r.len() {
                let n = data.len();
                let d2 = data.take(n - k) + tail;
                assert(d2[0] == data[0] && d2[1] == data[1]);
                assert(d2.skip(2) =~= d.take(d.len() - k) + tail);
                lemma_data_bits_concat(d.take(d.len() - k), tail);
                lemma_data_bits_take(d, d.len() - k);
                let t = data_bits(tail);
                assert(data_bits(d2.skip(2)) =~= replace_tail(b, 8 * k as int, t));
                assert(t.len() % 8 == (8 * k) % 8) by (nonlinear_arith)
                    requires
                        t.len() == 8 * tail.len(),
                ;
                lemma_inflate_swap(b, 8 * k as int, t, Seq::empty(), max);
            }
        }
    }
}

} // verus!

verus! {

proof fn lemma_shorter_mono(lengths: Seq<u8>, l1: int, l2: int)
    requires
        1 <= l1 < l2,
    ensures
        count_shorter(lengths, l1, lengths.len() as int) + count_len(
            lengths,
            l1,
            lengths.len() as int,
        ) <= count_shorter(lengths, l2, lengths.len() as int),
    decreases l2 - l1,
{
    let n = lengths.len() as int;
    lemma_count_bound(lengths, l1, n);
    if l1 + 1 < l2 {
        lemma_shorter_mono(lengths, l1 + 1, l2);
        lemma_count_bound(lengths, l1 + 1, n);
    }
}

/// Canonical order (RFC 1951 section 3.2.2): shorter codes first, and
/// among codes of one length, smaller symbols first.
pub proof fn lemma_canonical_order(lengths: Seq<u8>, s1: int, s2: int)
    requires
        0 <= s1 < lengths.len(),
        0 <= s2 < lengths.len(),
        lengths[s1] != 0,
        lengths[s2] != 0,
        lengths[s1] < lengths[s2] || (lengths[s1] == lengths[s2] && s1 < s2),
    ensures
        canonical_index(lengths, s1) < canonical_index(lengths, s2),
{
    let n = lengths.len() as int;
    let l1 = lengths[s1] as int;
    let l2 = lengths[s2] as int;
    if l1 == l2 {
        lemma_count_len_mono(lengths, l1, s1, s2);
        lemma_count_len_mono(lengths, l1, s1 + 1, s2);
        assert(count_len(lengths, l1, s1 + 1) == count_len(lengths, l1, s1) + 1);
    } else {
        lemma_count_len_mono(lengths, l1, s1, n);
        lemma_shorter_mono(lengths, l1, l2);
    }
}

proof fn lemma_placed_at(lengths: Seq<u8>, u: int, s: int)
    requires
        0 <= s < u <= lengths.len(),
        lengths[s] != 0,
    ensures
        placed_symbols(lengths, u)[canonical_index(lengths, s)] == s as u16,
    decreases u,
{
    lemma_placed_len(lengths, u - 1);
    lemma_canonical_index_bound(lengths, s);
    if s < u - 1 {
        lemma_placed_at(lengths, u - 1, s);
        let last = u - 1;
        if lengths[last] != 0 {
            lemma_canonical_index_bound(lengths, last);
            if lengths[s] <= lengths[last] {
                lemma_canonical_order(lengths, s, last);
            } else {
                lemma_canonical_order(lengths, last, s);
            }
        }
    }
}

/// The symbol table of a Huffman code holds every coded symbol at its
/// canonical index.
pub proof fn lemma_symbols_canonical(lengths: Seq<u8>, s: int)
    requires
        0 <= s < lengths.len(),
        lengths[s] != 0,
    ensures
        0 <= canonical_index(lengths, s) < huffman_symbols(lengths).len(),
        huffman_symbols(lengths)[canonical_index(lengths, s)] == s as u16,
{
    lemma_placed_len(lengths, lengths.len() as int);
    lemma_canonical_index_bound(lengths, s);
    lemma_placed_at(lengths, lengths.len() as int, s);
}

} // verus!

verus! {

/// The first code of length `l` (RFC 1951 section 3.2.2, step 2): codes of
/// each length follow on from the codes one bit shorter.
pub open spec fn first_code(counts: Seq<u16>, l: int) -> int
    decreases l,
{
    if l <= 1 {
        0
    } else {
        2 * (first_code(counts, l - 1) + counts[l - 1])
    }
}

/// The canonical Huffman code of symbol `s` (step 3): consecutive values
/// for the symbols of one length, in symbol order.
pub open spec fn canonical_code(lengths: Seq<u8>, s: int) -> int {
    first_code(huffman_counts(lengths), lengths[s] as int) + count_len(
        lengths,
        lengths[s] as int,
        s,
    )
}

/// The `len` low bits of `code`, most significant first, which is how
/// Huffman codes are packed.
pub open spec fn code_bits(code: int, len: int) -> Seq<bool> {
    Seq::new(
        len as nat,
        |i: int| (code / vstd::arithmetic::power2::pow2((len - 1 - i) as nat) as int) % 2 == 1,
    )
}

proof fn lemma_first_code_grows(counts: Seq<u16>, l: int, m: int)
    requires
        1 <= l < m,
    ensures
        first_code(counts, m) >= vstd::arithmetic::power2::pow2((m - l) as nat) * (first_code(
            counts,
            l,
        ) + counts[l]),
        first_code(counts, l) >= 0,
    decreases m - l,
{
    lemma_first_code_nonneg(counts, l);
    lemma_first_code_nonneg(counts, m - 1);
    vstd::arithmetic::power2::lemma_pow2_unfold((m - l) as nat);
    if m == l + 1 {
        vstd::arithmetic::power2::lemma2_to64();
    } else {
        lemma_first_code_grows(counts, l, m - 1);
        let p = vstd::arithmetic::power2::pow2((m - 1 - l) as nat) as int;
        let a = first_code(counts, l) + counts[l];
        let f = first_code(counts, m - 1);
        let c = counts[m - 1] as int;
        assert(2 * (f + c) >= (2 * p) * a) by (nonlinear_arith)
            requires
                f >= p * a,
                c >= 0,
        ;
    }
}

proof fn lemma_first_code_nonneg(counts: Seq<u16>, l: int)
    ensures
        first_code(counts, l) >= 0,
    decreases l,
{
    if l > 1 {
        lemma_first_code_nonneg(counts, l - 1);
    }
}

proof fn lemma_decode_code_from(lengths: Seq<u8>, s: int, rest: Seq<bool>, l: int)
    requires
        lengths.len() < 65536,
        0 <= s < lengths.len(),
        1 <= l <= lengths[s] < 16,
        canonical_code(lengths, s) < vstd::arithmetic::power2::pow2(lengths[s] as nat),
    ensures
        ({
            let big_l = lengths[s] as int;
            let c = canonical_code(lengths, s);
            let counts = huffman_counts(lengths);
            decode_from(
                counts,
                huffman_symbols(lengths),
                code_bits(c, big_l).skip(l - 1) + rest,
                l,
                2 * (c / vstd::arithmetic::power2::pow2((big_l - l + 1) as nat) as int),
                first_code(counts, l),
                codes_below(counts, l),
            ) == Some((s as u16, rest))
        }),
    decreases lengths[s] - l,
{
    let big_l = lengths[s] as int;
    let c = canonical_code(lengths, s);
    let counts = huffman_counts(lengths);
    let symbols = huffman_symbols(lengths);
    let n = lengths.len() as int;
    let bits = code_bits(c, big_l);
    let t = bits.skip(l - 1) + rest;
    let pl = vstd::arithmetic::power2::pow2((big_l - l) as nat) as int;
    vstd::arithmetic::power2::lemma_pow2_pos((big_l - l) as nat);
    vstd::arithmetic::power2::lemma_pow2_unfold((big_l - l + 1) as nat);
    lemma_first_code_nonneg(counts, big_l);
    assert(c >= 0);
    let x = c / pl;
    // the prefix of the code read so far, including this bit
    assert(c / (pl * 2) == x / 2) by {
        vstd::arithmetic::div_mod::lemma_div_denominator(c, pl, 2);
    }
    assert(2 * (x / 2) + x % 2 == x) by {
        vstd::arithmetic::div_mod::lemma_fundamental_div_mod(x, 2);
    }
    assert(t[0] == bits[l - 1]);
    assert(t.drop_first() =~= bits.skip(l) + rest);
    let code1 = 2 * (c / (pl * 2)) + (if t[0] { 1int } else { 0int });
    assert(x % 2 == 0 || x % 2 == 1);
    assert(code1 == x);
    lemma_codes_below(lengths, l);
    assert(counts[l] == count_len(lengths, l, n)) by {
        lemma_count_len_le(lengths, l, n);
    }
    if l < big_l {
        lemma_first_code_grows(counts, l, big_l);
        let a = first_code(counts, l) + counts[l];
        assert(c >= pl * a);
        assert(x >= a) by {
            vstd::arithmetic::div_mod::lemma_div_is_ordered(pl * a, c, pl);
            vstd::arithmetic::div_mod::lemma_div_by_multiple(a, pl);
            vstd::arithmetic::mul::lemma_mul_is_commutative(pl, a);
        }
        lemma_decode_code_from(lengths, s, rest, l + 1);
        assert(vstd::arithmetic::power2::pow2((big_l - (l + 1) + 1) as nat) == pl);
        lemma_codes_below(lengths, l + 1);
    } else {
        vstd::arithmetic::power2::lemma2_to64();
        assert(x == c);
        lemma_count_len_mono(lengths, big_l, s, n);
        lemma_count_len_mono(lengths, big_l, s + 1, n);
        lemma_symbols_canonical(lengths, s);
        assert(bits.skip(l) =~= Seq::<bool>::empty());
        assert(t.drop_first() =~= rest);
    }
}

/// Decoding the canonical code of a symbol gives back that symbol, and
/// reads exactly the code's bits - for any code table in which the code
/// fits in its length, as it does in every table RFC 1951 allows.
pub proof fn lemma_decode_canonical_code(lengths: Seq<u8>, s: int, rest: Seq<bool>)
    requires
        lengths.len() < 65536,
        0 <= s < lengths.len(),
        0 < lengths[s] < 16,
        canonical_code(lengths, s) < vstd::arithmetic::power2::pow2(lengths[s] as nat),
    ensures
        huffman_decode(
            huffman_counts(lengths),
            huffman_symbols(lengths),
            code_bits(canonical_code(lengths, s), lengths[s] as int) + rest,
        ) == Some((s as u16, rest)),
{
    let big_l = lengths[s] as int;
    let c = canonical_code(lengths, s);
    lemma_decode_code_from(lengths, s, rest, 1);
    assert(code_bits(c, big_l).skip(0) =~= code_bits(c, big_l));
    vstd::arithmetic::power2::lemma_pow2_pos(big_l as nat);
    lemma_first_code_nonneg(huffman_counts(lengths), big_l);
    assert(c / vstd::arithmetic::power2::pow2(big_l as nat) as int == 0) by {
        vstd::arithmetic::div_mod::lemma_basic_div(c, vstd::arithmetic::power2::pow2(big_l as nat) as int);
    }
}

proof fn lemma_fixed_lit_counts(u: int)
    requires
        0 <= u <= 288,
    ensures
        count_len(fixed_lit_lengths(), 7, u) == (if u <= 256 {
            0
        } else if u <= 280 {
            u - 256
        } else {
            24
        }),
        count_len(fixed_lit_lengths(), 8, u) == (if u <= 144 {
            u
        } else if u <= 280 {
            144
        } else {
            u - 136
        }),
        count_len(fixed_lit_lengths(), 9, u) == (if u <= 144 {
            0
        } else if u <= 256 {
            u - 144
        } else {
            112
        }),
        forall|l: int| 1 <= l < 7 ==> #[trigger] count_len(fixed_lit_lengths(), l, u) == 0,
        forall|l: int| 9 < l < 16 ==> #[trigger] count_len(fixed_lit_lengths(), l, u) == 0,
    decreases u,
{
    let ls = fixed_lit_lengths();
    if u > 0 {
        lemma_fixed_lit_counts(u - 1);
        let v = ls[u - 1];
        assert(v == 7 || v == 8 || v == 9);
        assert forall|l: int| (1 <= l < 7 || 9 < l < 16) implies #[trigger] count_len(ls, l, u) == 0 by {
            assert(count_len(ls, l, u) == count_len(ls, l, u - 1) + (if v == l { 1nat } else { 0nat }));
        }
    }
}

/// The fixed literal/length code is the one written out in RFC 1951
/// section 3.2.6: literals 0-143 have the 8-bit codes 0x30-0xBF, literals
/// 144-255 the 9-bit codes 0x190-0x1FF, symbols 256-279 (end of block and
/// the first lengths) the 7-bit codes 0-0x17, and 280-287 the 8-bit codes
/// 0xC0-0xC7. Each such code, whatever follows it, decodes to its symbol.
pub proof fn lemma_fixed_lit_codes(s: int, rest: Seq<bool>)
    requires
        0 <= s < 288,
    ensures
        huffman_decode(
            huffman_counts(fixed_lit_lengths()),
            huffman_symbols(fixed_lit_lengths()),
            code_bits(
                if s < 144 {
                    0x30 + s
                } else if s < 256 {
                    0x190 + (s - 144)
                } else if s < 280 {
                    s - 256
                } else {
                    0xC0 + (s - 280)
                },
                if s < 144 {
                    8
                } else if s < 256 {
                    9
                } else if s < 280 {
                    7
                } else {
                    8
                },
            ) + rest,
        ) == Some((s as u16, rest)),
{
    let ls = fixed_lit_lengths();
    let c = huffman_counts(ls);
    lemma_fixed_lit_counts(288);
    lemma_fixed_lit_counts(s);
    assert(c[1] == 0 && c[2] == 0 && c[3] == 0 && c[4] == 0 && c[5] == 0 && c[6] == 0);
    assert(c[7] == 24 && c[8] == 152);
    assert(first_code(c, 1) == 0);
    assert(first_code(c, 2) == 0);
    assert(first_code(c, 3) == 0);
    assert(first_code(c, 4) == 0);
    assert(first_code(c, 5) == 0);
    assert(first_code(c, 6) == 0);
    assert(first_code(c, 7) == 0);
    assert(first_code(c, 8) == 48);
    assert(first_code(c, 9) == 400);
    vstd::arithmetic::power2::lemma2_to64();
    lemma_decode_canonical_code(ls, s, rest);
}

proof fn lemma_fixed_dist_counts(u: int)
    requires
        0 <= u <= 30,
    ensures
        count_len(fixed_dist_lengths(), 5, u) == u,
        forall|l: int| 1 <= l < 16 && l != 5 ==> #[trigger] count_len(fixed_dist_lengths(), l, u) == 0,
    decreases u,
{
    let ds = fixed_dist_lengths();
    if u > 0 {
        lemma_fixed_dist_counts(u - 1);
        assert(ds[u - 1] == 5);
        assert forall|l: int| 1 <= l < 16 && l != 5 implies #[trigger] count_len(ds, l, u) == 0 by {
            assert(count_len(ds, l, u) == count_len(ds, l, u - 1) + (if ds[u - 1] == l { 1nat } else { 0nat }));
        }
    }
}

/// The fixed distance code (RFC 1951 section 3.2.6): distance symbol `s`
/// is the five-bit number `s`.
pub proof fn lemma_fixed_dist_codes(s: int, rest: Seq<bool>)
    requires
        0 <= s < 30,
    ensures
        huffman_decode(
            huffman_counts(fixed_dist_lengths()),
            huffman_symbols(fixed_dist_lengths()),
            code_bits(s, 5) + rest,
        ) == Some((s as u16, rest)),
{
    let ds = fixed_dist_lengths();
    let c = huffman_counts(ds);
    lemma_fixed_dist_counts(30);
    lemma_fixed_dist_counts(s);
    assert(c[1] == 0 && c[2] == 0 && c[3] == 0 && c[4] == 0);
    assert(first_code(c, 1) == 0);
    assert(first_code(c, 2) == 0);
    assert(first_code(c, 3) == 0);
    assert(first_code(c, 4) == 0);
    assert(first_code(c, 5) == 0);
    vstd::arithmetic::power2::lemma2_to64();
    lemma_decode_canonical_code(ds, s, rest);
}

/// The length codes of RFC 1951 section 3.2.5: codes 257-264 stand for the
/// lengths 3-10 with no extra bits, then every four codes take one extra
/// bit more, each code's range starting where the previous one's ends;
/// code 285 alone stands for 258.
pub proof fn lemma_length_codes(i: int)
    requires
        0 <= i < 29,
    ensures
        LENGTH_BASE@[0] == 3,
        i < 28 ==> LENGTH_EXTRA@[i] as int == (if i < 8 { 0 } else { (i - 4) / 4 }),
        i < 27 ==> LENGTH_BASE@[i + 1] == LENGTH_BASE@[i] + vstd::arithmetic::power2::pow2(
            LENGTH_EXTRA@[i] as nat,
        ),
        LENGTH_BASE@[28] == 258 && LENGTH_EXTRA@[28] == 0,
{
    vstd::arithmetic::power2::lemma2_to64();
    assert(LENGTH_BASE@ =~= seq![
        3u16, 4, 5, 6, 7, 8, 9, 10, 11, 13, 15, 17, 19, 23, 27, 31, 35, 43, 51, 59, 67, 83, 99,
        115, 131, 163, 195, 227, 258,
    ]);
    assert(LENGTH_EXTRA@ =~= seq![
        0u8, 0, 0, 0, 0, 0, 0, 0, 1, 1, 1, 1, 2, 2, 2, 2, 3, 3, 3, 3, 4, 4, 4, 4, 5, 5, 5, 5, 0,
    ]);
}

/// The distance codes of RFC 1951 section 3.2.5: codes 0-3 stand for the
/// distances 1-4 with no extra bits, then every two codes take one extra
/// bit more, each code's range starting where the previous one's ends.
pub proof fn lemma_distance_codes(i: int)
    requires
        0 <= i < 30,
    ensures
        DIST_BASE@[0] == 1,
        DIST_EXTRA@[i] as int == (if i < 4 { 0 } else { (i - 2) / 2 }),
        i < 29 ==> DIST_BASE@[i + 1] == DIST_BASE@[i] + vstd::arithmetic::power2::pow2(
            DIST_EXTRA@[i] as nat,
        ),
{
    vstd::arithmetic::power2::lemma2_to64();
    assert(DIST_BASE@ =~= seq![
        1u16, 2, 3, 4, 5, 7, 9, 13, 17, 25, 33, 49, 65, 97, 129, 193, 257, 385, 513, 769, 1025,
        1537, 2049, 3073, 4097, 6145, 8193, 12289, 16385, 24577,
    ]);
    assert(DIST_EXTRA@ =~= seq![
        0u8, 0, 0, 0, 1, 1, 2, 2, 3, 3, 4, 4, 5, 5, 6, 6, 7, 7, 8, 8, 9, 9, 10, 10, 11, 11, 12,
        12, 13, 13,
    ]);
}

/// The zlib header (RFC 1950 section 2.2): the usual headers 78 01,
/// 78 5E, 78 9C and 78 DA that compressors write are accepted, and what
/// follows them is inflated as raw DEFLATE data; a header naming another
/// method than 8 (deflate), or asking for a preset dictionary, is refused,
/// as is input too short to hold a header.
pub proof fn lemma_zlib_header(data: Seq<u8>, max: int)
    ensures
        data.len() < 2 ==> zlib_spec(data, max) is None,
        data.len() >= 2 && data[0] == 0x78 && (data[1] == 0x01 || data[1] == 0x5E || data[1]
            == 0x9C || data[1] == 0xDA) ==> zlib_spec(data, max) == inflate_spec(data.skip(2), max),
        data.len() >= 2 && data[0] % 16 != 8 ==> zlib_spec(data, max) is None,
        data.len() >= 2 && (data[1] / 32) % 2 == 1 ==> zlib_spec(data, max) is None,
{
    if data.len() >= 2 {
        let a = data[0];
        let b = data[1];
        assert(a & 0x0Fu8 == a % 16) by (bit_vector);
        assert((b & 0x20u8 != 0) == ((b / 32) % 2 == 1)) by (bit_vector);
        assert(0x78u8 & 0x0Fu8 == 8) by (bit_vector);
        assert(0x01u8 & 0x20u8 == 0 && 0x5Eu8 & 0x20u8 == 0 && 0x9Cu8 & 0x20u8 == 0 && 0xDAu8 & 0x20u8
            == 0) by (bit_vector);
    }
}

/// Copying with distance `d` repeats the output `d` bytes back: each new
/// byte equals the one `d` places before it, the copy may overlap what it
/// writes, and the bytes before the copy stay as they were.
pub proof fn lemma_lz_copy_repeats(out: Seq<u8>, d: int, length: int)
    requires
        0 < d <= out.len(),
        0 <= length,
    ensures
        lz_copy(out, d, length).len() == out.len() + length,
        out.is_prefix_of(lz_copy(out, d, length)),
        forall|k: int|
            out.len() <= k < out.len() + length ==> #[trigger] lz_copy(out, d, length)[k]
                == lz_copy(out, d, length)[k - d],
    decreases length,
{
    lemma_lz_copy(out, d, length);
    if length > 0 {
        let next = out.push(out[out.len() - d]);
        lemma_lz_copy_repeats(next, d, length - 1);
        let r = lz_copy(out, d, length);
        assert(r == lz_copy(next, d, length - 1));
        assert forall|k: int| out.len() <= k < out.len() + length implies #[trigger] r[k] == r[k
            - d] by {
            if k == out.len() {
                assert(next.is_prefix_of(r));
                assert(r[k] == next[k]);
                assert(r[k - d] == next[k - d]);
            }
        }
    }
}

/// A final block of fixed Huffman codes that holds one literal byte `b`
/// and then end-of-block inflates to exactly `[b]`, whatever follows it:
/// the block header bits 1 (final) and 1, 0 (type 1), `b`'s RFC 1951 code
/// (8 bits 0x30 + b below 144, else 9 bits 0x190 + b - 144), then the
/// seven zero bits of end-of-block.
pub proof fn lemma_fixed_literal_block(b: int, rest: Seq<bool>, max: int)
    requires
        0 <= b < 256,
        1 <= max,
    ensures
        inflate_from(
            seq![true, true, false] + code_bits(
                if b < 144 {
                    0x30 + b
                } else {
                    0x190 + (b - 144)
                },
                if b < 144 {
                    8
                } else {
                    9
                },
            ) + code_bits(0, 7) + rest,
            Seq::empty(),
            max,
        ) == Some(seq![b as u8]),
{
    let code = code_bits(
        if b < 144 {
            0x30 + b
        } else {
            0x190 + (b - 144)
        },
        if b < 144 {
            8
        } else {
            9
        },
    );
    let eob = code_bits(0, 7);
    let s = seq![true, true, false] + code + eob + rest;
    let lc = huffman_counts(fixed_lit_lengths());
    let ls = huffman_symbols(fixed_lit_lengths());
    let dc = huffman_counts(fixed_dist_lengths());
    let dsy = huffman_symbols(fixed_dist_lengths());
    // The final flag.
    let t1 = s.take(1);
    assert(t1 =~= seq![true]);
    assert(t1.drop_first() =~= Seq::<bool>::empty());
    assert(bits_value(t1.drop_first()) == 0);
    assert(t1[0]);
    assert(bits_value(t1) == 1);
    let s1 = s.skip(1);
    // The block type, least significant bit first: 1.
    let t2 = s1.take(2);
    assert(t2 =~= seq![true, false]);
    assert(t2.drop_first() =~= seq![false]);
    assert(t2.drop_first().drop_first() =~= Seq::<bool>::empty());
    assert(bits_value(t2.drop_first().drop_first()) == 0);
    assert(!t2.drop_first()[0]);
    assert(bits_value(t2.drop_first()) == 0);
    assert(t2[0]);
    assert(bits_value(t2) == 1);
    let s2 = s1.skip(2);
    assert(s2 =~= code + (eob + rest));
    lemma_fixed_lit_codes(b, eob + rest);
    let s3 = eob + rest;
    lemma_fixed_lit_codes(256, rest);
    assert(huffman_decode(lc, ls, s2) == Some((b as u16, s3)));
    assert(huffman_decode(lc, ls, s3) == Some((256u16, rest)));
    let out1 = Seq::<u8>::empty().push(b as u8);
    assert(out1 =~= seq![b as u8]);
    assert(block_from(lc, ls, dc, dsy, s3, out1, max) == Some((out1, rest)));
    assert(block_from(lc, ls, dc, dsy, s2, Seq::empty(), max) == Some((out1, rest)));
}

/// The code-length alphabet of a dynamic block header (RFC 1951 section
/// 3.2.7): symbols 0-15 are a length, taken as is; 16 repeats the previous
/// length 3-6 times (two extra bits), and not as the first length; 17
/// gives 3-10 zero lengths (three extra bits); 18 gives 11-138 zero
/// lengths (seven extra bits). A run past the number of lengths wanted is
/// refused.
pub proof fn lemma_code_length_symbols(
    counts: Seq<u16>,
    symbols: Seq<u16>,
    s: Seq<bool>,
    total: int,
    lengths: Seq<u8>,
    prev: u8,
)
    requires
        lengths.len() < total,
    ensures
        huffman_decode(counts, symbols, s) matches Some((sym, s1)) ==> {
            &&& sym <= 15 ==> code_lengths_from(counts, symbols, s, total, lengths, prev)
                == code_lengths_from(counts, symbols, s1, total, lengths.push(sym as u8), sym as u8)
            &&& sym == 16 && lengths.len() == 0 ==> code_lengths_from(
                counts,
                symbols,
                s,
                total,
                lengths,
                prev,
            ) is None
            &&& sym == 16 && lengths.len() > 0 && 2 <= s1.len() ==> ({
                let n = 3 + (if s1[0] { 1int } else { 0 }) + (if s1[1] { 2int } else { 0 });
                code_lengths_from(counts, symbols, s, total, lengths, prev) == if lengths.len() + n
                    > total {
                    None
                } else {
                    code_lengths_from(
                        counts,
                        symbols,
                        s1.skip(2),
                        total,
                        lengths + Seq::new(n as nat, |k: int| prev),
                        prev,
                    )
                }
            })
            &&& (sym == 17 || sym == 18) ==> ({
                let nbits: int = if sym == 17 { 3 } else { 7 };
                let base: int = if sym == 17 { 3 } else { 11 };
                nbits <= s1.len() ==> code_lengths_from(counts, symbols, s, total, lengths, prev)
                    == if lengths.len() + base + bits_value(s1.take(nbits)) > total {
                    None
                } else {
                    code_lengths_from(
                        counts,
                        symbols,
                        s1.skip(nbits),
                        total,
                        lengths + Seq::new(
                            (base + bits_value(s1.take(nbits))) as nat,
                            |k: int| 0u8,
                        ),
                        0u8,
                    )
                }
            })
            &&& sym > 18 ==> code_lengths_from(counts, symbols, s, total, lengths, prev) is None
        },
{
    if let Some((sym, s1)) = huffman_decode(counts, symbols, s) {
        if sym == 16 && lengths.len() > 0 && 2 <= s1.len() {
            let t2 = s1.take(2);
            assert(t2.drop_first().drop_first() =~= Seq::<bool>::empty());
            assert(t2[0] == s1[0] && t2.drop_first()[0] == s1[1]);
            assert(bits_value(t2.drop_first().drop_first()) == 0);
            assert(bits_value(t2.drop_first()) == (if s1[1] { 1int } else { 0 }));
            assert(bits_value(t2) == (if s1[0] { 1int } else { 0 }) + (if s1[1] { 2int } else { 0 }));
        }
    }
}

/// The code lengths of the code-length code arrive in the order that RFC
/// 1951 section 3.2.7 fixes: 16, 17, 18, 0, 8, 7, 9, 6, 10, 5, 11, 4, 12,
/// 3, 13, 2, 14, 1, 15.
pub proof fn lemma_code_length_order()
    ensures
        CODE_LENGTH_ORDER@ == seq![
            16usize, 17, 18, 0, 8, 7, 9, 6, 10, 5, 11, 4, 12, 3, 13, 2, 14, 1, 15,
        ],
{
    assert(CODE_LENGTH_ORDER@ =~= seq![
        16usize, 17, 18, 0, 8, 7, 9, 6, 10, 5, 11, 4, 12, 3, 13, 2, 14, 1, 15,
    ]);
}

/// The block type field: 0 is a stored block, 1 a block with the fixed
/// codes, 2 one with codes of its own, and 3 is reserved and refused.
pub proof fn lemma_block_types(s: Seq<bool>, out: Seq<u8>, max: int)
    ensures
        block_of_type(0, s, out, max) == stored_block(s, out, max),
        block_of_type(1, s, out, max) == block_from(
            huffman_counts(fixed_lit_lengths()),
            huffman_symbols(fixed_lit_lengths()),
            huffman_counts(fixed_dist_lengths()),
            huffman_symbols(fixed_dist_lengths()),
            s,
            out,
            max,
        ),
        block_of_type(3, s, out, max) is None,
{
}

/// A back-reference repeats earlier output: a final fixed-code block that
/// holds the literal `b`, then length code 257 (length 3, 7-bit code 1) and
/// distance code 0 (distance 1, 5-bit code 0), then end-of-block, inflates
/// to four copies of `b`.
pub proof fn lemma_fixed_repeat_block(b: int, rest: Seq<bool>, max: int)
    requires
        0 <= b < 256,
        4 <= max,
    ensures
        inflate_from(
            seq![true, true, false] + code_bits(
                if b < 144 {
                    0x30 + b
                } else {
                    0x190 + (b - 144)
                },
                if b < 144 {
                    8
                } else {
                    9
                },
            ) + code_bits(1, 7) + code_bits(0, 5) + code_bits(0, 7) + rest,
            Seq::empty(),
            max,
        ) == Some(seq![b as u8, b as u8, b as u8, b as u8]),
{
    let code = code_bits(
        if b < 144 {
            0x30 + b
        } else {
            0x190 + (b - 144)
        },
        if b < 144 {
            8
        } else {
            9
        },
    );
    let eob = code_bits(0, 7);
    let s = seq![true, true, false] + code + code_bits(1, 7) + code_bits(0, 5) + eob + rest;
    let lc = huffman_counts(fixed_lit_lengths());
    let ls = huffman_symbols(fixed_lit_lengths());
    let dc = huffman_counts(fixed_dist_lengths());
    let dsy = huffman_symbols(fixed_dist_lengths());
    let t1 = s.take(1);
    assert(t1 =~= seq![true]);
    assert(t1.drop_first() =~= Seq::<bool>::empty());
    assert(bits_value(t1.drop_first()) == 0);
    assert(t1[0]);
    assert(bits_value(t1) == 1);
    let s1 = s.skip(1);
    let t2 = s1.take(2);
    assert(t2 =~= seq![true, false]);
    assert(t2.drop_first().drop_first() =~= Seq::<bool>::empty());
    assert(bits_value(t2.drop_first().drop_first()) == 0);
    assert(!t2.drop_first()[0]);
    assert(bits_value(t2.drop_first()) == 0);
    assert(t2[0]);
    assert(bits_value(t2) == 1);
    let s2 = s1.skip(2);
    let s3 = code_bits(1, 7) + (code_bits(0, 5) + (eob + rest));
    let s4 = code_bits(0, 5) + (eob + rest);
    let s5 = eob + rest;
    assert(s2 =~= code + s3);
    lemma_fixed_lit_codes(b, s3);
    lemma_fixed_lit_codes(257, s4);
    lemma_fixed_dist_codes(0, s5);
    lemma_fixed_lit_codes(256, rest);
    assert(s4.take(0) =~= Seq::<bool>::empty());
    assert(s4.skip(0) =~= s4);
    assert(s5.take(0) =~= Seq::<bool>::empty());
    assert(s5.skip(0) =~= s5);
    lemma_length_codes(0);
    lemma_distance_codes(0);
    assert(LENGTH_EXTRA@[0] == 0 && LENGTH_BASE@[0] == 3);
    assert(DIST_EXTRA@[0] == 0 && DIST_BASE@[0] == 1);
    let out1 = Seq::<u8>::empty().push(b as u8);
    let c1 = out1.push(out1[0]);
    let c2 = c1.push(c1[1]);
    let c3 = c2.push(c2[2]);
    assert(lz_copy(c3, 1, 0) == c3);
    assert(lz_copy(c2, 1, 1) == c3);
    assert(lz_copy(c1, 1, 2) == c3);
    assert(lz_copy(out1, 1, 3) == c3);
    assert(c3 =~= seq![b as u8, b as u8, b as u8, b as u8]);
    assert(block_from(lc, ls, dc, dsy, s5, c3, max) == Some((c3, rest)));
    assert(block_from(lc, ls, dc, dsy, s3, out1, max) == Some((c3, rest)));
    assert(block_from(lc, ls, dc, dsy, s2, Seq::empty(), max) == Some((c3, rest)));
}

} // verus!
