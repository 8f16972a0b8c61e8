//! Byte-string helpers shared by the Exif and PNG text decoders.

use vstd::prelude::*;

verus! {

/// Index of the first zero byte of `s`, if it has one.
pub open spec fn zero_pos(s: Seq<u8>) -> Option<int>
    decreases s.len(),
{
    if s.len() == 0 {
        None
    } else if s[0] == 0 {
        Some(0)
    } else {
        match zero_pos(s.drop_first()) {
            None => None,
            Some(p) => Some(p + 1),
        }
    }
}

/// `zero_pos` finds the first zero byte, and only misses when none is there.
pub proof fn lemma_zero_pos(s: Seq<u8>)
    ensures
        zero_pos(s) matches Some(p) ==> 0 <= p < s.len() && s[p] == 0 && forall|j: int|
            0 <= j < p ==> s[j] != 0,
        zero_pos(s) is None ==> forall|j: int| 0 <= j < s.len() ==> s[j] != 0,
    decreases s.len(),
{
    if s.len() > 0 && s[0] != 0 {
        lemma_zero_pos(s.drop_first());
        assert forall|j: int| 1 <= j < s.len() implies s[j] == s.drop_first()[j - 1] by {}
    }
}

/// Where the first `p` bytes hold no zero and byte `p` is one, `p` is
/// where `zero_pos` stops; with no zero at all it finds none.
pub proof fn lemma_zero_pos_at(s: Seq<u8>, p: int)
    requires
        0 <= p <= s.len(),
        forall|j: int| 0 <= j < p ==> s[j] != 0,
        p < s.len() ==> s[p] == 0,
    ensures
        zero_pos(s) == (if p < s.len() { Some(p) } else { None::<int> }),
    decreases p,
{
    if p > 0 {
        lemma_zero_pos_at(s.drop_first(), p - 1);
    }
}

/// Finds the first zero byte, as `iter().position(|&b| b == 0)` does.
pub fn find_zero(data: &[u8]) -> (r: Option<usize>)
    ensures
        r is None <==> zero_pos(data@) is None,
        r matches Some(i) ==> zero_pos(data@) == Some(i as int),
{
    let mut i: usize = 0;
    while i < data.len()
        invariant
            i <= data@.len(),
            forall|j: int| 0 <= j < i ==> data@[j] != 0,
        decreases data@.len() - i,
    {
        if data[i] == 0 {
            proof {
                lemma_zero_pos_at(data@, i as int);
            }
            return Some(i);
        }
        i = i + 1;
    }
    proof {
        lemma_zero_pos_at(data@, i as int);
    }
    None
}

/// The characters `String::from_utf8_lossy` makes of `bytes`: valid UTF-8
/// sequences decoded, each invalid one replaced by U+FFFD.
pub uninterp spec fn utf8_lossy(bytes: Seq<u8>) -> Seq<char>;

/// Calls `String::from_utf8_lossy` and takes the result as an owned
/// `String`. Its contract claims that the result is a function of the
/// bytes alone, and, as std documents, that valid UTF-8 comes out decoded
/// unchanged.
#[verifier::external_body]
pub(crate) fn lossy_string(bytes: &[u8]) -> (s: String)
    ensures
        s@ == utf8_lossy(bytes@),
        vstd::utf8::valid_utf8(bytes@) ==> s@ == vstd::utf8::decode_utf8(bytes@),
{
    String::from_utf8_lossy(bytes).into_owned()
}

} // verus!
