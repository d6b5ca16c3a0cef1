//! UTF-8 validation, byte search and string normalization used by the decoder.
use vstd::prelude::*;
use vstd::utf8::*;

verus! {

/// What `memchr::memchr` answers: the index of the first occurrence of `needle`.
pub open spec fn spec_first_index(needle: u8, s: Seq<u8>) -> Option<nat> {
    if exists|i: int| 0 <= i < s.len() && s[i] == needle {
        let i = choose|i: int|
            0 <= i < s.len() && s[i] == needle && forall|j: int| 0 <= j < i ==> s[j] != needle;
        Some(i as nat)
    } else {
        None
    }
}

/// Search for the first occurrence of a byte, with `memchr::memchr`.
///
/// Trusted: `memchr` documents that it returns the index of the first
/// occurrence of `needle` in `haystack`, or `None` when there is none; this
/// contract states exactly that.
#[verifier::external_body]
pub(crate) fn find_byte(needle: u8, haystack: &[u8]) -> (r: Option<usize>)
    ensures
        match r {
            Some(i) => i < haystack@.len() && haystack@[i as int] == needle && forall|j: int|
                0 <= j < i ==> haystack@[j] != needle,
            None => forall|j: int| 0 <= j < haystack@.len() ==> haystack@[j] != needle,
        },
{
    memchr::memchr(needle, haystack)
}

/// Validate UTF-8 and view the bytes as a `str`, with `simdutf8::basic::from_utf8`.
///
/// Trusted: `simdutf8::basic::from_utf8` is documented as the analogue of
/// `std::str::from_utf8`: it returns the bytes as a `str` exactly when they are
/// valid UTF-8. The contract states that, with the decoded characters of the
/// valid bytes.
#[verifier::external_body]
pub(crate) fn validate_utf8<'a>(bytes: &'a [u8]) -> (r: Option<&'a str>)
    ensures
        r is Some <==> valid_utf8(bytes@),
        r matches Some(s) ==> s@ == decode_utf8(bytes@),
{
    match simdutf8::basic::from_utf8(bytes) {
        Ok(s) => Some(s),
        Err(_) => None,
    }
}

/// Unicode Normalization Form C of a character sequence, as the
/// `unicode-normalization` crate computes it.
pub uninterp spec fn spec_nfc(s: Seq<char>) -> Seq<char>;

/// NFC-normalize a string with `unicode_normalization::UnicodeNormalization::nfc`.
///
/// Trusted: the result is the crate's NFC form of the input, named
/// `spec_nfc`; nothing more is claimed of it.
#[verifier::external_body]
pub(crate) fn nfc_normalize(s: &str) -> (r: String)
    ensures
        r@ == spec_nfc(s@),
{
    unicode_normalization::UnicodeNormalization::nfc(s).collect::<String>()
}

/// The characters that `String::from_utf8_lossy` makes of a byte sequence.
pub uninterp spec fn spec_utf8_lossy(b: Seq<u8>) -> Seq<char>;

/// Decode bytes as UTF-8, replacing invalid sequences with U+FFFD, with
/// `String::from_utf8_lossy`.
///
/// Trusted: the result is named `spec_utf8_lossy`; the one fact stated beside
/// it, from std's documentation, is that valid UTF-8 comes back unchanged.
/// Which replacement characters stand for which invalid bytes is not stated.
#[verifier::external_body]
pub(crate) fn utf8_lossy(b: &[u8]) -> (r: String)
    ensures
        r@ == spec_utf8_lossy(b@),
        valid_utf8(b@) ==> r@ == decode_utf8(b@),
{
    String::from_utf8_lossy(b).into_owned()
}

/// The bytes that remain of `b` when every byte at which no well-formed UTF-8
/// scalar starts is deleted, scanning from the front.
pub open spec fn spec_keep_valid(b: Seq<u8>) -> Seq<u8>
    decreases b.len(),
{
    if b.len() == 0 {
        Seq::empty()
    } else if valid_first_scalar(b) {
        let n = length_of_first_scalar(b);
        b.take(n) + spec_keep_valid(b.skip(n))
    } else {
        spec_keep_valid(b.drop_first())
    }
}

/// Length of the well-formed UTF-8 scalar that starts at `i`, or 0 when none does.
fn scalar_len_at(bytes: &[u8], i: usize) -> (r: usize)
    requires
        i < bytes@.len(),
    ensures
        r == (if valid_first_scalar(bytes@.skip(i as int)) {
            length_of_first_scalar(bytes@.skip(i as int))
        } else {
            0
        }),
{
    let ghost s = bytes@.skip(i as int);
    let rest = bytes.len() - i;
    let b0 = bytes[i];
    assert(s[0] == b0);
    if b0 <= 0x7f {
        return 1;
    }
    if 0xc0 <= b0 && b0 <= 0xdf {
        if rest < 2 {
            return 0;
        }
        let b1 = bytes[i + 1];
        assert(s[1] == b1);
        if !(0x80 <= b1 && b1 <= 0xbf) {
            return 0;
        }
        let cp: u32 = (((b0 & 0x1F) as u32) << 6) | ((b1 & 0x3f) as u32);
        assert(cp == decode_first_codepoint(s));
        if 0x80 <= cp && !(0xD800 <= cp && cp <= 0xDFFF) {
            return 2;
        }
        return 0;
    }
    if 0xe0 <= b0 && b0 <= 0xef {
        if rest < 3 {
            return 0;
        }
        let b1 = bytes[i + 1];
        let b2 = bytes[i + 2];
        assert(s[1] == b1 && s[2] == b2);
        if !(0x80 <= b1 && b1 <= 0xbf && 0x80 <= b2 && b2 <= 0xbf) {
            return 0;
        }
        let cp: u32 = (((b0 & 0x0F) as u32) << 12) | (((b1 & 0x3f) as u32) << 6) | ((b2 & 0x3f)
            as u32);
        assert(cp == decode_first_codepoint(s));
        if 0x800 <= cp && !(0xD800 <= cp && cp <= 0xDFFF) {
            return 3;
        }
        return 0;
    }
    if 0xf0 <= b0 && b0 <= 0xf7 {
        if rest < 4 {
            return 0;
        }
        let b1 = bytes[i + 1];
        let b2 = bytes[i + 2];
        let b3 = bytes[i + 3];
        assert(s[1] == b1 && s[2] == b2 && s[3] == b3);
        if !(0x80 <= b1 && b1 <= 0xbf && 0x80 <= b2 && b2 <= 0xbf && 0x80 <= b3 && b3 <= 0xbf) {
            return 0;
        }
        let cp: u32 = (((b0 & 0x07) as u32) << 18) | (((b1 & 0x3f) as u32) << 12) | (((b2 & 0x3f)
            as u32) << 6) | ((b3 & 0x3f) as u32);
        assert(cp == decode_first_codepoint(s));
        if 0x10000 <= cp && cp <= 0x10ffff && !(0xD800 <= cp && cp <= 0xDFFF) {
            return 4;
        }
        return 0;
    }
    0
}

proof fn lemma_take_first_scalar_valid(b: Seq<u8>)
    requires
        valid_first_scalar(b),
    ensures
        valid_utf8(b.take(length_of_first_scalar(b))),
{
    let n = length_of_first_scalar(b);
    let t = b.take(n);
    assert(valid_first_scalar(t));
    assert(length_of_first_scalar(t) == n);
    assert(pop_first_scalar(t).len() == 0);
    assert(valid_utf8(pop_first_scalar(t)));
}

/// Delete invalid UTF-8 bytes, keeping only the well-formed sequences.
pub fn delete_invalid_utf8(bytes: &[u8]) -> (r: String)
    ensures
        valid_utf8(spec_keep_valid(bytes@)),
        r@ == decode_utf8(spec_keep_valid(bytes@)),
{
    let mut kept: Vec<u8> = Vec::new();
    let mut i: usize = 0;
    assert(bytes@.skip(0) =~= bytes@);
    assert(kept@ + spec_keep_valid(bytes@) =~= spec_keep_valid(bytes@));
    while i < bytes.len()
        invariant
            i <= bytes@.len(),
            spec_keep_valid(bytes@) == kept@ + spec_keep_valid(bytes@.skip(i as int)),
            valid_utf8(kept@),
        decreases bytes@.len() - i,
    {
        let n = scalar_len_at(bytes, i);
        let ghost s = bytes@.skip(i as int);
        if n == 0 {
            assert(s.drop_first() =~= bytes@.skip(i + 1));
            i += 1;
        } else {
            let ghost before = kept@;
            assert(n <= s.len());
            let mut k: usize = 0;
            while k < n
                invariant
                    k <= n,
                    n == length_of_first_scalar(s),
                    valid_first_scalar(s),
                    i + n <= bytes.len(),
                    s == bytes@.skip(i as int),
                    kept@ == before + s.take(k as int),
                decreases n - k,
            {
                assert(i + k < bytes.len());
                kept.push(bytes[i + k]);
                assert(s.take(k + 1) =~= s.take(k as int).push(bytes@[i + k]));
                k += 1;
            }
            proof {
                lemma_take_first_scalar_valid(s);
                valid_utf8_concat(before, s.take(n as int));
                assert(s.skip(n as int) =~= bytes@.skip(i + n));
                assert(spec_keep_valid(s) == s.take(n as int) + spec_keep_valid(s.skip(n as int)));
                assert(kept@ + spec_keep_valid(bytes@.skip(i + n)) =~= before + spec_keep_valid(s));
            }
            i += n;
        }
    }
    assert(bytes@.skip(i as int) =~= Seq::<u8>::empty());
    assert(kept@ =~= spec_keep_valid(bytes@));
    match validate_utf8(kept.as_slice()) {
        Some(s) => s.to_owned(),
        None => String::new(),
    }
}

} // verus!
