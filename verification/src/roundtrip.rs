//! What decoding gives back of an encoded value.
use crate::decoder::{
    lemma_first_index_is, lemma_le_top_byte, spec_decode_at, spec_default_config,
    spec_i64_direct, spec_long_string, spec_short_string, spec_sign_extend, spec_u64_direct, spec_typed_element_step, DecoderConfig, DuplicateKeyMode, NanInfinityMode, Token,
};
use crate::document::{
    doc_ok, spec_decode_document, spec_encode, spec_encode_items, spec_encode_pairs,
    spec_exceeds_f64, spec_float_value, spec_items_doc, spec_pairs_doc, spec_value,
};
use crate::encoder::{
    spec_bignumber_encoding, spec_f32_candidate, spec_f64_encoding, spec_f64_integer,
    spec_float_bytes, spec_index_bytes, spec_int_encoding, spec_le_bytes, spec_le_value,
    spec_min_bytes_signed, spec_min_bytes_unsigned, spec_native_index, spec_str_encoding,
    spec_uint_encoding,
};
use crate::floatbits::{f64_sign, spec_f32_to_f64, spec_f64_is_infinite, spec_f64_is_nan};
use crate::typed_array::{
    f32_exact, int_within, is_numeric, spec_element_bytes, spec_typed_array_kind,
    spec_typed_array_payload, uint_within, ElementKind,
};
use crate::types::{
    lemma_leb128_roundtrip, lemma_zigzag_roundtrip, limits, spec_leb128_bytes, spec_unzigzag,
    spec_zigzag, type_code, BigNumber,
};
use crate::value::{
    keys_sorted, lemma_get_absent, lemma_key_order, lower_bound, spec_get, spec_insert, spec_wf,
    SpecValue,
};
use vstd::arithmetic::power2::pow2;
use vstd::prelude::*;
use vstd::utf8::{encode_scalar, encode_utf8, encode_utf8_decode_utf8, encode_utf8_valid_utf8};

verus! {

// ---------------------------------------------------------------------------
// Little-endian bytes.
// ---------------------------------------------------------------------------

proof fn lemma_le_bytes(v: nat, n: nat)
    ensures
        spec_le_bytes(v, n).len() == n,
        spec_le_value(spec_le_bytes(v, n)) == v % pow2(8 * n),
    decreases n,
{
    vstd::arithmetic::power2::lemma2_to64();
    if n == 0 {
        assert(pow2(0) == 1);
    } else {
        let b = spec_le_bytes(v, n);
        lemma_le_bytes(v / 256, (n - 1) as nat);
        assert(b.drop_first() =~= spec_le_bytes(v / 256, (n - 1) as nat));
        vstd::arithmetic::power2::lemma_pow2_adds(8, 8 * (n - 1) as nat);
        assert(8 + 8 * (n - 1) == 8 * n);
        vstd::arithmetic::power2::lemma_pow2_pos(8 * (n - 1) as nat);
        vstd::arithmetic::div_mod::lemma_mod_breakdown(v as int, 256, pow2(8 * (n - 1) as nat) as int);
    }
}

/// The bytes of a value below `2^(8n)` read back as the value.
proof fn lemma_le_roundtrip(v: nat, n: nat)
    requires
        v < pow2(8 * n),
    ensures
        spec_le_bytes(v, n).len() == n,
        spec_le_value(spec_le_bytes(v, n)) == v,
{
    lemma_le_bytes(v, n);
    vstd::arithmetic::div_mod::lemma_small_mod(v, pow2(8 * n));
}

/// Two's complement bytes of a value in range read back, sign-extended, as the value.
proof fn lemma_sign_roundtrip(v: i64, n: nat)
    requires
        1 <= n <= 8,
        -pow2((8 * n - 1) as nat) <= v < pow2((8 * n - 1) as nat),
    ensures
        spec_le_bytes((v as u64) as nat, n).len() == n,
        spec_sign_extend(spec_le_bytes((v as u64) as nat, n)) == v,
{
    vstd::arithmetic::power2::lemma2_to64();
    vstd::arithmetic::power2::lemma2_to64_rest();
    let b = spec_le_bytes((v as u64) as nat, n);
    lemma_le_bytes((v as u64) as nat, n);
    let k = pow2(8 * n);
    let h = pow2((8 * n - 1) as nat);
    vstd::arithmetic::power2::lemma_pow2_adds(1, (8 * n - 1) as nat);
    assert(k == 2 * h);
    vstd::arithmetic::power2::lemma_pow2_adds(8 * n, (64 - 8 * n) as nat);
    let q = pow2((64 - 8 * n) as nat);
    assert(pow2(64) == k * q);
    vstd::arithmetic::power2::lemma_pow2_pos((64 - 8 * n) as nat);
    if v >= 0 {
        assert((v as u64) as nat == v);
        vstd::arithmetic::div_mod::lemma_small_mod(v as nat, k);
    } else {
        assert((v as u64) as int == v + pow2(64)) by {
            assert(v < 0 ==> (v as u64) as int == v + 0x1_0000_0000_0000_0000) by (bit_vector);
        }
        vstd::arithmetic::div_mod::lemma_mod_multiples_vanish(q as int, v + k, k as int);
        assert(k * q + (v + k) == v + pow2(64) + k) by (nonlinear_arith)
            requires
                pow2(64) == k * q,
        ;
        vstd::arithmetic::div_mod::lemma_mod_multiples_vanish(1, v as int, k as int);
        assert((v + pow2(64)) % (k as int) == (v + k) % (k as int)) by {
            vstd::arithmetic::div_mod::lemma_mod_multiples_vanish(q as int - 1, v + k, k as int);
            assert(k * (q - 1) + (v + k) == v + pow2(64)) by (nonlinear_arith)
                requires
                    pow2(64) == k * q,
            ;
        }
        vstd::arithmetic::div_mod::lemma_small_mod((v + k) as nat, k);
    }
    lemma_le_top_byte(b);
}

// ---------------------------------------------------------------------------
// UTF-8 bytes.
// ---------------------------------------------------------------------------

proof fn lemma_scalar_bytes(c: u32)
    ensures
        forall|i: int| 0 <= i < encode_scalar(c).len() ==> #[trigger] encode_scalar(c)[i] != 0xff,
        forall|i: int|
            0 <= i < encode_scalar(c).len() && #[trigger] encode_scalar(c)[i] == 0 ==> c == 0,
{
    assert(forall|x: u32| #[trigger] ((x & 0x7F) as u8) == 0xff ==> false) by (bit_vector);
    assert(forall|x: u32| (x & 0x7F) as u8 == 0 && x <= 0x7f ==> x == 0) by (bit_vector);
    assert(forall|x: u32|
        #[trigger] (0xC0u8 | ((x >> 6u32) & 0x1F) as u8) != 0xff && (0xC0u8 | ((x >> 6u32) & 0x1F) as u8)
            != 0) by (bit_vector);
    assert(forall|x: u32|
        #[trigger] (0xE0u8 | ((x >> 12u32) & 0x0F) as u8) != 0xff && (0xE0u8 | ((x >> 12u32)
            & 0x0F) as u8) != 0) by (bit_vector);
    assert(forall|x: u32|
        #[trigger] (0xF0u8 | ((x >> 18u32) & 0x7) as u8) != 0xff && (0xF0u8 | ((x >> 18u32) & 0x7) as u8)
            != 0) by (bit_vector);
    assert(forall|x: u32|
        #[trigger] (0x80u8 | (x & 0x3F) as u8) != 0xff && (0x80u8 | (x & 0x3F) as u8) != 0)
        by (bit_vector);
    assert(forall|x: u32|
        #[trigger] (0x80u8 | ((x >> 6u32) & 0x3F) as u8) != 0xff && (0x80u8 | ((x >> 6u32) & 0x3F) as u8)
            != 0) by (bit_vector);
    assert(forall|x: u32|
        #[trigger] (0x80u8 | ((x >> 12u32) & 0x3F) as u8) != 0xff && (0x80u8 | ((x >> 12u32) & 0x3F)
            as u8) != 0) by (bit_vector);
}

/// The string has no NUL character.
pub open spec fn no_nul(s: Seq<char>) -> bool {
    forall|i: int| 0 <= i < s.len() ==> #[trigger] s[i] != '\0'
}

/// UTF-8 never holds 0xFF, and holds 0 only for a NUL character.
proof fn lemma_utf8_bytes(s: Seq<char>)
    ensures
        forall|i: int| 0 <= i < encode_utf8(s).len() ==> #[trigger] encode_utf8(s)[i] != 0xff,
        no_nul(s) ==> !encode_utf8(s).contains(0),
    decreases s.len(),
{
    if s.len() > 0 {
        let c = s[0] as u32;
        let e = encode_scalar(c);
        let t = s.drop_first();
        lemma_utf8_bytes(t);
        lemma_scalar_bytes(c);
        let b = encode_utf8(s);
        assert(b == e + encode_utf8(t));
        assert forall|i: int| 0 <= i < b.len() implies #[trigger] b[i] != 0xff by {
            if i < e.len() {
                assert(b[i] == e[i]);
            } else {
                assert(b[i] == encode_utf8(t)[i - e.len()]);
            }
        }
        if no_nul(s) {
            assert(no_nul(t)) by {
                assert forall|i: int| 0 <= i < t.len() implies #[trigger] t[i] != '\0' by {
                    assert(t[i] == s[i + 1]);
                }
            }
            assert(s[0] != '\0');
            if c == 0 {
                vstd::utf8::char_u32_cast(s[0], c);
                assert(s[0] == (0u32 as char));
            }
            assert(c != 0);
            if b.contains(0) {
                let i = choose|i: int| 0 <= i < b.len() && b[i] == 0;
                if i < e.len() {
                    assert(b[i] == e[i]);
                } else {
                    assert(b[i] == encode_utf8(t)[i - e.len()]);
                    assert(encode_utf8(t).contains(0));
                }
            }
        }
    }
}

// ---------------------------------------------------------------------------
// The value that decoding gives back, and the limits within which it does.
// ---------------------------------------------------------------------------

/// The number that an integer encoding with first byte `code` decodes to:
/// unsigned for an unsigned code, else signed.
pub open spec fn spec_number_value(code: u8, n: int) -> SpecValue {
    if type_code::UINT8 <= code <= type_code::UINT64 {
        SpecValue::UInt(n as u64)
    } else {
        SpecValue::Int(n as i64)
    }
}

/// The big number that its encoding decodes to: zero is positive.
pub open spec fn spec_canonical_bignumber(bn: BigNumber) -> BigNumber {
    BigNumber {
        significand: bn.significand,
        exponent: bn.exponent,
        sign: if bn.significand != 0 && bn.sign < 0 {
            -1i8
        } else {
            1i8
        },
    }
}

/// The value that decoding the encoding of `v` gives: an integer comes back
/// signed or unsigned as its encoding's code says, a whole float within the
/// `i64` range comes back as that integer, a zero big number as positive;
/// everything else comes back unchanged.
pub open spec fn spec_canonical(v: SpecValue) -> SpecValue
    decreases v,
{
    match v {
        SpecValue::Int(n) => spec_number_value(spec_int_encoding(n)[0], n as int),
        SpecValue::UInt(n) => spec_number_value(spec_uint_encoding(n)[0], n as int),
        SpecValue::Float(b) => if b != 0x8000_0000_0000_0000 && spec_f64_integer(b) is Some {
            let n = spec_f64_integer(b)->Some_0;
            spec_number_value(spec_int_encoding(n)[0], n as int)
        } else {
            SpecValue::Float(b)
        },
        SpecValue::BigNumber(bn) => SpecValue::BigNumber(spec_canonical_bignumber(bn)),
        SpecValue::Array(a) => SpecValue::Array(
            Seq::new(
                a.len(),
                |i: int|
                    if 0 <= i < a.len() {
                        proof {
                            assert(decreases_to!(v => a));
                            assert(decreases_to!(a => a[i]));
                        }
                        spec_canonical(a[i])
                    } else {
                        SpecValue::Null
                    },
            ),
        ),
        SpecValue::Object(m) => SpecValue::Object(
            Seq::new(
                m.len(),
                |i: int|
                    if 0 <= i < m.len() {
                        proof {
                            assert(decreases_to!(v => m));
                            assert(decreases_to!(m => m[i]));
                            assert(decreases_to!(m[i] => m[i].1));
                        }
                        (m[i].0, spec_canonical(m[i].1))
                    } else {
                        (Seq::empty(), SpecValue::Null)
                    },
            ),
        ),
        _ => v,
    }
}

/// A string within the default limits: no NUL character, and no more UTF-8
/// bytes than the maximum string length.
pub open spec fn string_ok(s: Seq<char>) -> bool {
    no_nul(s) && encode_utf8(s).len() <= limits::MAX_STRING_LENGTH
}

/// The value lies within what the default configuration accepts when it is
/// nested in `depth` containers: finite floats, strings without NUL and within
/// the length limit, big numbers within the exponent limit and the binary64
/// range, containers within the depth and size limits.
pub open spec fn spec_roundtrip_ok(v: SpecValue, depth: nat) -> bool
    decreases v,
{
    match v {
        SpecValue::Float(b) => !spec_f64_is_nan(b) && !spec_f64_is_infinite(b),
        SpecValue::BigNumber(bn) => -(limits::MAX_BIGNUMBER_EXPONENT as int) <= bn.exponent
            <= limits::MAX_BIGNUMBER_EXPONENT && !spec_exceeds_f64(bn),
        SpecValue::Str(s) => string_ok(s),
        SpecValue::Array(a) => depth < limits::MAX_DEPTH && a.len() <= limits::MAX_CONTAINER_SIZE
            && forall|i: int| 0 <= i < a.len() ==> spec_roundtrip_ok(#[trigger] a[i], depth + 1),
        SpecValue::Object(m) => depth < limits::MAX_DEPTH && m.len()
            <= limits::MAX_CONTAINER_SIZE && forall|i: int|
            0 <= i < m.len() ==> string_ok(#[trigger] m[i].0) && spec_roundtrip_ok(
                m[i].1,
                depth + 1,
            ),
        _ => true,
    }
}

/// `enc` stands in `data` at `pos`.
pub open spec fn placed(data: Seq<u8>, pos: nat, enc: Seq<u8>) -> bool {
    pos + enc.len() <= data.len() && data.subrange(pos as int, (pos + enc.len()) as int) == enc
}

proof fn lemma_min_bytes(v: int)
    ensures
        0 <= v < pow2(64) ==> 1 <= spec_min_bytes_unsigned(v as nat) <= 8 && v < pow2(
            8 * spec_min_bytes_unsigned(v as nat),
        ) && (spec_min_bytes_unsigned(v as nat) > 1 ==> v >= pow2(
            8 * (spec_min_bytes_unsigned(v as nat) - 1) as nat,
        )),
        -pow2(63) <= v < pow2(63) ==> 1 <= spec_min_bytes_signed(v) <= 8 && -pow2(
            (8 * spec_min_bytes_signed(v) - 1) as nat,
        ) <= v < pow2((8 * spec_min_bytes_signed(v) - 1) as nat),
{
    vstd::arithmetic::power2::lemma2_to64();
    vstd::arithmetic::power2::lemma2_to64_rest();
}

proof fn lemma_native(k: nat)
    requires
        1 <= k <= 8,
    ensures
        spec_native_index(k) <= 3,
        k <= spec_index_bytes(spec_native_index(k)) <= 8,
        spec_index_bytes(spec_native_index(k)) == crate::types::type_code::size_of_index(
            spec_native_index(k) as int,
        ),
{
}

proof fn lemma_pow2_mono(a: nat, b: nat)
    requires
        a <= b,
    ensures
        pow2(a) <= pow2(b),
{
    if a < b {
        vstd::arithmetic::power2::lemma_pow2_strictly_increases(a, b);
    }
}

/// The token of an integer whose encoding starts with `code`.
pub open spec fn number_token(code: u8, n: int) -> Token {
    if type_code::UINT8 <= code <= type_code::UINT64 {
        Token::UInt(n as u64)
    } else {
        Token::Int(n as i64)
    }
}

proof fn lemma_subrange_parts(data: Seq<u8>, pos: nat, a: Seq<u8>, b: Seq<u8>)
    requires
        placed(data, pos, a + b),
    ensures
        placed(data, pos, a),
        placed(data, pos + a.len(), b),
{
    let ab = a + b;
    let w = data.subrange(pos as int, (pos + ab.len()) as int);
    assert(w == ab);
    assert(data.subrange(pos as int, (pos + a.len()) as int) =~= w.subrange(0, a.len() as int));
    assert(ab.subrange(0, a.len() as int) =~= a);
    assert(data.subrange((pos + a.len()) as int, (pos + a.len() + b.len()) as int) =~= w.subrange(
        a.len() as int,
        ab.len() as int,
    ));
    assert(ab.subrange(a.len() as int, ab.len() as int) =~= b);
}

/// A signed integer encoding decodes to its number.
#[verifier::spinoff_prover]
#[verifier::rlimit(100)]
proof fn lemma_int_at(v: i64, data: Seq<u8>, pos: nat, depth: nat, cfg: DecoderConfig)
    requires
        placed(data, pos, spec_int_encoding(v)),
    ensures
        spec_decode_at(data, pos, depth, cfg) == crate::decoder::step(
            Ok(number_token(spec_int_encoding(v)[0], v as int)),
            pos + spec_int_encoding(v).len(),
            depth,
        ),
{
    reveal(spec_decode_at);
    vstd::arithmetic::power2::lemma2_to64();
    vstd::arithmetic::power2::lemma2_to64_rest();
    let enc = spec_int_encoding(v);
    assert(data[pos as int] == enc[0]) by {
        assert(data.subrange(pos as int, (pos + enc.len()) as int)[0] == data[pos as int]);
    }
    if !(-100 <= v <= 100) {
        lemma_min_bytes(v as int);
        let k = spec_min_bytes_signed(v as int);
        lemma_native(k);
        let idx = spec_native_index(k);
        let n = spec_index_bytes(idx);
        lemma_pow2_mono((8 * k - 1) as nat, (8 * n - 1) as nat);
        if v > 0 {
            lemma_min_bytes(v as int);
        }
        let uk = spec_min_bytes_unsigned(v as nat);
        let uidx = spec_native_index(uk);
        let un = spec_index_bytes(uidx);
        if v > 0 && un < n {
            lemma_native(uk);
            lemma_pow2_mono(8 * uk, 8 * un);
            lemma_le_roundtrip(v as nat, un);
            let tail = spec_le_bytes(v as nat, un);
            assert(enc == seq![(type_code::UINT8 + uidx) as u8] + tail);
            lemma_subrange_parts(data, pos, seq![(type_code::UINT8 + uidx) as u8], tail);
        } else {
            lemma_sign_roundtrip(v, n);
            let tail = spec_le_bytes((v as u64) as nat, n);
            assert(enc == seq![(type_code::SINT8 + idx) as u8] + tail);
            lemma_subrange_parts(data, pos, seq![(type_code::SINT8 + idx) as u8], tail);
        }
    }
}

/// An unsigned integer encoding decodes to its number.
#[verifier::spinoff_prover]
#[verifier::rlimit(100)]
proof fn lemma_uint_at(v: u64, data: Seq<u8>, pos: nat, depth: nat, cfg: DecoderConfig)
    requires
        placed(data, pos, spec_uint_encoding(v)),
    ensures
        spec_decode_at(data, pos, depth, cfg) == crate::decoder::step(
            Ok(number_token(spec_uint_encoding(v)[0], v as int)),
            pos + spec_uint_encoding(v).len(),
            depth,
        ),
{
    reveal(spec_decode_at);
    vstd::arithmetic::power2::lemma2_to64();
    vstd::arithmetic::power2::lemma2_to64_rest();
    let enc = spec_uint_encoding(v);
    assert(data[pos as int] == enc[0]) by {
        assert(data.subrange(pos as int, (pos + enc.len()) as int)[0] == data[pos as int]);
    }
    if v > 100 {
        lemma_min_bytes(v as int);
        let k = spec_min_bytes_unsigned(v as nat);
        lemma_native(k);
        let idx = spec_native_index(k);
        let n = spec_index_bytes(idx);
        lemma_pow2_mono(8 * k, 8 * n);
        lemma_le_roundtrip(v as nat, n);
        let tail = spec_le_bytes(v as nat, n);
        if v as nat >= pow2((8 * n - 1) as nat) {
            assert(enc == seq![(type_code::UINT8 + idx) as u8] + tail);
            lemma_subrange_parts(data, pos, seq![(type_code::UINT8 + idx) as u8], tail);
        } else {
            assert(enc == seq![(type_code::SINT8 + idx) as u8] + tail);
            lemma_subrange_parts(data, pos, seq![(type_code::SINT8 + idx) as u8], tail);
            lemma_le_top_byte(tail);
            lemma_pow2_mono((8 * n - 1) as nat, 63);
        }
    }
}

/// The rest of the data after `pos`, when `a` stands at `pos`, is `a` then what follows it.
proof fn lemma_rest_split(data: Seq<u8>, pos: nat, a: Seq<u8>)
    requires
        placed(data, pos, a),
    ensures
        data.subrange(pos as int, data.len() as int) == a + data.subrange(
            (pos + a.len()) as int,
            data.len() as int,
        ),
{
    assert(data.subrange(pos as int, data.len() as int) =~= data.subrange(
        pos as int,
        (pos + a.len()) as int,
    ) + data.subrange((pos + a.len()) as int, data.len() as int));
}

/// A float's bytes decode to the same bits.
#[verifier::spinoff_prover]
#[verifier::rlimit(100)]
proof fn lemma_float_at(b: u64, data: Seq<u8>, pos: nat, depth: nat, cfg: DecoderConfig)
    requires
        placed(data, pos, spec_float_bytes(b)),
        !spec_f64_is_nan(b),
        !spec_f64_is_infinite(b),
    ensures
        spec_decode_at(data, pos, depth, cfg) == crate::decoder::step(
            Ok(Token::Float(b)),
            pos + spec_float_bytes(b).len(),
            depth,
        ),
{
    reveal(spec_decode_at);
    vstd::arithmetic::power2::lemma2_to64();
    vstd::arithmetic::power2::lemma2_to64_rest();
    let enc = spec_float_bytes(b);
    let c = spec_f32_candidate(b);
    if spec_f32_to_f64(c) == b {
        lemma_le_roundtrip(c as nat, 4);
        let tail = spec_le_bytes(c as nat, 4);
        assert(enc == seq![type_code::FLOAT32] + tail);
        lemma_subrange_parts(data, pos, seq![type_code::FLOAT32], tail);
    } else {
        lemma_le_roundtrip(b as nat, 8);
        let tail = spec_le_bytes(b as nat, 8);
        assert(enc == seq![type_code::FLOAT64] + tail);
        lemma_subrange_parts(data, pos, seq![type_code::FLOAT64], tail);
    }
    assert(data[pos as int] == enc[0]) by {
        assert(data.subrange(pos as int, (pos + enc.len()) as int)[0] == data[pos as int]);
    }
}

proof fn lemma_le_bytes_last(v: nat, n: nat)
    requires
        n >= 1,
    ensures
        spec_le_bytes(v, n).len() == n,
        spec_le_bytes(v, n)[n - 1] == (v / pow2(8 * (n - 1) as nat)) % 256,
    decreases n,
{
    lemma_le_bytes(v, n);
    vstd::arithmetic::power2::lemma2_to64();
    if n == 1 {
        assert(pow2(0) == 1);
        assert(v / 1 == v);
        assert(spec_le_bytes(v, n)[0] == (v % 256) as u8);
    } else {
        lemma_le_bytes_last(v / 256, (n - 1) as nat);
        let t = spec_le_bytes(v / 256, (n - 1) as nat);
        assert(spec_le_bytes(v, n) =~= seq![(v % 256) as u8] + t);
        assert(spec_le_bytes(v, n)[n - 1] == t[n - 2]);
        let m = (8 * (n - 2)) as nat;
        assert(t[n - 2] == ((v / 256) / pow2(m)) % 256);
        vstd::arithmetic::power2::lemma_pow2_adds(8, m);
        assert(8 + m == 8 * (n - 1) as nat);
        vstd::arithmetic::power2::lemma_pow2_pos(m);
        vstd::arithmetic::div_mod::lemma_div_denominator(v as int, 256, pow2(m) as int);
        assert((v / 256) / pow2(m) == v / pow2(8 * (n - 1) as nat));
    }
}

/// What `write_big_number` writes, the token decoder reads back: with the
/// default configuration, the encoding of a big number whose exponent is within
/// the default exponent limit decodes, consuming exactly its bytes, to that big
/// number (a zero coming back positive).
#[verifier::spinoff_prover]
#[verifier::rlimit(100)]
pub proof fn lemma_bignumber_at(bn: BigNumber, data: Seq<u8>, pos: nat, depth: nat)
    requires
        placed(data, pos, spec_bignumber_encoding(bn)),
        -(limits::MAX_BIGNUMBER_EXPONENT as int) <= bn.exponent <= limits::MAX_BIGNUMBER_EXPONENT,
    ensures
        spec_decode_at(data, pos, depth, spec_default_config()) == crate::decoder::step(
            Ok(Token::BigNumber(spec_canonical_bignumber(bn))),
            pos + spec_bignumber_encoding(bn).len(),
            depth,
        ),
{
    reveal(spec_decode_at);
    vstd::arithmetic::power2::lemma2_to64();
    vstd::arithmetic::power2::lemma2_to64_rest();
    let enc = spec_bignumber_encoding(bn);
    lemma_zigzag_roundtrip(bn.exponent);
    let zz = spec_zigzag(bn.exponent as int) as u64;
    let l1 = spec_leb128_bytes(zz as nat);
    let head = seq![type_code::BIG_NUMBER] + l1;
    let tail = enc.subrange(head.len() as int, enc.len() as int);
    assert(enc =~= head + tail);
    lemma_subrange_parts(data, pos, head, tail);
    lemma_subrange_parts(data, pos, seq![type_code::BIG_NUMBER], l1);
    assert(data[pos as int] == type_code::BIG_NUMBER) by {
        assert(data.subrange(pos as int, pos + 1int)[0] == data[pos as int]);
    }
    let p = pos + 1;
    lemma_rest_split(data, p, l1);
    lemma_leb128_roundtrip(zz, data.subrange((p + l1.len()) as int, data.len() as int));
    let p2 = p + l1.len();
    assert(p2 == pos + head.len());
    if bn.significand == 0 {
        assert(tail =~= seq![0u8]);
        assert(spec_leb128_bytes(0) == seq![0u8]);
        lemma_rest_split(data, p2, tail);
        lemma_leb128_roundtrip(0, data.subrange((p2 + 1) as int, data.len() as int));
    } else {
        lemma_min_bytes(bn.significand as int);
        let k = spec_min_bytes_unsigned(bn.significand as nat);
        let signed_len: int = if bn.sign < 0 {
            -(k as int)
        } else {
            k as int
        };
        assert(-8 <= signed_len <= 8);
        let zz2 = spec_zigzag(signed_len) as u64;
        let l2 = spec_leb128_bytes(zz2 as nat);
        let mag = spec_le_bytes(bn.significand as nat, k);
        assert(tail =~= l2 + mag);
        lemma_subrange_parts(data, p2, l2, mag);
        lemma_rest_split(data, p2, l2);
        lemma_leb128_roundtrip(zz2, data.subrange((p2 + l2.len()) as int, data.len() as int));
        assert(spec_unzigzag(zz2 as int) == signed_len);
        lemma_le_roundtrip(bn.significand as nat, k);
        lemma_le_bytes_last(bn.significand as nat, k);
        let top = bn.significand as nat / pow2(8 * (k - 1) as nat);
        if k > 1 {
            vstd::arithmetic::power2::lemma_pow2_adds(8 * (k - 1) as nat, 8);
            assert(8 * (k - 1) + 8 == 8 * k);
            vstd::arithmetic::power2::lemma_pow2_pos(8 * (k - 1) as nat);
            vstd::arithmetic::div_mod::lemma_div_is_ordered(
                pow2(8 * (k - 1) as nat) as int,
                bn.significand as int,
                pow2(8 * (k - 1) as nat) as int,
            );
            vstd::arithmetic::div_mod::lemma_div_by_self(pow2(8 * (k - 1) as nat) as int);
            let q = pow2(8 * (k - 1) as nat) as int;
            assert(bn.significand < q * 256);
            vstd::arithmetic::div_mod::lemma_multiply_divide_lt(bn.significand as int, q, 256);
        } else {
            assert(pow2(0) == 1);
        }
        assert(1 <= top < 256);
        vstd::arithmetic::div_mod::lemma_small_mod(top, 256);
    }
}

/// A string's encoding decodes to the string under any configuration with
/// the default string length limit.
proof fn lemma_str_at_cfg(s: Seq<char>, data: Seq<u8>, pos: nat, depth: nat, cfg: DecoderConfig)
    requires
        placed(data, pos, spec_str_encoding(encode_utf8(s))),
        string_ok(s),
        cfg.max_string_length == limits::MAX_STRING_LENGTH,
    ensures
        spec_decode_at(data, pos, depth, cfg) == crate::decoder::step(
            Ok(Token::Str(s)),
            pos + spec_str_encoding(encode_utf8(s)).len(),
            depth,
        ),
{
    reveal(spec_decode_at);
    let b = encode_utf8(s);
    let enc = spec_str_encoding(b);
    encode_utf8_valid_utf8(s);
    encode_utf8_decode_utf8(s);
    lemma_utf8_bytes(s);
    if b.len() <= 15 {
        let code = (type_code::STRING0 + b.len()) as u8;
        lemma_subrange_parts(data, pos, seq![code], b);
        assert(data[pos as int] == code) by {
            assert(data.subrange(pos as int, pos + 1int)[0] == data[pos as int]);
        }
    } else {
        lemma_subrange_parts(data, pos, seq![type_code::STRING_LONG] + b, seq![type_code::STRING_LONG]);
        lemma_subrange_parts(data, pos, seq![type_code::STRING_LONG], b);
        assert(enc == seq![type_code::STRING_LONG] + b + seq![type_code::STRING_LONG]);
        assert(data[pos as int] == type_code::STRING_LONG) by {
            assert(data.subrange(pos as int, pos + 1int)[0] == data[pos as int]);
        }
        let p = pos + 1;
        let rest = data.subrange(p as int, data.len() as int);
        assert(rest[b.len() as int] == type_code::STRING_LONG) by {
            assert(data.subrange((p + b.len()) as int, (p + b.len() + 1) as int)[0] == data[(p
                + b.len()) as int]);
        }
        assert forall|j: int| 0 <= j < b.len() implies rest[j] != 0xff by {
            assert(data.subrange(p as int, (p + b.len()) as int)[j] == rest[j]);
        }
        lemma_first_index_is(0xff, rest, b.len());
        assert(data.subrange(p as int, (p + b.len()) as int) == b);
    }
}

/// A string's encoding decodes to the string.
#[verifier::spinoff_prover]
#[verifier::rlimit(100)]
proof fn lemma_str_at(s: Seq<char>, data: Seq<u8>, pos: nat, depth: nat)
    requires
        placed(data, pos, spec_str_encoding(encode_utf8(s))),
        string_ok(s),
    ensures
        spec_decode_at(data, pos, depth, spec_default_config()) == crate::decoder::step(
            Ok(Token::Str(s)),
            pos + spec_str_encoding(encode_utf8(s)).len(),
            depth,
        ),
{
    reveal(spec_decode_at);
    let b = encode_utf8(s);
    let enc = spec_str_encoding(b);
    encode_utf8_valid_utf8(s);
    encode_utf8_decode_utf8(s);
    lemma_utf8_bytes(s);
    if b.len() <= 15 {
        let code = (type_code::STRING0 + b.len()) as u8;
        lemma_subrange_parts(data, pos, seq![code], b);
        assert(data[pos as int] == code) by {
            assert(data.subrange(pos as int, pos + 1int)[0] == data[pos as int]);
        }
    } else {
        lemma_subrange_parts(data, pos, seq![type_code::STRING_LONG] + b, seq![type_code::STRING_LONG]);
        lemma_subrange_parts(data, pos, seq![type_code::STRING_LONG], b);
        assert(enc == seq![type_code::STRING_LONG] + b + seq![type_code::STRING_LONG]);
        assert(data[pos as int] == type_code::STRING_LONG) by {
            assert(data.subrange(pos as int, pos + 1int)[0] == data[pos as int]);
        }
        let p = pos + 1;
        let rest = data.subrange(p as int, data.len() as int);
        assert(rest[b.len() as int] == type_code::STRING_LONG) by {
            assert(data.subrange((p + b.len()) as int, (p + b.len() + 1) as int)[0] == data[(p
                + b.len()) as int]);
        }
        assert forall|j: int| 0 <= j < b.len() implies rest[j] != 0xff by {
            assert(data.subrange(p as int, (p + b.len()) as int)[j] == rest[j]);
        }
        lemma_first_index_is(0xff, rest, b.len());
        assert(data.subrange(p as int, (p + b.len()) as int) == b);
    }
}

// ---------------------------------------------------------------------------
// Containers.
// ---------------------------------------------------------------------------

/// The canonical forms of a sequence of values.
pub open spec fn canonical_items(a: Seq<SpecValue>) -> Seq<SpecValue> {
    Seq::new(a.len(), |i: int| spec_canonical(a[i]))
}

/// The canonical forms of object pairs (keys unchanged).
pub open spec fn canonical_pairs(m: Seq<(Seq<char>, SpecValue)>) -> Seq<(Seq<char>, SpecValue)> {
    Seq::new(m.len(), |i: int| (m[i].0, spec_canonical(m[i].1)))
}

proof fn lemma_canonical_containers(v: SpecValue)
    ensures
        v matches SpecValue::Array(a) ==> spec_canonical(v) == SpecValue::Array(canonical_items(a)),
        v matches SpecValue::Object(m) ==> spec_canonical(v) == SpecValue::Object(
            canonical_pairs(m),
        ),
{
    match v {
        SpecValue::Array(a) => {
            if let SpecValue::Array(c) = spec_canonical(v) {
                assert(c =~= canonical_items(a));
            }
        },
        SpecValue::Object(m) => {
            if let SpecValue::Object(c) = spec_canonical(v) {
                assert(c =~= canonical_pairs(m));
            }
        },
        _ => {},
    }
}

/// Values within the limits encode without error.
proof fn lemma_encode_ok(v: SpecValue, depth: nat)
    requires
        spec_roundtrip_ok(v, depth),
    ensures
        spec_encode(v) is Ok,
    decreases v, 0int,
{
    match v {
        SpecValue::Array(a) => {
            lemma_items_ok(a, depth + 1, a.len() as int);
            assert(a.subrange(0, a.len() as int) =~= a);
        },
        SpecValue::Object(m) => {
            assert forall|i: int| 0 <= i < m.len() implies string_ok(#[trigger] m[i].0)
                && spec_roundtrip_ok(m[i].1, depth + 1) by {}
            lemma_pairs_ok(m, depth + 1, m.len() as int);
            assert(m.subrange(0, m.len() as int) =~= m);
        },
        _ => {},
    }
}

proof fn lemma_items_ok(a: Seq<SpecValue>, depth: nat, k: int)
    requires
        0 <= k <= a.len(),
        forall|i: int| 0 <= i < a.len() ==> spec_roundtrip_ok(#[trigger] a[i], depth),
    ensures
        spec_encode_items(a.subrange(0, k)) is Ok,
    decreases a, k,
{
    if k > 0 {
        lemma_items_ok(a, depth, k - 1);
        let s = a.subrange(0, k);
        assert(s.subrange(0, s.len() - 1) =~= a.subrange(0, k - 1));
        assert(s[s.len() - 1] == a[k - 1]);
        lemma_encode_ok(a[k - 1], depth);
    }
}

proof fn lemma_pairs_ok(m: Seq<(Seq<char>, SpecValue)>, depth: nat, k: int)
    requires
        0 <= k <= m.len(),
        forall|i: int| 0 <= i < m.len() ==> string_ok(#[trigger] m[i].0) && spec_roundtrip_ok(m[i].1, depth),
    ensures
        spec_encode_pairs(m.subrange(0, k)) is Ok,
    decreases m, k,
{
    if k > 0 {
        lemma_pairs_ok(m, depth, k - 1);
        let s = m.subrange(0, k);
        assert(s.subrange(0, s.len() - 1) =~= m.subrange(0, k - 1));
        assert(s[s.len() - 1] == m[k - 1]);
        assert(string_ok(m[k - 1].0));
        lemma_encode_ok(m[k - 1].1, depth);
    }
}

/// The encoding of array elements is the first element's, then the rest's.
proof fn lemma_items_front(a: Seq<SpecValue>)
    requires
        a.len() > 0,
        spec_encode_items(a) is Ok,
    ensures
        spec_encode(a[0]) is Ok,
        spec_encode_items(a.drop_first()) is Ok,
        spec_encode_items(a)->Ok_0 == spec_encode(a[0])->Ok_0 + spec_encode_items(
            a.drop_first(),
        )->Ok_0,
    decreases a.len(),
{
    let n = a.len();
    let init = a.subrange(0, n - 1);
    if n == 1 {
        assert(init =~= Seq::<SpecValue>::empty());
        assert(a.drop_first() =~= Seq::<SpecValue>::empty());
        assert(spec_encode_items(a)->Ok_0 =~= spec_encode(a[0])->Ok_0);
    } else {
        lemma_items_front(init);
        let t = a.drop_first();
        assert(t.subrange(0, t.len() - 1) =~= init.drop_first());
        assert(t[t.len() - 1] == a[n - 1]);
        assert(init[0] == a[0]);
        assert(spec_encode_items(a)->Ok_0 =~= spec_encode(a[0])->Ok_0 + spec_encode_items(
            t,
        )->Ok_0);
    }
}

/// The encoding of object pairs is the first pair's, then the rest's.
proof fn lemma_pairs_front(m: Seq<(Seq<char>, SpecValue)>)
    requires
        m.len() > 0,
        spec_encode_pairs(m) is Ok,
    ensures
        spec_encode(m[0].1) is Ok,
        spec_encode_pairs(m.drop_first()) is Ok,
        spec_encode_pairs(m)->Ok_0 == spec_str_encoding(encode_utf8(m[0].0)) + spec_encode(
            m[0].1,
        )->Ok_0 + spec_encode_pairs(m.drop_first())->Ok_0,
    decreases m.len(),
{
    let n = m.len();
    let init = m.subrange(0, n - 1);
    if n == 1 {
        assert(init =~= Seq::<(Seq<char>, SpecValue)>::empty());
        assert(m.drop_first() =~= Seq::<(Seq<char>, SpecValue)>::empty());
        assert(spec_encode_pairs(m)->Ok_0 =~= spec_str_encoding(encode_utf8(m[0].0)) + spec_encode(
            m[0].1,
        )->Ok_0);
    } else {
        lemma_pairs_front(init);
        let t = m.drop_first();
        assert(t.subrange(0, t.len() - 1) =~= init.drop_first());
        assert(t[t.len() - 1] == m[n - 1]);
        assert(init[0] == m[0]);
        assert(spec_encode_pairs(m)->Ok_0 =~= spec_str_encoding(encode_utf8(m[0].0)) + spec_encode(
            m[0].1,
        )->Ok_0 + spec_encode_pairs(t)->Ok_0);
    }
}

/// No encoded value starts with the container end marker.
proof fn lemma_first_byte(v: SpecValue)
    requires
        spec_encode(v) is Ok,
    ensures
        spec_encode(v)->Ok_0.len() >= 1,
        spec_encode(v)->Ok_0[0] != type_code::CONTAINER_END,
{
    vstd::arithmetic::power2::lemma2_to64();
    vstd::arithmetic::power2::lemma2_to64_rest();
    match v {
        SpecValue::Int(n) => {
            lemma_min_bytes(n as int);
            lemma_native(spec_min_bytes_signed(n as int));
            if n > 0 {
                lemma_native(spec_min_bytes_unsigned(n as nat));
            }
        },
        SpecValue::UInt(n) => {
            lemma_min_bytes(n as int);
            lemma_native(spec_min_bytes_unsigned(n as nat));
        },
        SpecValue::Float(b) => {
            if b != 0x8000_0000_0000_0000 && spec_f64_integer(b) is Some {
                let n = spec_f64_integer(b)->Some_0;
                lemma_min_bytes(n as int);
                lemma_native(spec_min_bytes_signed(n as int));
                if n > 0 {
                    lemma_native(spec_min_bytes_unsigned(n as nat));
                }
            }
        },
        _ => {},
    }
}

/// What `write_i64` writes, `decode_i64_direct` reads back: for every `i64`,
/// reading an integer at the start of its encoding gives the integer and ends
/// right after the encoding.
pub proof fn lemma_i64_direct_roundtrip(v: i64, data: Seq<u8>, pos: nat)
    requires
        placed(data, pos, spec_int_encoding(v)),
    ensures
        spec_i64_direct(data, pos) == (
            Ok::<i64, crate::error::SpecError>(v),
            pos + spec_int_encoding(v).len(),
        ),
{
    let cfg = spec_default_config();
    lemma_int_at(v, data, pos, 0, cfg);
    reveal(spec_decode_at);
    let enc = spec_int_encoding(v);
    assert(data[pos as int] == enc[0]) by {
        assert(data.subrange(pos as int, (pos + enc.len()) as int)[0] == data[pos as int]);
    }
    if !(-100 <= v <= 100) {
        lemma_min_bytes(v as int);
        lemma_native(spec_min_bytes_signed(v as int));
        if v > 0 {
            lemma_native(spec_min_bytes_unsigned(v as nat));
        }
        assert(type_code::UINT8 <= enc[0] <= type_code::SINT64);
    }
}

/// What `write_u64` writes, `decode_u64_direct` reads back: for every `u64`,
/// reading an unsigned integer at the start of its encoding gives the integer
/// and ends right after the encoding.
pub proof fn lemma_u64_direct_roundtrip(v: u64, data: Seq<u8>, pos: nat)
    requires
        placed(data, pos, spec_uint_encoding(v)),
    ensures
        spec_u64_direct(data, pos) == (
            Ok::<u64, crate::error::SpecError>(v),
            pos + spec_uint_encoding(v).len(),
        ),
{
    let cfg = spec_default_config();
    lemma_uint_at(v, data, pos, 0, cfg);
    reveal(spec_decode_at);
    let enc = spec_uint_encoding(v);
    assert(data[pos as int] == enc[0]) by {
        assert(data.subrange(pos as int, (pos + enc.len()) as int)[0] == data[pos as int]);
    }
    if v > 100 {
        vstd::arithmetic::power2::lemma2_to64();
        vstd::arithmetic::power2::lemma2_to64_rest();
        lemma_min_bytes(v as int);
        let k = spec_min_bytes_unsigned(v as nat);
        lemma_native(k);
        let n = spec_index_bytes(spec_native_index(k));
        assert(type_code::UINT8 <= enc[0] <= type_code::SINT64);
        if !(v as nat >= pow2((8 * n - 1) as nat)) {
            lemma_pow2_mono((8 * n - 1) as nat, 63);
            assert(v <= i64::MAX);
            assert(enc[0] >= type_code::SINT8);
            assert(((v as i64) as u64) == v);
        } else {
            assert(enc[0] <= type_code::UINT64);
        }
    }
}

/// Reading as a `u64` what `write_i64` wrote gives the integer exactly when
/// it is not negative, and is refused as out of range when it is; either way
/// the read ends right after the encoding.
pub proof fn lemma_u64_direct_of_signed(v: i64, data: Seq<u8>, pos: nat)
    requires
        placed(data, pos, spec_int_encoding(v)),
    ensures
        spec_u64_direct(data, pos) == (if v >= 0 {
            Ok::<u64, crate::error::SpecError>(v as u64)
        } else {
            Err(crate::error::SpecError::ValueOutOfRange)
        }, pos + spec_int_encoding(v).len()),
{
    let cfg = spec_default_config();
    lemma_int_at(v, data, pos, 0, cfg);
    reveal(spec_decode_at);
    let enc = spec_int_encoding(v);
    assert(data[pos as int] == enc[0]) by {
        assert(data.subrange(pos as int, (pos + enc.len()) as int)[0] == data[pos as int]);
    }
    if !(-100 <= v <= 100) {
        lemma_min_bytes(v as int);
        lemma_native(spec_min_bytes_signed(v as int));
        if v > 0 {
            lemma_native(spec_min_bytes_unsigned(v as nat));
        }
        assert(type_code::UINT8 <= enc[0] <= type_code::SINT64);
    }
}

/// How a document that is one binary64 NaN or infinity decodes under each
/// NaN/infinity mode: refused (as a NaN or as an infinity), kept as that
/// float, or turned into text: "NaN" for a NaN, "Infinity" for an infinity
/// whose sign bit is clear and "-Infinity" for one whose sign bit is set.
pub proof fn lemma_special_float_modes(b: u64, cfg: DecoderConfig)
    requires
        spec_f64_is_nan(b) || spec_f64_is_infinite(b),
        cfg.max_document_size >= 9,
    ensures
        spec_decode_document(seq![type_code::FLOAT64] + spec_le_bytes(b as nat, 8), cfg) == match cfg.nan_infinity_mode {
            NanInfinityMode::Reject => Err(
                if spec_f64_is_nan(b) {
                    crate::error::SpecError::NanNotAllowed
                } else {
                    crate::error::SpecError::InfinityNotAllowed
                },
            ),
            NanInfinityMode::Allow => Ok(SpecValue::Float(b)),
            NanInfinityMode::Stringify => Ok(
                SpecValue::Str(
                    if spec_f64_is_nan(b) {
                        "NaN"@
                    } else if f64_sign(b) == 0 {
                        "Infinity"@
                    } else {
                        "-Infinity"@
                    },
                ),
            ),
        },
{
    reveal(spec_decode_at);
    vstd::arithmetic::power2::lemma2_to64();
    vstd::arithmetic::power2::lemma2_to64_rest();
    let tail = spec_le_bytes(b as nat, 8);
    let data = seq![type_code::FLOAT64] + tail;
    lemma_le_roundtrip(b as nat, 8);
    assert(data.len() == 9);
    assert(data.subrange(1, 9) =~= tail);
    assert(data[0] == type_code::FLOAT64);
    crate::floatbits::lemma_f64_fields(b);
    if cfg.nan_infinity_mode != NanInfinityMode::Reject {
        assert(spec_value(data, 0, 0, cfg) == doc_ok(spec_float_value(b, cfg), 9, 0));
    }
}

/// What `write_str` writes, `decode_str_direct` reads back: with the default
/// configuration, a string without NUL within the length limit, read where
/// its encoding starts, gives the string and ends right after the encoding.
pub proof fn lemma_str_direct_roundtrip(s: Seq<char>, data: Seq<u8>, pos: nat)
    requires
        placed(data, pos, spec_str_encoding(encode_utf8(s))),
        string_ok(s),
    ensures
        ({
            let d = data;
            let cfg = spec_default_config();
            let end = pos + spec_str_encoding(encode_utf8(s)).len();
            &&& pos < d.len()
            &&& (type_code::STRING0 <= d[pos as int] <= type_code::STRING15 || d[pos as int]
                == type_code::STRING_LONG)
            &&& type_code::STRING0 <= d[pos as int] <= type_code::STRING15 ==> spec_short_string(
                d,
                pos + 1,
                (d[pos as int] - type_code::STRING0) as nat,
                cfg,
                true,
            ) == (Ok::<Seq<char>, crate::error::SpecError>(s), end)
            &&& d[pos as int] == type_code::STRING_LONG ==> spec_long_string(d, pos + 1, cfg, true)
                == (Ok::<Seq<char>, crate::error::SpecError>(s), end)
        }),
{
    let b = encode_utf8(s);
    let enc = spec_str_encoding(b);
    encode_utf8_valid_utf8(s);
    encode_utf8_decode_utf8(s);
    lemma_utf8_bytes(s);
    if b.len() <= 15 {
        let code = (type_code::STRING0 + b.len()) as u8;
        lemma_subrange_parts(data, pos, seq![code], b);
        assert(data[pos as int] == code) by {
            assert(data.subrange(pos as int, pos + 1int)[0] == data[pos as int]);
        }
    } else {
        lemma_subrange_parts(data, pos, seq![type_code::STRING_LONG] + b, seq![type_code::STRING_LONG]);
        lemma_subrange_parts(data, pos, seq![type_code::STRING_LONG], b);
        assert(enc == seq![type_code::STRING_LONG] + b + seq![type_code::STRING_LONG]);
        assert(data[pos as int] == type_code::STRING_LONG) by {
            assert(data.subrange(pos as int, pos + 1int)[0] == data[pos as int]);
        }
        let p = pos + 1;
        let rest = data.subrange(p as int, data.len() as int);
        assert(rest[b.len() as int] == type_code::STRING_LONG) by {
            assert(data.subrange((p + b.len()) as int, (p + b.len() + 1) as int)[0] == data[(p
                + b.len()) as int]);
        }
        assert forall|j: int| 0 <= j < b.len() implies rest[j] != 0xff by {
            assert(data.subrange(p as int, (p + b.len()) as int)[j] == rest[j]);
        }
        lemma_first_index_is(0xff, rest, b.len());
        assert(data.subrange(p as int, (p + b.len()) as int) == b);
    }
}

proof fn lemma_pairs_step(
    data: Seq<u8>,
    p: nat,
    cfg: DecoderConfig,
    acc: Seq<(Seq<char>, SpecValue)>,
    count: nat,
    k: Seq<char>,
    v: SpecValue,
    pk: nat,
    pv: nat,
)
    requires
        p < pk < pv <= data.len(),
        data[p as int] != type_code::CONTAINER_END,
        count < cfg.max_container_size,
        cfg.unicode_normalization != crate::decoder::UnicodeNormalization::Nfc,
        spec_decode_at(data, p, 1, cfg) == crate::decoder::step(Ok(Token::Str(k)), pk, 1),
        spec_value(data, pk, 1, cfg) == doc_ok(v, pv, 1),
    ensures
        spec_pairs_doc(data, p, 1, cfg, acc, count) == (if spec_get(acc, k) is Some
            && cfg.duplicate_key_mode == DuplicateKeyMode::Error {
            crate::document::doc_err(crate::error::SpecError::DuplicateKey)
        } else if spec_get(acc, k) is Some && cfg.duplicate_key_mode == DuplicateKeyMode::KeepFirst {
            spec_pairs_doc(data, pv, 1, cfg, acc, count)
        } else {
            spec_pairs_doc(data, pv, 1, cfg, spec_insert(acc, k, v), count + 1)
        }),
{
}

proof fn lemma_pairs_end(
    data: Seq<u8>,
    p: nat,
    cfg: DecoderConfig,
    acc: Seq<(Seq<char>, SpecValue)>,
    count: nat,
)
    requires
        p < data.len(),
        data[p as int] == type_code::CONTAINER_END,
    ensures
        spec_pairs_doc(data, p, 1, cfg, acc, count) == doc_ok(SpecValue::Object(acc), p + 1, 0),
{
}

proof fn lemma_int_value_at(v: i64, data: Seq<u8>, pos: nat, cfg: DecoderConfig)
    requires
        placed(data, pos, spec_int_encoding(v)),
    ensures
        spec_value(data, pos, 1, cfg) == doc_ok(
            spec_number_value(spec_int_encoding(v)[0], v as int),
            pos + spec_int_encoding(v).len(),
            1,
        ),
        1 <= spec_int_encoding(v).len() <= 9,
{
    lemma_int_at(v, data, pos, 1, cfg);
    if !(-100 <= v <= 100) {
        lemma_min_bytes(v as int);
        let k = spec_min_bytes_signed(v as int);
        lemma_native(k);
        lemma_le_bytes((v as u64) as nat, spec_index_bytes(spec_native_index(k)));
        if v > 0 {
            let uk = spec_min_bytes_unsigned(v as nat);
            lemma_native(uk);
            lemma_le_bytes(v as nat, spec_index_bytes(spec_native_index(uk)));
        }
    }
}

/// The encoding of the object `{k: a, k: b}`: the object code, the key and
/// the first integer, the key again and the second integer, and the end marker.
pub open spec fn object_twice(k: Seq<char>, a: i64, b: i64) -> Seq<u8> {
    seq![type_code::OBJECT] + spec_str_encoding(encode_utf8(k)) + spec_int_encoding(a)
        + spec_str_encoding(encode_utf8(k)) + spec_int_encoding(b) + seq![type_code::CONTAINER_END]
}

proof fn lemma_object_twice_doc(
    data: Seq<u8>,
    cfg: DecoderConfig,
    k: Seq<char>,
    va: SpecValue,
    vb: SpecValue,
    p1: nat,
    p2: nat,
    p3: nat,
    p4: nat,
    p5: nat,
)
    requires
        p1 == 1,
        p1 < p2 < p3 < p4 < p5,
        data.len() == p5 + 1,
        data.len() <= cfg.max_document_size,
        data[0] == type_code::OBJECT,
        data[p1 as int] != type_code::CONTAINER_END,
        data[p3 as int] != type_code::CONTAINER_END,
        data[p5 as int] == type_code::CONTAINER_END,
        cfg.max_depth >= 1,
        cfg.max_container_size >= 2,
        cfg.unicode_normalization != crate::decoder::UnicodeNormalization::Nfc,
        spec_decode_at(data, p1, 1, cfg) == crate::decoder::step(Ok(Token::Str(k)), p2, 1),
        spec_decode_at(data, p3, 1, cfg) == crate::decoder::step(Ok(Token::Str(k)), p4, 1),
        spec_value(data, p2, 1, cfg) == doc_ok(va, p3, 1),
        spec_value(data, p4, 1, cfg) == doc_ok(vb, p5, 1),
    ensures
        spec_decode_document(data, cfg) == match cfg.duplicate_key_mode {
            DuplicateKeyMode::Error => Err(crate::error::SpecError::DuplicateKey),
            DuplicateKeyMode::KeepFirst => Ok(SpecValue::Object(seq![(k, va)])),
            DuplicateKeyMode::KeepLast => Ok(SpecValue::Object(seq![(k, vb)])),
        },
{
    let acc1 = spec_insert(Seq::empty(), k, va);
    assert(acc1 =~= seq![(k, va)]);
    assert(spec_get(acc1, k) == Some(va)) by {
        assert(acc1[0].0 == k);
    }
    assert(spec_get(Seq::<(Seq<char>, SpecValue)>::empty(), k) is None);
    let acc2 = spec_insert(acc1, k, vb);
    assert(acc2 =~= seq![(k, vb)]) by {
        lemma_key_order(k, k, k);
        assert(!crate::value::key_lt(acc1[0].0, k));
        assert(lower_bound(acc1, k) == 0);
    }
    lemma_pairs_end(data, p5, cfg, acc1, 1);
    lemma_pairs_end(data, p5, cfg, acc2, 2);
    lemma_pairs_step(data, p3, cfg, acc1, 1, k, vb, p4, p5);
    lemma_pairs_step(data, p1, cfg, Seq::empty(), 0, k, va, p2, p3);
    assert(spec_value(data, 0, 0, cfg) == spec_pairs_doc(data, p1, 1, cfg, Seq::empty(), 0)) by {
        reveal(spec_decode_at);
    }
}

/// How an object that gives one key twice decodes, under each duplicate-key
/// mode: refused as a duplicate, keeping the first value, or keeping the
/// last. The object is `{k: a, k: b}` for any key `k` (without NUL and within
/// the length limit) and any two integers, with the configuration otherwise
/// the default one; the values come back as their encodings' codes say.
pub proof fn lemma_duplicate_key_modes(k: Seq<char>, a: i64, b: i64, cfg: DecoderConfig)
    requires
        string_ok(k),
        cfg == (DecoderConfig { duplicate_key_mode: cfg.duplicate_key_mode, ..spec_default_config() }),
    ensures
        spec_decode_document(object_twice(k, a, b), cfg) == match cfg.duplicate_key_mode {
            DuplicateKeyMode::Error => Err(crate::error::SpecError::DuplicateKey),
            DuplicateKeyMode::KeepFirst => Ok(
                SpecValue::Object(seq![(k, spec_number_value(spec_int_encoding(a)[0], a as int))]),
            ),
            DuplicateKeyMode::KeepLast => Ok(
                SpecValue::Object(seq![(k, spec_number_value(spec_int_encoding(b)[0], b as int))]),
            ),
        },
{
    let ek = spec_str_encoding(encode_utf8(k));
    let ea = spec_int_encoding(a);
    let eb = spec_int_encoding(b);
    let data = object_twice(k, a, b);
    let p1: nat = 1;
    let p2: nat = p1 + ek.len();
    let p3: nat = p2 + ea.len();
    let p4: nat = p3 + ek.len();
    let p5: nat = p4 + eb.len();
    assert(data.len() == p5 + 1);
    assert(data.subrange(p1 as int, p2 as int) =~= ek);
    assert(data.subrange(p2 as int, p3 as int) =~= ea);
    assert(data.subrange(p3 as int, p4 as int) =~= ek);
    assert(data.subrange(p4 as int, p5 as int) =~= eb);
    assert(data[0] == type_code::OBJECT);
    assert(data[p5 as int] == type_code::CONTAINER_END);
    lemma_str_direct_roundtrip(k, data, p1);
    lemma_str_direct_roundtrip(k, data, p3);
    lemma_str_at_cfg(k, data, p1, 1, cfg);
    lemma_str_at_cfg(k, data, p3, 1, cfg);
    lemma_int_value_at(a, data, p2, cfg);
    lemma_int_value_at(b, data, p4, cfg);
    assert(ek.len() <= limits::MAX_STRING_LENGTH + 2);
    lemma_object_twice_doc(
        data,
        cfg,
        k,
        spec_number_value(ea[0], a as int),
        spec_number_value(eb[0], b as int),
        p1,
        p2,
        p3,
        p4,
        p5,
    );
}

/// A value that a typed array of `kind` holds without change.
pub open spec fn element_fits(v: SpecValue, kind: ElementKind) -> bool {
    match kind {
        ElementKind::I8 => int_within(v, -0x80, 0x7f),
        ElementKind::I16 => int_within(v, -0x8000, 0x7fff),
        ElementKind::I32 => int_within(v, -0x8000_0000, 0x7fff_ffff),
        ElementKind::I64 => v is Int,
        ElementKind::U8 => uint_within(v, 0xff),
        ElementKind::U16 => uint_within(v, 0xffff),
        ElementKind::U32 => uint_within(v, 0xffff_ffff),
        ElementKind::U64 => uint_within(v, 0xffff_ffff_ffff_ffff),
        ElementKind::F32 => v is Float && is_numeric(v) && f32_exact(v),
        ElementKind::F64 => v is Float && is_numeric(v),
    }
}

/// The token that reading an element of `kind` gives for `v`: unsigned
/// kinds give unsigned integers, signed kinds signed ones, floats floats.
pub open spec fn element_token(v: SpecValue, kind: ElementKind) -> Token {
    match v {
        SpecValue::Int(n) => match kind {
            ElementKind::U8 | ElementKind::U16 | ElementKind::U32 | ElementKind::U64 => Token::UInt(
                n as u64,
            ),
            _ => Token::Int(n),
        },
        SpecValue::UInt(n) => Token::UInt(n),
        SpecValue::Float(b) => Token::Float(b),
        _ => Token::Null,
    }
}

/// Every element of an array holds without change in the typed array kind
/// that `detect_typed_array` picks for it.
pub proof fn lemma_kind_fits(vals: Seq<SpecValue>, kind: ElementKind)
    requires
        spec_typed_array_kind(vals) == Some(kind),
    ensures
        forall|i: int| 0 <= i < vals.len() ==> element_fits(#[trigger] vals[i], kind),
{
    assert forall|i: int| 0 <= i < vals.len() implies element_fits(#[trigger] vals[i], kind) by {
        assert(is_numeric(vals[i]));
    }
}

/// What `encode_typed_array_data` packs for an element, `read_typed_array_element`
/// reads back: the element's bytes read as an element of the same kind give
/// the element, and end right after its bytes.
pub proof fn lemma_typed_element_roundtrip(
    v: SpecValue,
    kind: ElementKind,
    data: Seq<u8>,
    pos: nat,
    depth: nat,
    cfg: DecoderConfig,
)
    requires
        element_fits(v, kind),
        placed(data, pos, spec_element_bytes(v, kind)),
    ensures
        spec_typed_element_step(data, pos, kind, depth, cfg) == crate::decoder::step(
            Ok(element_token(v, kind)),
            pos + kind.spec_size(),
            depth,
        ),
{
    vstd::arithmetic::power2::lemma2_to64();
    vstd::arithmetic::power2::lemma2_to64_rest();
    let k = kind.spec_size();
    match kind {
        ElementKind::F32 => {
            let b = v->Float_0;
            lemma_le_roundtrip(spec_f32_candidate(b) as nat, 4);
        },
        ElementKind::F64 => {
            let b = v->Float_0;
            lemma_le_roundtrip(b as nat, 8);
        },
        ElementKind::I8 | ElementKind::I16 | ElementKind::I32 | ElementKind::I64 => {
            let n = v->Int_0;
            lemma_sign_roundtrip(n, k);
        },
        _ => {
            let n: nat = match v {
                SpecValue::Int(x) => x as nat,
                _ => v->UInt_0 as nat,
            };
            if let SpecValue::Int(x) = v {
                assert((x as u64) as nat == x);
            }
            lemma_le_roundtrip(n, k);
        },
    }
}

proof fn lemma_element_len(v: SpecValue, kind: ElementKind)
    requires
        element_fits(v, kind),
    ensures
        spec_element_bytes(v, kind).len() == kind.spec_size(),
{
    match v {
        SpecValue::Float(b) => {
            lemma_le_bytes(spec_f32_candidate(b) as nat, 4);
            lemma_le_bytes(b as nat, 8);
        },
        SpecValue::Int(n) => lemma_le_bytes((n as u64) as nat, kind.spec_size()),
        SpecValue::UInt(n) => lemma_le_bytes(n as nat, kind.spec_size()),
        _ => {},
    }
}

/// The packed bytes of a typed array hold element `i` at offset `i` times the
/// element size.
proof fn lemma_payload_layout(vals: Seq<SpecValue>, kind: ElementKind)
    requires
        forall|i: int| 0 <= i < vals.len() ==> element_fits(#[trigger] vals[i], kind),
    ensures
        spec_typed_array_payload(vals, kind).len() == vals.len() * kind.spec_size(),
        forall|i: int|
            0 <= i < vals.len() ==> #[trigger] spec_typed_array_payload(vals, kind).subrange(
                i * kind.spec_size(),
                i * kind.spec_size() + kind.spec_size(),
            ) == spec_element_bytes(vals[i], kind),
    decreases vals.len(),
{
    let k = kind.spec_size() as int;
    if vals.len() > 0 {
        let init = vals.drop_last();
        assert forall|i: int| 0 <= i < init.len() implies element_fits(#[trigger] init[i], kind) by {
            assert(init[i] == vals[i]);
        }
        lemma_payload_layout(init, kind);
        let p = spec_typed_array_payload(init, kind);
        let e = spec_element_bytes(vals.last(), kind);
        lemma_element_len(vals.last(), kind);
        let whole = spec_typed_array_payload(vals, kind);
        assert(whole == p + e);
        let n = init.len() as int;
        assert(p.len() == n * k);
        assert(vals.len() * k == n * k + k) by (nonlinear_arith)
            requires
                vals.len() == n + 1,
        ;
        assert forall|i: int| 0 <= i < vals.len() implies #[trigger] whole.subrange(
            i * k,
            i * k + k,
        ) == spec_element_bytes(vals[i], kind) by {
            if i < n {
                assert(i * k + k <= n * k) by (nonlinear_arith)
                    requires
                        i < n,
                        k >= 0,
                ;
                assert(0 <= i * k) by (nonlinear_arith)
                    requires
                        0 <= i,
                        k >= 0,
                ;
                assert(whole.subrange(i * k, i * k + k) =~= p.subrange(i * k, i * k + k));
                assert(init[i] == vals[i]);
            } else {
                assert(i == n);
                assert(whole.subrange(i * k, i * k + k) =~= e);
            }
        }
    }
}

/// Decoding the packed bytes of a typed array element by element gives back
/// its elements: for the kind that `detect_typed_array` picks, element `i`
/// read at offset `i` times the element size gives that element's token and
/// ends where the next element starts.
pub proof fn lemma_typed_array_roundtrip(
    vals: Seq<SpecValue>,
    kind: ElementKind,
    data: Seq<u8>,
    pos: nat,
    depth: nat,
    cfg: DecoderConfig,
)
    requires
        spec_typed_array_kind(vals) == Some(kind),
        placed(data, pos, spec_typed_array_payload(vals, kind)),
    ensures
        forall|i: int|
            0 <= i < vals.len() ==> #[trigger] spec_typed_element_step(
                data,
                (pos + i * kind.spec_size()) as nat,
                kind,
                depth,
                cfg,
            ) == crate::decoder::step(
                Ok(element_token(vals[i], kind)),
                (pos + i * kind.spec_size() + kind.spec_size()) as nat,
                depth,
            ),
{
    lemma_kind_fits(vals, kind);
    lemma_payload_layout(vals, kind);
    let k = kind.spec_size() as int;
    let payload = spec_typed_array_payload(vals, kind);
    assert forall|i: int| 0 <= i < vals.len() implies #[trigger] spec_typed_element_step(
        data,
        (pos + i * k) as nat,
        kind,
        depth,
        cfg,
    ) == crate::decoder::step(Ok(element_token(vals[i], kind)), (pos + i * k + k) as nat, depth) by {
        assert(0 <= i * k && i * k + k <= vals.len() * k) by (nonlinear_arith)
            requires
                0 <= i < vals.len(),
                k >= 0,
        ;
        let e = spec_element_bytes(vals[i], kind);
        lemma_element_len(vals[i], kind);
        assert(payload.subrange(i * k, i * k + k) == e);
        let q = (pos + i * k) as nat;
        assert(data.subrange(q as int, (q + e.len()) as int) =~= e) by {
            assert forall|j: int| 0 <= j < e.len() implies data.subrange(q as int, (q + e.len()) as int)[j]
                == e[j] by {
                assert(payload[i * k + j] == data.subrange(pos as int, (pos + payload.len()) as int)[i * k
                    + j]);
                assert(payload.subrange(i * k, i * k + k)[j] == payload[i * k + j]);
            }
        }
        lemma_typed_element_roundtrip(vals[i], kind, data, q, depth, cfg);
    }
}

/// Decoding the encoding of a value within the limits gives its canonical form.
#[verifier::spinoff_prover]
#[verifier::rlimit(100)]
pub proof fn lemma_value_rt(v: SpecValue, data: Seq<u8>, pos: nat, depth: nat)
    requires
        spec_wf(v),
        spec_roundtrip_ok(v, depth),
        spec_encode(v) is Ok,
        placed(data, pos, spec_encode(v)->Ok_0),
    ensures
        spec_value(data, pos, depth, spec_default_config()) == doc_ok(
            spec_canonical(v),
            pos + spec_encode(v)->Ok_0.len(),
            depth,
        ),
    decreases v, 0int,
{
    let cfg = spec_default_config();
    let enc = spec_encode(v)->Ok_0;
    lemma_first_byte(v);
    assert(data[pos as int] == enc[0]) by {
        assert(data.subrange(pos as int, (pos + enc.len()) as int)[0] == data[pos as int]);
    }
    match v {
        SpecValue::Int(n) => lemma_int_at(n, data, pos, depth, cfg),
        SpecValue::UInt(n) => lemma_uint_at(n, data, pos, depth, cfg),
        SpecValue::Float(b) => {
            if b != 0x8000_0000_0000_0000 && spec_f64_integer(b) is Some {
                lemma_int_at(spec_f64_integer(b)->Some_0, data, pos, depth, cfg);
            } else {
                lemma_float_at(b, data, pos, depth, cfg);
            }
        },
        SpecValue::BigNumber(bn) => lemma_bignumber_at(bn, data, pos, depth),
        SpecValue::Str(s) => lemma_str_at(s, data, pos, depth),
        SpecValue::Array(a) => lemma_array_rt(a, data, pos, depth),
        SpecValue::Object(m) => lemma_object_rt(m, data, pos, depth),
        _ => lemma_simple_at(v, data, pos, depth),
    }
}

proof fn lemma_simple_at(v: SpecValue, data: Seq<u8>, pos: nat, depth: nat)
    requires
        v is Null || v is Bool,
        spec_encode(v) is Ok,
        placed(data, pos, spec_encode(v)->Ok_0),
    ensures
        spec_value(data, pos, depth, spec_default_config()) == doc_ok(
            spec_canonical(v),
            pos + spec_encode(v)->Ok_0.len(),
            depth,
        ),
{
    reveal(spec_decode_at);
    let enc = spec_encode(v)->Ok_0;
    assert(data[pos as int] == enc[0]) by {
        assert(data.subrange(pos as int, (pos + enc.len()) as int)[0] == data[pos as int]);
    }
}

/// Decoding an array's encoding gives its canonical form.
#[verifier::spinoff_prover]
#[verifier::rlimit(100)]
proof fn lemma_array_rt(a: Seq<SpecValue>, data: Seq<u8>, pos: nat, depth: nat)
    requires
        spec_wf(SpecValue::Array(a)),
        spec_roundtrip_ok(SpecValue::Array(a), depth),
        spec_encode(SpecValue::Array(a)) is Ok,
        placed(data, pos, spec_encode(SpecValue::Array(a))->Ok_0),
    ensures
        spec_value(data, pos, depth, spec_default_config()) == doc_ok(
            spec_canonical(SpecValue::Array(a)),
            pos + spec_encode(SpecValue::Array(a))->Ok_0.len(),
            depth,
        ),
    decreases a, a.len() + 1,
{
    reveal(spec_decode_at);
    let v = SpecValue::Array(a);
    let enc = spec_encode(v)->Ok_0;
    let items = spec_encode_items(a)->Ok_0;
    assert(enc == seq![type_code::ARRAY] + (items + seq![type_code::CONTAINER_END]));
    lemma_subrange_parts(data, pos, seq![type_code::ARRAY], items + seq![type_code::CONTAINER_END]);
    assert(data[pos as int] == type_code::ARRAY) by {
        assert(data.subrange(pos as int, pos + 1int)[0] == data[pos as int]);
    }
    assert(a.skip(0) =~= a);
    assert(canonical_items(a.take(0)) =~= Seq::<SpecValue>::empty());
    lemma_items_rt(a, 0, data, pos + 1, depth + 1);
    lemma_canonical_containers(v);
}

/// Decoding an object's encoding gives its canonical form.
#[verifier::spinoff_prover]
#[verifier::rlimit(100)]
proof fn lemma_object_rt(m: Seq<(Seq<char>, SpecValue)>, data: Seq<u8>, pos: nat, depth: nat)
    requires
        spec_wf(SpecValue::Object(m)),
        spec_roundtrip_ok(SpecValue::Object(m), depth),
        spec_encode(SpecValue::Object(m)) is Ok,
        placed(data, pos, spec_encode(SpecValue::Object(m))->Ok_0),
    ensures
        spec_value(data, pos, depth, spec_default_config()) == doc_ok(
            spec_canonical(SpecValue::Object(m)),
            pos + spec_encode(SpecValue::Object(m))->Ok_0.len(),
            depth,
        ),
    decreases m, m.len() + 1,
{
    reveal(spec_decode_at);
    let v = SpecValue::Object(m);
    let enc = spec_encode(v)->Ok_0;
    let pairs = spec_encode_pairs(m)->Ok_0;
    assert(enc == seq![type_code::OBJECT] + (pairs + seq![type_code::CONTAINER_END]));
    lemma_subrange_parts(data, pos, seq![type_code::OBJECT], pairs + seq![type_code::CONTAINER_END]);
    assert(data[pos as int] == type_code::OBJECT) by {
        assert(data.subrange(pos as int, pos + 1int)[0] == data[pos as int]);
    }
    assert(m.skip(0) =~= m);
    assert(canonical_pairs(m.take(0)) =~= Seq::<(Seq<char>, SpecValue)>::empty());
    assert forall|j: int| 0 <= j < m.len() implies spec_wf(#[trigger] m[j].1) && string_ok(m[j].0)
        && spec_roundtrip_ok(m[j].1, depth + 1) by {}
    lemma_pairs_rt(m, 0, data, pos + 1, depth + 1);
    lemma_canonical_containers(v);
}

/// Decoding the encodings of the elements from `i` on, then the end marker,
/// after the canonical forms of the elements before `i`, gives the array of
/// all the canonical forms.
proof fn lemma_items_rt(a: Seq<SpecValue>, i: int, data: Seq<u8>, q: nat, depth: nat)
    requires
        0 <= i <= a.len(),
        depth >= 1,
        a.len() <= limits::MAX_CONTAINER_SIZE,
        forall|j: int| 0 <= j < a.len() ==> spec_wf(#[trigger] a[j]) && spec_roundtrip_ok(a[j], depth),
        spec_encode_items(a.skip(i)) is Ok,
        placed(data, q, spec_encode_items(a.skip(i))->Ok_0 + seq![type_code::CONTAINER_END]),
    ensures
        spec_items_doc(data, q, depth, spec_default_config(), canonical_items(a.take(i))) == doc_ok(
            SpecValue::Array(canonical_items(a)),
            q + spec_encode_items(a.skip(i))->Ok_0.len() + 1,
            (depth - 1) as nat,
        ),
    decreases a, a.len() - i,
{
    let cfg = spec_default_config();
    let rest = a.skip(i);
    let items = spec_encode_items(rest)->Ok_0;
    lemma_subrange_parts(data, q, items, seq![type_code::CONTAINER_END]);
    if i == a.len() {
        assert(rest =~= Seq::<SpecValue>::empty());
        assert(items =~= Seq::<u8>::empty());
        assert(a.take(i) =~= a);
        assert(data[q as int] == type_code::CONTAINER_END) by {
            assert(data.subrange(q as int, q + 1int)[0] == data[q as int]);
        }
    } else {
        lemma_items_front(rest);
        assert(rest[0] == a[i]);
        assert(rest.drop_first() =~= a.skip(i + 1));
        let e0 = spec_encode(a[i])->Ok_0;
        let tail = spec_encode_items(a.skip(i + 1))->Ok_0;
        assert(items == e0 + tail);
        assert(items + seq![type_code::CONTAINER_END] =~= e0 + (tail + seq![
            type_code::CONTAINER_END,
        ]));
        lemma_subrange_parts(data, q, e0, tail + seq![type_code::CONTAINER_END]);
        lemma_first_byte(a[i]);
        assert(data[q as int] == e0[0]) by {
            assert(data.subrange(q as int, (q + e0.len()) as int)[0] == data[q as int]);
        }
        assert(decreases_to!(a => a[i]));
        lemma_value_rt(a[i], data, q, depth);
        lemma_items_rt(a, i + 1, data, q + e0.len(), depth);
        assert(canonical_items(a.take(i)).push(spec_canonical(a[i])) =~= canonical_items(
            a.take(i + 1),
        ));
    }
}

/// Decoding the encodings of the pairs from `i` on, then the end marker,
/// after the pairs before `i`, gives the object of all the pairs with
/// canonical values; sorted keys are stored in order, none twice.
proof fn lemma_pairs_rt(
    m: Seq<(Seq<char>, SpecValue)>,
    i: int,
    data: Seq<u8>,
    q: nat,
    depth: nat,
)
    requires
        0 <= i <= m.len(),
        depth >= 1,
        m.len() <= limits::MAX_CONTAINER_SIZE,
        keys_sorted(m),
        forall|j: int|
            0 <= j < m.len() ==> spec_wf(#[trigger] m[j].1) && string_ok(m[j].0) && spec_roundtrip_ok(
                m[j].1,
                depth,
            ),
        spec_encode_pairs(m.skip(i)) is Ok,
        placed(data, q, spec_encode_pairs(m.skip(i))->Ok_0 + seq![type_code::CONTAINER_END]),
    ensures
        spec_pairs_doc(
            data,
            q,
            depth,
            spec_default_config(),
            canonical_pairs(m.take(i)),
            i as nat,
        ) == doc_ok(
            SpecValue::Object(canonical_pairs(m)),
            q + spec_encode_pairs(m.skip(i))->Ok_0.len() + 1,
            (depth - 1) as nat,
        ),
    decreases m, m.len() - i,
{
    let cfg = spec_default_config();
    let rest = m.skip(i);
    let pairs = spec_encode_pairs(rest)->Ok_0;
    lemma_subrange_parts(data, q, pairs, seq![type_code::CONTAINER_END]);
    if i == m.len() {
        assert(rest =~= Seq::<(Seq<char>, SpecValue)>::empty());
        assert(pairs =~= Seq::<u8>::empty());
        assert(m.take(i) =~= m);
        assert(data[q as int] == type_code::CONTAINER_END) by {
            assert(data.subrange(q as int, q + 1int)[0] == data[q as int]);
        }
    } else {
        lemma_pairs_front(rest);
        assert(rest[0] == m[i]);
        assert(rest.drop_first() =~= m.skip(i + 1));
        let k = m[i].0;
        let ke = spec_str_encoding(encode_utf8(k));
        let e0 = spec_encode(m[i].1)->Ok_0;
        let tail = spec_encode_pairs(m.skip(i + 1))->Ok_0;
        assert(pairs == ke + e0 + tail);
        assert(pairs + seq![type_code::CONTAINER_END] =~= ke + (e0 + (tail + seq![
            type_code::CONTAINER_END,
        ])));
        lemma_subrange_parts(data, q, ke, e0 + (tail + seq![type_code::CONTAINER_END]));
        lemma_subrange_parts(data, q + ke.len(), e0, tail + seq![type_code::CONTAINER_END]);
        assert(data[q as int] == ke[0]) by {
            assert(data.subrange(q as int, (q + ke.len()) as int)[0] == data[q as int]);
        }
        lemma_first_byte(SpecValue::Str(k));
        lemma_str_at(k, data, q, depth);
        assert(decreases_to!(m => m[i]));
        assert(decreases_to!(m[i] => m[i].1));
        lemma_value_rt(m[i].1, data, q + ke.len(), depth);
        let acc = canonical_pairs(m.take(i));
        assert forall|j: int| 0 <= j < acc.len() implies key_lt_at(acc, j, k) by {
            assert(acc[j].0 == m[j].0);
        }
        assert forall|j: int| 0 <= j < acc.len() implies #[trigger] acc[j].0 != k by {
            assert(key_lt_at(acc, j, k));
            lemma_key_order(k, k, k);
        }
        lemma_get_absent(acc, k);
        lemma_lower_bound_all(acc, k);
        let v = spec_canonical(m[i].1);
        assert(spec_insert(acc, k, v) =~= acc.push((k, v)));
        assert(acc.push((k, v)) =~= canonical_pairs(m.take(i + 1)));
        lemma_pairs_rt(m, i + 1, data, q + ke.len() + e0.len(), depth);
    }
}

/// The key at `j` comes before `k`.
spec fn key_lt_at(m: Seq<(Seq<char>, SpecValue)>, j: int, k: Seq<char>) -> bool {
    crate::value::key_lt(m[j].0, k)
}

proof fn lemma_lower_bound_all(m: Seq<(Seq<char>, SpecValue)>, k: Seq<char>)
    requires
        forall|j: int| 0 <= j < m.len() ==> key_lt_at(m, j, k),
    ensures
        lower_bound(m, k) == m.len(),
    decreases m.len(),
{
    if m.len() > 0 {
        assert(key_lt_at(m, 0, k));
        let t = m.drop_first();
        assert forall|j: int| 0 <= j < t.len() implies key_lt_at(t, j, k) by {
            assert(key_lt_at(m, j + 1, k));
            assert(t[j] == m[j + 1]);
        }
        lemma_lower_bound_all(t, k);
    }
}

// ---------------------------------------------------------------------------
// The law.
// ---------------------------------------------------------------------------

/// Encoding then decoding gives the value back: every value whose objects
/// have sorted, distinct keys and that lies within the default limits
/// encodes without error, and the default decoder reads its encoding back
/// as its canonical form (the value itself, but for integers that come back
/// signed or unsigned as their encoding says, whole floats that come back as
/// integers, and zero big numbers that come back positive).
pub proof fn lemma_encode_decode_roundtrip(v: SpecValue)
    requires
        spec_wf(v),
        spec_roundtrip_ok(v, 0),
        spec_encode(v) matches Ok(b) ==> b.len() <= limits::MAX_DOCUMENT_SIZE,
    ensures
        spec_encode(v) matches Ok(b) && spec_decode_document(b, spec_default_config()) == Ok::<
            SpecValue,
            crate::error::SpecError,
        >(spec_canonical(v)),
{
    lemma_encode_ok(v, 0);
    let b = spec_encode(v)->Ok_0;
    assert(b.subrange(0, b.len() as int) =~= b);
    lemma_value_rt(v, b, 0, 0);
}

} // verus!
