//! Whole documents: a `Value` encoded to bytes, and bytes decoded to a `Value`.
use crate::decoder::{
    lemma_decode_at_advances, res_view, spec_decode_at, spec_default_config, unsigned_abs,
    DecodedValue, Decoder, DecoderConfig, DuplicateKeyMode, NanInfinityMode, OutOfRangeMode,
    Token, UnicodeNormalization,
};
use crate::encoder::{
    required_unsigned_bytes_min1, spec_bignumber_encoding, spec_expecting_key, spec_f64_encoding,
    spec_int_encoding, spec_min_bytes_unsigned, spec_str_encoding, spec_toggled, spec_uint_encoding,
    Encoder,
};
use crate::error::{hex_digit, hex_digit_str, Error, Result, SpecError};
use crate::floatbits::{f64_is_nan, f64_sign, spec_f64_is_infinite, spec_f64_is_nan};
use crate::text::{nfc_normalize, spec_nfc};
use crate::types::{pow10, type_code, BigNumber};
use crate::value::{
    keys_sorted, lemma_insert_sorted, lemma_lower_bound_sorted, lemma_view_array, lemma_view_object,
    lower_bound, object_contains_key, object_insert, spec_get, spec_insert, spec_wf, view_entries,
    view_values, SpecValue, Value,
};
use vstd::prelude::*;
use vstd::utf8::encode_utf8;

verus! {

/// The bytes that encode a value, or the first error met: a NaN or an
/// infinite float. Containers are delimited, object keys come in the
/// object's order.
pub open spec fn spec_encode(v: SpecValue) -> core::result::Result<Seq<u8>, SpecError>
    decreases v,
{
    match v {
        SpecValue::Null => Ok(seq![type_code::NULL]),
        SpecValue::Bool(b) => Ok(
            seq![
                if b {
                    type_code::TRUE
                } else {
                    type_code::FALSE
                },
            ],
        ),
        SpecValue::Int(n) => Ok(spec_int_encoding(n)),
        SpecValue::UInt(n) => Ok(spec_uint_encoding(n)),
        SpecValue::Float(b) => spec_f64_encoding(b),
        SpecValue::BigNumber(bn) => Ok(spec_bignumber_encoding(bn)),
        SpecValue::Str(s) => Ok(spec_str_encoding(encode_utf8(s))),
        SpecValue::Array(a) => match spec_encode_items(a) {
            Ok(b) => Ok(seq![type_code::ARRAY] + b + seq![type_code::CONTAINER_END]),
            Err(e) => Err(e),
        },
        SpecValue::Object(m) => match spec_encode_pairs(m) {
            Ok(b) => Ok(seq![type_code::OBJECT] + b + seq![type_code::CONTAINER_END]),
            Err(e) => Err(e),
        },
    }
}

/// The encodings of array elements, one after the other, or the first error.
pub open spec fn spec_encode_items(a: Seq<SpecValue>) -> core::result::Result<Seq<u8>, SpecError>
    decreases a,
{
    if a.len() == 0 {
        Ok(Seq::empty())
    } else {
        match spec_encode_items(a.subrange(0, a.len() - 1)) {
            Err(e) => Err(e),
            Ok(p) => match spec_encode(a[a.len() - 1]) {
                Err(e) => Err(e),
                Ok(b) => Ok(p + b),
            },
        }
    }
}

/// The encodings of object pairs (the key as a string, then the value), one
/// after the other, or the first error.
pub open spec fn spec_encode_pairs(m: Seq<(Seq<char>, SpecValue)>) -> core::result::Result<
    Seq<u8>,
    SpecError,
>
    decreases m,
{
    if m.len() == 0 {
        Ok(Seq::empty())
    } else {
        match spec_encode_pairs(m.subrange(0, m.len() - 1)) {
            Err(e) => Err(e),
            Ok(p) => match spec_encode(m[m.len() - 1].1) {
                Err(e) => Err(e),
                Ok(b) => Ok(p + spec_str_encoding(encode_utf8(m[m.len() - 1].0)) + b),
            },
        }
    }
}

proof fn lemma_items_err_extends(a: Seq<SpecValue>, k: int)
    requires
        0 <= k <= a.len(),
        spec_encode_items(a.subrange(0, k)) is Err,
    ensures
        spec_encode_items(a) == spec_encode_items(a.subrange(0, k)),
    decreases a.len() - k,
{
    if k < a.len() {
        let b = a.subrange(0, k + 1);
        assert(b.subrange(0, b.len() - 1) =~= a.subrange(0, k));
        lemma_items_err_extends(a, k + 1);
    } else {
        assert(a.subrange(0, k) =~= a);
    }
}

proof fn lemma_pairs_err_extends(m: Seq<(Seq<char>, SpecValue)>, k: int)
    requires
        0 <= k <= m.len(),
        spec_encode_pairs(m.subrange(0, k)) is Err,
    ensures
        spec_encode_pairs(m) == spec_encode_pairs(m.subrange(0, k)),
    decreases m.len() - k,
{
    if k < m.len() {
        let b = m.subrange(0, k + 1);
        assert(b.subrange(0, b.len() - 1) =~= m.subrange(0, k));
        lemma_pairs_err_extends(m, k + 1);
    } else {
        assert(m.subrange(0, k) =~= m);
    }
}

/// Encode a value where a value is expected.
fn encode_value_recursive(encoder: &mut Encoder, value: &Value) -> (r: Result<()>)
    requires
        !spec_expecting_key(old(encoder).open_containers()),
    ensures
        match spec_encode(value@) {
            Ok(b) => r is Ok && final(encoder).written() == old(encoder).written() + b
                && final(encoder).open_containers() == spec_toggled(
                old(encoder).open_containers(),
            ),
            Err(e) => r matches Err(x) && x@ == e,
        },
    decreases value,
{
    match value {
        Value::Null => encoder.write_null(),
        Value::Bool(b) => encoder.write_bool(*b),
        Value::Int(n) => encoder.write_i64(*n),
        Value::UInt(n) => encoder.write_u64(*n),
        Value::Float(f) => encoder.write_f64_bits(*f),
        Value::BigNumber(bn) => encoder.write_big_number(*bn),
        Value::String(s) => encoder.write_str(s.as_str()),
        Value::Array(arr) => {
            proof {
                lemma_view_array(*arr);
            }
            let ghost items = view_values(arr@);
            let ghost start = encoder.written();
            let ghost stack = encoder.open_containers();
            encoder.begin_array()?;
            let mut i: usize = 0;
            assert(items.subrange(0, 0) =~= Seq::<SpecValue>::empty());
            while i < arr.len()
                invariant
                    i <= arr@.len(),
                    items == view_values(arr@),
                    value@ == SpecValue::Array(items),
                    *value == Value::Array(*arr),
                    encoder.open_containers() == stack.push((false, false)),
                    spec_encode_items(items.subrange(0, i as int)) matches Ok(b)
                        && encoder.written() == start.push(type_code::ARRAY) + b,
                decreases arr@.len() - i,
            {
                proof {
                    assert(decreases_to!(*value => *arr));
                    assert(decreases_to!(*arr => arr@));
                    assert(decreases_to!(arr@ => arr@[i as int]));
                }
                let res = encode_value_recursive(encoder, &arr[i]);
                proof {
                    let s = items.subrange(0, i + 1);
                    assert(s.subrange(0, s.len() - 1) =~= items.subrange(0, i as int));
                    assert(s[s.len() - 1] == arr@[i as int]@);
                }
                if let Err(e) = res {
                    proof {
                        lemma_items_err_extends(items, i + 1);
                    }
                    return Err(e);
                }
                proof {
                    let s = items.subrange(0, i + 1);
                    assert(s.subrange(0, s.len() - 1) =~= items.subrange(0, i as int));
                    assert(s[s.len() - 1] == arr@[i as int]@);
                    assert(encoder.open_containers() =~= stack.push((false, false)));
                }
                i += 1;
            }
            proof {
                assert(items.subrange(0, i as int) =~= items);
            }
            let r = encoder.end_container();
            proof {
                assert(encoder.written() =~= start + spec_encode(value@)->Ok_0);
            }
            r
        },
        Value::Object(map) => {
            proof {
                lemma_view_object(*map);
            }
            let ghost pairs = view_entries(map@);
            let ghost start = encoder.written();
            let ghost stack = encoder.open_containers();
            encoder.begin_object()?;
            let mut i: usize = 0;
            assert(pairs.subrange(0, 0) =~= Seq::<(Seq<char>, SpecValue)>::empty());
            while i < map.len()
                invariant
                    i <= map@.len(),
                    pairs == view_entries(map@),
                    value@ == SpecValue::Object(pairs),
                    *value == Value::Object(*map),
                    encoder.open_containers() == stack.push((true, true)),
                    spec_encode_pairs(pairs.subrange(0, i as int)) matches Ok(b)
                        && encoder.written() == start.push(type_code::OBJECT) + b,
                decreases map@.len() - i,
            {
                proof {
                    assert(decreases_to!(*value => *map));
                    assert(decreases_to!(*map => map@));
                    assert(decreases_to!(map@ => map@[i as int]));
                    assert(decreases_to!(map@[i as int] => map@[i as int].1));
                }
                let (key, val) = &map[i];
                encoder.write_str(key.as_str())?;
                let res = encode_value_recursive(encoder, val);
                proof {
                    let s = pairs.subrange(0, i + 1);
                    assert(s.subrange(0, s.len() - 1) =~= pairs.subrange(0, i as int));
                    assert(s[s.len() - 1] == (map@[i as int].0@, map@[i as int].1@));
                }
                if let Err(e) = res {
                    proof {
                        lemma_pairs_err_extends(pairs, i + 1);
                    }
                    return Err(e);
                }
                proof {
                    let s = pairs.subrange(0, i + 1);
                    assert(s.subrange(0, s.len() - 1) =~= pairs.subrange(0, i as int));
                    assert(s[s.len() - 1] == (map@[i as int].0@, map@[i as int].1@));
                    assert(encoder.open_containers() =~= stack.push((true, true)));
                }
                i += 1;
            }
            proof {
                assert(pairs.subrange(0, i as int) =~= pairs);
            }
            let r = encoder.end_container();
            proof {
                assert(encoder.written() =~= start + spec_encode(value@)->Ok_0);
            }
            r
        },
    }
}

/// Encode a `Value` to BONJSON bytes.
pub fn encode_value(value: &Value) -> (r: Result<Vec<u8>>)
    ensures
        match spec_encode(value@) {
            Ok(b) => r matches Ok(v) && v@ == b,
            Err(e) => r matches Err(x) && x@ == e,
        },
{
    let mut encoder = Encoder::new(Vec::new());
    encode_value_recursive(&mut encoder, value)?;
    proof {
        assert(spec_toggled(Seq::<(bool, bool)>::empty()) == Seq::<(bool, bool)>::empty());
    }
    encoder.finish()
}

/// 2^1024 - 2^970: the smallest magnitude that rounding to binary64 turns into infinity.
pub open spec fn spec_f64_overflow() -> nat {
    179769313486231580793728971405303415079934132710037826936173778980444968292764750946649017977587207096330286416692887910946555547851940402630657488671505820681908902000708383676273854845817711531764475730270069855571366959622842914819860834936475292719074168444365510704342711559699508093042880177904174497792nat
}

/// The big number is too large for a finite binary64: its magnitude rounds to infinity.
pub open spec fn spec_exceeds_f64(bn: BigNumber) -> bool {
    bn.exponent >= 0 && bn.significand * pow10(bn.exponent as nat) >= spec_f64_overflow()
}

proof fn lemma_pow10_adds(a: nat, b: nat)
    ensures
        pow10(a + b) == pow10(a) * pow10(b),
    decreases b,
{
    if b == 0 {
        assert(pow10(0) == 1);
        assert(a + b == a);
    } else {
        let c = (b - 1) as nat;
        lemma_pow10_adds(a, c);
        assert(a + b == (a + c) + 1);
        assert(pow10(a + b) == 10 * pow10(a + c));
        assert(pow10(b) == 10 * pow10(c));
        let x = pow10(a);
        let y = pow10(c);
        assert(x * (10 * y) == 10 * (x * y)) by (nonlinear_arith);
    }
}

proof fn lemma_pow10_289()
    ensures
        pow10(289) == 10000000000000000000000000000000000000000000000000000000000000000000000000000000000000000000000000000000000000000000000000000000000000000000000000000000000000000000000000000000000000000000000000000000000000000000000000000000000000000000000000000000000000000000000000000000000000000000000000nat,
{
    assert(pow10(8) == 100000000) by {
        reveal_with_fuel(pow10, 9);
    }
    assert(pow10(1) == 10) by {
        reveal_with_fuel(pow10, 2);
    }
    lemma_pow10_adds(8, 8);
    assert(pow10(16) == 10000000000000000nat);
    lemma_pow10_adds(16, 16);
    assert(pow10(32) == 100000000000000000000000000000000nat);
    lemma_pow10_adds(32, 32);
    assert(pow10(64) == 10000000000000000000000000000000000000000000000000000000000000000nat);
    lemma_pow10_adds(64, 64);
    assert(pow10(128) == 100000000000000000000000000000000000000000000000000000000000000000000000000000000000000000000000000000000000000000000000000000000nat);
    lemma_pow10_adds(128, 128);
    assert(pow10(256) == 10000000000000000000000000000000000000000000000000000000000000000000000000000000000000000000000000000000000000000000000000000000000000000000000000000000000000000000000000000000000000000000000000000000000000000000000000000000000000000000000000000000000000000nat);
    lemma_pow10_adds(256, 32);
    assert(pow10(288) == 1000000000000000000000000000000000000000000000000000000000000000000000000000000000000000000000000000000000000000000000000000000000000000000000000000000000000000000000000000000000000000000000000000000000000000000000000000000000000000000000000000000000000000000000000000000000000000000000000nat);
    lemma_pow10_adds(288, 1);
}

/// The least significand that, times `10^e`, reaches the binary64 overflow.
#[verifier::rlimit(50)]
fn f64_overflow_significand(e: i64) -> (r: u64)
    requires
        289 <= e <= 308,
    ensures
        r * pow10(e as nat) >= spec_f64_overflow(),
        r > 0 ==> (r - 1) * pow10(e as nat) < spec_f64_overflow(),
{
    proof {
        lemma_pow10_289();
        lemma_pow10_adds(289, (e - 289) as nat);
        reveal_with_fuel(pow10, 20);
    }
    if e == 289 {
        assert(pow10(289) == 10000000000000000000000000000000000000000000000000000000000000000000000000000000000000000000000000000000000000000000000000000000000000000000000000000000000000000000000000000000000000000000000000000000000000000000000000000000000000000000000000000000000000000000000000000000000000000000000000nat);
        assert(17976931348623158080nat * 10000000000000000000000000000000000000000000000000000000000000000000000000000000000000000000000000000000000000000000000000000000000000000000000000000000000000000000000000000000000000000000000000000000000000000000000000000000000000000000000000000000000000000000000000000000000000000000000000nat >= spec_f64_overflow());
        assert(17976931348623158079nat * 10000000000000000000000000000000000000000000000000000000000000000000000000000000000000000000000000000000000000000000000000000000000000000000000000000000000000000000000000000000000000000000000000000000000000000000000000000000000000000000000000000000000000000000000000000000000000000000000000nat < spec_f64_overflow());
        17976931348623158080u64
    } else if e == 290 {
        assert(pow10(290) == 100000000000000000000000000000000000000000000000000000000000000000000000000000000000000000000000000000000000000000000000000000000000000000000000000000000000000000000000000000000000000000000000000000000000000000000000000000000000000000000000000000000000000000000000000000000000000000000000000nat);
        assert(1797693134862315808nat * 100000000000000000000000000000000000000000000000000000000000000000000000000000000000000000000000000000000000000000000000000000000000000000000000000000000000000000000000000000000000000000000000000000000000000000000000000000000000000000000000000000000000000000000000000000000000000000000000000nat >= spec_f64_overflow());
        assert(1797693134862315807nat * 100000000000000000000000000000000000000000000000000000000000000000000000000000000000000000000000000000000000000000000000000000000000000000000000000000000000000000000000000000000000000000000000000000000000000000000000000000000000000000000000000000000000000000000000000000000000000000000000000nat < spec_f64_overflow());
        1797693134862315808u64
    } else if e == 291 {
        assert(pow10(291) == 1000000000000000000000000000000000000000000000000000000000000000000000000000000000000000000000000000000000000000000000000000000000000000000000000000000000000000000000000000000000000000000000000000000000000000000000000000000000000000000000000000000000000000000000000000000000000000000000000000nat);
        assert(179769313486231581nat * 1000000000000000000000000000000000000000000000000000000000000000000000000000000000000000000000000000000000000000000000000000000000000000000000000000000000000000000000000000000000000000000000000000000000000000000000000000000000000000000000000000000000000000000000000000000000000000000000000000nat >= spec_f64_overflow());
        assert(179769313486231580nat * 1000000000000000000000000000000000000000000000000000000000000000000000000000000000000000000000000000000000000000000000000000000000000000000000000000000000000000000000000000000000000000000000000000000000000000000000000000000000000000000000000000000000000000000000000000000000000000000000000000nat < spec_f64_overflow());
        179769313486231581u64
    } else if e == 292 {
        assert(pow10(292) == 10000000000000000000000000000000000000000000000000000000000000000000000000000000000000000000000000000000000000000000000000000000000000000000000000000000000000000000000000000000000000000000000000000000000000000000000000000000000000000000000000000000000000000000000000000000000000000000000000000nat);
        assert(17976931348623159nat * 10000000000000000000000000000000000000000000000000000000000000000000000000000000000000000000000000000000000000000000000000000000000000000000000000000000000000000000000000000000000000000000000000000000000000000000000000000000000000000000000000000000000000000000000000000000000000000000000000000nat >= spec_f64_overflow());
        assert(17976931348623158nat * 10000000000000000000000000000000000000000000000000000000000000000000000000000000000000000000000000000000000000000000000000000000000000000000000000000000000000000000000000000000000000000000000000000000000000000000000000000000000000000000000000000000000000000000000000000000000000000000000000000nat < spec_f64_overflow());
        17976931348623159u64
    } else if e == 293 {
        assert(pow10(293) == 100000000000000000000000000000000000000000000000000000000000000000000000000000000000000000000000000000000000000000000000000000000000000000000000000000000000000000000000000000000000000000000000000000000000000000000000000000000000000000000000000000000000000000000000000000000000000000000000000000nat);
        assert(1797693134862316nat * 100000000000000000000000000000000000000000000000000000000000000000000000000000000000000000000000000000000000000000000000000000000000000000000000000000000000000000000000000000000000000000000000000000000000000000000000000000000000000000000000000000000000000000000000000000000000000000000000000000nat >= spec_f64_overflow());
        assert(1797693134862315nat * 100000000000000000000000000000000000000000000000000000000000000000000000000000000000000000000000000000000000000000000000000000000000000000000000000000000000000000000000000000000000000000000000000000000000000000000000000000000000000000000000000000000000000000000000000000000000000000000000000000nat < spec_f64_overflow());
        1797693134862316u64
    } else if e == 294 {
        assert(pow10(294) == 1000000000000000000000000000000000000000000000000000000000000000000000000000000000000000000000000000000000000000000000000000000000000000000000000000000000000000000000000000000000000000000000000000000000000000000000000000000000000000000000000000000000000000000000000000000000000000000000000000000nat);
        assert(179769313486232nat * 1000000000000000000000000000000000000000000000000000000000000000000000000000000000000000000000000000000000000000000000000000000000000000000000000000000000000000000000000000000000000000000000000000000000000000000000000000000000000000000000000000000000000000000000000000000000000000000000000000000nat >= spec_f64_overflow());
        assert(179769313486231nat * 1000000000000000000000000000000000000000000000000000000000000000000000000000000000000000000000000000000000000000000000000000000000000000000000000000000000000000000000000000000000000000000000000000000000000000000000000000000000000000000000000000000000000000000000000000000000000000000000000000000nat < spec_f64_overflow());
        179769313486232u64
    } else if e == 295 {
        assert(pow10(295) == 10000000000000000000000000000000000000000000000000000000000000000000000000000000000000000000000000000000000000000000000000000000000000000000000000000000000000000000000000000000000000000000000000000000000000000000000000000000000000000000000000000000000000000000000000000000000000000000000000000000nat);
        assert(17976931348624nat * 10000000000000000000000000000000000000000000000000000000000000000000000000000000000000000000000000000000000000000000000000000000000000000000000000000000000000000000000000000000000000000000000000000000000000000000000000000000000000000000000000000000000000000000000000000000000000000000000000000000nat >= spec_f64_overflow());
        assert(17976931348623nat * 10000000000000000000000000000000000000000000000000000000000000000000000000000000000000000000000000000000000000000000000000000000000000000000000000000000000000000000000000000000000000000000000000000000000000000000000000000000000000000000000000000000000000000000000000000000000000000000000000000000nat < spec_f64_overflow());
        17976931348624u64
    } else if e == 296 {
        assert(pow10(296) == 100000000000000000000000000000000000000000000000000000000000000000000000000000000000000000000000000000000000000000000000000000000000000000000000000000000000000000000000000000000000000000000000000000000000000000000000000000000000000000000000000000000000000000000000000000000000000000000000000000000nat);
        assert(1797693134863nat * 100000000000000000000000000000000000000000000000000000000000000000000000000000000000000000000000000000000000000000000000000000000000000000000000000000000000000000000000000000000000000000000000000000000000000000000000000000000000000000000000000000000000000000000000000000000000000000000000000000000nat >= spec_f64_overflow());
        assert(1797693134862nat * 100000000000000000000000000000000000000000000000000000000000000000000000000000000000000000000000000000000000000000000000000000000000000000000000000000000000000000000000000000000000000000000000000000000000000000000000000000000000000000000000000000000000000000000000000000000000000000000000000000000nat < spec_f64_overflow());
        1797693134863u64
    } else if e == 297 {
        assert(pow10(297) == 1000000000000000000000000000000000000000000000000000000000000000000000000000000000000000000000000000000000000000000000000000000000000000000000000000000000000000000000000000000000000000000000000000000000000000000000000000000000000000000000000000000000000000000000000000000000000000000000000000000000nat);
        assert(179769313487nat * 1000000000000000000000000000000000000000000000000000000000000000000000000000000000000000000000000000000000000000000000000000000000000000000000000000000000000000000000000000000000000000000000000000000000000000000000000000000000000000000000000000000000000000000000000000000000000000000000000000000000nat >= spec_f64_overflow());
        assert(179769313486nat * 1000000000000000000000000000000000000000000000000000000000000000000000000000000000000000000000000000000000000000000000000000000000000000000000000000000000000000000000000000000000000000000000000000000000000000000000000000000000000000000000000000000000000000000000000000000000000000000000000000000000nat < spec_f64_overflow());
        179769313487u64
    } else if e == 298 {
        assert(pow10(298) == 10000000000000000000000000000000000000000000000000000000000000000000000000000000000000000000000000000000000000000000000000000000000000000000000000000000000000000000000000000000000000000000000000000000000000000000000000000000000000000000000000000000000000000000000000000000000000000000000000000000000nat);
        assert(17976931349nat * 10000000000000000000000000000000000000000000000000000000000000000000000000000000000000000000000000000000000000000000000000000000000000000000000000000000000000000000000000000000000000000000000000000000000000000000000000000000000000000000000000000000000000000000000000000000000000000000000000000000000nat >= spec_f64_overflow());
        assert(17976931348nat * 10000000000000000000000000000000000000000000000000000000000000000000000000000000000000000000000000000000000000000000000000000000000000000000000000000000000000000000000000000000000000000000000000000000000000000000000000000000000000000000000000000000000000000000000000000000000000000000000000000000000nat < spec_f64_overflow());
        17976931349u64
    } else if e == 299 {
        assert(pow10(299) == 100000000000000000000000000000000000000000000000000000000000000000000000000000000000000000000000000000000000000000000000000000000000000000000000000000000000000000000000000000000000000000000000000000000000000000000000000000000000000000000000000000000000000000000000000000000000000000000000000000000000nat);
        assert(1797693135nat * 100000000000000000000000000000000000000000000000000000000000000000000000000000000000000000000000000000000000000000000000000000000000000000000000000000000000000000000000000000000000000000000000000000000000000000000000000000000000000000000000000000000000000000000000000000000000000000000000000000000000nat >= spec_f64_overflow());
        assert(1797693134nat * 100000000000000000000000000000000000000000000000000000000000000000000000000000000000000000000000000000000000000000000000000000000000000000000000000000000000000000000000000000000000000000000000000000000000000000000000000000000000000000000000000000000000000000000000000000000000000000000000000000000000nat < spec_f64_overflow());
        1797693135u64
    } else if e == 300 {
        assert(pow10(300) == 1000000000000000000000000000000000000000000000000000000000000000000000000000000000000000000000000000000000000000000000000000000000000000000000000000000000000000000000000000000000000000000000000000000000000000000000000000000000000000000000000000000000000000000000000000000000000000000000000000000000000nat);
        assert(179769314nat * 1000000000000000000000000000000000000000000000000000000000000000000000000000000000000000000000000000000000000000000000000000000000000000000000000000000000000000000000000000000000000000000000000000000000000000000000000000000000000000000000000000000000000000000000000000000000000000000000000000000000000nat >= spec_f64_overflow());
        assert(179769313nat * 1000000000000000000000000000000000000000000000000000000000000000000000000000000000000000000000000000000000000000000000000000000000000000000000000000000000000000000000000000000000000000000000000000000000000000000000000000000000000000000000000000000000000000000000000000000000000000000000000000000000000nat < spec_f64_overflow());
        179769314u64
    } else if e == 301 {
        assert(pow10(301) == 10000000000000000000000000000000000000000000000000000000000000000000000000000000000000000000000000000000000000000000000000000000000000000000000000000000000000000000000000000000000000000000000000000000000000000000000000000000000000000000000000000000000000000000000000000000000000000000000000000000000000nat);
        assert(17976932nat * 10000000000000000000000000000000000000000000000000000000000000000000000000000000000000000000000000000000000000000000000000000000000000000000000000000000000000000000000000000000000000000000000000000000000000000000000000000000000000000000000000000000000000000000000000000000000000000000000000000000000000nat >= spec_f64_overflow());
        assert(17976931nat * 10000000000000000000000000000000000000000000000000000000000000000000000000000000000000000000000000000000000000000000000000000000000000000000000000000000000000000000000000000000000000000000000000000000000000000000000000000000000000000000000000000000000000000000000000000000000000000000000000000000000000nat < spec_f64_overflow());
        17976932u64
    } else if e == 302 {
        assert(pow10(302) == 100000000000000000000000000000000000000000000000000000000000000000000000000000000000000000000000000000000000000000000000000000000000000000000000000000000000000000000000000000000000000000000000000000000000000000000000000000000000000000000000000000000000000000000000000000000000000000000000000000000000000nat);
        assert(1797694nat * 100000000000000000000000000000000000000000000000000000000000000000000000000000000000000000000000000000000000000000000000000000000000000000000000000000000000000000000000000000000000000000000000000000000000000000000000000000000000000000000000000000000000000000000000000000000000000000000000000000000000000nat >= spec_f64_overflow());
        assert(1797693nat * 100000000000000000000000000000000000000000000000000000000000000000000000000000000000000000000000000000000000000000000000000000000000000000000000000000000000000000000000000000000000000000000000000000000000000000000000000000000000000000000000000000000000000000000000000000000000000000000000000000000000000nat < spec_f64_overflow());
        1797694u64
    } else if e == 303 {
        assert(pow10(303) == 1000000000000000000000000000000000000000000000000000000000000000000000000000000000000000000000000000000000000000000000000000000000000000000000000000000000000000000000000000000000000000000000000000000000000000000000000000000000000000000000000000000000000000000000000000000000000000000000000000000000000000nat);
        assert(179770nat * 1000000000000000000000000000000000000000000000000000000000000000000000000000000000000000000000000000000000000000000000000000000000000000000000000000000000000000000000000000000000000000000000000000000000000000000000000000000000000000000000000000000000000000000000000000000000000000000000000000000000000000nat >= spec_f64_overflow());
        assert(179769nat * 1000000000000000000000000000000000000000000000000000000000000000000000000000000000000000000000000000000000000000000000000000000000000000000000000000000000000000000000000000000000000000000000000000000000000000000000000000000000000000000000000000000000000000000000000000000000000000000000000000000000000000nat < spec_f64_overflow());
        179770u64
    } else if e == 304 {
        assert(pow10(304) == 10000000000000000000000000000000000000000000000000000000000000000000000000000000000000000000000000000000000000000000000000000000000000000000000000000000000000000000000000000000000000000000000000000000000000000000000000000000000000000000000000000000000000000000000000000000000000000000000000000000000000000nat);
        assert(17977nat * 10000000000000000000000000000000000000000000000000000000000000000000000000000000000000000000000000000000000000000000000000000000000000000000000000000000000000000000000000000000000000000000000000000000000000000000000000000000000000000000000000000000000000000000000000000000000000000000000000000000000000000nat >= spec_f64_overflow());
        assert(17976nat * 10000000000000000000000000000000000000000000000000000000000000000000000000000000000000000000000000000000000000000000000000000000000000000000000000000000000000000000000000000000000000000000000000000000000000000000000000000000000000000000000000000000000000000000000000000000000000000000000000000000000000000nat < spec_f64_overflow());
        17977u64
    } else if e == 305 {
        assert(pow10(305) == 100000000000000000000000000000000000000000000000000000000000000000000000000000000000000000000000000000000000000000000000000000000000000000000000000000000000000000000000000000000000000000000000000000000000000000000000000000000000000000000000000000000000000000000000000000000000000000000000000000000000000000nat);
        assert(1798nat * 100000000000000000000000000000000000000000000000000000000000000000000000000000000000000000000000000000000000000000000000000000000000000000000000000000000000000000000000000000000000000000000000000000000000000000000000000000000000000000000000000000000000000000000000000000000000000000000000000000000000000000nat >= spec_f64_overflow());
        assert(1797nat * 100000000000000000000000000000000000000000000000000000000000000000000000000000000000000000000000000000000000000000000000000000000000000000000000000000000000000000000000000000000000000000000000000000000000000000000000000000000000000000000000000000000000000000000000000000000000000000000000000000000000000000nat < spec_f64_overflow());
        1798u64
    } else if e == 306 {
        assert(pow10(306) == 1000000000000000000000000000000000000000000000000000000000000000000000000000000000000000000000000000000000000000000000000000000000000000000000000000000000000000000000000000000000000000000000000000000000000000000000000000000000000000000000000000000000000000000000000000000000000000000000000000000000000000000nat);
        assert(180nat * 1000000000000000000000000000000000000000000000000000000000000000000000000000000000000000000000000000000000000000000000000000000000000000000000000000000000000000000000000000000000000000000000000000000000000000000000000000000000000000000000000000000000000000000000000000000000000000000000000000000000000000000nat >= spec_f64_overflow());
        assert(179nat * 1000000000000000000000000000000000000000000000000000000000000000000000000000000000000000000000000000000000000000000000000000000000000000000000000000000000000000000000000000000000000000000000000000000000000000000000000000000000000000000000000000000000000000000000000000000000000000000000000000000000000000000nat < spec_f64_overflow());
        180u64
    } else if e == 307 {
        assert(pow10(307) == 10000000000000000000000000000000000000000000000000000000000000000000000000000000000000000000000000000000000000000000000000000000000000000000000000000000000000000000000000000000000000000000000000000000000000000000000000000000000000000000000000000000000000000000000000000000000000000000000000000000000000000000nat);
        assert(18nat * 10000000000000000000000000000000000000000000000000000000000000000000000000000000000000000000000000000000000000000000000000000000000000000000000000000000000000000000000000000000000000000000000000000000000000000000000000000000000000000000000000000000000000000000000000000000000000000000000000000000000000000000nat >= spec_f64_overflow());
        assert(17nat * 10000000000000000000000000000000000000000000000000000000000000000000000000000000000000000000000000000000000000000000000000000000000000000000000000000000000000000000000000000000000000000000000000000000000000000000000000000000000000000000000000000000000000000000000000000000000000000000000000000000000000000000nat < spec_f64_overflow());
        18u64
    } else {
        assert(pow10(308) == 100000000000000000000000000000000000000000000000000000000000000000000000000000000000000000000000000000000000000000000000000000000000000000000000000000000000000000000000000000000000000000000000000000000000000000000000000000000000000000000000000000000000000000000000000000000000000000000000000000000000000000000nat);
        assert(2nat * 100000000000000000000000000000000000000000000000000000000000000000000000000000000000000000000000000000000000000000000000000000000000000000000000000000000000000000000000000000000000000000000000000000000000000000000000000000000000000000000000000000000000000000000000000000000000000000000000000000000000000000000nat >= spec_f64_overflow());
        assert(1nat * 100000000000000000000000000000000000000000000000000000000000000000000000000000000000000000000000000000000000000000000000000000000000000000000000000000000000000000000000000000000000000000000000000000000000000000000000000000000000000000000000000000000000000000000000000000000000000000000000000000000000000000000nat < spec_f64_overflow());
        2u64
    }
}

/// Check if a BigNumber's value exceeds the representable range of f64.
fn bignumber_exceeds_f64_range(bn: &BigNumber) -> (r: bool)
    ensures
        r == spec_exceeds_f64(*bn),
{
    if bn.significand == 0 {
        return false;
    }
    let exp = bn.exponent;
    if exp > 308 {
        proof {
            lemma_pow10_289();
            lemma_pow10_adds(289, 20);
            assert(pow10(20) == 100000000000000000000nat) by {
                reveal_with_fuel(pow10, 21);
            }
            lemma_pow10_mono(309, exp as nat);
            assert(bn.significand * pow10(exp as nat) >= pow10(exp as nat)) by (nonlinear_arith)
                requires
                    bn.significand >= 1,
            ;
        }
        return true;
    }
    if exp < 289 {
        if exp >= 0 {
            proof {
                lemma_pow10_289();
                lemma_pow10_mono(exp as nat, 288);
                lemma_pow10_adds(288, 1);
                assert(pow10(1) == 10) by {
                    reveal_with_fuel(pow10, 2);
                }
                assert(bn.significand * pow10(exp as nat) <= 0xffff_ffff_ffff_ffff * pow10(288))
                    by (nonlinear_arith)
                    requires
                        pow10(exp as nat) <= pow10(288),
                ;
            }
        }
        return false;
    }
    let th = f64_overflow_significand(exp);
    proof {
        if bn.significand < th {
            assert(bn.significand * pow10(exp as nat) <= (th - 1) * pow10(exp as nat))
                by (nonlinear_arith)
                requires
                    bn.significand <= th - 1,
            ;
        } else {
            assert(bn.significand * pow10(exp as nat) >= th * pow10(exp as nat))
                by (nonlinear_arith)
                requires
                    bn.significand >= th,
            ;
        }
    }
    bn.significand >= th
}

proof fn lemma_pow10_mono(a: nat, b: nat)
    requires
        a <= b,
    ensures
        pow10(a) <= pow10(b),
    decreases b,
{
    if a < b {
        lemma_pow10_mono(a, (b - 1) as nat);
    }
}

// ---------------------------------------------------------------------------
// Decoding a document.
// ---------------------------------------------------------------------------

/// Decimal digits of a natural number.
pub open spec fn spec_decimal(n: nat) -> Seq<char>
    decreases n,
{
    if n < 10 {
        seq![hex_digit(n as u8)]
    } else {
        spec_decimal(n / 10) + seq![hex_digit((n % 10) as u8)]
    }
}

/// The text form of a big number: a minus sign when negative, the
/// significand, `e`, then the exponent, all in decimal.
pub open spec fn spec_bignumber_text(bn: BigNumber) -> Seq<char> {
    (if bn.sign < 0 {
        "-"@
    } else {
        Seq::empty()
    }) + spec_decimal(bn.significand as nat) + "e"@ + (if bn.exponent < 0 {
        "-"@ + spec_decimal((-bn.exponent) as nat)
    } else {
        spec_decimal(bn.exponent as nat)
    })
}

/// Append the decimal digits of `n`.
fn push_decimal(s: &mut String, n: u64)
    ensures
        final(s)@ == old(s)@ + spec_decimal(n as nat),
    decreases n,
{
    if n >= 10 {
        push_decimal(s, n / 10);
    }
    s.append(hex_digit_str((n % 10) as u8));
    assert(final(s)@ =~= old(s)@ + spec_decimal(n as nat));
}

/// The text form of a big number (see `spec_bignumber_text`).
fn bignumber_text(bn: &BigNumber) -> (r: String)
    ensures
        r@ == spec_bignumber_text(*bn),
{
    let mut s = String::new();
    if bn.sign < 0 {
        s.append("-");
    }
    push_decimal(&mut s, bn.significand);
    s.append("e");
    if bn.exponent < 0 {
        s.append("-");
        push_decimal(&mut s, unsigned_abs(bn.exponent));
    } else {
        push_decimal(&mut s, bn.exponent as u64);
    }
    assert(s@ =~= spec_bignumber_text(*bn));
    s
}

/// A decoded string, NFC-normalized when so configured.
pub open spec fn spec_text(s: Seq<char>, cfg: DecoderConfig) -> Seq<char> {
    if cfg.unicode_normalization == UnicodeNormalization::Nfc {
        spec_nfc(s)
    } else {
        s
    }
}

/// Apply NFC normalization if configured.
fn maybe_nfc_normalize(mode: UnicodeNormalization, s: String) -> (r: String)
    ensures
        r@ == if mode == UnicodeNormalization::Nfc {
            spec_nfc(s@)
        } else {
            s@
        },
{
    if mode == UnicodeNormalization::Nfc {
        nfc_normalize(s.as_str())
    } else {
        s
    }
}

/// The value of a decoded float: NaN and infinities become strings when so configured.
pub open spec fn spec_float_value(bits: u64, cfg: DecoderConfig) -> SpecValue {
    if cfg.nan_infinity_mode == NanInfinityMode::Stringify && spec_f64_is_nan(bits) {
        SpecValue::Str("NaN"@)
    } else if cfg.nan_infinity_mode == NanInfinityMode::Stringify && bits == 0x7ff0_0000_0000_0000 {
        SpecValue::Str("Infinity"@)
    } else if cfg.nan_infinity_mode == NanInfinityMode::Stringify && bits == 0xfff0_0000_0000_0000 {
        SpecValue::Str("-Infinity"@)
    } else {
        SpecValue::Float(bits)
    }
}

/// The value of a decoded big number: out of range for a finite binary64 it
/// is an error, or, when so configured, its text form, as is one beyond the
/// configured exponent or magnitude limits.
pub open spec fn spec_bignumber_value(bn: BigNumber, cfg: DecoderConfig) -> core::result::Result<
    SpecValue,
    SpecError,
> {
    let exceeds = spec_exceeds_f64(bn);
    if cfg.out_of_range_mode == OutOfRangeMode::Stringify {
        let abs_exp = if bn.exponent < 0 {
            -bn.exponent
        } else {
            bn.exponent as int
        };
        let mag = if bn.significand == 0 {
            0
        } else {
            spec_min_bytes_unsigned(bn.significand as nat)
        };
        if abs_exp > cfg.max_bignumber_exponent || mag > cfg.max_bignumber_magnitude || exceeds {
            Ok(SpecValue::Str(spec_bignumber_text(bn)))
        } else {
            Ok(SpecValue::BigNumber(bn))
        }
    } else if exceeds {
        Err(SpecError::ValueOutOfRange)
    } else {
        Ok(SpecValue::BigNumber(bn))
    }
}

/// The outcome of decoding a value: the value or error, and on success the
/// position and container depth after it.
pub struct DocStep {
    pub result: core::result::Result<SpecValue, SpecError>,
    pub pos: nat,
    pub depth: nat,
}

/// A successful step.
pub open spec fn doc_ok(v: SpecValue, pos: nat, depth: nat) -> DocStep {
    DocStep { result: Ok(v), pos, depth }
}

/// A failed step.
pub open spec fn doc_err(e: SpecError) -> DocStep {
    DocStep { result: Err(e), pos: 0, depth: 0 }
}

/// Decoding a complete value (containers with all their contents) at `pos`.
pub open spec fn spec_value(data: Seq<u8>, pos: nat, depth: nat, cfg: DecoderConfig) -> DocStep
    decreases data.len() - pos, 0nat,
{
    let st = spec_decode_at(data, pos, depth, cfg);
    match st.result {
        Err(e) => doc_err(e),
        Ok(tok) => if !(pos < st.pos && st.pos <= data.len()) {
            doc_err(SpecError::Truncated)
        } else {
            match tok {
                Token::Null => doc_ok(SpecValue::Null, st.pos, st.depth),
                Token::Bool(b) => doc_ok(SpecValue::Bool(b), st.pos, st.depth),
                Token::Int(n) => doc_ok(SpecValue::Int(n), st.pos, st.depth),
                Token::UInt(n) => doc_ok(SpecValue::UInt(n), st.pos, st.depth),
                Token::Float(f) => doc_ok(spec_float_value(f, cfg), st.pos, st.depth),
                Token::BigNumber(bn) => match spec_bignumber_value(bn, cfg) {
                    Ok(v) => doc_ok(v, st.pos, st.depth),
                    Err(e) => doc_err(e),
                },
                Token::Str(s) => doc_ok(SpecValue::Str(spec_text(s, cfg)), st.pos, st.depth),
                Token::ArrayStart => spec_items_doc(data, st.pos, st.depth, cfg, Seq::empty()),
                Token::ObjectStart => spec_pairs_doc(data, st.pos, st.depth, cfg, Seq::empty(), 0),
                Token::ContainerEnd => doc_err(SpecError::UnbalancedContainers),
            }
        },
    }
}

/// Decoding the rest of an array at `p`, with the elements read so far.
pub open spec fn spec_items_doc(
    data: Seq<u8>,
    p: nat,
    depth: nat,
    cfg: DecoderConfig,
    acc: Seq<SpecValue>,
) -> DocStep
    decreases data.len() - p, 1nat,
{
    if p >= data.len() {
        doc_err(SpecError::Truncated)
    } else if data[p as int] == type_code::CONTAINER_END {
        if depth == 0 {
            doc_err(SpecError::UnbalancedContainers)
        } else {
            doc_ok(SpecValue::Array(acc), p + 1, (depth - 1) as nat)
        }
    } else if acc.len() >= cfg.max_container_size {
        doc_err(SpecError::MaxContainerSizeExceeded)
    } else {
        let e = spec_value(data, p, depth, cfg);
        match e.result {
            Err(x) => doc_err(x),
            Ok(v) => if !(p < e.pos && e.pos <= data.len()) {
                doc_err(SpecError::Truncated)
            } else {
                spec_items_doc(data, e.pos, e.depth, cfg, acc.push(v))
            },
        }
    }
}

/// Decoding the rest of an object at `p`, with the pairs stored so far and
/// the count of pairs stored: a repeated key is refused, skipped or
/// overwrites, as configured.
pub open spec fn spec_pairs_doc(
    data: Seq<u8>,
    p: nat,
    depth: nat,
    cfg: DecoderConfig,
    acc: Seq<(Seq<char>, SpecValue)>,
    count: nat,
) -> DocStep
    decreases data.len() - p, 1nat,
{
    if p >= data.len() {
        doc_err(SpecError::Truncated)
    } else if data[p as int] == type_code::CONTAINER_END {
        if depth == 0 {
            doc_err(SpecError::UnbalancedContainers)
        } else {
            doc_ok(SpecValue::Object(acc), p + 1, (depth - 1) as nat)
        }
    } else if count >= cfg.max_container_size {
        doc_err(SpecError::MaxContainerSizeExceeded)
    } else {
        let kt = spec_decode_at(data, p, depth, cfg);
        match kt.result {
            Err(x) => doc_err(x),
            Ok(Token::Str(k)) => if !(p < kt.pos && kt.pos <= data.len()) {
                doc_err(SpecError::Truncated)
            } else {
                let key = spec_text(k, cfg);
                let e = spec_value(data, kt.pos, kt.depth, cfg);
                match e.result {
                    Err(x) => doc_err(x),
                    Ok(v) => if !(kt.pos < e.pos && e.pos <= data.len()) {
                        doc_err(SpecError::Truncated)
                    } else if spec_get(acc, key) is Some && cfg.duplicate_key_mode
                        == DuplicateKeyMode::Error {
                        doc_err(SpecError::DuplicateKey)
                    } else if spec_get(acc, key) is Some && cfg.duplicate_key_mode
                        == DuplicateKeyMode::KeepFirst {
                        spec_pairs_doc(data, e.pos, e.depth, cfg, acc, count)
                    } else {
                        spec_pairs_doc(data, e.pos, e.depth, cfg, spec_insert(acc, key, v), count + 1)
                    },
                }
            },
            Ok(_) => doc_err(SpecError::ExpectedObjectKey),
        }
    }
}

/// Decoding a whole document: its size is checked, one value is decoded,
/// then every container must be closed and, unless allowed, no byte may follow.
pub open spec fn spec_decode_document(data: Seq<u8>, cfg: DecoderConfig) -> core::result::Result<
    SpecValue,
    SpecError,
> {
    if data.len() > cfg.max_document_size {
        Err(SpecError::MaxDocumentSizeExceeded)
    } else {
        let st = spec_value(data, 0, 0, cfg);
        match st.result {
            Err(e) => Err(e),
            Ok(v) => if st.depth > 0 {
                Err(SpecError::UnclosedContainer)
            } else if !cfg.allow_trailing_bytes && st.pos < data.len() {
                Err(SpecError::TrailingBytes)
            } else {
                Ok(v)
            },
        }
    }
}

/// A value decoded from `data` at `pos` ends after `pos` and within the data.
pub proof fn lemma_value_advances(data: Seq<u8>, pos: nat, depth: nat, cfg: DecoderConfig)
    ensures
        spec_value(data, pos, depth, cfg).result is Ok ==> pos < spec_value(
            data,
            pos,
            depth,
            cfg,
        ).pos <= data.len(),
    decreases data.len() - pos, 0nat,
{
    let st = spec_decode_at(data, pos, depth, cfg);
    if st.result is Ok && pos < st.pos && st.pos <= data.len() {
        match st.result->Ok_0 {
            Token::ArrayStart => lemma_items_advances(data, st.pos, st.depth, cfg, Seq::empty()),
            Token::ObjectStart => lemma_pairs_advances(data, st.pos, st.depth, cfg, Seq::empty(), 0),
            _ => {},
        }
    }
}

proof fn lemma_items_advances(
    data: Seq<u8>,
    p: nat,
    depth: nat,
    cfg: DecoderConfig,
    acc: Seq<SpecValue>,
)
    ensures
        spec_items_doc(data, p, depth, cfg, acc).result is Ok ==> p < spec_items_doc(
            data,
            p,
            depth,
            cfg,
            acc,
        ).pos <= data.len(),
    decreases data.len() - p, 1nat,
{
    if p < data.len() && data[p as int] != type_code::CONTAINER_END && acc.len()
        < cfg.max_container_size {
        let e = spec_value(data, p, depth, cfg);
        if e.result is Ok && p < e.pos && e.pos <= data.len() {
            lemma_items_advances(data, e.pos, e.depth, cfg, acc.push(e.result->Ok_0));
        }
    }
}

proof fn lemma_pairs_advances(
    data: Seq<u8>,
    p: nat,
    depth: nat,
    cfg: DecoderConfig,
    acc: Seq<(Seq<char>, SpecValue)>,
    count: nat,
)
    ensures
        spec_pairs_doc(data, p, depth, cfg, acc, count).result is Ok ==> p < spec_pairs_doc(
            data,
            p,
            depth,
            cfg,
            acc,
            count,
        ).pos <= data.len(),
    decreases data.len() - p, 1nat,
{
    if p < data.len() && data[p as int] != type_code::CONTAINER_END && count
        < cfg.max_container_size {
        let kt = spec_decode_at(data, p, depth, cfg);
        if let Ok(Token::Str(k)) = kt.result {
            if p < kt.pos && kt.pos <= data.len() {
                let key = spec_text(k, cfg);
                let e = spec_value(data, kt.pos, kt.depth, cfg);
                if e.result is Ok && kt.pos < e.pos && e.pos <= data.len() {
                    let v = e.result->Ok_0;
                    lemma_pairs_advances(data, e.pos, e.depth, cfg, acc, count);
                    lemma_pairs_advances(
                        data,
                        e.pos,
                        e.depth,
                        cfg,
                        spec_insert(acc, key, v),
                        count + 1,
                    );
                }
            }
        }
    }
}

/// A decoded value agrees with a step's result.
pub open spec fn value_matches(r: Result<Value>, st: DocStep) -> bool {
    match st.result {
        Ok(v) => r matches Ok(x) && x@ == v,
        Err(e) => r matches Err(x) && x@ == e,
    }
}

/// The decoder ended a step as the step says: same input and configuration,
/// and on success the step's position and depth.
pub open spec fn decoder_after(d: Decoder, old_d: Decoder, r_ok: bool, st: DocStep) -> bool {
    &&& d.wf()
    &&& d.input() == old_d.input()
    &&& d.cfg() == old_d.cfg()
    &&& r_ok ==> d.pos() == st.pos && d.depth() == st.depth
}

/// Decode one complete value at the decoder's position.
fn decode_value_recursive(decoder: &mut Decoder) -> (r: Result<Value>)
    requires
        old(decoder).wf(),
    ensures
        ({
            let st = spec_value(
                old(decoder).input(),
                old(decoder).pos(),
                old(decoder).depth(),
                old(decoder).cfg(),
            );
            value_matches(r, st) && decoder_after(*final(decoder), *old(decoder), r is Ok, st)
        }),
    decreases old(decoder).input().len() - old(decoder).pos(), 0nat,
{
    let ghost data = decoder.input();
    let ghost pos0 = decoder.pos();
    let ghost cfg = decoder.cfg();
    proof {
        lemma_decode_at_advances(data, pos0, decoder.depth(), cfg);
    }
    let decoded = decoder.decode_value()?;
    match decoded {
        DecodedValue::Null => Ok(Value::Null),
        DecodedValue::Bool(b) => Ok(Value::Bool(b)),
        DecodedValue::Int(n) => Ok(Value::Int(n)),
        DecodedValue::UInt(n) => Ok(Value::UInt(n)),
        DecodedValue::Float(f) => {
            if decoder.config().nan_infinity_mode == NanInfinityMode::Stringify {
                if f64_is_nan(f) {
                    return Ok(Value::String(String::from_str("NaN")));
                }
                if f == 0x7ff0_0000_0000_0000 {
                    return Ok(Value::String(String::from_str("Infinity")));
                }
                if f == 0xfff0_0000_0000_0000 {
                    return Ok(Value::String(String::from_str("-Infinity")));
                }
            }
            Ok(Value::Float(f))
        },
        DecodedValue::BigNumber(bn) => {
            let exceeds = bignumber_exceeds_f64_range(&bn);
            if decoder.config().out_of_range_mode == OutOfRangeMode::Stringify {
                let exp_exceeded = unsigned_abs(bn.exponent)
                    > decoder.config().max_bignumber_exponent as u64;
                let mag_bytes: usize = if bn.significand == 0 {
                    0
                } else {
                    required_unsigned_bytes_min1(bn.significand)
                };
                let mag_exceeded = mag_bytes > decoder.config().max_bignumber_magnitude;
                if exp_exceeded || mag_exceeded || exceeds {
                    return Ok(Value::String(bignumber_text(&bn)));
                }
            } else if exceeds {
                return Err(Error::ValueOutOfRange);
            }
            Ok(Value::BigNumber(bn))
        },
        DecodedValue::String(s) => {
            Ok(Value::String(maybe_nfc_normalize(decoder.config().unicode_normalization, s)))
        },
        DecodedValue::ArrayStart => {
            let arr: Vec<Value> = Vec::new();
            assert(view_values(arr@) =~= Seq::<SpecValue>::empty());
            decode_array_items(decoder, arr)
        },
        DecodedValue::ObjectStart => {
            let map: Vec<(String, Value)> = Vec::new();
            assert(view_entries(map@) =~= Seq::<(Seq<char>, SpecValue)>::empty());
            decode_object_pairs(decoder, map, 0)
        },
        DecodedValue::ContainerEnd => Err(Error::UnbalancedContainers),
    }
}

/// Decode the rest of an array, after the elements already read.
fn decode_array_items(decoder: &mut Decoder, arr0: Vec<Value>) -> (r: Result<Value>)
    requires
        old(decoder).wf(),
    ensures
        ({
            let st = spec_items_doc(
                old(decoder).input(),
                old(decoder).pos(),
                old(decoder).depth(),
                old(decoder).cfg(),
                view_values(arr0@),
            );
            value_matches(r, st) && decoder_after(*final(decoder), *old(decoder), r is Ok, st)
        }),
    decreases old(decoder).input().len() - old(decoder).pos(), 1nat,
{
    let ghost data = decoder.input();
    let ghost pos0 = decoder.pos();
    let ghost cfg = decoder.cfg();
    let ghost target = spec_items_doc(data, pos0, decoder.depth(), cfg, view_values(arr0@));
    let max_size = decoder.config().max_container_size;
    let mut arr = arr0;
    loop
        invariant
            target == spec_items_doc(
                old(decoder).input(),
                old(decoder).pos(),
                old(decoder).depth(),
                old(decoder).cfg(),
                view_values(arr0@),
            ),
            data == old(decoder).input(),
            cfg == old(decoder).cfg(),
            pos0 == old(decoder).pos(),
            decoder.wf(),
            decoder.input() == data,
            decoder.cfg() == cfg,
            max_size == cfg.max_container_size,
            pos0 <= decoder.pos() <= data.len(),
            spec_items_doc(data, decoder.pos(), decoder.depth(), cfg, view_values(arr@))
                == target,
        ensures
            decoder.pos() < data.len(),
            data[decoder.pos() as int] == type_code::CONTAINER_END,
            decoder.wf(),
            decoder.input() == data,
            decoder.cfg() == cfg,
            spec_items_doc(data, decoder.pos(), decoder.depth(), cfg, view_values(arr@))
                == target,
        decreases data.len() - decoder.pos(),
    {
        let at_end = decoder.is_at_container_end()?;
        if at_end {
            break;
        }
        if arr.len() >= max_size {
            return Err(Error::MaxContainerSizeExceeded);
        }
        proof {
            lemma_value_advances(data, decoder.pos(), decoder.depth(), cfg);
        }
        let v = decode_value_recursive(decoder)?;
        let ghost vv = v@;
        let ghost before = arr@;
        arr.push(v);
        proof {
            assert(view_values(arr@) =~= view_values(before).push(vv));
        }
    }
    decoder.end_container()?;
    proof {
        lemma_view_array(arr);
    }
    Ok(Value::Array(arr))
}

/// Decode the rest of an object, after the pairs already stored.
fn decode_object_pairs(decoder: &mut Decoder, map0: Vec<(String, Value)>, count0: usize) -> (r:
    Result<Value>)
    requires
        old(decoder).wf(),
        keys_sorted(view_entries(map0@)),
    ensures
        ({
            let st = spec_pairs_doc(
                old(decoder).input(),
                old(decoder).pos(),
                old(decoder).depth(),
                old(decoder).cfg(),
                view_entries(map0@),
                count0 as nat,
            );
            value_matches(r, st) && decoder_after(*final(decoder), *old(decoder), r is Ok, st)
        }),
    decreases old(decoder).input().len() - old(decoder).pos(), 1nat,
{
    let ghost data = decoder.input();
    let ghost pos0 = decoder.pos();
    let ghost cfg = decoder.cfg();
    let ghost target = spec_pairs_doc(
        data,
        pos0,
        decoder.depth(),
        cfg,
        view_entries(map0@),
        count0 as nat,
    );
    let dup_mode = decoder.config().duplicate_key_mode;
    let max_size = decoder.config().max_container_size;
    let mode = decoder.config().unicode_normalization;
    let mut map = map0;
    let mut pair_count = count0;
    loop
        invariant
            target == spec_pairs_doc(
                old(decoder).input(),
                old(decoder).pos(),
                old(decoder).depth(),
                old(decoder).cfg(),
                view_entries(map0@),
                count0 as nat,
            ),
            data == old(decoder).input(),
            cfg == old(decoder).cfg(),
            pos0 == old(decoder).pos(),
            decoder.wf(),
            decoder.input() == data,
            decoder.cfg() == cfg,
            max_size == cfg.max_container_size,
            dup_mode == cfg.duplicate_key_mode,
            mode == cfg.unicode_normalization,
            pos0 <= decoder.pos() <= data.len(),
            keys_sorted(view_entries(map@)),
            spec_pairs_doc(
                data,
                decoder.pos(),
                decoder.depth(),
                cfg,
                view_entries(map@),
                pair_count as nat,
            ) == target,
        ensures
            decoder.pos() < data.len(),
            data[decoder.pos() as int] == type_code::CONTAINER_END,
            decoder.wf(),
            decoder.input() == data,
            decoder.cfg() == cfg,
            spec_pairs_doc(
                data,
                decoder.pos(),
                decoder.depth(),
                cfg,
                view_entries(map@),
                pair_count as nat,
            ) == target,
        decreases data.len() - decoder.pos(),
    {
        let at_end = decoder.is_at_container_end()?;
        if at_end {
            break;
        }
        if pair_count >= max_size {
            return Err(Error::MaxContainerSizeExceeded);
        }
        let ghost p = decoder.pos();
        let ghost d = decoder.depth();
        proof {
            lemma_decode_at_advances(data, p, d, cfg);
        }
        let key_value = decoder.decode_value()?;
        let key = match key_value {
            DecodedValue::String(s) => maybe_nfc_normalize(mode, s),
            _ => return Err(Error::ExpectedObjectKey),
        };
        proof {
            lemma_value_advances(data, decoder.pos(), decoder.depth(), cfg);
        }
        let value = decode_value_recursive(decoder)?;
        if object_contains_key(&map, key.as_str()) {
            match dup_mode {
                DuplicateKeyMode::Error => return Err(Error::DuplicateKey),
                DuplicateKeyMode::KeepFirst => continue,
                DuplicateKeyMode::KeepLast => {},
            }
        }
        object_insert(&mut map, key, value);
        pair_count += 1;
    }
    decoder.end_container()?;
    proof {
        lemma_view_object(map);
    }
    Ok(Value::Object(map))
}

/// Decoding never yields a malformed value: in every object it produces, at
/// any depth, the keys stand in order and none occurs twice, whatever the
/// input and the configuration.
pub proof fn lemma_decoded_well_formed(data: Seq<u8>, cfg: DecoderConfig)
    ensures
        spec_decode_document(data, cfg) matches Ok(v) ==> spec_wf(v),
{
    lemma_value_wf(data, 0, 0, cfg);
}

proof fn lemma_value_wf(data: Seq<u8>, pos: nat, depth: nat, cfg: DecoderConfig)
    ensures
        spec_value(data, pos, depth, cfg).result matches Ok(v) ==> spec_wf(v),
    decreases data.len() - pos, 0nat,
{
    let st = spec_decode_at(data, pos, depth, cfg);
    if st.result is Ok && pos < st.pos && st.pos <= data.len() {
        match st.result->Ok_0 {
            Token::ArrayStart => lemma_items_wf(data, st.pos, st.depth, cfg, Seq::empty()),
            Token::ObjectStart => lemma_pairs_wf(data, st.pos, st.depth, cfg, Seq::empty(), 0),
            _ => {},
        }
    }
}

proof fn lemma_items_wf(
    data: Seq<u8>,
    p: nat,
    depth: nat,
    cfg: DecoderConfig,
    acc: Seq<SpecValue>,
)
    requires
        forall|i: int| 0 <= i < acc.len() ==> spec_wf(#[trigger] acc[i]),
    ensures
        spec_items_doc(data, p, depth, cfg, acc).result matches Ok(v) ==> spec_wf(v),
    decreases data.len() - p, 1nat,
{
    if p < data.len() && data[p as int] != type_code::CONTAINER_END && acc.len()
        < cfg.max_container_size {
        let e = spec_value(data, p, depth, cfg);
        lemma_value_wf(data, p, depth, cfg);
        if e.result is Ok && p < e.pos && e.pos <= data.len() {
            let next = acc.push(e.result->Ok_0);
            assert forall|i: int| 0 <= i < next.len() implies spec_wf(#[trigger] next[i]) by {
                if i < acc.len() {
                    assert(next[i] == acc[i]);
                }
            }
            lemma_items_wf(data, e.pos, e.depth, cfg, next);
        }
    }
}

proof fn lemma_insert_values_wf(m: Seq<(Seq<char>, SpecValue)>, k: Seq<char>, v: SpecValue)
    requires
        keys_sorted(m),
        forall|i: int| 0 <= i < m.len() ==> spec_wf(#[trigger] m[i].1),
        spec_wf(v),
    ensures
        forall|i: int|
            0 <= i < spec_insert(m, k, v).len() ==> spec_wf(#[trigger] spec_insert(m, k, v)[i].1),
{
    let r = spec_insert(m, k, v);
    let b = lower_bound(m, k) as int;
    lemma_lower_bound_sorted(m, k);
    assert forall|i: int| 0 <= i < r.len() implies spec_wf(#[trigger] r[i].1) by {
        if b < m.len() && m[b].0 == k {
            if i != b {
                assert(r[i] == m[i]);
            }
        } else if i < b {
            assert(r[i] == m[i]);
        } else if i > b {
            assert(r[i] == m[i - 1]);
        }
    }
}

proof fn lemma_pairs_wf(
    data: Seq<u8>,
    p: nat,
    depth: nat,
    cfg: DecoderConfig,
    acc: Seq<(Seq<char>, SpecValue)>,
    count: nat,
)
    requires
        keys_sorted(acc),
        forall|i: int| 0 <= i < acc.len() ==> spec_wf(#[trigger] acc[i].1),
    ensures
        spec_pairs_doc(data, p, depth, cfg, acc, count).result matches Ok(v) ==> spec_wf(v),
    decreases data.len() - p, 1nat,
{
    if p < data.len() && data[p as int] != type_code::CONTAINER_END && count
        < cfg.max_container_size {
        let kt = spec_decode_at(data, p, depth, cfg);
        if let Ok(Token::Str(k)) = kt.result {
            if p < kt.pos && kt.pos <= data.len() {
                let key = spec_text(k, cfg);
                let e = spec_value(data, kt.pos, kt.depth, cfg);
                lemma_value_wf(data, kt.pos, kt.depth, cfg);
                if e.result is Ok && kt.pos < e.pos && e.pos <= data.len() {
                    let v = e.result->Ok_0;
                    if spec_get(acc, key) is Some && cfg.duplicate_key_mode
                        == DuplicateKeyMode::KeepFirst {
                        lemma_pairs_wf(data, e.pos, e.depth, cfg, acc, count);
                    } else {
                        lemma_insert_sorted(acc, key, v);
                        lemma_insert_values_wf(acc, key, v);
                        lemma_pairs_wf(
                            data,
                            e.pos,
                            e.depth,
                            cfg,
                            spec_insert(acc, key, v),
                            count + 1,
                        );
                    }
                }
            }
        }
    }
}

/// Decode a BONJSON document into a `Value` with custom configuration.
pub fn decode_value_with_config(data: &[u8], config: DecoderConfig) -> (r: Result<Value>)
    ensures
        match spec_decode_document(data@, config) {
            Ok(v) => r matches Ok(x) && x@ == v,
            Err(e) => r matches Err(x) && x@ == e,
        },
        r matches Ok(x) ==> spec_wf(x@),
{
    proof {
        lemma_decoded_well_formed(data@, config);
    }
    let mut decoder = Decoder::with_config(data, config);
    decoder.check_document_size()?;
    let value = decode_value_recursive(&mut decoder)?;
    decoder.finish()?;
    Ok(value)
}

/// Decode a BONJSON document into a `Value`, with the default configuration.
pub fn decode_value(data: &[u8]) -> (r: Result<Value>)
    ensures
        match spec_decode_document(data@, spec_default_config()) {
            Ok(v) => r matches Ok(x) && x@ == v,
            Err(e) => r matches Err(x) && x@ == e,
        },
        r matches Ok(x) ==> spec_wf(x@),
{
    decode_value_with_config(data, DecoderConfig::default())
}

} // verus!
