//! BONJSON binary decoder: delimiter-terminated containers (0xFE) and
//! FF-terminated long strings.
use crate::encoder::spec_le_value;
use crate::error::{code_message, spec_code_message, Error, Result, SpecError};
use crate::floatbits::{
    f32_bits_to_f64_bits, f64_is_infinite, f64_is_nan, spec_f32_to_f64, spec_f64_is_infinite,
    spec_f64_is_nan,
};
use crate::text::{
    delete_invalid_utf8, find_byte, spec_first_index, spec_keep_valid, spec_utf8_lossy,
    utf8_lossy, validate_utf8,
};
use crate::typed_array::ElementKind;
use crate::types::limits;
use crate::types::type_code;
use crate::types::{
    leb128_decode, spec_leb128_decode, spec_leb128_last, spec_unzigzag, zigzag_decode, BigNumber,
};
use vstd::arithmetic::power2::pow2;
use vstd::prelude::*;
use vstd::utf8::{decode_utf8, valid_utf8};

verus! {

/// How to handle duplicate keys in objects.
#[derive(Debug, Clone, Copy, PartialEq, Eq, Structural)]
pub enum DuplicateKeyMode {
    /// Raise an error on duplicate keys (default per spec)
    Error,
    /// Keep the first value, ignore subsequent duplicates
    KeepFirst,
    /// Keep the last value, overwrite earlier values
    KeepLast,
}

impl Default for DuplicateKeyMode {
    fn default() -> (r: Self)
        ensures
            r == DuplicateKeyMode::Error,
    {
        Self::Error
    }
}

/// How to handle NaN and Infinity float values.
#[derive(Debug, Clone, Copy, PartialEq, Eq, Structural)]
pub enum NanInfinityMode {
    /// Reject NaN and Infinity values (default)
    Reject,
    /// Allow NaN and Infinity as float values
    Allow,
    /// Convert NaN and Infinity to string values
    Stringify,
}

impl Default for NanInfinityMode {
    fn default() -> (r: Self)
        ensures
            r == NanInfinityMode::Reject,
    {
        Self::Reject
    }
}

/// How to handle BigNumber values that exceed configured limits.
#[derive(Debug, Clone, Copy, PartialEq, Eq, Structural)]
pub enum OutOfRangeMode {
    /// Return an error (default)
    Error,
    /// Convert to string representation
    Stringify,
}

impl Default for OutOfRangeMode {
    fn default() -> (r: Self)
        ensures
            r == OutOfRangeMode::Error,
    {
        Self::Error
    }
}

/// How to handle invalid UTF-8 in strings.
#[derive(Debug, Clone, Copy, PartialEq, Eq, Structural)]
pub enum InvalidUtf8Mode {
    /// Reject invalid UTF-8 (default)
    Reject,
    /// Replace invalid bytes with U+FFFD replacement character
    Replace,
    /// Delete invalid bytes
    Delete,
}

impl Default for InvalidUtf8Mode {
    fn default() -> (r: Self)
        ensures
            r == InvalidUtf8Mode::Reject,
    {
        Self::Reject
    }
}

/// Unicode normalization mode for decoded strings.
#[derive(Debug, Clone, Copy, PartialEq, Eq, Structural)]
pub enum UnicodeNormalization {
    /// No normalization (default)
    Off,
    /// NFC normalization
    Nfc,
}

impl Default for UnicodeNormalization {
    fn default() -> (r: Self)
        ensures
            r == UnicodeNormalization::Off,
    {
        Self::Off
    }
}

/// Configuration options for the decoder.
#[derive(Debug, Clone, Copy)]
pub struct DecoderConfig {
    /// Allow NUL characters in strings (default: false)
    pub allow_nul: bool,
    /// How to handle NaN and Infinity values (default: Reject)
    pub nan_infinity_mode: NanInfinityMode,
    /// Allow trailing bytes after the document (default: false)
    pub allow_trailing_bytes: bool,
    /// How to handle duplicate keys (default: Error)
    pub duplicate_key_mode: DuplicateKeyMode,
    /// Maximum container nesting depth
    pub max_depth: usize,
    /// Maximum elements in a container
    pub max_container_size: usize,
    /// Maximum string length in bytes
    pub max_string_length: usize,
    /// Maximum document size in bytes
    pub max_document_size: usize,
    /// Maximum BigNumber exponent (absolute value)
    pub max_bignumber_exponent: usize,
    /// Maximum BigNumber magnitude in bytes
    pub max_bignumber_magnitude: usize,
    /// How to handle out-of-range BigNumber values (default: Error)
    pub out_of_range_mode: OutOfRangeMode,
    /// How to handle invalid UTF-8 in strings (default: Reject)
    pub invalid_utf8_mode: InvalidUtf8Mode,
    /// Unicode normalization mode (default: off)
    pub unicode_normalization: UnicodeNormalization,
}

/// The default configuration: the format's limits, everything strict.
pub open spec fn spec_default_config() -> DecoderConfig {
    DecoderConfig {
        allow_nul: false,
        nan_infinity_mode: NanInfinityMode::Reject,
        allow_trailing_bytes: false,
        duplicate_key_mode: DuplicateKeyMode::Error,
        max_depth: limits::MAX_DEPTH,
        max_container_size: limits::MAX_CONTAINER_SIZE,
        max_string_length: limits::MAX_STRING_LENGTH,
        max_document_size: limits::MAX_DOCUMENT_SIZE,
        max_bignumber_exponent: limits::MAX_BIGNUMBER_EXPONENT,
        max_bignumber_magnitude: limits::MAX_BIGNUMBER_MAGNITUDE,
        out_of_range_mode: OutOfRangeMode::Error,
        invalid_utf8_mode: InvalidUtf8Mode::Reject,
        unicode_normalization: UnicodeNormalization::Off,
    }
}

impl Default for DecoderConfig {
    fn default() -> (r: Self)
        ensures
            r == spec_default_config(),
    {
        Self {
            allow_nul: false,
            nan_infinity_mode: NanInfinityMode::default(),
            allow_trailing_bytes: false,
            duplicate_key_mode: DuplicateKeyMode::default(),
            max_depth: limits::MAX_DEPTH,
            max_container_size: limits::MAX_CONTAINER_SIZE,
            max_string_length: limits::MAX_STRING_LENGTH,
            max_document_size: limits::MAX_DOCUMENT_SIZE,
            max_bignumber_exponent: limits::MAX_BIGNUMBER_EXPONENT,
            max_bignumber_magnitude: limits::MAX_BIGNUMBER_MAGNITUDE,
            out_of_range_mode: OutOfRangeMode::default(),
            invalid_utf8_mode: InvalidUtf8Mode::default(),
            unicode_normalization: UnicodeNormalization::default(),
        }
    }
}

/// The type of value that was decoded. A float is held as the bit pattern
/// of its IEEE 754 binary64 value.
#[derive(Debug, Clone, PartialEq)]
pub enum DecodedValue {
    Null,
    Bool(bool),
    Int(i64),
    UInt(u64),
    Float(u64),
    BigNumber(BigNumber),
    String(String),
    ArrayStart,
    ObjectStart,
    ContainerEnd,
}

/// A decoded token, with its string as a character sequence.
pub enum Token {
    Null,
    Bool(bool),
    Int(i64),
    UInt(u64),
    Float(u64),
    BigNumber(BigNumber),
    Str(Seq<char>),
    ArrayStart,
    ObjectStart,
    ContainerEnd,
}

impl View for DecodedValue {
    type V = Token;

    open spec fn view(&self) -> Token {
        match self {
            DecodedValue::Null => Token::Null,
            DecodedValue::Bool(b) => Token::Bool(*b),
            DecodedValue::Int(n) => Token::Int(*n),
            DecodedValue::UInt(n) => Token::UInt(*n),
            DecodedValue::Float(f) => Token::Float(*f),
            DecodedValue::BigNumber(bn) => Token::BigNumber(*bn),
            DecodedValue::String(s) => Token::Str(s@),
            DecodedValue::ArrayStart => Token::ArrayStart,
            DecodedValue::ObjectStart => Token::ObjectStart,
            DecodedValue::ContainerEnd => Token::ContainerEnd,
        }
    }
}

/// What one decoding step gives: the token or error, the position after it and
/// the container depth after it.
pub struct Step {
    pub result: core::result::Result<Token, SpecError>,
    pub pos: nat,
    pub depth: nat,
}

/// A step that ends at `pos` with `depth` unchanged.
pub open spec fn step(result: core::result::Result<Token, SpecError>, pos: nat, depth: nat) -> Step {
    Step { result, pos, depth }
}

/// The value of little-endian two's complement bytes.
pub open spec fn spec_sign_extend(b: Seq<u8>) -> int {
    if b.len() > 0 && b.last() >= 128 {
        spec_le_value(b) - pow2(8 * b.len())
    } else {
        spec_le_value(b) as int
    }
}

/// The characters a string's bytes decode to, or the error, under a
/// configuration: invalid UTF-8 is rejected, replaced or deleted as configured
/// (always rejected when `strict`), then a NUL byte is refused unless allowed.
pub open spec fn spec_string_result(b: Seq<u8>, cfg: DecoderConfig, strict: bool) -> core::result::Result<
    Seq<char>,
    SpecError,
> {
    let decoded = if valid_utf8(b) {
        Ok(decode_utf8(b))
    } else if strict {
        Err(SpecError::InvalidUtf8)
    } else {
        match cfg.invalid_utf8_mode {
            InvalidUtf8Mode::Reject => Err(SpecError::InvalidUtf8),
            InvalidUtf8Mode::Replace => Ok(spec_utf8_lossy(b)),
            InvalidUtf8Mode::Delete => Ok(decode_utf8(spec_keep_valid(b))),
        }
    };
    match decoded {
        Err(e) => Err(e),
        Ok(s) => if !cfg.allow_nul && b.contains(0) {
            Err(SpecError::NulCharacter)
        } else {
            Ok(s)
        },
    }
}

/// Decoding a short string of `len` bytes whose content starts at `p`.
pub open spec fn spec_short_string(
    data: Seq<u8>,
    p: nat,
    len: nat,
    cfg: DecoderConfig,
    strict: bool,
) -> (core::result::Result<Seq<char>, SpecError>, nat) {
    if len > cfg.max_string_length {
        (Err(SpecError::MaxStringLengthExceeded), p)
    } else if p + len > data.len() {
        (Err(SpecError::Truncated), p)
    } else {
        (spec_string_result(data.subrange(p as int, (p + len) as int), cfg, strict), p + len)
    }
}

/// Decoding a long string whose content starts at `p` and runs to the next 0xFF.
pub open spec fn spec_long_string(data: Seq<u8>, p: nat, cfg: DecoderConfig, strict: bool) -> (
    core::result::Result<Seq<char>, SpecError>,
    nat,
) {
    match spec_first_index(0xff, data.subrange(p as int, data.len() as int)) {
        None => (Err(SpecError::Truncated), p),
        Some(o) => if o > cfg.max_string_length {
            (Err(SpecError::MaxStringLengthExceeded), p + o + 1)
        } else {
            (
                spec_string_result(data.subrange(p as int, (p + o) as int), cfg, strict),
                p + o + 1,
            )
        },
    }
}

/// A string decoding as a step.
pub open spec fn string_step(
    r: (core::result::Result<Seq<char>, SpecError>, nat),
    depth: nat,
) -> Step {
    match r.0 {
        Ok(s) => step(Ok(Token::Str(s)), r.1, depth),
        Err(e) => step(Err(e), r.1, depth),
    }
}

/// Reading an integer of the given code whose bytes start at `p`.
pub open spec fn spec_int_step(data: Seq<u8>, p: nat, tc: u8, depth: nat) -> Step {
    let n = type_code::size_of_index(tc as int % 4) as nat;
    if p + n > data.len() {
        step(Err(SpecError::Truncated), p, depth)
    } else {
        let b = data.subrange(p as int, (p + n) as int);
        if tc >= type_code::SINT8 {
            step(Ok(Token::Int(spec_sign_extend(b) as i64)), p + n, depth)
        } else {
            step(Ok(Token::UInt(spec_le_value(b) as u64)), p + n, depth)
        }
    }
}

/// The check of a decoded float against the NaN/Infinity mode.
pub open spec fn spec_float_check(bits: u64, cfg: DecoderConfig) -> core::result::Result<
    Token,
    SpecError,
> {
    if cfg.nan_infinity_mode == NanInfinityMode::Reject && spec_f64_is_nan(bits) {
        Err(SpecError::NanNotAllowed)
    } else if cfg.nan_infinity_mode == NanInfinityMode::Reject && spec_f64_is_infinite(bits) {
        Err(SpecError::InfinityNotAllowed)
    } else {
        Ok(Token::Float(bits))
    }
}

/// Reading a binary32 (`n` == 4, widened) or binary64 (`n` == 8) float at `p`.
pub open spec fn spec_float_step(data: Seq<u8>, p: nat, n: nat, depth: nat, cfg: DecoderConfig) -> Step {
    if p + n > data.len() {
        step(Err(SpecError::Truncated), p, depth)
    } else {
        let raw = spec_le_value(data.subrange(p as int, (p + n) as int));
        let bits = if n == 4 {
            spec_f32_to_f64(raw as u32)
        } else {
            raw as u64
        };
        step(spec_float_check(bits, cfg), p + n, depth)
    }
}

/// Decoding a big number whose payload starts at `p`.
pub open spec fn spec_bignumber_step(data: Seq<u8>, p: nat, depth: nat, cfg: DecoderConfig) -> Step {
    match spec_leb128_decode(data.subrange(p as int, data.len() as int)) {
        None => step(Err(SpecError::Truncated), p, depth),
        Some((exp_raw, n1)) => {
            let exponent = spec_unzigzag(exp_raw as int);
            let p2 = p + n1;
            let abs_exp = if exponent < 0 {
                -exponent
            } else {
                exponent
            };
            if abs_exp > cfg.max_bignumber_exponent && cfg.out_of_range_mode
                != OutOfRangeMode::Stringify {
                step(Err(SpecError::MaxBignumberExponentExceeded), p2, depth)
            } else {
                match spec_leb128_decode(data.subrange(p2 as int, data.len() as int)) {
                    None => step(Err(SpecError::Truncated), p2, depth),
                    Some((len_raw, n2)) => {
                        let signed_length = spec_unzigzag(len_raw as int);
                        let p3 = p2 + n2;
                        if signed_length == 0 {
                            step(
                                Ok(
                                    Token::BigNumber(
                                        BigNumber {
                                            significand: 0,
                                            exponent: exponent as i64,
                                            sign: 1,
                                        },
                                    ),
                                ),
                                p3,
                                depth,
                            )
                        } else {
                            let count = if signed_length < 0 {
                                -signed_length
                            } else {
                                signed_length
                            };
                            if count > cfg.max_bignumber_magnitude && cfg.out_of_range_mode
                                != OutOfRangeMode::Stringify {
                                step(Err(SpecError::MaxBignumberMagnitudeExceeded), p3, depth)
                            } else if count > 8 {
                                step(
                                    Err(
                                        SpecError::InvalidData(
                                            "BigNumber magnitude exceeds u64 range"@,
                                        ),
                                    ),
                                    p3,
                                    depth,
                                )
                            } else if p3 + count > data.len() {
                                step(Err(SpecError::Truncated), p3, depth)
                            } else {
                                let mag = data.subrange(p3 as int, p3 + count);
                                if mag.last() == 0 {
                                    step(
                                        Err(
                                            SpecError::InvalidData(
                                                "non-normalized BigNumber magnitude"@,
                                            ),
                                        ),
                                        (p3 + count) as nat,
                                        depth,
                                    )
                                } else {
                                    step(
                                        Ok(
                                            Token::BigNumber(
                                                BigNumber {
                                                    significand: spec_le_value(mag) as u64,
                                                    exponent: exponent as i64,
                                                    sign: if signed_length < 0 {
                                                        -1i8
                                                    } else {
                                                        1i8
                                                    },
                                                },
                                            ),
                                        ),
                                        (p3 + count) as nat,
                                        depth,
                                    )
                                }
                            }
                        }
                    },
                }
            }
        },
    }
}

/// Decoding the value of type code `tc` whose payload starts at `p`, with
/// `depth` containers open.
pub open spec fn spec_decode_code(
    data: Seq<u8>,
    p: nat,
    tc: u8,
    depth: nat,
    cfg: DecoderConfig,
) -> Step {
    if tc <= type_code::SMALLINT_MAX {
        step(Ok(Token::Int((tc - 100) as i64)), p, depth)
    } else if type_code::STRING0 <= tc <= type_code::STRING15 {
        string_step(spec_short_string(data, p, (tc - type_code::STRING0) as nat, cfg, false), depth)
    } else if type_code::UINT8 <= tc <= type_code::SINT64 {
        spec_int_step(data, p, tc, depth)
    } else if tc == type_code::FLOAT32 {
        spec_float_step(data, p, 4, depth, cfg)
    } else if tc == type_code::FLOAT64 {
        spec_float_step(data, p, 8, depth, cfg)
    } else if tc == type_code::BIG_NUMBER {
        spec_bignumber_step(data, p, depth, cfg)
    } else if tc == type_code::NULL {
        step(Ok(Token::Null), p, depth)
    } else if tc == type_code::FALSE {
        step(Ok(Token::Bool(false)), p, depth)
    } else if tc == type_code::TRUE {
        step(Ok(Token::Bool(true)), p, depth)
    } else if tc == type_code::CONTAINER_END {
        if depth == 0 {
            step(Err(SpecError::UnbalancedContainers), p, depth)
        } else {
            step(Ok(Token::ContainerEnd), p, (depth - 1) as nat)
        }
    } else if tc == type_code::ARRAY || tc == type_code::OBJECT {
        if depth >= cfg.max_depth {
            step(Err(SpecError::MaxDepthExceeded), p, depth)
        } else {
            step(
                Ok(
                    if tc == type_code::ARRAY {
                        Token::ArrayStart
                    } else {
                        Token::ObjectStart
                    },
                ),
                p,
                depth + 1,
            )
        }
    } else if tc == type_code::STRING_LONG {
        string_step(spec_long_string(data, p, cfg, false), depth)
    } else {
        step(Err(SpecError::InvalidTypeCode(tc)), p, depth)
    }
}

/// Decoding the next value at `pos`: its type code, then its payload.
#[verifier::opaque]
pub open spec fn spec_decode_at(data: Seq<u8>, pos: nat, depth: nat, cfg: DecoderConfig) -> Step {
    if pos >= data.len() {
        step(Err(SpecError::Truncated), pos, depth)
    } else {
        spec_decode_code(data, pos + 1, data[pos as int], depth, cfg)
    }
}

/// A result with its value and error taken by their views.
pub open spec fn res_view<T: View>(r: Result<T>) -> core::result::Result<T::V, SpecError> {
    match r {
        Ok(x) => Ok(x@),
        Err(e) => Err(e@),
    }
}

/// A float read agrees with the token result of a step.
pub open spec fn float_matches(r: Result<u64>, t: core::result::Result<Token, SpecError>) -> bool {
    match t {
        Ok(Token::Float(b)) => r == Ok::<u64, Error>(b),
        Ok(_) => false,
        Err(e) => r matches Err(x) && x@ == e,
    }
}

pub(crate) proof fn lemma_first_index_is(needle: u8, s: Seq<u8>, i: nat)
    requires
        i < s.len(),
        s[i as int] == needle,
        forall|j: int| 0 <= j < i ==> s[j] != needle,
    ensures
        spec_first_index(needle, s) == Some(i),
{
    let k = choose|k: int|
        0 <= k < s.len() && s[k] == needle && forall|j: int| 0 <= j < k ==> s[j] != needle;
    assert(0 <= k < s.len() && s[k] == needle && forall|j: int| 0 <= j < k ==> s[j] != needle);
    if k < i {
        assert(s[k] != needle);
    }
    if k > i {
        assert(s[i as int] != needle);
    }
}

proof fn lemma_first_index_none(needle: u8, s: Seq<u8>)
    requires
        forall|j: int| 0 <= j < s.len() ==> s[j] != needle,
    ensures
        spec_first_index(needle, s) is None,
{
}

/// The absolute value of an `i64`, as a `u64`.
pub(crate) fn unsigned_abs(v: i64) -> (r: u64)
    ensures
        r as int == if v < 0 {
            -(v as int)
        } else {
            v as int
        },
{
    if v < 0 {
        ((-(v + 1)) as u64) + 1
    } else {
        v as u64
    }
}

proof fn lemma_leb128_decode_len(s: Seq<u8>)
    requires
        spec_leb128_decode(s) is Some,
    ensures
        spec_leb128_decode(s) matches Some((v, n)) && 1 <= n <= s.len(),
{
    reveal(spec_leb128_decode);
    lemma_leb128_last_bound(s);
}

proof fn lemma_leb128_last_bound(s: Seq<u8>)
    ensures
        spec_leb128_last(s) matches Some(k) ==> k < s.len(),
    decreases s.len(),
{
    if s.len() > 0 && s[0] >= 128 {
        lemma_leb128_last_bound(s.drop_first());
    }
}

/// Reading one element of a typed array of `kind` at `p`: the bytes of a
/// scalar of that kind and width, without a type code.
pub open spec fn spec_typed_element_step(
    data: Seq<u8>,
    p: nat,
    kind: ElementKind,
    depth: nat,
    cfg: DecoderConfig,
) -> Step {
    match kind {
        ElementKind::F32 => spec_float_step(data, p, 4, depth, cfg),
        ElementKind::F64 => spec_float_step(data, p, 8, depth, cfg),
        ElementKind::I8 => spec_int_step(data, p, type_code::SINT8, depth),
        ElementKind::I16 => spec_int_step(data, p, type_code::SINT16, depth),
        ElementKind::I32 => spec_int_step(data, p, type_code::SINT32, depth),
        ElementKind::I64 => spec_int_step(data, p, type_code::SINT64, depth),
        ElementKind::U8 => spec_int_step(data, p, type_code::UINT8, depth),
        ElementKind::U16 => spec_int_step(data, p, type_code::UINT16, depth),
        ElementKind::U32 => spec_int_step(data, p, type_code::UINT32, depth),
        ElementKind::U64 => spec_int_step(data, p, type_code::UINT64, depth),
    }
}

/// Reading an integer as an `i64` at `pos`: a small integer, or an integer
/// code whose unsigned value is taken with the same bits; any other code is
/// refused with a message naming it.
pub open spec fn spec_i64_direct(data: Seq<u8>, pos: nat) -> (core::result::Result<i64, SpecError>, nat) {
    if pos >= data.len() {
        (Err(SpecError::Truncated), pos)
    } else {
        let tc = data[pos as int];
        if tc <= type_code::SMALLINT_MAX {
            (Ok((tc - 100) as i64), pos + 1)
        } else if type_code::UINT8 <= tc <= type_code::SINT64 {
            let st = spec_int_step(data, pos + 1, tc, 0);
            match st.result {
                Ok(Token::Int(v)) => (Ok(v), st.pos),
                Ok(Token::UInt(u)) => (Ok(u as i64), st.pos),
                Ok(_) => (Err(SpecError::Truncated), st.pos),
                Err(e) => (Err(e), st.pos),
            }
        } else {
            (Err(SpecError::Custom(spec_code_message("expected integer, got "@, tc))), pos + 1)
        }
    }
}

/// Reading an integer as a `u64` at `pos`: a negative value is out of range,
/// and any code other than an integer is refused with a message naming it.
pub open spec fn spec_u64_direct(data: Seq<u8>, pos: nat) -> (core::result::Result<u64, SpecError>, nat) {
    if pos >= data.len() {
        (Err(SpecError::Truncated), pos)
    } else {
        let tc = data[pos as int];
        if tc <= type_code::SMALLINT_MAX {
            if tc < 100 {
                (Err(SpecError::ValueOutOfRange), pos + 1)
            } else {
                (Ok((tc - 100) as u64), pos + 1)
            }
        } else if type_code::UINT8 <= tc <= type_code::SINT64 {
            let st = spec_int_step(data, pos + 1, tc, 0);
            match st.result {
                Ok(Token::Int(v)) => if v < 0 {
                    (Err(SpecError::ValueOutOfRange), st.pos)
                } else {
                    (Ok(v as u64), st.pos)
                },
                Ok(Token::UInt(u)) => (Ok(u), st.pos),
                Ok(_) => (Err(SpecError::Truncated), st.pos),
                Err(e) => (Err(e), st.pos),
            }
        } else {
            (Err(SpecError::Custom(spec_code_message("expected unsigned integer, got "@, tc))), pos + 1)
        }
    }
}

/// The elements of a byte array from `pos` up to and including its end
/// marker: each element is a small integer from 0 to 100 or a one-byte
/// unsigned integer; anything else is refused.
pub open spec fn spec_byte_items(data: Seq<u8>, pos: nat) -> (
    core::result::Result<Seq<u8>, SpecError>,
    nat,
)
    decreases data.len() - pos,
{
    if pos >= data.len() {
        (Err(SpecError::Truncated), pos)
    } else {
        let tc = data[pos as int];
        if tc == type_code::CONTAINER_END {
            (Ok(Seq::empty()), pos + 1)
        } else if 100 <= tc <= type_code::SMALLINT_MAX {
            let rest = spec_byte_items(data, pos + 1);
            match rest.0 {
                Ok(s) => (Ok(seq![(tc - 100) as u8] + s), rest.1),
                Err(e) => (Err(e), rest.1),
            }
        } else if tc == type_code::UINT8 {
            if pos + 1 >= data.len() {
                (Err(SpecError::Truncated), pos + 1)
            } else {
                let rest = spec_byte_items(data, pos + 2);
                match rest.0 {
                    Ok(s) => (Ok(seq![data[pos + 1int]] + s), rest.1),
                    Err(e) => (Err(e), rest.1),
                }
            }
        } else {
            (Err(SpecError::Custom("expected byte array"@)), pos)
        }
    }
}

proof fn lemma_first_index_from(needle: u8, s: Seq<u8>, w: int)
    requires
        0 <= w < s.len(),
        s[w] == needle,
    ensures
        exists|i: int|
            0 <= i < s.len() && s[i] == needle && forall|j: int| 0 <= j < i ==> s[j] != needle,
    decreases w,
{
    if exists|j: int| 0 <= j < w && s[j] == needle {
        let j = choose|j: int| 0 <= j < w && s[j] == needle;
        lemma_first_index_from(needle, s, j);
    } else {
        assert(0 <= w < s.len() && s[w] == needle && forall|j: int| 0 <= j < w ==> s[j] != needle);
    }
}

proof fn lemma_first_index_bound(needle: u8, s: Seq<u8>)
    ensures
        spec_first_index(needle, s) matches Some(i) ==> i < s.len() && s[i as int] == needle,
{
    if exists|i: int| 0 <= i < s.len() && s[i] == needle {
        let w = choose|i: int| 0 <= i < s.len() && s[i] == needle;
        lemma_first_index_from(needle, s, w);
    }
}

/// A decoding step that succeeds consumes at least the type code and stays
/// within the input.
pub proof fn lemma_decode_at_advances(data: Seq<u8>, pos: nat, depth: nat, cfg: DecoderConfig)
    ensures
        spec_decode_at(data, pos, depth, cfg).result is Ok ==> pos < spec_decode_at(
            data,
            pos,
            depth,
            cfg,
        ).pos <= data.len(),
{
    reveal(spec_decode_at);
    if pos < data.len() {
        let p = pos + 1;
        let tc = data[pos as int];
        if tc == type_code::STRING_LONG {
            lemma_first_index_bound(0xff, data.subrange(p as int, data.len() as int));
        }
        if tc == type_code::BIG_NUMBER {
            let r1 = data.subrange(p as int, data.len() as int);
            if spec_leb128_decode(r1) is Some {
                lemma_leb128_decode_len(r1);
                let p2 = p + spec_leb128_decode(r1)->Some_0.1;
                let r2 = data.subrange(p2 as int, data.len() as int);
                if spec_leb128_decode(r2) is Some {
                    lemma_leb128_decode_len(r2);
                }
            }
        }
    }
}

/// A BONJSON decoder that reads from a byte slice.
pub struct Decoder<'a> {
    data: &'a [u8],
    pos: usize,
    config: DecoderConfig,
    /// Stack tracking container depth (true = object)
    containers: Vec<bool>,
}

pub(crate) proof fn lemma_le_value_bound(s: Seq<u8>)
    ensures
        spec_le_value(s) < pow2(8 * s.len()),
    decreases s.len(),
{
    vstd::arithmetic::power2::lemma2_to64();
    if s.len() > 0 {
        lemma_le_value_bound(s.drop_first());
        vstd::arithmetic::power2::lemma_pow2_adds(8, 8 * (s.len() - 1) as nat);
        let r = spec_le_value(s.drop_first());
        let p = pow2(8 * (s.len() - 1) as nat);
        assert(s[0] as nat + 256 * r < 256 * p) by (nonlinear_arith)
            requires
                r < p,
                s[0] < 256,
        ;
        assert(8 + 8 * (s.len() - 1) == 8 * s.len());
    }
}

pub(crate) proof fn lemma_le_top_byte(s: Seq<u8>)
    requires
        1 <= s.len() <= 8,
    ensures
        s.last() >= 128 <==> spec_le_value(s) >= pow2((8 * s.len() - 1) as nat),
    decreases s.len(),
{
    vstd::arithmetic::power2::lemma2_to64();
    vstd::arithmetic::power2::lemma2_to64_rest();
    let r = s.drop_first();
    if s.len() == 1 {
        assert(r.len() == 0);
        assert(spec_le_value(r) == 0);
    } else {
        lemma_le_top_byte(r);
        lemma_le_value_bound(r);
        assert(r.last() == s.last());
        let k = (8 * r.len() - 1) as nat;
        vstd::arithmetic::power2::lemma_pow2_adds(8, k);
        assert(8 + k == (8 * s.len() - 1) as nat);
        let v = spec_le_value(r);
        let p = pow2(k);
        assert(pow2((8 * s.len() - 1) as nat) == 256 * p);
        assert(v >= p ==> s[0] as nat + 256 * v >= 256 * p) by (nonlinear_arith);
        assert(v < p ==> s[0] as nat + 256 * v < 256 * p) by (nonlinear_arith)
            requires
                s[0] < 256,
        ;
    }
}

/// Little-endian value of a short byte slice.
fn le_value_of(bytes: &[u8]) -> (r: u64)
    requires
        bytes@.len() <= 8,
    ensures
        r as nat == spec_le_value(bytes@),
{
    let n = bytes.len();
    let mut v: u64 = 0;
    let mut i: usize = n;
    proof {
        assert(bytes@.skip(n as int) =~= Seq::<u8>::empty());
        vstd::arithmetic::power2::lemma2_to64();
    }
    while i > 0
        invariant
            i <= n == bytes@.len() <= 8,
            v as nat == spec_le_value(bytes@.skip(i as int)),
        decreases i,
    {
        let ghost t = bytes@.skip(i - 1);
        proof {
            assert(t.drop_first() =~= bytes@.skip(i as int));
            lemma_le_value_bound(t);
            vstd::arithmetic::power2::lemma2_to64();
            vstd::arithmetic::power2::lemma2_to64_rest();
            if t.len() < 8 {
                vstd::arithmetic::power2::lemma_pow2_strictly_increases(8 * t.len(), 64);
            }
            assert(t[0] == bytes@[i - 1]);
        }
        v = v * 256 + bytes[i - 1] as u64;
        i -= 1;
    }
    assert(bytes@.skip(0) =~= bytes@);
    v
}

impl<'a> Decoder<'a> {
    /// The input bytes.
    pub closed spec fn input(&self) -> Seq<u8> {
        self.data@
    }

    /// The read position.
    pub closed spec fn pos(&self) -> nat {
        self.pos as nat
    }

    /// The number of open containers.
    pub closed spec fn depth(&self) -> nat {
        self.containers@.len()
    }

    /// The configuration.
    pub closed spec fn cfg(&self) -> DecoderConfig {
        self.config
    }

    /// The read position lies within the input.
    pub open spec fn wf(&self) -> bool {
        self.pos() <= self.input().len()
    }

    /// The decoder moved to `pos` and `depth`, with the same input and configuration.
    pub open spec fn moved(&self, old: Self, pos: int, depth: nat) -> bool {
        &&& self.wf()
        &&& self.input() == old.input()
        &&& self.cfg() == old.cfg()
        &&& self.pos() == pos
        &&& self.depth() == depth
    }

    /// Create a new decoder for the given data.
    pub fn new(data: &'a [u8]) -> (r: Self)
        ensures
            r.wf(),
            r.input() == data@,
            r.pos() == 0,
            r.depth() == 0,
            r.cfg() == spec_default_config(),
    {
        Self::with_config(data, DecoderConfig::default())
    }

    /// Create a new decoder with custom configuration.
    pub fn with_config(data: &'a [u8], config: DecoderConfig) -> (r: Self)
        ensures
            r.wf(),
            r.input() == data@,
            r.pos() == 0,
            r.depth() == 0,
            r.cfg() == config,
    {
        Self { data, pos: 0, config, containers: Vec::new() }
    }

    /// Check document size limit (called once at start of decoding).
    pub fn check_document_size(&self) -> (r: Result<()>)
        ensures
            r is Err <==> self.input().len() > self.cfg().max_document_size,
            r is Err ==> r == Err::<(), Error>(Error::MaxDocumentSizeExceeded),
    {
        if self.data.len() > self.config.max_document_size {
            return Err(Error::MaxDocumentSizeExceeded);
        }
        Ok(())
    }

    /// Get the current position in the input.
    pub fn position(&self) -> (r: usize)
        ensures
            r as nat == self.pos(),
    {
        self.pos
    }

    /// Get the remaining bytes.
    pub fn remaining(&self) -> (r: &'a [u8])
        requires
            self.wf(),
        ensures
            r@ == self.input().subrange(self.pos() as int, self.input().len() as int),
    {
        vstd::slice::slice_subrange(self.data, self.pos, self.data.len())
    }

    /// Check if we've reached the end of input.
    pub fn is_empty(&self) -> (r: bool)
        ensures
            r == (self.pos() >= self.input().len()),
    {
        self.pos >= self.data.len()
    }

    /// Get the decoder configuration.
    pub fn config(&self) -> (r: &DecoderConfig)
        ensures
            *r == self.cfg(),
    {
        &self.config
    }

    /// Skip a single byte (for use after peeking).
    pub fn skip_byte(&mut self)
        requires
            old(self).wf(),
            old(self).pos() < old(self).input().len(),
        ensures
            final(self).moved(*old(self), old(self).pos() + 1int, old(self).depth()),
    {
        assert(self.pos < self.data.len());
        self.pos += 1;
    }

    /// Read a byte that is known to be there, advancing position.
    pub fn read_byte_unchecked(&mut self) -> (r: u8)
        requires
            old(self).wf(),
            old(self).pos() < old(self).input().len(),
        ensures
            r == old(self).input()[old(self).pos() as int],
            final(self).moved(*old(self), old(self).pos() + 1int, old(self).depth()),
    {
        let b = self.data[self.pos];
        self.pos += 1;
        b
    }

    /// Read a single byte, advancing position.
    fn read_byte(&mut self) -> (r: Result<u8>)
        requires
            old(self).wf(),
        ensures
            old(self).pos() < old(self).input().len() ==> r == Ok::<u8, Error>(
                old(self).input()[old(self).pos() as int],
            ) && final(self).moved(*old(self), old(self).pos() + 1int, old(self).depth()),
            old(self).pos() >= old(self).input().len() ==> r == Err::<u8, Error>(Error::Truncated)
                && final(self).moved(*old(self), old(self).pos() as int, old(self).depth()),
    {
        if self.pos >= self.data.len() {
            return Err(Error::Truncated);
        }
        let byte = self.data[self.pos];
        self.pos += 1;
        Ok(byte)
    }

    /// Read exactly n bytes.
    fn read_bytes(&mut self, n: usize) -> (r: Result<&'a [u8]>)
        requires
            old(self).wf(),
        ensures
            old(self).pos() + n <= old(self).input().len() ==> (r matches Ok(b) && b@
                == old(self).input().subrange(old(self).pos() as int, old(self).pos() + n))
                && final(self).moved(*old(self), old(self).pos() + n, old(self).depth()),
            old(self).pos() + n > old(self).input().len() ==> r == Err::<&[u8], Error>(
                Error::Truncated,
            ) && final(self).moved(*old(self), old(self).pos() as int, old(self).depth()),
    {
        if n > self.data.len() - self.pos {
            return Err(Error::Truncated);
        }
        let bytes = vstd::slice::slice_subrange(self.data, self.pos, self.pos + n);
        self.pos += n;
        Ok(bytes)
    }

    /// Peek at the next type code without consuming it.
    pub fn peek_type_code(&self) -> (r: Result<u8>)
        ensures
            self.pos() < self.input().len() ==> r == Ok::<u8, Error>(
                self.input()[self.pos() as int],
            ),
            self.pos() >= self.input().len() ==> r == Err::<u8, Error>(Error::Truncated),
    {
        if self.pos >= self.data.len() {
            return Err(Error::Truncated);
        }
        Ok(self.data[self.pos])
    }

    /// Begin a container (push onto stack, check depth).
    fn begin_container(&mut self, is_object: bool) -> (r: Result<()>)
        requires
            old(self).wf(),
        ensures
            old(self).depth() >= old(self).cfg().max_depth ==> r == Err::<(), Error>(
                Error::MaxDepthExceeded,
            ) && final(self).moved(*old(self), old(self).pos() as int, old(self).depth()),
            old(self).depth() < old(self).cfg().max_depth ==> r is Ok && final(self).moved(*old(self), old(self).pos() as int,
                old(self).depth() + 1,
            ),
    {
        if self.containers.len() >= self.config.max_depth {
            return Err(Error::MaxDepthExceeded);
        }
        self.containers.push(is_object);
        Ok(())
    }

    /// Check if at container end (next byte is 0xFE) and consume it if so.
    pub fn try_consume_container_end(&mut self) -> (r: Result<bool>)
        requires
            old(self).wf(),
        ensures
            old(self).pos() >= old(self).input().len() ==> r == Err::<bool, Error>(
                Error::Truncated,
            ) && final(self).moved(*old(self), old(self).pos() as int, old(self).depth()),
            old(self).pos() < old(self).input().len() && old(self).input()[old(self).pos() as int]
                == type_code::CONTAINER_END ==> r == Ok::<bool, Error>(true) && final(self).moved(
                *old(self),
                old(self).pos() + 1int,
                if old(self).depth() > 0 {
                    (old(self).depth() - 1) as nat
                } else {
                    0
                },
            ),
            old(self).pos() < old(self).input().len() && old(self).input()[old(self).pos() as int]
                != type_code::CONTAINER_END ==> r == Ok::<bool, Error>(false) && final(self).moved(*old(self), old(self).pos() as int,
                old(self).depth(),
            ),
    {
        if self.pos < self.data.len() && self.data[self.pos] == type_code::CONTAINER_END {
            self.pos += 1;
            self.containers.pop();
            Ok(true)
        } else if self.pos >= self.data.len() {
            Err(Error::Truncated)
        } else {
            Ok(false)
        }
    }

    /// Read an unsigned integer of given byte size (1, 2, 4, or 8).
    fn read_unsigned_int_sized(&mut self, size: usize) -> (r: Result<u64>)
        requires
            old(self).wf(),
            size <= 8,
        ensures
            old(self).pos() + size <= old(self).input().len() ==> r == Ok::<u64, Error>(
                spec_le_value(
                    old(self).input().subrange(old(self).pos() as int, old(self).pos() + size),
                ) as u64,
            ) && final(self).moved(*old(self), old(self).pos() + size, old(self).depth()),
            old(self).pos() + size > old(self).input().len() ==> r == Err::<u64, Error>(
                Error::Truncated,
            ) && final(self).moved(*old(self), old(self).pos() as int, old(self).depth()),
    {
        let bytes = self.read_bytes(size)?;
        Ok(le_value_of(bytes))
    }

    /// Read a signed integer of given byte size (1, 2, 4, or 8).
    fn read_signed_int_sized(&mut self, size: usize) -> (r: Result<i64>)
        requires
            old(self).wf(),
            1 <= size <= 8,
        ensures
            old(self).pos() + size <= old(self).input().len() ==> r == Ok::<i64, Error>(
                spec_sign_extend(
                    old(self).input().subrange(old(self).pos() as int, old(self).pos() + size),
                ) as i64,
            ) && final(self).moved(*old(self), old(self).pos() + size, old(self).depth()),
            old(self).pos() + size > old(self).input().len() ==> r == Err::<i64, Error>(
                Error::Truncated,
            ) && final(self).moved(*old(self), old(self).pos() as int, old(self).depth()),
    {
        let bytes = self.read_bytes(size)?;
        let u = le_value_of(bytes);
        let top = bytes[size - 1];
        proof {
            lemma_le_value_bound(bytes@);
            vstd::arithmetic::power2::lemma2_to64();
            vstd::arithmetic::power2::lemma2_to64_rest();
        }
        if size == 8 {
            assert(u >= 0x8000_0000_0000_0000 ==> (u as i64) as int == u - 0x1_0000_0000_0000_0000)
                by (bit_vector);
            assert(u < 0x8000_0000_0000_0000 ==> (u as i64) as int == u) by (bit_vector);
            proof {
                lemma_le_top_byte(bytes@);
            }
            return Ok(u as i64);
        }
        proof {
            lemma_le_top_byte(bytes@);
            vstd::arithmetic::power2::lemma_pow2_strictly_increases(8 * size as nat, 64);
        }
        if top >= 128 {
            let shift: u64 = 8 * size as u64;
            let modulus: i64 = (1u64 << shift) as i64;
            proof {
                vstd::bits::lemma_u64_shl_is_mul(1, shift);
                vstd::bits::lemma_u64_pow2_no_overflow(shift as nat);
                vstd::arithmetic::power2::lemma_pow2_strictly_increases(shift as nat, 63);
            }
            Ok((u as i64) - modulus)
        } else {
            Ok(u as i64)
        }
    }

    /// Read a float32 value, widened to binary64 bits.
    fn read_float32(&mut self) -> (r: Result<u64>)
        requires
            old(self).wf(),
        ensures
            ({
                let st = spec_float_step(
                    old(self).input(),
                    old(self).pos(),
                    4,
                    old(self).depth(),
                    old(self).cfg(),
                );
                &&& float_matches(r, st.result)
                &&& final(self).moved(*old(self), st.pos as int, st.depth)
            }),
    {
        let bytes = self.read_bytes(4)?;
        let raw = le_value_of(bytes);
        proof {
            lemma_le_value_bound(bytes@);
            vstd::arithmetic::power2::lemma2_to64();
        }
        let bits = f32_bits_to_f64_bits(raw as u32);
        self.check_float(bits)?;
        Ok(bits)
    }

    /// Read a float64 value as its bits.
    fn read_float64(&mut self) -> (r: Result<u64>)
        requires
            old(self).wf(),
        ensures
            ({
                let st = spec_float_step(
                    old(self).input(),
                    old(self).pos(),
                    8,
                    old(self).depth(),
                    old(self).cfg(),
                );
                &&& float_matches(r, st.result)
                &&& final(self).moved(*old(self), st.pos as int, st.depth)
            }),
    {
        let bytes = self.read_bytes(8)?;
        let bits = le_value_of(bytes);
        self.check_float(bits)?;
        Ok(bits)
    }

    /// Check if a float value (given by its bits) is allowed.
    fn check_float(&self, bits: u64) -> (r: Result<()>)
        ensures
            float_matches(
                match r {
                    Ok(_) => Ok(bits),
                    Err(e) => Err(e),
                },
                spec_float_check(bits, self.cfg()),
            ),
    {
        if self.config.nan_infinity_mode == NanInfinityMode::Reject {
            if f64_is_nan(bits) {
                return Err(Error::NanNotAllowed);
            }
            if f64_is_infinite(bits) {
                return Err(Error::InfinityNotAllowed);
            }
        }
        Ok(())
    }

    /// Check a string's bytes for NUL unless allowed.
    fn check_nul(&self, bytes: &[u8]) -> (r: Result<()>)
        ensures
            r is Err <==> !self.cfg().allow_nul && bytes@.contains(0),
            r is Err ==> r == Err::<(), Error>(Error::NulCharacter),
    {
        if !self.config.allow_nul {
            if let Some(i) = find_byte(0, bytes) {
                assert(bytes@[i as int] == 0);
                return Err(Error::NulCharacter);
            }
        }
        Ok(())
    }

    /// Decode string content (short string: after type code, known length).
    fn decode_string_content(&mut self, len: usize) -> (r: Result<&'a str>)
        requires
            old(self).wf(),
        ensures
            ({
                let st = spec_short_string(
                    old(self).input(),
                    old(self).pos(),
                    len as nat,
                    old(self).cfg(),
                    true,
                );
                &&& res_view(r) == st.0
                &&& final(self).moved(*old(self), st.1 as int, old(self).depth())
            }),
    {
        if len > self.config.max_string_length {
            return Err(Error::MaxStringLengthExceeded);
        }
        let bytes = self.read_bytes(len)?;
        let s = match validate_utf8(bytes) {
            Some(s) => s,
            None => return Err(Error::InvalidUtf8),
        };
        self.check_nul(bytes)?;
        Ok(s)
    }

    /// Decode long string content (FF-terminated: read until next 0xFF).
    fn decode_long_string_content(&mut self) -> (r: Result<&'a str>)
        requires
            old(self).wf(),
        ensures
            ({
                let st = spec_long_string(old(self).input(), old(self).pos(), old(self).cfg(), true);
                &&& res_view(r) == st.0
                &&& final(self).moved(*old(self), st.1 as int, old(self).depth())
            }),
    {
        let start = self.pos;
        let remaining = vstd::slice::slice_subrange(self.data, start, self.data.len());
        match find_byte(0xFF, remaining) {
            Some(offset) => {
                proof {
                    lemma_first_index_is(0xff, remaining@, offset as nat);
                }
                let end = start + offset;
                self.pos = end + 1;
                if offset > self.config.max_string_length {
                    return Err(Error::MaxStringLengthExceeded);
                }
                let bytes = vstd::slice::slice_subrange(self.data, start, end);
                let s = match validate_utf8(bytes) {
                    Some(s) => s,
                    None => return Err(Error::InvalidUtf8),
                };
                self.check_nul(bytes)?;
                Ok(s)
            },
            None => {
                proof {
                    lemma_first_index_none(0xff, remaining@);
                }
                Err(Error::Truncated)
            },
        }
    }

    /// The characters of string bytes under the configured handling of invalid UTF-8.
    fn string_from_bytes(&self, bytes: &[u8]) -> (r: Result<String>)
        ensures
            res_view(r) == spec_string_result(bytes@, self.cfg(), false),
    {
        let s = match validate_utf8(bytes) {
            Some(s) => String::from_str(s),
            None => match self.config.invalid_utf8_mode {
                InvalidUtf8Mode::Reject => return Err(Error::InvalidUtf8),
                InvalidUtf8Mode::Replace => utf8_lossy(bytes),
                InvalidUtf8Mode::Delete => delete_invalid_utf8(bytes),
            },
        };
        self.check_nul(bytes)?;
        Ok(s)
    }

    /// Decode string content with invalid UTF-8 handling.
    fn decode_string_content_cow(&mut self, len: usize) -> (r: Result<String>)
        requires
            old(self).wf(),
        ensures
            ({
                let st = spec_short_string(
                    old(self).input(),
                    old(self).pos(),
                    len as nat,
                    old(self).cfg(),
                    false,
                );
                &&& res_view(r) == st.0
                &&& final(self).moved(*old(self), st.1 as int, old(self).depth())
            }),
    {
        if len > self.config.max_string_length {
            return Err(Error::MaxStringLengthExceeded);
        }
        let bytes = self.read_bytes(len)?;
        self.string_from_bytes(bytes)
    }

    /// Decode long string content with invalid UTF-8 handling.
    fn decode_long_string_content_cow(&mut self) -> (r: Result<String>)
        requires
            old(self).wf(),
        ensures
            ({
                let st = spec_long_string(old(self).input(), old(self).pos(), old(self).cfg(), false);
                &&& res_view(r) == st.0
                &&& final(self).moved(*old(self), st.1 as int, old(self).depth())
            }),
    {
        let start = self.pos;
        let remaining = vstd::slice::slice_subrange(self.data, start, self.data.len());
        match find_byte(0xFF, remaining) {
            Some(offset) => {
                proof {
                    lemma_first_index_is(0xff, remaining@, offset as nat);
                }
                let end = start + offset;
                self.pos = end + 1;
                if offset > self.config.max_string_length {
                    return Err(Error::MaxStringLengthExceeded);
                }
                let bytes = vstd::slice::slice_subrange(self.data, start, end);
                self.string_from_bytes(bytes)
            },
            None => {
                proof {
                    lemma_first_index_none(0xff, remaining@);
                }
                Err(Error::Truncated)
            },
        }
    }

    /// Decode a BigNumber (zigzag LEB128 exponent + zigzag LEB128 signed_length + LE magnitude).
    fn decode_big_number(&mut self) -> (r: Result<DecodedValue>)
        requires
            old(self).wf(),
        ensures
            ({
                let st = spec_bignumber_step(
                    old(self).input(),
                    old(self).pos(),
                    old(self).depth(),
                    old(self).cfg(),
                );
                &&& res_view(r) == st.result
                &&& final(self).moved(*old(self), st.pos as int, st.depth)
            }),
    {
        let remaining = vstd::slice::slice_subrange(self.data, self.pos, self.data.len());
        let (exp_raw, exp_consumed) = match leb128_decode(remaining) {
            Some(x) => x,
            None => return Err(Error::Truncated),
        };
        proof {
            lemma_leb128_decode_len(remaining@);
        }
        self.pos += exp_consumed;
        let exponent = zigzag_decode(exp_raw);
        if unsigned_abs(exponent) > self.config.max_bignumber_exponent as u64
            && self.config.out_of_range_mode != OutOfRangeMode::Stringify {
            return Err(Error::MaxBignumberExponentExceeded);
        }
        let remaining = vstd::slice::slice_subrange(self.data, self.pos, self.data.len());
        let (slen_raw, slen_consumed) = match leb128_decode(remaining) {
            Some(x) => x,
            None => return Err(Error::Truncated),
        };
        proof {
            lemma_leb128_decode_len(remaining@);
        }
        self.pos += slen_consumed;
        let signed_length = zigzag_decode(slen_raw);
        if signed_length == 0 {
            return Ok(DecodedValue::BigNumber(BigNumber::new(1, 0, exponent)));
        }
        let sign: i8 = if signed_length < 0 {
            -1
        } else {
            1
        };
        let count = unsigned_abs(signed_length);
        if count > self.config.max_bignumber_magnitude as u64 && self.config.out_of_range_mode
            != OutOfRangeMode::Stringify {
            return Err(Error::MaxBignumberMagnitudeExceeded);
        }
        if count > 8 {
            return Err(Error::InvalidData(String::from_str("BigNumber magnitude exceeds u64 range")));
        }
        let byte_count = count as usize;
        let magnitude_bytes = self.read_bytes(byte_count)?;
        if magnitude_bytes[byte_count - 1] == 0 {
            return Err(Error::InvalidData(String::from_str("non-normalized BigNumber magnitude")));
        }
        let significand = le_value_of(magnitude_bytes);
        Ok(DecodedValue::BigNumber(BigNumber::new(sign, significand, exponent)))
    }

    /// Decode a value given its type code.
    fn decode_value_with_type_code(&mut self, tc: u8) -> (r: Result<DecodedValue>)
        requires
            old(self).wf(),
        ensures
            ({
                let st = spec_decode_code(
                    old(self).input(),
                    old(self).pos(),
                    tc,
                    old(self).depth(),
                    old(self).cfg(),
                );
                &&& res_view(r) == st.result
                &&& final(self).moved(*old(self), st.pos as int, st.depth)
            }),
    {
        if type_code::is_small_int(tc) {
            return Ok(DecodedValue::Int(type_code::small_int_value(tc) as i64));
        }
        if type_code::is_short_string(tc) {
            let len = type_code::short_string_len(tc);
            let s = self.decode_string_content_cow(len)?;
            return Ok(DecodedValue::String(s));
        }
        if type_code::is_any_int(tc) {
            let size = type_code::int_size(tc);
            return if type_code::int_is_signed(tc) {
                let val = self.read_signed_int_sized(size)?;
                Ok(DecodedValue::Int(val))
            } else {
                let val = self.read_unsigned_int_sized(size)?;
                Ok(DecodedValue::UInt(val))
            };
        }
        if tc == type_code::FLOAT32 {
            let f = self.read_float32()?;
            Ok(DecodedValue::Float(f))
        } else if tc == type_code::FLOAT64 {
            let f = self.read_float64()?;
            Ok(DecodedValue::Float(f))
        } else if tc == type_code::BIG_NUMBER {
            self.decode_big_number()
        } else if tc == type_code::NULL {
            Ok(DecodedValue::Null)
        } else if tc == type_code::FALSE {
            Ok(DecodedValue::Bool(false))
        } else if tc == type_code::TRUE {
            Ok(DecodedValue::Bool(true))
        } else if tc == type_code::CONTAINER_END {
            match self.containers.pop() {
                Some(_) => Ok(DecodedValue::ContainerEnd),
                None => Err(Error::UnbalancedContainers),
            }
        } else if tc == type_code::ARRAY {
            self.begin_container(false)?;
            Ok(DecodedValue::ArrayStart)
        } else if tc == type_code::OBJECT {
            self.begin_container(true)?;
            Ok(DecodedValue::ObjectStart)
        } else if tc == type_code::STRING_LONG {
            let s = self.decode_long_string_content_cow()?;
            Ok(DecodedValue::String(s))
        } else {
            Err(Error::InvalidTypeCode(tc))
        }
    }

    /// Decode the next value from the input.
    pub fn decode_value(&mut self) -> (r: Result<DecodedValue>)
        requires
            old(self).wf(),
        ensures
            ({
                let st = spec_decode_at(
                    old(self).input(),
                    old(self).pos(),
                    old(self).depth(),
                    old(self).cfg(),
                );
                &&& res_view(r) == st.result
                &&& final(self).moved(*old(self), st.pos as int, st.depth)
            }),
    {
        proof {
            reveal(spec_decode_at);
        }
        let tc = self.read_byte()?;
        self.decode_value_with_type_code(tc)
    }

    /// Decode the next value without container state tracking.
    pub fn decode_value_unchecked(&mut self) -> (r: Result<DecodedValue>)
        requires
            old(self).wf(),
        ensures
            ({
                let st = spec_decode_at(
                    old(self).input(),
                    old(self).pos(),
                    old(self).depth(),
                    old(self).cfg(),
                );
                &&& res_view(r) == st.result
                &&& final(self).moved(*old(self), st.pos as int, st.depth)
            }),
    {
        proof {
            reveal(spec_decode_at);
        }
        let tc = self.read_byte()?;
        self.decode_value_with_type_code(tc)
    }

    /// Expect and skip an array start marker.
    pub fn expect_array_start(&mut self) -> (r: Result<()>)
        requires
            old(self).wf(),
        ensures
            ({
                let d = old(self).input();
                let p = old(self).pos();
                let depth = old(self).depth();
                &&& p >= d.len() ==> r == Err::<(), Error>(Error::Truncated) && final(self).moved(
                    *old(self),
                    p as int,
                    depth,
                )
                &&& p < d.len() && d[p as int] != type_code::ARRAY ==> (r matches Err(e) && e@
                    == SpecError::Custom(spec_code_message("expected array, got "@, d[p as int])))
                    && final(self).moved(*old(self), p + 1int, depth)
                &&& p < d.len() && d[p as int] == type_code::ARRAY && depth >= old(self).cfg().max_depth
                    ==> r == Err::<(), Error>(Error::MaxDepthExceeded) && final(self).moved(
                    *old(self),
                    p + 1int,
                    depth,
                )
                &&& p < d.len() && d[p as int] == type_code::ARRAY && depth < old(self).cfg().max_depth
                    ==> r is Ok && final(self).moved(*old(self), p + 1int, depth + 1)
            }),
    {
        let tc = self.read_byte()?;
        if tc != type_code::ARRAY {
            return Err(Error::Custom(code_message("expected array, got ", tc)));
        }
        self.begin_container(false)
    }

    /// Expect and skip an object start marker.
    pub fn expect_object_start(&mut self) -> (r: Result<()>)
        requires
            old(self).wf(),
        ensures
            ({
                let d = old(self).input();
                let p = old(self).pos();
                let depth = old(self).depth();
                &&& p >= d.len() ==> r == Err::<(), Error>(Error::Truncated) && final(self).moved(
                    *old(self),
                    p as int,
                    depth,
                )
                &&& p < d.len() && d[p as int] != type_code::OBJECT ==> (r matches Err(e) && e@
                    == SpecError::Custom(spec_code_message("expected object, got "@, d[p as int])))
                    && final(self).moved(*old(self), p + 1int, depth)
                &&& p < d.len() && d[p as int] == type_code::OBJECT && depth >= old(self).cfg().max_depth
                    ==> r == Err::<(), Error>(Error::MaxDepthExceeded) && final(self).moved(
                    *old(self),
                    p + 1int,
                    depth,
                )
                &&& p < d.len() && d[p as int] == type_code::OBJECT && depth < old(self).cfg().max_depth
                    ==> r is Ok && final(self).moved(*old(self), p + 1int, depth + 1)
            }),
    {
        let tc = self.read_byte()?;
        if tc != type_code::OBJECT {
            return Err(Error::Custom(code_message("expected object, got ", tc)));
        }
        self.begin_container(true)
    }

    /// Read a single typed array element of the given kind.
    pub fn read_typed_array_element(&mut self, kind: ElementKind) -> (r: Result<DecodedValue>)
        requires
            old(self).wf(),
        ensures
            ({
                let st = spec_typed_element_step(
                    old(self).input(),
                    old(self).pos(),
                    kind,
                    old(self).depth(),
                    old(self).cfg(),
                );
                &&& res_view(r) == st.result
                &&& final(self).moved(*old(self), st.pos as int, st.depth)
            }),
    {
        match kind {
            ElementKind::F32 => Ok(DecodedValue::Float(self.read_float32()?)),
            ElementKind::F64 => Ok(DecodedValue::Float(self.read_float64()?)),
            ElementKind::I8 => Ok(DecodedValue::Int(self.read_signed_int_sized(1)?)),
            ElementKind::I16 => Ok(DecodedValue::Int(self.read_signed_int_sized(2)?)),
            ElementKind::I32 => Ok(DecodedValue::Int(self.read_signed_int_sized(4)?)),
            ElementKind::I64 => Ok(DecodedValue::Int(self.read_signed_int_sized(8)?)),
            ElementKind::U8 => Ok(DecodedValue::UInt(self.read_unsigned_int_sized(1)?)),
            ElementKind::U16 => Ok(DecodedValue::UInt(self.read_unsigned_int_sized(2)?)),
            ElementKind::U32 => Ok(DecodedValue::UInt(self.read_unsigned_int_sized(4)?)),
            ElementKind::U64 => Ok(DecodedValue::UInt(self.read_unsigned_int_sized(8)?)),
        }
    }

    /// Decode an i64 directly: an unsigned value is taken with the same bits.
    pub fn decode_i64_direct(&mut self) -> (r: Result<i64>)
        requires
            old(self).wf(),
        ensures
            ({
                let st = spec_i64_direct(old(self).input(), old(self).pos());
                &&& res_view(r) == st.0
                &&& final(self).moved(*old(self), st.1 as int, old(self).depth())
            }),
    {
        let tc = self.read_byte()?;
        if type_code::is_small_int(tc) {
            return Ok(type_code::small_int_value(tc) as i64);
        }
        if type_code::is_any_int(tc) {
            let size = type_code::int_size(tc);
            return if type_code::int_is_signed(tc) {
                self.read_signed_int_sized(size)
            } else {
                let u = self.read_unsigned_int_sized(size)?;
                Ok(u as i64)
            };
        }
        Err(Error::Custom(code_message("expected integer, got ", tc)))
    }

    /// Decode a u64 directly: a negative value is out of range.
    pub fn decode_u64_direct(&mut self) -> (r: Result<u64>)
        requires
            old(self).wf(),
        ensures
            ({
                let st = spec_u64_direct(old(self).input(), old(self).pos());
                &&& res_view(r) == st.0
                &&& final(self).moved(*old(self), st.1 as int, old(self).depth())
            }),
    {
        let tc = self.read_byte()?;
        if type_code::is_small_int(tc) {
            let v = type_code::small_int_value(tc);
            if v < 0 {
                return Err(Error::ValueOutOfRange);
            }
            return Ok(v as u64);
        }
        if type_code::is_any_int(tc) {
            let size = type_code::int_size(tc);
            return if type_code::int_is_signed(tc) {
                let signed_val = self.read_signed_int_sized(size)?;
                if signed_val < 0 {
                    return Err(Error::ValueOutOfRange);
                }
                Ok(signed_val as u64)
            } else {
                self.read_unsigned_int_sized(size)
            };
        }
        Err(Error::Custom(code_message("expected unsigned integer, got ", tc)))
    }

    /// Decode an array of bytes: its elements are small integers from 0 to
    /// 100 or one-byte unsigned integers.
    pub fn decode_bytes_direct(&mut self) -> (r: Result<Vec<u8>>)
        requires
            old(self).wf(),
        ensures
            ({
                let d = old(self).input();
                let p = old(self).pos();
                let depth = old(self).depth();
                let items = spec_byte_items(d, p + 1);
                &&& p >= d.len() ==> r == Err::<Vec<u8>, Error>(Error::Truncated)
                &&& p < d.len() && d[p as int] != type_code::ARRAY ==> (r matches Err(e) && e@
                    == SpecError::Custom(spec_code_message("expected array, got "@, d[p as int])))
                &&& p < d.len() && d[p as int] == type_code::ARRAY && depth >= old(self).cfg().max_depth
                    ==> r == Err::<Vec<u8>, Error>(Error::MaxDepthExceeded)
                &&& p < d.len() && d[p as int] == type_code::ARRAY && depth < old(self).cfg().max_depth
                    ==> res_view(r) == items.0 && (r is Ok ==> final(self).moved(
                    *old(self),
                    items.1 as int,
                    depth,
                ))
                &&& final(self).wf() && final(self).input() == d
                    && final(self).cfg() == old(self).cfg()
            }),
    {
        self.expect_array_start()?;
        let ghost start = self.pos();
        let ghost depth0 = self.depth();
        let mut bytes: Vec<u8> = Vec::new();
        loop
            invariant_except_break
                self.depth() == depth0,
                spec_byte_items(self.input(), start) == ({
                    let rest = spec_byte_items(self.input(), self.pos());
                    match rest.0 {
                        Ok(s) => (Ok(bytes@ + s), rest.1),
                        Err(e) => (Err(e), rest.1),
                    }
                }),
            invariant
                self.wf(),
                self.input() == old(self).input(),
                self.cfg() == old(self).cfg(),
                depth0 == old(self).depth() + 1,
                old(self).pos() < old(self).input().len(),
                old(self).input()[old(self).pos() as int] == type_code::ARRAY,
                old(self).depth() < old(self).cfg().max_depth,
                start == old(self).pos() + 1,
                start <= self.pos(),
            ensures
                spec_byte_items(self.input(), start) == (
                    Ok::<Seq<u8>, SpecError>(bytes@),
                    self.pos(),
                ),
                self.depth() == old(self).depth(),
            decreases self.input().len() - self.pos(),
        {
            let ghost q = self.pos();
            let ghost before = bytes@;
            if self.try_consume_container_end()? {
                assert(before + Seq::<u8>::empty() =~= before);
                break;
            }
            let tc = self.peek_type_code()?;
            if type_code::is_small_int(tc) && tc >= 100 {
                self.skip_byte();
                bytes.push(tc - 100);
            } else if tc == type_code::UINT8 {
                self.skip_byte();
                let b = self.read_byte()?;
                bytes.push(b);
            } else {
                proof {
                    reveal_strlit("expected byte array");
                }
                return Err(Error::Custom(String::from_str("expected byte array")));
            }
            proof {
                let rest = spec_byte_items(self.input(), self.pos());
                if let Ok(t) = rest.0 {
                    assert(before + (seq![bytes@.last()] + t) =~= bytes@ + t);
                }
            }
        }
        Ok(bytes)
    }

    /// Decode a bool directly.
    pub fn decode_bool_direct(&mut self) -> (r: Result<bool>)
        requires
            old(self).wf(),
        ensures
            ({
                let d = old(self).input();
                let p = old(self).pos();
                &&& p >= d.len() ==> r == Err::<bool, Error>(Error::Truncated) && final(self).moved(
                    *old(self),
                    p as int,
                    old(self).depth(),
                )
                &&& p < d.len() ==> final(self).moved(*old(self), p + 1int, old(self).depth()) && (
                if d[p as int] == type_code::TRUE {
                    r == Ok::<bool, Error>(true)
                } else if d[p as int] == type_code::FALSE {
                    r == Ok::<bool, Error>(false)
                } else {
                    r matches Err(e) && e@ == SpecError::Custom(
                        spec_code_message("expected bool, got "@, d[p as int]),
                    )
                })
            }),
    {
        let tc = self.read_byte()?;
        if tc == type_code::TRUE {
            Ok(true)
        } else if tc == type_code::FALSE {
            Ok(false)
        } else {
            Err(Error::Custom(code_message("expected bool, got ", tc)))
        }
    }

    /// Decode a string directly, borrowing it from the input; invalid UTF-8 is refused.
    pub fn decode_str_direct(&mut self) -> (r: Result<&'a str>)
        requires
            old(self).wf(),
        ensures
            ({
                let d = old(self).input();
                let p = old(self).pos();
                &&& p >= d.len() ==> r == Err::<&str, Error>(Error::Truncated) && final(self).moved(
                    *old(self),
                    p as int,
                    old(self).depth(),
                )
                &&& p < d.len() && type_code::STRING0 <= d[p as int] <= type_code::STRING15 ==> {
                    let st = spec_short_string(
                        d,
                        p + 1,
                        (d[p as int] - type_code::STRING0) as nat,
                        old(self).cfg(),
                        true,
                    );
                    res_view(r) == st.0 && final(self).moved(*old(self), st.1 as int, old(self).depth())
                }
                &&& p < d.len() && d[p as int] == type_code::STRING_LONG ==> {
                    let st = spec_long_string(d, p + 1, old(self).cfg(), true);
                    res_view(r) == st.0 && final(self).moved(*old(self), st.1 as int, old(self).depth())
                }
                &&& p < d.len() && !(type_code::STRING0 <= d[p as int] <= type_code::STRING15)
                    && d[p as int] != type_code::STRING_LONG ==> r == Err::<&str, Error>(
                    Error::ExpectedObjectKey,
                ) && final(self).moved(*old(self), p + 1int, old(self).depth())
            }),
    {
        let tc = self.read_byte()?;
        if type_code::is_short_string(tc) {
            let len = type_code::short_string_len(tc);
            return self.decode_string_content(len);
        }
        if tc == type_code::STRING_LONG {
            return self.decode_long_string_content();
        }
        Err(Error::ExpectedObjectKey)
    }

    /// Check if we're at the end of the current container (next byte is 0xFE).
    pub fn is_at_container_end(&self) -> (r: Result<bool>)
        ensures
            self.pos() >= self.input().len() ==> r == Err::<bool, Error>(Error::Truncated),
            self.pos() < self.input().len() ==> r == Ok::<bool, Error>(
                self.input()[self.pos() as int] == type_code::CONTAINER_END,
            ),
    {
        if self.pos >= self.data.len() {
            return Err(Error::Truncated);
        }
        Ok(self.data[self.pos] == type_code::CONTAINER_END)
    }

    /// End the current container (pop from stack and consume the 0xFE marker).
    pub fn end_container(&mut self) -> (r: Result<()>)
        requires
            old(self).wf(),
        ensures
            ({
                let d = old(self).input();
                let p = old(self).pos();
                let depth = old(self).depth();
                &&& p >= d.len() ==> r == Err::<(), Error>(Error::Truncated) && final(self).moved(
                    *old(self),
                    p as int,
                    depth,
                )
                &&& p < d.len() && d[p as int] != type_code::CONTAINER_END ==> (r matches Err(e)
                    && e@ == SpecError::Custom(
                    spec_code_message("expected container end, got "@, d[p as int]),
                )) && final(self).moved(*old(self), p + 1int, depth)
                &&& p < d.len() && d[p as int] == type_code::CONTAINER_END && depth == 0 ==> r
                    == Err::<(), Error>(Error::UnbalancedContainers) && final(self).moved(
                    *old(self),
                    p + 1int,
                    depth,
                )
                &&& p < d.len() && d[p as int] == type_code::CONTAINER_END && depth > 0 ==> r is Ok
                    && final(self).moved(*old(self), p + 1int, (depth - 1) as nat)
            }),
    {
        let tc = self.read_byte()?;
        if tc != type_code::CONTAINER_END {
            return Err(Error::Custom(code_message("expected container end, got ", tc)));
        }
        match self.containers.pop() {
            Some(_) => Ok(()),
            None => Err(Error::UnbalancedContainers),
        }
    }

    /// Finish decoding and check for errors.
    pub fn finish(&self) -> (r: Result<()>)
        ensures
            self.depth() > 0 ==> r == Err::<(), Error>(Error::UnclosedContainer),
            self.depth() == 0 && !self.cfg().allow_trailing_bytes && self.pos()
                < self.input().len() ==> r == Err::<(), Error>(Error::TrailingBytes),
            self.depth() == 0 && (self.cfg().allow_trailing_bytes || self.pos()
                >= self.input().len()) ==> r is Ok,
    {
        if self.containers.len() > 0 {
            return Err(Error::UnclosedContainer);
        }
        if !self.config.allow_trailing_bytes && self.pos < self.data.len() {
            return Err(Error::TrailingBytes);
        }
        Ok(())
    }
}

} // verus!
