//! Type codes for BONJSON values, exactly as the BONJSON format assigns them.
use vstd::prelude::*;

verus! {

/// Smallest small-integer code: the value -100.
pub const SMALLINT_MIN: u8 = 0x00;

/// Largest small-integer code: the value 100.
pub const SMALLINT_MAX: u8 = 0xc8;

/// The small-integer code of the value 0.
pub const SMALLINT_ZERO: u8 = 0x64;

/// Reserved code.
pub const RESERVED_C9: u8 = 0xc9;

/// Big number: zigzag LEB128 exponent, zigzag LEB128 signed length, little-endian magnitude.
pub const BIG_NUMBER: u8 = 0xca;

/// Little-endian IEEE 754 binary32.
pub const FLOAT32: u8 = 0xcb;

/// Little-endian IEEE 754 binary64.
pub const FLOAT64: u8 = 0xcc;

pub const NULL: u8 = 0xcd;

pub const FALSE: u8 = 0xce;

pub const TRUE: u8 = 0xcf;

/// Short string of length 0; codes up to `STRING15` carry the length in the low nibble.
pub const STRING0: u8 = 0xd0;

pub const STRING15: u8 = 0xdf;

pub const UINT8: u8 = 0xe0;

pub const UINT16: u8 = 0xe1;

pub const UINT32: u8 = 0xe2;

pub const UINT64: u8 = 0xe3;

pub const SINT8: u8 = 0xe4;

pub const SINT16: u8 = 0xe5;

pub const SINT32: u8 = 0xe6;

pub const SINT64: u8 = 0xe7;

/// Start of a delimiter-terminated array.
pub const ARRAY: u8 = 0xfc;

/// Start of a delimiter-terminated object.
pub const OBJECT: u8 = 0xfd;

/// End marker of the innermost open container.
pub const CONTAINER_END: u8 = 0xfe;

/// Delimiter that starts and ends a long string.
pub const STRING_LONG: u8 = 0xff;

/// The byte count that an integer code of size index `k` (0..=3) stands for.
pub open spec fn size_of_index(k: int) -> int {
    if k == 0 {
        1
    } else if k == 1 {
        2
    } else if k == 2 {
        4
    } else {
        8
    }
}

/// The value a small-integer code stands for, wrapped to `i8` as the format's
/// arithmetic `(code - 100) as i8` does.
pub open spec fn spec_small_int_value(code: u8) -> int {
    if code <= 227 {
        code - 100
    } else {
        code - 356
    }
}

/// The code that `(value + 100) as u8` gives.
pub open spec fn spec_small_int_code(value: i8) -> int {
    if value >= -100 {
        value + 100
    } else {
        value + 356
    }
}

/// Check if a type code is a small integer (-100 to 100).
pub fn is_small_int(code: u8) -> (r: bool)
    ensures
        r == (code <= SMALLINT_MAX),
{
    code <= SMALLINT_MAX
}

/// Decode a small integer type code to its value (`type_code` - 100).
pub fn small_int_value(code: u8) -> (r: i8)
    ensures
        r as int == spec_small_int_value(code),
        code <= SMALLINT_MAX ==> r as int == code - 100,
{
    let v: i16 = code as i16 - 100;
    if v > 127 {
        (v - 256) as i8
    } else {
        v as i8
    }
}

/// Encode a small integer value (-100 to 100) to its type code.
pub fn small_int_code(value: i8) -> (r: u8)
    ensures
        r as int == spec_small_int_code(value),
        -100 <= value <= 100 ==> r as int == value + 100,
{
    let v: i16 = value as i16 + 100;
    if v < 0 {
        (v + 256) as u8
    } else {
        v as u8
    }
}

/// Check if a type code is a short string (0-15 bytes).
pub fn is_short_string(code: u8) -> (r: bool)
    ensures
        r == (STRING0 <= code <= STRING15),
{
    let r = (code & 0xf0) == 0xd0;
    assert(((code & 0xf0) == 0xd0) == (0xd0 <= code <= 0xdf)) by (bit_vector);
    r
}

/// Get the length of a short string from its type code.
pub fn short_string_len(code: u8) -> (r: usize)
    ensures
        r as int == code as int % 16,
        STRING0 <= code <= STRING15 ==> r as int == code - STRING0,
{
    let n = code & 0x0f;
    assert(code & 0x0f == code % 16) by (bit_vector);
    n as usize
}

/// Check if a type code is any string type (short or long).
pub fn is_any_string(code: u8) -> (r: bool)
    ensures
        r == ((STRING0 <= code <= STRING15) || code == STRING_LONG),
{
    is_short_string(code) || code == STRING_LONG
}

/// Check if a type code is an unsigned integer (0xe0-0xe3).
pub fn is_unsigned_int(code: u8) -> (r: bool)
    ensures
        r == (UINT8 <= code <= UINT64),
{
    code >= UINT8 && code <= UINT64
}

/// Get the byte count for an unsigned integer type code: 1, 2, 4, or 8.
/// For a code past `UINT64` the same doubling continues.
pub fn unsigned_int_size(code: u8) -> (r: usize)
    requires
        code >= UINT8,
    ensures
        r as nat == vstd::arithmetic::power2::pow2((code - UINT8) as nat),
        code <= UINT64 ==> r as int == size_of_index(code - UINT8),
{
    let k: usize = (code - UINT8) as usize;
    proof {
        vstd::arithmetic::power2::lemma2_to64();
        vstd::bits::lemma_usize_pow2_no_overflow(k as nat);
        vstd::bits::lemma_usize_shl_is_mul(1, k);
    }
    1usize << k
}

/// Check if a type code is a signed integer (0xe4-0xe7).
pub fn is_signed_int(code: u8) -> (r: bool)
    ensures
        r == (SINT8 <= code <= SINT64),
{
    code >= SINT8 && code <= SINT64
}

/// Get the byte count for a signed integer type code: 1, 2, 4, or 8.
/// For a code past `SINT64` the same doubling continues.
pub fn signed_int_size(code: u8) -> (r: usize)
    requires
        code >= SINT8,
    ensures
        r as nat == vstd::arithmetic::power2::pow2((code - SINT8) as nat),
        code <= SINT64 ==> r as int == size_of_index(code - SINT8),
{
    let k: usize = (code - SINT8) as usize;
    proof {
        vstd::arithmetic::power2::lemma2_to64();
        vstd::bits::lemma_usize_pow2_no_overflow(k as nat);
        vstd::bits::lemma_usize_shl_is_mul(1, k);
    }
    1usize << k
}

/// Check if a type code is any integer (signed or unsigned): 0xe0-0xe7.
pub fn is_any_int(code: u8) -> (r: bool)
    ensures
        r == (UINT8 <= code <= SINT64),
{
    code >= UINT8 && code <= SINT64
}

/// Check if an integer type code is signed (0xe4-0xe7).
pub fn int_is_signed(code: u8) -> (r: bool)
    ensures
        r == (code >= SINT8),
{
    code >= SINT8
}

/// Get the byte count for any integer type code, signed or unsigned: the two
/// low bits select 1, 2, 4, or 8.
pub fn int_size(code: u8) -> (r: usize)
    ensures
        r as int == size_of_index(code as int % 4),
        UINT8 <= code <= UINT64 ==> r as int == size_of_index(code - UINT8),
        SINT8 <= code <= SINT64 ==> r as int == size_of_index(code - SINT8),
{
    let k = code & 0x03;
    assert(code & 0x03 == code % 4) by (bit_vector);
    if k == 0 {
        1
    } else if k == 1 {
        2
    } else if k == 2 {
        4
    } else {
        8
    }
}

/// Check if a type code is reserved.
pub fn is_reserved(code: u8) -> (r: bool)
    ensures
        r == (code == RESERVED_C9 || (0xe8 <= code <= 0xfb)),
{
    code == RESERVED_C9 || (code >= 0xe8 && code <= 0xfb)
}

} // verus!
