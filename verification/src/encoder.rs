//! BONJSON binary encoder: delimiter-terminated containers, FF-terminated long strings.
use crate::error::{Error, Result, SpecError};
use crate::floatbits::{
    f32_bits_to_f64_bits, f64_exp, f64_frac, f64_is_infinite, f64_is_nan, f64_sign,
    lemma_f64_whole, spec_f32_to_f64, spec_f64_is_infinite, spec_f64_is_nan, spec_f64_scaled,
};
use crate::types::type_code;
use crate::types::{
    leb128_encode, spec_leb128_bytes, spec_zigzag, zigzag_encode, BigNumber, NATIVE_SIZE_INDEX,
};
use vstd::arithmetic::power2::pow2;
use vstd::utf8::encode_utf8;
use vstd::prelude::*;

verus! {

/// The `n` low-order bytes of `v`, least significant first.
pub open spec fn spec_le_bytes(v: nat, n: nat) -> Seq<u8>
    decreases n,
{
    if n == 0 {
        Seq::empty()
    } else {
        seq![(v % 256) as u8] + spec_le_bytes(v / 256, (n - 1) as nat)
    }
}

/// The number that little-endian bytes stand for.
pub open spec fn spec_le_value(s: Seq<u8>) -> nat
    decreases s.len(),
{
    if s.len() == 0 {
        0
    } else {
        s[0] as nat + 256 * spec_le_value(s.drop_first())
    }
}

/// Fewest bytes (at least one) that hold `v` as an unsigned number.
pub open spec fn spec_min_bytes_unsigned(v: nat) -> nat {
    if v < 0x100 {
        1
    } else if v < 0x1_0000 {
        2
    } else if v < 0x100_0000 {
        3
    } else if v < 0x1_0000_0000 {
        4
    } else if v < 0x100_0000_0000 {
        5
    } else if v < 0x1_0000_0000_0000 {
        6
    } else if v < 0x100_0000_0000_0000 {
        7
    } else {
        8
    }
}

/// Fewest bytes (at least one) that hold `v` as a two's complement number.
pub open spec fn spec_min_bytes_signed(v: int) -> nat {
    if -0x80 <= v < 0x80 {
        1
    } else if -0x8000 <= v < 0x8000 {
        2
    } else if -0x80_0000 <= v < 0x80_0000 {
        3
    } else if -0x8000_0000 <= v < 0x8000_0000 {
        4
    } else if -0x80_0000_0000 <= v < 0x80_0000_0000 {
        5
    } else if -0x8000_0000_0000 <= v < 0x8000_0000_0000 {
        6
    } else if -0x80_0000_0000_0000 <= v < 0x80_0000_0000_0000 {
        7
    } else {
        8
    }
}

/// Size index (0-3) of the native integer width that holds `k` bytes (1..=8).
pub open spec fn spec_native_index(k: nat) -> nat {
    if k <= 1 {
        0
    } else if k == 2 {
        1
    } else if k <= 4 {
        2
    } else {
        3
    }
}

/// Byte count of the native width with size index `i`.
pub open spec fn spec_index_bytes(i: nat) -> nat {
    if i == 0 {
        1
    } else if i == 1 {
        2
    } else if i == 2 {
        4
    } else {
        8
    }
}

/// The bytes that encode an unsigned integer: a small-integer code for 0..=100,
/// else the narrowest native width, marked signed when its top bit is clear.
pub open spec fn spec_uint_encoding(v: u64) -> Seq<u8> {
    if v <= 100 {
        seq![(v + 100) as u8]
    } else {
        let idx = spec_native_index(spec_min_bytes_unsigned(v as nat));
        let n = spec_index_bytes(idx);
        let code = if v as nat >= pow2((8 * n - 1) as nat) {
            type_code::UINT8 + idx
        } else {
            type_code::SINT8 + idx
        };
        seq![code as u8] + spec_le_bytes(v as nat, n)
    }
}

/// The bytes that encode a signed integer: a small-integer code for -100..=100,
/// an unsigned width when that is narrower for a positive value, else the
/// narrowest signed native width in two's complement.
pub open spec fn spec_int_encoding(v: i64) -> Seq<u8> {
    if -100 <= v <= 100 {
        seq![(v + 100) as u8]
    } else {
        let idx = spec_native_index(spec_min_bytes_signed(v as int));
        let n = spec_index_bytes(idx);
        let uidx = spec_native_index(spec_min_bytes_unsigned(v as nat));
        let un = spec_index_bytes(uidx);
        if v > 0 && un < n {
            seq![(type_code::UINT8 + uidx) as u8] + spec_le_bytes(v as nat, un)
        } else {
            seq![(type_code::SINT8 + idx) as u8] + spec_le_bytes((v as u64) as nat, n)
        }
    }
}

/// The bytes that encode a string with the given UTF-8 bytes: a short-string
/// code carrying the length up to 15 bytes, else the bytes between two 0xFF delimiters.
pub open spec fn spec_str_encoding(b: Seq<u8>) -> Seq<u8> {
    if b.len() <= 15 {
        seq![(type_code::STRING0 + b.len()) as u8] + b
    } else {
        seq![type_code::STRING_LONG] + b + seq![type_code::STRING_LONG]
    }
}

/// The bytes that encode a big number: the type code, the zigzag LEB128
/// exponent, then either a zero length or the zigzag LEB128 signed byte count
/// followed by the significand's minimal little-endian bytes.
pub open spec fn spec_bignumber_encoding(bn: BigNumber) -> Seq<u8> {
    let head = seq![type_code::BIG_NUMBER] + spec_leb128_bytes(
        spec_zigzag(bn.exponent as int) as nat,
    );
    if bn.significand == 0 {
        head + seq![0u8]
    } else {
        let k = spec_min_bytes_unsigned(bn.significand as nat);
        let signed_len = if bn.sign < 0 {
            -(k as int)
        } else {
            k as int
        };
        head + spec_leb128_bytes(spec_zigzag(signed_len) as nat) + spec_le_bytes(
            bn.significand as nat,
            k,
        )
    }
}

/// The binary32 pattern that keeps the sign, the exponent and the leading
/// fraction bits of a binary64 pattern whose exponent lies in binary32's
/// range (normal or subnormal); zero for any other exponent. When the number
/// is exactly a binary32 number, this is that number.
pub open spec fn spec_f32_candidate(b: u64) -> u32 {
    let e = f64_exp(b);
    let f = f64_frac(b);
    let s = f64_sign(b);
    if e == 0 && f == 0 {
        (s * pow2(31)) as u32
    } else if 897 <= e <= 1150 {
        (s * pow2(31) + (e - 896) * pow2(23) + f as nat / pow2(29)) as u32
    } else if 874 <= e <= 896 {
        (s * pow2(31) + (f + pow2(52)) as nat / pow2((926 - e) as nat)) as u32
    } else {
        0
    }
}

/// The bytes of a float: binary32 when widening the candidate gives back the
/// same binary64 pattern, else binary64.
pub open spec fn spec_float_bytes(b: u64) -> Seq<u8> {
    let c = spec_f32_candidate(b);
    if spec_f32_to_f64(c) == b {
        seq![type_code::FLOAT32] + spec_le_bytes(c as nat, 4)
    } else {
        seq![type_code::FLOAT64] + spec_le_bytes(b as nat, 8)
    }
}

/// The integer that a finite binary64 pattern stands for, when it is a whole
/// number in the `i64` range (from -2^63 to 2^63 - 1).
pub open spec fn spec_f64_integer(b: u64) -> Option<i64> {
    let e = f64_exp(b);
    let f = f64_frac(b);
    let neg = f64_sign(b) == 1;
    let full: nat = (f + pow2(52)) as nat;
    if e == 0 {
        if f == 0 {
            Some(0)
        } else {
            None
        }
    } else if e >= 1075 {
        let m = full * pow2((e - 1075) as nat);
        if m < pow2(63) {
            Some(
                (if neg {
                    -(m as int)
                } else {
                    m as int
                }) as i64,
            )
        } else if m == pow2(63) && neg {
            Some(i64::MIN)
        } else {
            None
        }
    } else {
        let k = (1075 - e) as nat;
        if full % pow2(k) == 0 {
            let m = full / pow2(k);
            Some(
                (if neg {
                    -(m as int)
                } else {
                    m as int
                }) as i64,
            )
        } else {
            None
        }
    }
}

/// Whole binary64 values become integers exactly: for every finite binary64
/// pattern, the integer it is written as is the float's own value, sign
/// included (with `s` the value times 2^1074, the integer is `s / 2^1074`),
/// and there is one exactly when that value is a whole number in the `i64`
/// range. A NaN or an infinity has none.
pub proof fn lemma_f64_integer_exact(b: u64)
    ensures
        !spec_f64_is_nan(b) && !spec_f64_is_infinite(b) ==> spec_f64_integer(b) == (if spec_f64_scaled(
            b,
        ) % pow2(1074) as int == 0 && i64::MIN <= spec_f64_scaled(b) / pow2(1074) as int
            <= i64::MAX {
            Some((spec_f64_scaled(b) / pow2(1074) as int) as i64)
        } else {
            None
        }),
        spec_f64_is_nan(b) || spec_f64_is_infinite(b) ==> spec_f64_integer(b) is None,
{
    vstd::arithmetic::power2::lemma2_to64();
    vstd::arithmetic::power2::lemma2_to64_rest();
    let e = f64_exp(b);
    let f = f64_frac(b);
    let full: int = f + pow2(52);
    crate::floatbits::lemma_f64_fields(b);
    if e >= 1075 {
        let k = (e - 1075) as nat;
        vstd::arithmetic::power2::lemma_pow2_pos(k);
        assert(full * pow2(k) >= full) by (nonlinear_arith)
            requires
                full >= 0,
                pow2(k) >= 1,
        ;
        if e == 0x7ff {
            vstd::arithmetic::power2::lemma_pow2_strictly_increases(63, 972);
            assert(full * pow2(k) > pow2(63)) by (nonlinear_arith)
                requires
                    full >= pow2(52),
                    pow2(k) > pow2(63),
                    k == 972,
                    pow2(52) >= 1,
            ;
        }
    }
    if !spec_f64_is_nan(b) && !spec_f64_is_infinite(b) {
        lemma_f64_whole(b);
        if 1 <= e < 1075 {
            let k = (1075 - e) as nat;
            vstd::arithmetic::power2::lemma_pow2_pos(k);
            vstd::arithmetic::div_mod::lemma_div_is_ordered_by_denominator(full, 1, pow2(k) as int);
            assert(full / 1 == full);
            assert(full < pow2(53));
        }
    }
}

/// The bytes that encode a binary64 number, or the error: NaN and infinity are
/// refused, negative zero stays a float, a whole number in the `i64` range is
/// written as an integer, anything else as a float.
pub open spec fn spec_f64_encoding(b: u64) -> core::result::Result<Seq<u8>, SpecError> {
    if spec_f64_is_nan(b) {
        Err(SpecError::NanNotAllowed)
    } else if spec_f64_is_infinite(b) {
        Err(SpecError::InfinityNotAllowed)
    } else if b == 0x8000_0000_0000_0000 {
        Ok(spec_float_bytes(b))
    } else {
        match spec_f64_integer(b) {
            Some(n) => Ok(spec_int_encoding(n)),
            None => Ok(spec_float_bytes(b)),
        }
    }
}

proof fn lemma_pow2_le(e1: nat, e2: nat)
    requires
        e1 <= e2,
    ensures
        pow2(e1) <= pow2(e2),
{
    if e1 < e2 {
        vstd::arithmetic::power2::lemma_pow2_strictly_increases(e1, e2);
    }
}

/// The binary32 candidate of a binary64 pattern (see `spec_f32_candidate`).
pub(crate) fn f32_candidate(b: u64) -> (r: u32)
    ensures
        r == spec_f32_candidate(b),
{
    let e = (b >> 52u64) & 0x7ff;
    let f = b & 0xf_ffff_ffff_ffff;
    let s = b >> 63u64;
    assert(s <= 1 && e <= 0x7ff && f <= 0xf_ffff_ffff_ffff) by (bit_vector)
        requires
            s == b >> 63u64,
            e == (b >> 52u64) & 0x7ff,
            f == b & 0xf_ffff_ffff_ffff,
    ;
    proof {
        vstd::arithmetic::power2::lemma2_to64();
        vstd::arithmetic::power2::lemma2_to64_rest();
    }
    let sign_bit: u32 = (s as u32) << 31u32;
    assert(sign_bit == s * 0x8000_0000) by (bit_vector)
        requires
            s <= 1,
            sign_bit == (s as u32) << 31u32,
    ;
    if e == 0 && f == 0 {
        sign_bit
    } else if 897 <= e && e <= 1150 {
        let hi: u32 = ((e - 896) as u32) << 23u32;
        let lo: u32 = (f >> 29u64) as u32;
        assert(hi == (e - 896) * 0x80_0000 && lo == f / 0x2000_0000 && lo < 0x80_0000)
            by (bit_vector)
            requires
                897 <= e <= 1150,
                f <= 0xf_ffff_ffff_ffff,
                hi == ((e - 896) as u32) << 23u32,
                lo == (f >> 29u64) as u32,
        ;
        sign_bit + hi + lo
    } else if 874 <= e && e <= 896 {
        let full = f + 0x10_0000_0000_0000;
        let sh = 926 - e;
        let m = full >> sh;
        proof {
            vstd::bits::lemma_u64_shr_is_div(full, sh);
            vstd::arithmetic::power2::lemma_pow2_strictly_increases(29, sh as nat);
            vstd::arithmetic::div_mod::lemma_div_is_ordered_by_denominator(
                full as int,
                pow2(30) as int,
                pow2(sh as nat) as int,
            );
            if sh > 30 {
                vstd::arithmetic::power2::lemma_pow2_strictly_increases(30, sh as nat);
            }
            assert(full as int / pow2(30) as int <= 0x7f_ffff) by (nonlinear_arith)
                requires
                    full < 0x20_0000_0000_0000,
                    pow2(30) == 0x4000_0000,
            ;
        }
        sign_bit + (m as u32)
    } else {
        0
    }
}

/// The integer a finite binary64 pattern stands for (see `spec_f64_integer`).
pub(crate) fn f64_integer(b: u64) -> (r: Option<i64>)
    requires
        !spec_f64_is_nan(b),
        !spec_f64_is_infinite(b),
    ensures
        r == spec_f64_integer(b),
{
    let e = (b >> 52u64) & 0x7ff;
    let f = b & 0xf_ffff_ffff_ffff;
    let neg = (b >> 63u64) == 1;
    assert(e <= 0x7ff && f <= 0xf_ffff_ffff_ffff) by (bit_vector)
        requires
            e == (b >> 52u64) & 0x7ff,
            f == b & 0xf_ffff_ffff_ffff,
    ;
    proof {
        vstd::arithmetic::power2::lemma2_to64();
        vstd::arithmetic::power2::lemma2_to64_rest();
    }
    if e == 0 {
        return if f == 0 {
            Some(0)
        } else {
            None
        };
    }
    let full: u64 = f + 0x10_0000_0000_0000;
    if e >= 1075 {
        let k = e - 1075;
        if k <= 10 {
            let p: u64 = 1u64 << k;
            proof {
                vstd::bits::lemma_u64_shl_is_mul(1, k);
                lemma_pow2_le(k as nat, 10);
                vstd::arithmetic::power2::lemma_pow2_adds(53, k as nat);
                lemma_pow2_le(53 + k as nat, 63);
                assert(full * p < pow2(53) * p) by (nonlinear_arith)
                    requires
                        full < pow2(53),
                        p > 0,
                ;
            }
            let m = full * p;
            return Some(
                if neg {
                    -(m as i64)
                } else {
                    m as i64
                },
            );
        }
        proof {
            vstd::arithmetic::power2::lemma_pow2_adds(52, k as nat);
            vstd::arithmetic::power2::lemma_pow2_adds(11, (k - 11) as nat);
            vstd::arithmetic::power2::lemma_pow2_adds(63, (k - 11) as nat);
            vstd::arithmetic::power2::lemma_pow2_pos((k - 11) as nat);
            let pk = pow2(k as nat);
            let q = pow2((k - 11) as nat);
            assert(pk == pow2(11) * q);
            assert(full * pk >= pow2(52) * pk) by (nonlinear_arith)
                requires
                    full >= pow2(52),
                    pk > 0,
            ;
            assert(pow2(52) * pk == pow2(63) * q) by (nonlinear_arith)
                requires
                    pk == pow2(11) * q,
                    pow2(63) == pow2(52) * pow2(11),
            ;
            if k > 11 {
                vstd::arithmetic::power2::lemma_pow2_strictly_increases(0, (k - 11) as nat);
                assert(pow2(63) * q > pow2(63)) by (nonlinear_arith)
                    requires
                        q > 1,
                        pow2(63) > 0,
                ;
            }
            if f > 0 {
                assert(full * pk > pow2(52) * pk) by (nonlinear_arith)
                    requires
                        full > pow2(52),
                        pk > 0,
                ;
                assert(pow2(63) * q >= pow2(63)) by (nonlinear_arith)
                    requires
                        q >= 1,
                        pow2(63) > 0,
                ;
            }
        }
        if k == 11 && f == 0 && neg {
            return Some(i64::MIN);
        }
        None
    } else {
        let k = 1075 - e;
        if k > 52 {
            proof {
                lemma_pow2_le(53, k as nat);
                vstd::arithmetic::div_mod::lemma_small_mod(full as nat, pow2(k as nat));
            }
            return None;
        }
        let p: u64 = 1u64 << k;
        proof {
            vstd::bits::lemma_u64_shl_is_mul(1, k);
            lemma_pow2_le(k as nat, 52);
        }
        if full % p != 0 {
            return None;
        }
        let m = full / p;
        proof {
            vstd::arithmetic::power2::lemma_pow2_pos(k as nat);
            assert(m <= full);
        }
        Some(
            if neg {
                -(m as i64)
            } else {
                m as i64
            },
        )
    }
}

/// State of one open container in the encoder.
#[derive(Clone, Copy)]
struct ContainerState {
    is_object: bool,
    expecting_key: bool,
}

/// Whether the innermost open container is an object that waits for a key.
pub open spec fn spec_expecting_key(stack: Seq<(bool, bool)>) -> bool {
    stack.len() > 0 && stack.last().0 && stack.last().1
}

/// The container stack after a complete value: an object innermost flips
/// between waiting for a key and waiting for a value.
pub open spec fn spec_toggled(stack: Seq<(bool, bool)>) -> Seq<(bool, bool)> {
    if stack.len() > 0 && stack.last().0 {
        stack.update(stack.len() - 1, (true, !stack.last().1))
    } else {
        stack
    }
}

/// A BONJSON encoder that appends to a byte buffer.
///
/// The encoder tracks container state to ensure well-formed output.
pub struct Encoder {
    writer: Vec<u8>,
    /// Stack of container states: true = object (expecting key/value alternation)
    containers: Vec<ContainerState>,
}

impl Encoder {
    /// The bytes in the buffer.
    pub closed spec fn written(&self) -> Seq<u8> {
        self.writer@
    }

    /// The open containers, outermost first: (is an object, waits for a key).
    pub closed spec fn open_containers(&self) -> Seq<(bool, bool)> {
        self.containers@.map_values(|c: ContainerState| (c.is_object, c.expecting_key))
    }

    /// Create a new encoder that appends to the given buffer.
    pub fn new(writer: Vec<u8>) -> (r: Self)
        ensures
            r.written() == writer@,
            r.open_containers() == Seq::<(bool, bool)>::empty(),
    {
        let r = Self { writer, containers: Vec::new() };
        assert(r.open_containers() =~= Seq::<(bool, bool)>::empty());
        r
    }

    /// Consume the encoder and return the underlying buffer.
    pub fn into_inner(self) -> (r: Vec<u8>)
        ensures
            r@ == self.written(),
    {
        self.writer
    }

    /// Get a reference to the underlying buffer.
    pub fn get_ref(&self) -> (r: &Vec<u8>)
        ensures
            r@ == self.written(),
    {
        &self.writer
    }

    /// Check if we're currently in an object and expecting a key.
    fn expecting_object_key(&self) -> (r: bool)
        ensures
            r == spec_expecting_key(self.open_containers()),
    {
        let n = self.containers.len();
        if n == 0 {
            false
        } else {
            let c = self.containers[n - 1];
            c.is_object && c.expecting_key
        }
    }

    /// Toggle the key/value expectation in the current object.
    fn toggle_object_state(&mut self)
        ensures
            final(self).written() == old(self).written(),
            final(self).open_containers() == spec_toggled(old(self).open_containers()),
    {
        let n = self.containers.len();
        if n > 0 {
            let c = self.containers[n - 1];
            if c.is_object {
                self.containers.set(n - 1, ContainerState { is_object: true, expecting_key: !c.expecting_key });
                assert(self.open_containers() =~= spec_toggled(old(self).open_containers()));
            }
        }
    }

    /// Write a single byte.
    fn write_byte(&mut self, byte: u8) -> (r: Result<()>)
        ensures
            r is Ok,
            final(self).written() == old(self).written().push(byte),
            final(self).open_containers() == old(self).open_containers(),
    {
        self.writer.push(byte);
        Ok(())
    }

    /// Write multiple bytes.
    fn write_bytes(&mut self, bytes: &[u8]) -> (r: Result<()>)
        ensures
            r is Ok,
            final(self).written() == old(self).written() + bytes@,
            final(self).open_containers() == old(self).open_containers(),
    {
        self.write_prefix(bytes, bytes.len());
        assert(bytes@.take(bytes.len() as int) =~= bytes@);
        Ok(())
    }

    /// Write the first `n` bytes of `bytes`.
    fn write_prefix(&mut self, bytes: &[u8], n: usize)
        requires
            n <= bytes@.len(),
        ensures
            final(self).written() == old(self).written() + bytes@.take(n as int),
            final(self).open_containers() == old(self).open_containers(),
    {
        let mut i: usize = 0;
        while i < n
            invariant
                i <= n <= bytes@.len(),
                self.written() == old(self).written() + bytes@.take(i as int),
                self.open_containers() == old(self).open_containers(),
            decreases n - i,
        {
            self.writer.push(bytes[i]);
            assert(bytes@.take(i + 1) =~= bytes@.take(i as int).push(bytes[i as int]));
            i += 1;
        }
    }

    /// Write the `n` low-order bytes of `value`, least significant first.
    fn write_le_bytes(&mut self, value: u64, n: usize)
        requires
            n <= 8,
        ensures
            final(self).written() == old(self).written() + spec_le_bytes(value as nat, n as nat),
            final(self).open_containers() == old(self).open_containers(),
    {
        let mut cur = value;
        let mut i: usize = 0;
        while i < n
            invariant
                i <= n <= 8,
                old(self).written() + spec_le_bytes(value as nat, n as nat) == self.written()
                    + spec_le_bytes(cur as nat, (n - i) as nat),
                self.open_containers() == old(self).open_containers(),
            decreases n - i,
        {
            assert(cur & 0xff == cur % 256 && cur >> 8u64 == cur / 256) by (bit_vector);
            let b = (cur & 0xff) as u8;
            let ghost before = self.written();
            self.writer.push(b);
            assert(spec_le_bytes(cur as nat, (n - i) as nat) =~= seq![b] + spec_le_bytes(
                (cur / 256) as nat,
                (n - i - 1) as nat,
            ));
            assert(self.written() + spec_le_bytes((cur / 256) as nat, (n - i - 1) as nat)
                =~= before + spec_le_bytes(cur as nat, (n - i) as nat));
            cur = cur >> 8u64;
            i += 1;
        }
        assert(self.written() + spec_le_bytes(cur as nat, 0) =~= self.written());
    }

    /// Encode a null value without container state checks.
    pub fn write_null_unchecked(&mut self) -> (r: Result<()>)
        ensures
            r is Ok,
            final(self).written() == old(self).written().push(type_code::NULL),
            final(self).open_containers() == old(self).open_containers(),
    {
        self.write_byte(type_code::NULL)
    }

    /// Encode a boolean value without state checks.
    pub fn write_bool_unchecked(&mut self, value: bool) -> (r: Result<()>)
        ensures
            r is Ok,
            final(self).written() == old(self).written().push(
                if value {
                    type_code::TRUE
                } else {
                    type_code::FALSE
                },
            ),
            final(self).open_containers() == old(self).open_containers(),
    {
        self.write_byte(
            if value {
                type_code::TRUE
            } else {
                type_code::FALSE
            },
        )
    }

    /// Encode an unsigned integer without state checks.
    pub fn write_u64_unchecked(&mut self, value: u64) -> (r: Result<()>)
        ensures
            r is Ok,
            final(self).written() == old(self).written() + spec_uint_encoding(value),
            final(self).open_containers() == old(self).open_containers(),
    {
        self.write_unsigned_int(value)
    }

    /// Encode a signed integer without state checks.
    pub fn write_i64_unchecked(&mut self, value: i64) -> (r: Result<()>)
        ensures
            r is Ok,
            final(self).written() == old(self).written() + spec_int_encoding(value),
            final(self).open_containers() == old(self).open_containers(),
    {
        self.write_signed_int(value)
    }

    /// Encode a string without state checks.
    pub fn write_str_unchecked(&mut self, value: &str) -> (r: Result<()>)
        ensures
            r is Ok,
            final(self).written() == old(self).written() + spec_str_encoding(
                encode_utf8(value@),
            ),
            final(self).open_containers() == old(self).open_containers(),
    {
        let bytes = value.as_bytes();
        let len = bytes.len();
        if len <= 15 {
            self.write_byte(type_code::STRING0 + len as u8)?;
            self.write_bytes(bytes)?;
            assert(self.written() =~= old(self).written() + spec_str_encoding(encode_utf8(value@)));
        } else {
            self.write_byte(type_code::STRING_LONG)?;
            self.write_bytes(bytes)?;
            self.write_byte(type_code::STRING_LONG)?;
            assert(self.written() =~= old(self).written() + spec_str_encoding(encode_utf8(value@)));
        }
        Ok(())
    }

    /// Begin an array without state checks.
    pub fn begin_array_unchecked(&mut self) -> (r: Result<()>)
        ensures
            r is Ok,
            final(self).written() == old(self).written().push(type_code::ARRAY),
            final(self).open_containers() == old(self).open_containers(),
    {
        self.write_byte(type_code::ARRAY)
    }

    /// Begin an object without state checks.
    pub fn begin_object_unchecked(&mut self) -> (r: Result<()>)
        ensures
            r is Ok,
            final(self).written() == old(self).written().push(type_code::OBJECT),
            final(self).open_containers() == old(self).open_containers(),
    {
        self.write_byte(type_code::OBJECT)
    }

    /// Write a container end marker without state checks.
    pub fn end_container_unchecked(&mut self) -> (r: Result<()>)
        ensures
            r is Ok,
            final(self).written() == old(self).written().push(type_code::CONTAINER_END),
            final(self).open_containers() == old(self).open_containers(),
    {
        self.write_byte(type_code::CONTAINER_END)
    }

    /// Encode a null value.
    pub fn write_null(&mut self) -> (r: Result<()>)
        ensures
            r is Err <==> spec_expecting_key(old(self).open_containers()),
            r is Err ==> r == Err::<(), Error>(Error::ExpectedObjectKey) && *final(self) == *old(self),
            r is Ok ==> final(self).written() == old(self).written().push(type_code::NULL)
                && final(self).open_containers() == spec_toggled(old(self).open_containers()),
    {
        if self.expecting_object_key() {
            return Err(Error::ExpectedObjectKey);
        }
        self.write_byte(type_code::NULL)?;
        self.toggle_object_state();
        Ok(())
    }

    /// Encode a boolean value.
    pub fn write_bool(&mut self, value: bool) -> (r: Result<()>)
        ensures
            r is Err <==> spec_expecting_key(old(self).open_containers()),
            r is Err ==> r == Err::<(), Error>(Error::ExpectedObjectKey) && *final(self) == *old(self),
            r is Ok ==> final(self).written() == old(self).written().push(
                if value {
                    type_code::TRUE
                } else {
                    type_code::FALSE
                },
            ) && final(self).open_containers() == spec_toggled(old(self).open_containers()),
    {
        if self.expecting_object_key() {
            return Err(Error::ExpectedObjectKey);
        }
        self.write_byte(
            if value {
                type_code::TRUE
            } else {
                type_code::FALSE
            },
        )?;
        self.toggle_object_state();
        Ok(())
    }

    /// Encode an unsigned integer.
    pub fn write_u64(&mut self, value: u64) -> (r: Result<()>)
        ensures
            r is Err <==> spec_expecting_key(old(self).open_containers()),
            r is Err ==> r == Err::<(), Error>(Error::ExpectedObjectKey) && *final(self) == *old(self),
            r is Ok ==> final(self).written() == old(self).written() + spec_uint_encoding(value)
                && final(self).open_containers() == spec_toggled(old(self).open_containers()),
    {
        if self.expecting_object_key() {
            return Err(Error::ExpectedObjectKey);
        }
        self.write_unsigned_int(value)?;
        self.toggle_object_state();
        Ok(())
    }

    /// Encode a signed integer.
    pub fn write_i64(&mut self, value: i64) -> (r: Result<()>)
        ensures
            r is Err <==> spec_expecting_key(old(self).open_containers()),
            r is Err ==> r == Err::<(), Error>(Error::ExpectedObjectKey) && *final(self) == *old(self),
            r is Ok ==> final(self).written() == old(self).written() + spec_int_encoding(value)
                && final(self).open_containers() == spec_toggled(old(self).open_containers()),
    {
        if self.expecting_object_key() {
            return Err(Error::ExpectedObjectKey);
        }
        self.write_signed_int(value)?;
        self.toggle_object_state();
        Ok(())
    }

    /// Write a finite float in its shortest exact float form: binary32 when
    /// that holds the same number, else binary64.
    fn write_float(&mut self, bits: u64) -> (r: Result<()>)
        ensures
            r is Ok,
            final(self).written() == old(self).written() + spec_float_bytes(bits),
            final(self).open_containers() == old(self).open_containers(),
    {
        let c = f32_candidate(bits);
        if f32_bits_to_f64_bits(c) == bits {
            self.write_byte(type_code::FLOAT32)?;
            self.write_le_bytes(c as u64, 4);
        } else {
            self.write_byte(type_code::FLOAT64)?;
            self.write_le_bytes(bits, 8);
        }
        assert(self.written() =~= old(self).written() + spec_float_bytes(bits));
        Ok(())
    }

    /// Encode a 64-bit float, given by its bits, without state checks.
    pub fn write_f64_bits_unchecked(&mut self, bits: u64) -> (r: Result<()>)
        ensures
            match spec_f64_encoding(bits) {
                Ok(b) => r is Ok && final(self).written() == old(self).written() + b,
                Err(e) => (r matches Err(x) && x@ == e) && final(self).written()
                    == old(self).written(),
            },
            final(self).open_containers() == old(self).open_containers(),
    {
        if f64_is_nan(bits) {
            return Err(Error::NanNotAllowed);
        }
        if f64_is_infinite(bits) {
            return Err(Error::InfinityNotAllowed);
        }
        if bits == 0x8000_0000_0000_0000 {
            return self.write_float(bits);
        }
        match f64_integer(bits) {
            Some(n) => self.write_signed_int(n),
            None => self.write_float(bits),
        }
    }

    /// Encode a 64-bit float, given by its bits: NaN and infinity are refused,
    /// a whole number is written as an integer, anything else in its
    /// shortest exact float form.
    pub fn write_f64_bits(&mut self, bits: u64) -> (r: Result<()>)
        ensures
            spec_expecting_key(old(self).open_containers()) ==> r == Err::<(), Error>(
                Error::ExpectedObjectKey,
            ) && *final(self) == *old(self),
            !spec_expecting_key(old(self).open_containers()) ==> match spec_f64_encoding(bits) {
                Ok(b) => r is Ok && final(self).written() == old(self).written() + b
                    && final(self).open_containers() == spec_toggled(old(self).open_containers()),
                Err(e) => (r matches Err(x) && x@ == e) && *final(self) == *old(self),
            },
    {
        if self.expecting_object_key() {
            return Err(Error::ExpectedObjectKey);
        }
        if f64_is_nan(bits) {
            return Err(Error::NanNotAllowed);
        }
        if f64_is_infinite(bits) {
            return Err(Error::InfinityNotAllowed);
        }
        self.write_f64_bits_unchecked(bits)?;
        self.toggle_object_state();
        Ok(())
    }

    /// Encode a `BigNumber` using zigzag LEB128 metadata and LE magnitude bytes.
    pub fn write_big_number(&mut self, value: BigNumber) -> (r: Result<()>)
        ensures
            r is Err <==> spec_expecting_key(old(self).open_containers()),
            r is Err ==> r == Err::<(), Error>(Error::ExpectedObjectKey) && *final(self) == *old(self),
            r is Ok ==> final(self).written() == old(self).written() + spec_bignumber_encoding(
                value,
            ) && final(self).open_containers() == spec_toggled(old(self).open_containers()),
    {
        if self.expecting_object_key() {
            return Err(Error::ExpectedObjectKey);
        }
        self.write_big_number_payload(value)?;
        self.toggle_object_state();
        Ok(())
    }

    /// Write the BigNumber payload (type code + exponent + signed_length + magnitude).
    fn write_big_number_payload(&mut self, value: BigNumber) -> (r: Result<()>)
        ensures
            r is Ok,
            final(self).written() == old(self).written() + spec_bignumber_encoding(value),
            final(self).open_containers() == old(self).open_containers(),
    {
        self.write_byte(type_code::BIG_NUMBER)?;
        let mut buf = [0u8; 10];
        let n = leb128_encode(zigzag_encode(value.exponent), &mut buf);
        self.write_prefix(buf.as_slice(), n);
        let ghost head = self.written();
        if value.significand == 0 {
            self.write_byte(0x00)?;
            assert(self.written() =~= old(self).written() + spec_bignumber_encoding(value));
            return Ok(());
        }
        let byte_count = required_unsigned_bytes_min1(value.significand);
        let signed_length: i64 = if value.sign < 0 {
            -(byte_count as i64)
        } else {
            byte_count as i64
        };
        let n = leb128_encode(zigzag_encode(signed_length), &mut buf);
        self.write_prefix(buf.as_slice(), n);
        self.write_le_bytes(value.significand, byte_count);
        assert(self.written() =~= old(self).written() + spec_bignumber_encoding(value));
        Ok(())
    }

    /// Encode a string.
    pub fn write_str(&mut self, value: &str) -> (r: Result<()>)
        ensures
            r is Ok,
            final(self).written() == old(self).written() + spec_str_encoding(encode_utf8(value@)),
            final(self).open_containers() == spec_toggled(old(self).open_containers()),
    {
        self.write_str_unchecked(value)?;
        self.toggle_object_state();
        Ok(())
    }

    /// Begin encoding an array (delimiter-terminated).
    pub fn begin_array(&mut self) -> (r: Result<()>)
        ensures
            r is Err <==> spec_expecting_key(old(self).open_containers()),
            r is Err ==> r == Err::<(), Error>(Error::ExpectedObjectKey) && *final(self) == *old(self),
            r is Ok ==> final(self).written() == old(self).written().push(type_code::ARRAY)
                && final(self).open_containers() == old(self).open_containers().push((false, false)),
    {
        if self.expecting_object_key() {
            return Err(Error::ExpectedObjectKey);
        }
        self.write_byte(type_code::ARRAY)?;
        self.containers.push(ContainerState { is_object: false, expecting_key: false });
        assert(self.open_containers() =~= old(self).open_containers().push((false, false)));
        Ok(())
    }

    /// Begin encoding an object (delimiter-terminated).
    pub fn begin_object(&mut self) -> (r: Result<()>)
        ensures
            r is Err <==> spec_expecting_key(old(self).open_containers()),
            r is Err ==> r == Err::<(), Error>(Error::ExpectedObjectKey) && *final(self) == *old(self),
            r is Ok ==> final(self).written() == old(self).written().push(type_code::OBJECT)
                && final(self).open_containers() == old(self).open_containers().push((true, true)),
    {
        if self.expecting_object_key() {
            return Err(Error::ExpectedObjectKey);
        }
        self.write_byte(type_code::OBJECT)?;
        self.containers.push(ContainerState { is_object: true, expecting_key: true });
        assert(self.open_containers() =~= old(self).open_containers().push((true, true)));
        Ok(())
    }

    /// End the current container by writing the end marker (0xFE).
    /// Closing an object that waits for a value is refused, and that container
    /// is dropped from the stack all the same.
    pub fn end_container(&mut self) -> (r: Result<()>)
        ensures
            old(self).open_containers().len() == 0 ==> r == Err::<(), Error>(
                Error::UnbalancedContainers,
            ) && final(self).written() == old(self).written() && final(self).open_containers()
                == old(self).open_containers(),
            old(self).open_containers().len() > 0 && old(self).open_containers().last().0
                && !old(self).open_containers().last().1 ==> r == Err::<(), Error>(
                Error::ExpectedObjectValue,
            ) && final(self).written() == old(self).written() && final(self).open_containers()
                == old(self).open_containers().drop_last(),
            old(self).open_containers().len() > 0 && !(old(self).open_containers().last().0
                && !old(self).open_containers().last().1) ==> r is Ok && final(self).written()
                == old(self).written().push(type_code::CONTAINER_END)
                && final(self).open_containers() == spec_toggled(
                old(self).open_containers().drop_last(),
            ),
    {
        let container = match self.containers.pop() {
            Some(c) => c,
            None => return Err(Error::UnbalancedContainers),
        };
        assert(self.open_containers() =~= old(self).open_containers().drop_last());
        if container.is_object && !container.expecting_key {
            return Err(Error::ExpectedObjectValue);
        }
        self.write_byte(type_code::CONTAINER_END)?;
        self.toggle_object_state();
        Ok(())
    }

    /// Finish encoding and ensure all containers are closed.
    pub fn finish(self) -> (r: Result<Vec<u8>>)
        ensures
            self.open_containers().len() > 0 ==> r == Err::<Vec<u8>, Error>(
                Error::UnclosedContainer,
            ),
            self.open_containers().len() == 0 ==> (r matches Ok(w) && w@ == self.written()),
    {
        if self.containers.len() > 0 {
            return Err(Error::UnclosedContainer);
        }
        Ok(self.writer)
    }

    /// Write an unsigned integer using the optimal encoding.
    fn write_unsigned_int(&mut self, value: u64) -> (r: Result<()>)
        ensures
            r is Ok,
            final(self).written() == old(self).written() + spec_uint_encoding(value),
            final(self).open_containers() == old(self).open_containers(),
    {
        if value <= 100 {
            let r = self.write_byte((value as u8) + 100);
            assert(self.written() =~= old(self).written() + spec_uint_encoding(value));
            return r;
        }
        let min_bytes = required_unsigned_bytes_min1(value);
        let native_index = NATIVE_SIZE_INDEX[min_bytes - 1];
        assert(native_index as nat == spec_native_index(min_bytes as nat));
        let native_bytes: usize = 1usize << (native_index as usize);
        assert(native_bytes as nat == spec_index_bytes(native_index as nat)) by {
            lemma_small_shifts();
        }
        let msb_set = (value >> ((native_bytes * 8 - 1) as u64)) & 1 != 0;
        proof {
            vstd::arithmetic::power2::lemma2_to64();
            vstd::arithmetic::power2::lemma2_to64_rest();
            assert(((value >> 7u64) & 1 != 0 <==> value % 0x100 >= 0x80) && ((value >> 15u64) & 1
                != 0 <==> value % 0x1_0000 >= 0x8000) && ((value >> 31u64) & 1 != 0 <==> value
                % 0x1_0000_0000 >= 0x8000_0000) && ((value >> 63u64) & 1 != 0 <==> value
                >= 0x8000_0000_0000_0000)) by (bit_vector);
        }
        let code = if msb_set {
            type_code::UINT8 + native_index
        } else {
            type_code::SINT8 + native_index
        };
        self.write_byte(code)?;
        self.write_le_bytes(value, native_bytes);
        assert(self.written() =~= old(self).written() + spec_uint_encoding(value));
        Ok(())
    }

    /// Write a signed integer using the optimal encoding.
    fn write_signed_int(&mut self, value: i64) -> (r: Result<()>)
        ensures
            r is Ok,
            final(self).written() == old(self).written() + spec_int_encoding(value),
            final(self).open_containers() == old(self).open_containers(),
    {
        if -100 <= value && value <= 100 {
            let r = self.write_byte((value + 100) as u8);
            assert(self.written() =~= old(self).written() + spec_int_encoding(value));
            return r;
        }
        let min_bytes = required_signed_bytes_min1(value);
        let native_index = NATIVE_SIZE_INDEX[min_bytes - 1];
        assert(native_index as nat == spec_native_index(min_bytes as nat));
        let native_bytes: usize = 1usize << (native_index as usize);
        proof {
            lemma_small_shifts();
        }
        assert(native_bytes as nat == spec_index_bytes(native_index as nat));
        if value > 0 {
            let unsigned_min = required_unsigned_bytes_min1(value as u64);
            let unsigned_native_index = NATIVE_SIZE_INDEX[unsigned_min - 1];
            assert(unsigned_native_index as nat == spec_native_index(unsigned_min as nat));
            let unsigned_native_bytes: usize = 1usize << (unsigned_native_index as usize);
            assert(unsigned_native_bytes as nat == spec_index_bytes(unsigned_native_index as nat));
            if unsigned_native_bytes < native_bytes {
                self.write_byte(type_code::UINT8 + unsigned_native_index)?;
                self.write_le_bytes(value as u64, unsigned_native_bytes);
                assert(self.written() =~= old(self).written() + spec_int_encoding(value));
                return Ok(());
            }
        }
        self.write_byte(type_code::SINT8 + native_index)?;
        self.write_le_bytes(value as u64, native_bytes);
        assert(self.written() =~= old(self).written() + spec_int_encoding(value));
        Ok(())
    }
}

proof fn lemma_shr8(x: u64)
    by (bit_vector)
    ensures
        x >> 8u64 == x / 256,
{
}

proof fn lemma_small_shifts()
    by (bit_vector)
    ensures
        1usize << 0usize == 1,
        1usize << 1usize == 2,
        1usize << 2usize == 4,
        1usize << 3usize == 8,
{
}

/// Calculate the number of bytes required to store an unsigned integer (minimum 1).
pub fn required_unsigned_bytes_min1(value: u64) -> (r: usize)
    ensures
        r as nat == spec_min_bytes_unsigned(value as nat),
        1 <= r <= 8,
{
    let mut n: usize = 1;
    let mut rest = value >> 8u64;
    proof {
        vstd::arithmetic::power2::lemma2_to64();
        lemma_shr8(value);
    }
    while rest != 0
        invariant
            1 <= n <= 8,
            rest as nat == value as nat / pow2(8 * n as nat),
            n > 1 ==> value as nat / pow2(8 * (n - 1) as nat) != 0,
        decreases 8 - n,
    {
        proof {
            lemma_shift_bytes(value, n as nat);
        }
        proof {
            lemma_shr8(rest);
        }
        rest = rest >> 8u64;
        n += 1;
    }
    proof {
        lemma_min_bytes_unsigned(value, n as nat);
    }
    n
}

proof fn lemma_shift_bytes(value: u64, n: nat)
    requires
        1 <= n,
        value as nat / pow2(8 * n) != 0,
    ensures
        n < 8,
        (value as nat / pow2(8 * n)) / 256 == value as nat / pow2(8 * (n + 1)),
{
    vstd::arithmetic::power2::lemma2_to64();
    vstd::arithmetic::power2::lemma2_to64_rest();
    vstd::arithmetic::power2::lemma_pow2_adds(8 * n, 8);
    vstd::arithmetic::power2::lemma_pow2_pos(8 * n);
    assert(8 * (n + 1) == 8 * n + 8);
    vstd::arithmetic::div_mod::lemma_div_denominator(value as int, pow2(8 * n) as int, 256);
    if n >= 8 {
        if 8 * n > 64 {
            vstd::arithmetic::power2::lemma_pow2_strictly_increases(64, 8 * n);
        }
        vstd::arithmetic::div_mod::lemma_basic_div(value as int, pow2(8 * n) as int);
    }
}

proof fn lemma_min_bytes_unsigned(value: u64, n: nat)
    requires
        1 <= n <= 8,
        value as nat / pow2(8 * n) == 0,
        n > 1 ==> value as nat / pow2(8 * (n - 1) as nat) != 0,
    ensures
        n == spec_min_bytes_unsigned(value as nat),
{
    vstd::arithmetic::power2::lemma2_to64();
    vstd::arithmetic::power2::lemma2_to64_rest();
    vstd::arithmetic::div_mod::lemma_div_is_ordered_by_denominator(value as int, 1, pow2(8 * n) as int);
    vstd::arithmetic::div_mod::lemma_fundamental_div_mod(value as int, pow2(8 * n) as int);
    if n > 1 {
        vstd::arithmetic::div_mod::lemma_fundamental_div_mod(
            value as int,
            pow2(8 * (n - 1) as nat) as int,
        );
        let q = value as nat / pow2(8 * (n - 1) as nat);
        let p = pow2(8 * (n - 1) as nat);
        assert(value >= p) by (nonlinear_arith)
            requires
                q >= 1,
                value as int == p * q + value as int % p as int,
                value as int % p as int >= 0,
        ;
    }
    let p = pow2(8 * n);
    assert(value < p) by {
        vstd::arithmetic::div_mod::lemma_mod_pos_bound(value as int, p as int);
    }
}

/// Calculate the number of bytes required to store a signed integer (minimum 1).
pub fn required_signed_bytes_min1(value: i64) -> (r: usize)
    ensures
        r as nat == spec_min_bytes_signed(value as int),
        1 <= r <= 8,
{
    if -0x80 <= value && value < 0x80 {
        1
    } else if -0x8000 <= value && value < 0x8000 {
        2
    } else if -0x80_0000 <= value && value < 0x80_0000 {
        3
    } else if -0x8000_0000 <= value && value < 0x8000_0000 {
        4
    } else if -0x80_0000_0000 <= value && value < 0x80_0000_0000 {
        5
    } else if -0x8000_0000_0000 <= value && value < 0x8000_0000_0000 {
        6
    } else if -0x80_0000_0000_0000 <= value && value < 0x80_0000_0000_0000 {
        7
    } else {
        8
    }
}

} // verus!
