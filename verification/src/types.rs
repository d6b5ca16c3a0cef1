//! BONJSON type codes, variable-length integer codings and the `BigNumber` type.
pub mod limits;
pub mod type_code;

use vstd::arithmetic::power2::pow2;
use vstd::prelude::*;

verus! {

/// The zigzag image of a signed value: 0→0, -1→1, 1→2, -2→3, ...
pub open spec fn spec_zigzag(v: int) -> int {
    if v >= 0 {
        2 * v
    } else {
        -2 * v - 1
    }
}

/// The signed value whose zigzag image is `u`.
pub open spec fn spec_unzigzag(u: int) -> int {
    if u % 2 == 0 {
        u / 2
    } else {
        -(u / 2) - 1
    }
}

/// Encode a signed i64 as zigzag encoding: 0→0, -1→1, 1→2, -2→3, ...
pub fn zigzag_encode(v: i64) -> (r: u64)
    ensures
        r as int == spec_zigzag(v as int),
{
    let r = ((v << 1u64) ^ (v >> 63u64)) as u64;
    assert((v >= 0 ==> ((v << 1u64) ^ (v >> 63u64)) as u64 == 2 * v) && (v < 0 ==> ((v << 1u64) ^ (v
        >> 63u64)) as u64 == -2 * v - 1)) by (bit_vector);
    r
}

/// Decode a zigzag-encoded u64 back to i64: 0→0, 1→-1, 2→1, 3→-2, 4→2, ...
pub fn zigzag_decode(v: u64) -> (r: i64)
    ensures
        r as int == spec_unzigzag(v as int),
{
    let h: i64 = (v >> 1u64) as i64;
    assert(v & 1u64 <= 1) by (bit_vector);
    let low: i64 = (v & 1u64) as i64;
    let m: i64 = -low;
    let r = h ^ m;
    assert(v >> 1u64 == v / 2 && v & 1u64 == v % 2) by (bit_vector);
    assert(h ^ 0i64 == h && h ^ (-1i64) == -h - 1) by (bit_vector);
    r
}

/// Zigzag decoding undoes zigzag encoding.
pub proof fn lemma_zigzag_roundtrip(v: i64)
    ensures
        spec_unzigzag(spec_zigzag(v as int)) == v as int,
        0 <= spec_zigzag(v as int) <= u64::MAX,
{
}

/// LEB128 bytes of `v`: seven bits per byte, least significant group first,
/// high bit set on every byte but the last.
pub open spec fn spec_leb128_bytes(v: nat) -> Seq<u8>
    decreases v,
{
    if v < 128 {
        seq![v as u8]
    } else {
        seq![(v % 128 + 128) as u8] + spec_leb128_bytes(v / 128)
    }
}

/// The number that a run of LEB128 groups stands for (high bits ignored).
pub open spec fn spec_leb128_value(s: Seq<u8>) -> nat
    decreases s.len(),
{
    if s.len() == 0 {
        0
    } else {
        (s[0] % 128) as nat + 128 * spec_leb128_value(s.drop_first())
    }
}

/// Index of the first byte without the continuation bit, if any.
pub open spec fn spec_leb128_last(s: Seq<u8>) -> Option<nat>
    decreases s.len(),
{
    if s.len() == 0 {
        None
    } else if s[0] < 128 {
        Some(0)
    } else {
        match spec_leb128_last(s.drop_first()) {
            Some(k) => Some(k + 1),
            None => None,
        }
    }
}

/// What decoding a LEB128 value at the start of `s` gives: the value and the
/// byte count, or nothing when the terminating byte is missing or lies past
/// the tenth byte, or the value does not fit in a `u64`.
#[verifier::opaque]
pub open spec fn spec_leb128_decode(s: Seq<u8>) -> Option<(u64, nat)> {
    match spec_leb128_last(s) {
        Some(k) => if k < 10 && spec_leb128_value(s.take((k + 1) as int)) < pow2(64) {
            Some((spec_leb128_value(s.take((k + 1) as int)) as u64, k + 1))
        } else {
            None
        },
        None => None,
    }
}

proof fn lemma_leb128_value_push(s: Seq<u8>, b: u8)
    ensures
        spec_leb128_value(s.push(b)) == spec_leb128_value(s) + (b % 128) as nat * pow2(
            7 * s.len(),
        ),
    decreases s.len(),
{
    vstd::arithmetic::power2::lemma2_to64();
    if s.len() == 0 {
        assert(s.push(b).drop_first() =~= Seq::<u8>::empty());
        assert(spec_leb128_value(s.push(b).drop_first()) == 0);
        assert(spec_leb128_value(s) == 0);
        assert(s.push(b)[0] == b);
        assert(spec_leb128_value(s.push(b)) == (b % 128) as nat);
        assert(pow2(0) == 1);
        assert(7 * s.len() == 0);
    } else {
        let n = s.len();
        assert(s.push(b).drop_first() =~= s.drop_first().push(b));
        assert(s.push(b)[0] == s[0]);
        lemma_leb128_value_push(s.drop_first(), b);
        vstd::arithmetic::power2::lemma_pow2_adds(7, 7 * (n - 1) as nat);
        assert(7 + 7 * (n - 1) == 7 * n);
        let p = pow2(7 * (n - 1) as nat);
        let x = (b % 128) as nat;
        let r = spec_leb128_value(s.drop_first());
        assert(pow2((7 + 7 * (n - 1)) as nat) == pow2(7) * p);
        assert(pow2(7 * n) == 128 * p);
        assert(128 * (r + x * p) == 128 * r + x * (128 * p)) by (nonlinear_arith);
        assert(spec_leb128_value(s.push(b)) == s[0] % 128 + 128 * (r + x * p));
        assert(spec_leb128_value(s) == s[0] % 128 + 128 * r);
        assert(spec_leb128_value(s.push(b)) == spec_leb128_value(s) + x * pow2(7 * n));
    }
}

proof fn lemma_leb128_value_bound(s: Seq<u8>)
    ensures
        spec_leb128_value(s) < pow2(7 * s.len()),
    decreases s.len(),
{
    vstd::arithmetic::power2::lemma2_to64();
    if s.len() > 0 {
        lemma_leb128_value_bound(s.drop_first());
        vstd::arithmetic::power2::lemma_pow2_adds(7, 7 * (s.len() - 1) as nat);
        let r = spec_leb128_value(s.drop_first());
        let p = pow2(7 * (s.len() - 1) as nat);
        assert((s[0] % 128) as nat + 128 * r < 128 * p) by (nonlinear_arith)
            requires
                r < p,
                (s[0] % 128) < 128,
        ;
    }
}

proof fn lemma_leb128_last_prefix(s: Seq<u8>, i: nat)
    requires
        i <= s.len(),
        forall|j: int| 0 <= j < i ==> s[j] >= 128,
    ensures
        i < s.len() && s[i as int] < 128 ==> spec_leb128_last(s) == Some(i),
        i == s.len() ==> spec_leb128_last(s) is None,
    decreases i,
{
    if i > 0 {
        lemma_leb128_last_prefix(s.drop_first(), (i - 1) as nat);
    } else if s.len() > 0 {
    }
}

proof fn lemma_leb128_bytes_shape(v: nat)
    ensures
        spec_leb128_bytes(v).len() >= 1,
        spec_leb128_last(spec_leb128_bytes(v)) == Some((spec_leb128_bytes(v).len() - 1) as nat),
        spec_leb128_value(spec_leb128_bytes(v)) == v,
        v < pow2(64) ==> spec_leb128_bytes(v).len() <= 10,
    decreases v,
{
    vstd::arithmetic::power2::lemma2_to64();
    let s = spec_leb128_bytes(v);
    assert(s.drop_first().len() == 0 ==> spec_leb128_value(s.drop_first()) == 0);
    if v >= 128 {
        lemma_leb128_bytes_shape(v / 128);
        let t = spec_leb128_bytes(v / 128);
        assert(s.drop_first() =~= t);
        assert(s[0] >= 128);
        assert(s[0] % 128 == v % 128);
        assert(spec_leb128_value(s) == (s[0] % 128) as nat + 128 * spec_leb128_value(t));
        if v < pow2(64) {
            vstd::arithmetic::power2::lemma2_to64_rest();
            assert(v / 128 < pow2(57));
            lemma_leb128_len_bound(v / 128);
        }
    }
}

proof fn lemma_leb128_len_bound(v: nat)
    requires
        v < pow2(57),
    ensures
        spec_leb128_bytes(v).len() <= 9,
    decreases v,
{
    vstd::arithmetic::power2::lemma2_to64();
    vstd::arithmetic::power2::lemma2_to64_rest();
    if v >= 128 {
        assert(v / 128 < pow2(56));
        lemma_leb128_len_bound_k(v / 128, 8);
    }
}

proof fn lemma_leb128_len_bound_k(v: nat, k: nat)
    requires
        1 <= k <= 8,
        v < pow2(7 * k),
    ensures
        spec_leb128_bytes(v).len() <= k,
    decreases k,
{
    vstd::arithmetic::power2::lemma2_to64();
    vstd::arithmetic::power2::lemma2_to64_rest();
    if v >= 128 {
        assert(k >= 2);
        vstd::arithmetic::power2::lemma_pow2_adds(7, 7 * (k - 1) as nat);
        assert(v / 128 < pow2(7 * (k - 1) as nat)) by (nonlinear_arith)
            requires
                v < 128 * pow2(7 * (k - 1) as nat),
        ;
        lemma_leb128_len_bound_k(v / 128, (k - 1) as nat);
    }
}

/// Decoding the LEB128 bytes of a 64-bit value gives back the value and the
/// byte count, whatever follows them.
pub proof fn lemma_leb128_roundtrip(v: u64, rest: Seq<u8>)
    ensures
        spec_leb128_decode(spec_leb128_bytes(v as nat) + rest) == Some(
            (v, spec_leb128_bytes(v as nat).len()),
        ),
{
    reveal(spec_leb128_decode);
    vstd::arithmetic::power2::lemma2_to64();
    vstd::arithmetic::power2::lemma2_to64_rest();
    lemma_leb128_bytes_shape(v as nat);
    let b = spec_leb128_bytes(v as nat);
    let s = b + rest;
    let k = (b.len() - 1) as nat;
    assert forall|j: int| 0 <= j < k implies s[j] >= 128 by {
        lemma_leb128_last_index(b, j);
    }
    lemma_leb128_last_index(b, k as int);
    lemma_leb128_last_prefix(s, k);
    assert(s.take((k + 1) as int) =~= b);
}

proof fn lemma_leb128_last_index(s: Seq<u8>, j: int)
    requires
        spec_leb128_last(s) == Some((s.len() - 1) as nat),
        0 <= j < s.len(),
    ensures
        j < s.len() - 1 ==> s[j] >= 128,
        j == s.len() - 1 ==> s[j] < 128,
    decreases j,
{
    if j > 0 {
        lemma_leb128_last_index(s.drop_first(), j - 1);
    }
}

/// Encode a u64 as LEB128 into the provided buffer.
/// Returns the number of bytes written (1-10).
pub fn leb128_encode(value: u64, buf: &mut [u8; 10]) -> (n: usize)
    ensures
        n as int == spec_leb128_bytes(value as nat).len(),
        1 <= n <= 10,
        final(buf)@.take(n as int) == spec_leb128_bytes(value as nat),
        final(buf)@.skip(n as int) == old(buf)@.skip(n as int),
{
    let ghost v0 = value as nat;
    proof {
        lemma_leb128_bytes_shape(v0);
        vstd::arithmetic::power2::lemma2_to64();
        vstd::arithmetic::power2::lemma2_to64_rest();
    }
    let mut rest = value;
    let mut i: usize = 0;
    loop
        invariant
            i <= 9,
            spec_leb128_bytes(v0).len() <= 10,
            v0 == value as nat,
            spec_leb128_bytes(v0) == buf@.take(i as int) + spec_leb128_bytes(rest as nat),
            buf@.skip(i as int + spec_leb128_bytes(rest as nat).len()) == old(buf)@.skip(
                i as int + spec_leb128_bytes(rest as nat).len(),
            ),
            buf@.len() == 10,
        decreases rest,
    {
        assert(rest & 0x7f == rest % 128) by (bit_vector);
        let byte = (rest & 0x7f) as u8;
        assert(byte == rest % 128);
        let ghost old_value = rest;
        let ghost old_buf = buf@;
        rest = rest >> 7u64;
        assert(old_value >> 7u64 == old_value / 128) by (bit_vector);
        if rest == 0 {
            buf[i] = byte;
            assert(buf@.take(i + 1) =~= old_buf.take(i as int) + seq![byte]);
            assert(spec_leb128_bytes(old_value as nat) == seq![byte]);
            assert(buf@.skip(i + 1) =~= old_buf.skip(i + 1));
            assert(spec_leb128_bytes(v0) == buf@.take(i + 1));
            return i + 1;
        }
        buf[i] = byte | 0x80;
        assert(byte < 128 ==> byte | 0x80 == byte + 128) by (bit_vector);
        assert(spec_leb128_bytes(old_value as nat) =~= seq![(byte + 128) as u8]
            + spec_leb128_bytes(rest as nat));
        assert(buf@.take(i + 1) =~= old_buf.take(i as int) + seq![(byte + 128) as u8]);
        assert(buf@.take(i + 1) + spec_leb128_bytes(rest as nat) =~= old_buf.take(i as int)
            + spec_leb128_bytes(old_value as nat));
        assert(buf@.skip(i + 1 + spec_leb128_bytes(rest as nat).len()) =~= old_buf.skip(
            i as int + spec_leb128_bytes(old_value as nat).len(),
        ));
        i += 1;
    }
}

/// Decode a LEB128-encoded value from a byte slice.
/// Returns (value, bytes_consumed) or None if truncated or longer than ten bytes.
pub fn leb128_decode(data: &[u8]) -> (r: Option<(u64, usize)>)
    ensures
        match r {
            Some((v, n)) => spec_leb128_decode(data@) == Some((v, n as nat)),
            None => spec_leb128_decode(data@) is None,
        },
{
    let mut value: u64 = 0;
    let mut shift: u32 = 0;
    let mut i: usize = 0;
    proof {
        reveal(spec_leb128_decode);
        vstd::arithmetic::power2::lemma2_to64();
        vstd::arithmetic::power2::lemma2_to64_rest();
    }
    while i < data.len()
        invariant
            i <= data.len(),
            shift == 7 * i,
            i <= 10,
            forall|j: int| 0 <= j < i ==> data@[j] >= 128,
            i <= 9 ==> value as nat == spec_leb128_value(data@.take(i as int)),
            i == 10 ==> value as nat == spec_leb128_value(data@.take(10)) % pow2(64),
        decreases data.len() - i,
    {
        let byte = data[i];
        if shift >= 64 {
            proof {
                reveal(spec_leb128_decode);
                lemma_leb128_last_prefix(data@, i as nat);
                lemma_leb128_last_ge(data@, i as nat);
            }
            return None;
        }
        if shift == 63 && byte & 0x7f > 1 {
            proof {
                reveal(spec_leb128_decode);
                assert(byte & 0x7f == byte % 128) by (bit_vector);
                lemma_leb128_value_push(data@.take(i as int), byte);
                assert(data@.take(i + 1) =~= data@.take(i as int).push(byte));
                vstd::arithmetic::power2::lemma2_to64();
                vstd::arithmetic::power2::lemma2_to64_rest();
                assert(pow2(64) == 2 * pow2(63));
                assert(((byte % 128) as nat) * pow2(63) >= 2 * pow2(63)) by (nonlinear_arith)
                    requires
                        (byte % 128) >= 2,
                ;
                if byte < 128 {
                    lemma_leb128_last_prefix(data@, i as nat);
                } else {
                    lemma_leb128_last_ge(data@, (i + 1) as nat);
                }
            }
            return None;
        }
        proof {
            lemma_leb128_value_bound(data@.take(i as int));
            lemma_leb128_value_push(data@.take(i as int), byte);
            assert(data@.take(i + 1) =~= data@.take(i as int).push(byte));
        }
        let part: u64 = ((byte & 0x7f) as u64) << shift;
        let ghost old_value = value;
        proof {
            assert(byte & 0x7f == byte % 128) by (bit_vector);
            vstd::arithmetic::power2::lemma2_to64();
            vstd::arithmetic::power2::lemma2_to64_rest();
            if shift < 63 {
                assert(shift <= 56);
                if shift < 56 {
                    vstd::arithmetic::power2::lemma_pow2_strictly_increases(shift as nat, 56);
                }
                assert(pow2(56) * 128 == pow2(63));
                assert(((byte % 128) as nat) * pow2(shift as nat) < pow2(64)) by (nonlinear_arith)
                    requires
                        (byte % 128) < 128,
                        pow2(shift as nat) <= pow2(56),
                        pow2(56) * 128 == pow2(63),
                        pow2(63) < pow2(64),
                ;
                vstd::bits::lemma_u64_shl_is_mul(((byte & 0x7f) as u64), shift as u64);
            }
            let sh = shift as u64;
            let x = (byte & 0x7f) as u64;
            assert(sh < 64 && old_value < (1u64 << sh) ==> (old_value | (x << sh)) == old_value
                + (x << sh)) by (bit_vector);
            vstd::bits::lemma_u64_shl_is_mul(1, sh);
        }
        value = value | part;
        proof {
            if shift < 63 {
                assert(value as nat == old_value as nat + ((byte % 128) as nat) * pow2(
                    shift as nat,
                ));
            } else {
                let x = (byte & 0x7f) as u64;
                assert(old_value < 0x8000000000000000u64 ==> (old_value | (x << 63u64))
                    == old_value + (x % 2) * 0x8000000000000000u64) by (bit_vector);
                assert(pow2(63) == 0x8000000000000000);
                let t = spec_leb128_value(data@.take(i as int));
                let xq = ((byte % 128) / 2) as int;
                let xr = ((byte % 128) % 2) as int;
                assert((byte % 128) as int == 2 * xq + xr);
                assert(t + ((byte % 128) as nat) * pow2(63) == xq * pow2(64) + (t + xr * pow2(63)))
                    by (nonlinear_arith)
                    requires
                        pow2(64) == 2 * pow2(63),
                        (byte % 128) as int == 2 * xq + xr,
                ;
                vstd::arithmetic::div_mod::lemma_fundamental_div_mod_converse_mod(
                    (t + ((byte % 128) as nat) * pow2(63)) as int,
                    pow2(64) as int,
                    xq,
                    t + xr * pow2(63),
                );
                assert(xr == byte % 2);
            }
        }
        if byte & 0x80 == 0 {
            assert(byte & 0x80 == 0 <==> byte < 128) by (bit_vector);
            proof {
                reveal(spec_leb128_decode);
                lemma_leb128_last_prefix(data@, i as nat);
                if i < 9 {
                    assert(spec_leb128_value(data@.take(i + 1)) < pow2(64)) by {
                        lemma_leb128_value_bound(data@.take(i + 1));
                        vstd::arithmetic::power2::lemma_pow2_strictly_increases(7 * (i + 1) as nat, 64);
                    }
                } else {
                    assert(byte & 0x7f == byte % 128) by (bit_vector);
                    lemma_leb128_value_bound(data@.take(i as int));
                    assert(spec_leb128_value(data@.take(i + 1)) < pow2(64));
                }
            }
            return Some((value, i + 1));
        }
        assert(byte & 0x80 != 0 ==> byte >= 128) by (bit_vector);
        shift += 7;
        i += 1;
    }
    proof {
        reveal(spec_leb128_decode);
        lemma_leb128_last_prefix(data@, i as nat);
    }
    None
}

proof fn lemma_leb128_last_ge(s: Seq<u8>, i: nat)
    requires
        i <= s.len(),
        forall|j: int| 0 <= j < i ==> s[j] >= 128,
    ensures
        match spec_leb128_last(s) {
            Some(k) => k >= i,
            None => true,
        },
    decreases i,
{
    if i > 0 {
        lemma_leb128_last_ge(s.drop_first(), (i - 1) as nat);
    }
}

/// Lookup table mapping a minimum byte count (index = count - 1) to the size index
/// (0-3) of the CPU-native integer width that holds it.
pub const NATIVE_SIZE_INDEX: [u8; 8] = [0, 1, 2, 2, 3, 3, 3, 3];

/// Lookup table mapping a minimum byte count (index = count - 1) to the CPU-native
/// byte count that holds it.
pub const NATIVE_SIZE_BYTES: [usize; 8] = [1, 2, 4, 4, 8, 8, 8, 8];

/// `10^e`.
pub open spec fn pow10(e: nat) -> nat
    decreases e,
{
    if e == 0 {
        1
    } else {
        10 * pow10((e - 1) as nat)
    }
}

/// `10^e` for an exponent small enough to fit in a `u64`.
fn pow10_u64(e: u32) -> (r: u64)
    requires
        e <= 19,
    ensures
        r as nat == pow10(e as nat),
{
    let mut r: u64 = 1;
    let mut i: u32 = 0;
    while i < e
        invariant
            i <= e <= 19,
            r as nat == pow10(i as nat),
        decreases e - i,
    {
        proof {
            lemma_pow10_bound(i as nat);
        }
        r = r * 10;
        i += 1;
    }
    r
}

proof fn lemma_pow10_bound(e: nat)
    requires
        e <= 18,
    ensures
        pow10(e) <= 1_000_000_000_000_000_000,
{
    reveal_with_fuel(pow10, 19);
    lemma_pow10_monotone(e, 18);
}

proof fn lemma_pow10_monotone(e1: nat, e2: nat)
    requires
        e1 <= e2,
    ensures
        1 <= pow10(e1) <= pow10(e2),
    decreases e2,
{
    if e2 > e1 {
        lemma_pow10_monotone(e1, (e2 - 1) as nat);
    } else {
        lemma_pow10_pos(e1);
    }
}

proof fn lemma_pow10_pos(e: nat)
    ensures
        pow10(e) >= 1,
    decreases e,
{
    if e > 0 {
        lemma_pow10_pos((e - 1) as nat);
    }
}

/// A big number with arbitrary precision base-10 representation.
///
/// The value is: sign(signed_length) × magnitude × 10^exponent
///
/// Encoded as zigzag LEB128 exponent, zigzag LEB128 signed_length, then raw
/// little-endian magnitude bytes. Negative zero is not representable.
#[derive(Debug, Clone, Copy, PartialEq, Eq, Structural)]
pub struct BigNumber {
    /// The absolute value of the significand (0 to 2^64-1)
    pub significand: u64,
    /// The base-10 exponent
    pub exponent: i64,
    /// The sign: 1 for positive, -1 for negative
    pub sign: i8,
}

/// The `BigNumber` made of an `i64`: exponent 0, the magnitude as significand,
/// sign -1 for a negative value and 1 otherwise.
pub open spec fn spec_from_i64(value: i64) -> BigNumber {
    BigNumber {
        significand: if value < 0 {
            (-(value as int)) as u64
        } else {
            value as u64
        },
        exponent: 0,
        sign: if value < 0 {
            -1i8
        } else {
            1i8
        },
    }
}

impl BigNumber {
    /// The significand with the sign applied.
    pub open spec fn spec_signed_significand(&self) -> int {
        if self.sign < 0 {
            -(self.significand as int)
        } else {
            self.significand as int
        }
    }

    /// The magnitude `significand × 10^exponent`, when it is a whole number.
    pub open spec fn spec_magnitude(&self) -> Option<nat> {
        let sig = self.significand as nat;
        if self.exponent >= 0 {
            Some(sig * pow10(self.exponent as nat))
        } else if sig % pow10((-self.exponent) as nat) == 0 {
            Some(sig / pow10((-self.exponent) as nat))
        } else {
            None
        }
    }

    /// The value `sign × significand × 10^exponent`, when it is a whole number.
    pub open spec fn spec_integer_value(&self) -> Option<int> {
        match self.spec_magnitude() {
            Some(m) => Some(
                if self.sign < 0 {
                    -m
                } else {
                    m as int
                },
            ),
            None => None,
        }
    }

    /// What `to_i64` gives: the exact value when it is a whole number in the
    /// `i64` range.
    pub open spec fn spec_to_i64(&self) -> Option<i64> {
        match self.spec_integer_value() {
            Some(v) => if i64::MIN <= v <= i64::MAX {
                Some(v as i64)
            } else {
                None
            },
            None => None,
        }
    }

    /// What `to_u64` gives: the exact value when it is a whole number in the
    /// `u64` range.
    pub open spec fn spec_to_u64(&self) -> Option<u64> {
        match self.spec_integer_value() {
            Some(v) => if 0 <= v <= u64::MAX {
                Some(v as u64)
            } else {
                None
            },
            None => None,
        }
    }

    /// Create a new `BigNumber` from its sign (1 or -1), significand and exponent.
    pub fn new(sign: i8, significand: u64, exponent: i64) -> (r: Self)
        ensures
            r == (BigNumber { significand, exponent, sign }),
    {
        Self { significand, exponent, sign }
    }

    /// Create a `BigNumber` representing zero.
    pub fn zero() -> (r: Self)
        ensures
            r == (BigNumber { significand: 0, exponent: 0, sign: 1 }),
    {
        Self::new(1, 0, 0)
    }

    /// Check if this `BigNumber` is zero.
    pub fn is_zero(&self) -> (r: bool)
        ensures
            r == (self.significand == 0),
    {
        self.significand == 0
    }

    /// Check if this `BigNumber` is negative.
    pub fn is_negative(&self) -> (r: bool)
        ensures
            r == (self.sign < 0),
    {
        self.sign < 0
    }

    /// Get the signed significand as an i128 (to handle the full u64 range with sign).
    pub fn signed_significand(&self) -> (r: i128)
        ensures
            r as int == self.spec_signed_significand(),
    {
        let sig = self.significand as i128;
        if self.sign < 0 {
            -sig
        } else {
            sig
        }
    }

    /// The magnitude as a `u64`: none when it is not a whole number or does
    /// not fit.
    fn magnitude_u64(&self) -> (r: Option<u64>)
        ensures
            r matches Some(m) ==> self.spec_magnitude() == Some(m as nat),
            r is None ==> (self.spec_magnitude() matches Some(m) ==> m > u64::MAX),
    {
        let sig = self.significand;
        proof {
            reveal_with_fuel(pow10, 21);
            assert(pow10(20) == 100_000_000_000_000_000_000);
        }
        if sig == 0 {
            proof {
                if self.exponent < 0 {
                    lemma_pow10_pos((-self.exponent) as nat);
                }
            }
            return Some(0);
        }
        if self.exponent >= 0 {
            if self.exponent > 19 {
                proof {
                    let p = pow10(self.exponent as nat);
                    lemma_pow10_monotone(20, self.exponent as nat);
                    assert(sig * p >= p) by (nonlinear_arith)
                        requires
                            sig >= 1,
                            p >= 1,
                    ;
                }
                return None;
            }
            let d = pow10_u64(self.exponent as u32);
            return sig.checked_mul(d);
        }
        if self.exponent < -19 {
            proof {
                let k = (-self.exponent) as nat;
                lemma_pow10_monotone(20, k);
                vstd::arithmetic::div_mod::lemma_small_mod(sig as nat, pow10(k));
            }
            return None;
        }
        let k = (0 - self.exponent) as u32;
        let d = pow10_u64(k);
        proof {
            lemma_pow10_pos(k as nat);
        }
        if sig % d == 0 {
            Some(sig / d)
        } else {
            None
        }
    }

    /// Try to convert this `BigNumber` to an i64.
    /// Returns None if the value cannot be represented exactly.
    pub fn to_i64(&self) -> (r: Option<i64>)
        ensures
            r == self.spec_to_i64(),
    {
        match self.magnitude_u64() {
            None => None,
            Some(m) => {
                if self.sign < 0 {
                    if m <= 0x8000_0000_0000_0000 {
                        Some((0i128 - m as i128) as i64)
                    } else {
                        None
                    }
                } else if m <= 0x7fff_ffff_ffff_ffff {
                    Some(m as i64)
                } else {
                    None
                }
            },
        }
    }

    /// Try to convert this `BigNumber` to a u64.
    /// Returns None if the value cannot be represented exactly.
    pub fn to_u64(&self) -> (r: Option<u64>)
        ensures
            r == self.spec_to_u64(),
    {
        match self.magnitude_u64() {
            None => None,
            Some(m) => if self.sign < 0 && m != 0 {
                None
            } else {
                Some(m)
            },
        }
    }

    /// Create a `BigNumber` from an i64.
    pub fn from_i64(value: i64) -> (r: Self)
        ensures
            r == spec_from_i64(value),
    {
        if value == 0 {
            return Self::zero();
        }
        let sign: i8 = if value < 0 { -1 } else { 1 };
        let significand: u64 = if value < 0 {
            if value == i64::MIN {
                0x8000_0000_0000_0000u64
            } else {
                (-value) as u64
            }
        } else {
            value as u64
        };
        Self::new(sign, significand, 0)
    }

    /// Create a `BigNumber` from a u64.
    pub fn from_u64(value: u64) -> (r: Self)
        ensures
            r == (BigNumber { significand: value, exponent: 0, sign: 1 }),
    {
        Self::new(1, value, 0)
    }
}

impl Default for BigNumber {
    fn default() -> (r: Self)
        ensures
            r == (BigNumber { significand: 0, exponent: 0, sign: 1 }),
    {
        Self::zero()
    }
}

/// Converting an `i64` to a `BigNumber` and back gives the same value, for
/// every `i64`.
pub proof fn lemma_bignumber_i64_roundtrip(value: i64)
    ensures
        spec_from_i64(value).spec_to_i64() == Some(value),
{
    assert(pow10(0) == 1);
    let bn = spec_from_i64(value);
    assert(bn.significand as nat * pow10(0) == bn.significand as nat);
    assert(bn.spec_magnitude() == Some(bn.significand as nat));
    if value < 0 {
        assert(bn.significand as int == -(value as int));
    } else {
        assert(bn.significand as int == value as int);
    }
    assert(bn.spec_integer_value() == Some(value as int));
}

/// Converting a `u64` to a `BigNumber` and back gives the same value.
pub proof fn lemma_bignumber_u64_roundtrip(value: u64)
    ensures
        (BigNumber { significand: value, exponent: 0, sign: 1 }).spec_to_u64() == Some(value),
{
    assert(pow10(0) == 1);
    assert(value * pow10(0) == value);
}

/// `to_i64` and `to_u64` give the number's exact value: a result `x` times
/// `10^-exponent` (for a negative exponent) equals `sign × significand`, or
/// `x` equals `sign × significand × 10^exponent` (for one that is not
/// negative); and any integer of the target type with that property is what
/// they give.
pub proof fn lemma_bignumber_conversions_exact(bn: BigNumber, x: i64, y: u64)
    ensures
        bn.spec_to_i64() matches Some(r) ==> (if bn.exponent >= 0 {
            r as int == bn.spec_signed_significand() * pow10(bn.exponent as nat)
        } else {
            r * pow10((-bn.exponent) as nat) == bn.spec_signed_significand()
        }),
        bn.spec_to_u64() matches Some(r) ==> (if bn.exponent >= 0 {
            r as int == bn.spec_signed_significand() * pow10(bn.exponent as nat)
        } else {
            r * pow10((-bn.exponent) as nat) == bn.spec_signed_significand()
        }),
        (if bn.exponent >= 0 {
            x as int == bn.spec_signed_significand() * pow10(bn.exponent as nat)
        } else {
            x * pow10((-bn.exponent) as nat) == bn.spec_signed_significand()
        }) ==> bn.spec_to_i64() == Some(x),
        (if bn.exponent >= 0 {
            y as int == bn.spec_signed_significand() * pow10(bn.exponent as nat)
        } else {
            y * pow10((-bn.exponent) as nat) == bn.spec_signed_significand()
        }) ==> bn.spec_to_u64() == Some(y),
{
    let sig = bn.significand as int;
    if bn.exponent >= 0 {
        let p = pow10(bn.exponent as nat) as int;
        if bn.sign < 0 {
            assert(-(sig * p) == -sig * p) by (nonlinear_arith);
        }
    } else {
        let d = pow10((-bn.exponent) as nat) as int;
        lemma_pow10_pos((-bn.exponent) as nat);
        // The exact quotient, when there is one.
        vstd::arithmetic::div_mod::lemma_fundamental_div_mod(sig, d);
        vstd::arithmetic::div_mod::lemma_mod_bound(sig, d);
        let q = sig / d;
        if sig % d == 0 {
            assert(q * d == sig) by (nonlinear_arith)
                requires
                    sig == d * q + 0,
            ;
            assert(-q * d == -sig) by (nonlinear_arith)
                requires
                    q * d == sig,
            ;
        }
        // Any integer times d that gives ±sig is that quotient.
        if bn.sign < 0 {
            if x * d == -sig {
                assert((-x) * d == sig) by (nonlinear_arith)
                    requires
                        x * d == -sig,
                ;
                vstd::arithmetic::div_mod::lemma_fundamental_div_mod_converse(sig, d, -x, 0);
            }
            if y * d == -sig {
                assert((-(y as int)) * d == sig) by (nonlinear_arith)
                    requires
                        y * d == -sig,
                ;
                vstd::arithmetic::div_mod::lemma_fundamental_div_mod_converse(sig, d, -(y as int), 0);
            }
        } else {
            if x * d == sig {
                vstd::arithmetic::div_mod::lemma_fundamental_div_mod_converse(sig, d, x as int, 0);
            }
            if y * d == sig {
                vstd::arithmetic::div_mod::lemma_fundamental_div_mod_converse(sig, d, y as int, 0);
            }
        }
    }
}

} // verus!
