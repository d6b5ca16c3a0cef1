//! IEEE 754 floating-point numbers held as their bit patterns, so that the
//! format's float handling is integer logic.
use vstd::arithmetic::power2::pow2;
use vstd::prelude::*;

verus! {

/// Biased exponent field of a binary64 bit pattern.
pub open spec fn f64_exp(b: u64) -> u64 {
    (b >> 52u64) & 0x7ff
}

/// Fraction field of a binary64 bit pattern.
pub open spec fn f64_frac(b: u64) -> u64 {
    b & 0xf_ffff_ffff_ffff
}

/// Sign bit of a binary64 bit pattern.
pub open spec fn f64_sign(b: u64) -> u64 {
    b >> 63u64
}

/// Biased exponent field of a binary32 bit pattern.
pub open spec fn f32_exp(b: u32) -> u32 {
    (b >> 23u32) & 0xff
}

/// Fraction field of a binary32 bit pattern.
pub open spec fn f32_frac(b: u32) -> u32 {
    b & 0x7f_ffff
}

/// Sign bit of a binary32 bit pattern.
pub open spec fn f32_sign(b: u32) -> u32 {
    b >> 31u32
}

/// The binary64 pattern is a NaN.
pub open spec fn spec_f64_is_nan(b: u64) -> bool {
    f64_exp(b) == 0x7ff && f64_frac(b) != 0
}

/// The binary64 pattern is an infinity.
pub open spec fn spec_f64_is_infinite(b: u64) -> bool {
    f64_exp(b) == 0x7ff && f64_frac(b) == 0
}

/// The binary32 pattern is a NaN.
pub open spec fn spec_f32_is_nan(b: u32) -> bool {
    f32_exp(b) == 0xff && f32_frac(b) != 0
}

/// The binary32 pattern is an infinity.
pub open spec fn spec_f32_is_infinite(b: u32) -> bool {
    f32_exp(b) == 0xff && f32_frac(b) == 0
}

/// The value of a finite binary64 pattern, times 2^1074 (which makes every
/// finite binary64 and binary32 value an integer).
pub open spec fn spec_f64_scaled(b: u64) -> int {
    let mag: int = f64_mag(f64_exp(b), f64_frac(b));
    if f64_sign(b) == 1 {
        -mag
    } else {
        mag
    }
}

/// The value of a finite binary32 pattern, times 2^1074.
pub open spec fn spec_f32_scaled(b: u32) -> int {
    let mag: int = f32_mag(f32_exp(b), f32_frac(b));
    if f32_sign(b) == 1 {
        -mag
    } else {
        mag
    }
}

/// Magnitude times 2^1074 of binary64 fields.
pub open spec fn f64_mag(e: u64, f: u64) -> int {
    if e == 0 {
        f as int
    } else {
        (f + pow2(52)) * pow2((e - 1) as nat)
    }
}

/// Magnitude times 2^1074 of binary32 fields.
pub open spec fn f32_mag(e: u32, f: u32) -> int {
    if e == 0 {
        f * pow2(925)
    } else {
        (f + pow2(23)) * pow2((e + 924) as nat)
    }
}

/// Whether a binary64 pattern is a NaN.
pub fn f64_is_nan(b: u64) -> (r: bool)
    ensures
        r == spec_f64_is_nan(b),
{
    ((b >> 52u64) & 0x7ff) == 0x7ff && (b & 0xf_ffff_ffff_ffff) != 0
}

/// Whether a binary64 pattern is an infinity.
pub fn f64_is_infinite(b: u64) -> (r: bool)
    ensures
        r == spec_f64_is_infinite(b),
{
    ((b >> 52u64) & 0x7ff) == 0x7ff && (b & 0xf_ffff_ffff_ffff) == 0
}

proof fn lemma_pow2_values()
    ensures
        pow2(0) == 1,
        pow2(23) == 0x80_0000,
        pow2(29) == 0x2000_0000,
        pow2(52) == 0x10_0000_0000_0000,
{
    vstd::arithmetic::power2::lemma2_to64();
    vstd::arithmetic::power2::lemma2_to64_rest();
}

/// Position of the highest set bit of a positive number.
pub open spec fn msb_index(x: nat) -> nat
    decreases x,
{
    if x < 2 {
        0
    } else {
        1 + msb_index(x / 2)
    }
}

/// The binary64 pattern that widening a binary32 pattern gives: exponent
/// rebiased, fraction shifted to the top, subnormals normalized, a NaN kept a
/// NaN with its payload shifted and the quiet bit set.
pub open spec fn spec_f32_to_f64(b: u32) -> u64 {
    let e = f32_exp(b);
    let f = f32_frac(b);
    let (e64, f64f): (int, int) = if e == 0xff {
        if f == 0 {
            (0x7ff, 0)
        } else {
            (0x7ff, (((f as u64) << 29u64) | 0x8_0000_0000_0000) as int)
        }
    } else if e == 0 {
        if f == 0 {
            (0, 0)
        } else {
            let k = 23 - msb_index(f as nat);
            (897 - k, (f * pow2(k as nat) - pow2(23)) * pow2(29))
        }
    } else {
        (e + 896, f * pow2(29))
    };
    (f32_sign(b) * pow2(63) + e64 * pow2(52) + f64f) as u64
}

proof fn lemma_msb_index(x: nat, p: nat)
    requires
        pow2(p) <= x < pow2(p + 1),
    ensures
        msb_index(x) == p,
    decreases p,
{
    vstd::arithmetic::power2::lemma_pow2_unfold(p + 1);
    if p == 0 {
        vstd::arithmetic::power2::lemma2_to64();
    } else {
        vstd::arithmetic::power2::lemma_pow2_unfold(p);
        lemma_msb_index(x / 2, (p - 1) as nat);
    }
}

/// Widen a binary32 pattern to the binary64 pattern of the same number:
/// the same sign, the same value when finite, an infinity for an infinity,
/// a NaN for a NaN.
pub fn f32_bits_to_f64_bits(b: u32) -> (r: u64)
    ensures
        r == spec_f32_to_f64(b),
        f64_sign(r) == f32_sign(b),
        spec_f64_is_nan(r) == spec_f32_is_nan(b),
        spec_f64_is_infinite(r) == spec_f32_is_infinite(b),
        !spec_f32_is_nan(b) && !spec_f32_is_infinite(b) ==> spec_f64_scaled(r) == spec_f32_scaled(
            b,
        ),
{
    let sign: u64 = (b >> 31u32) as u64;
    let exp: u32 = (b >> 23u32) & 0xff;
    let frac: u32 = b & 0x7f_ffff;
    assert(sign <= 1 && exp <= 0xff && frac <= 0x7f_ffff) by (bit_vector)
        requires
            sign == (b >> 31u32) as u64,
            exp == (b >> 23u32) & 0xff,
            frac == b & 0x7f_ffff,
    ;
    proof {
        lemma_pow2_values();
    }
    let (e64, f64f): (u64, u64) = if exp == 0xff {
        if frac == 0 {
            (0x7ff, 0)
        } else {
            assert(((frac as u64) << 29u64) | 0x8_0000_0000_0000 <= 0xf_ffff_ffff_ffff)
                by (bit_vector)
                requires
                    frac <= 0x7f_ffff,
            ;
            (0x7ff, ((frac as u64) << 29u64) | 0x8_0000_0000_0000)
        }
    } else if exp == 0 {
        if frac == 0 {
            assert(f64_mag(0, 0) == f32_mag(exp, frac));
            (0, 0)
        } else {
            let mut m: u32 = frac;
            let mut k: u32 = 0;
            while m & 0x80_0000 == 0
                invariant
                    0 < frac <= 0x7f_ffff,
                    k <= 23,
                    m as int == frac as int * pow2(k as nat),
                    0 < m < 0x100_0000,
                decreases 23 - k,
            {
                assert(m & 0x80_0000 == 0 && 0 < m < 0x100_0000 ==> m < 0x80_0000 && 2 * m
                    < 0x100_0000) by (bit_vector);
                proof {
                    lemma_pow2_values();
                    if k == 23 {
                        assert(frac as int * pow2(23) >= pow2(23)) by (nonlinear_arith)
                            requires
                                frac >= 1,
                        ;
                    }
                    vstd::arithmetic::power2::lemma_pow2_unfold((k + 1) as nat);
                    let pk = pow2(k as nat);
                    assert(frac as int * (2 * pk) == 2 * (frac as int * pk)) by (nonlinear_arith);
                }
                m = m * 2;
                k += 1;
            }
            assert(m & 0x80_0000 != 0 && m < 0x100_0000 ==> m >= 0x80_0000) by (bit_vector);
            proof {
                lemma_pow2_values();
                vstd::arithmetic::power2::lemma_pow2_adds((23 - k) as nat, k as nat);
                vstd::arithmetic::power2::lemma_pow2_adds((24 - k) as nat, k as nat);
                vstd::arithmetic::power2::lemma_pow2_unfold((24 - k) as nat);
                vstd::arithmetic::power2::lemma2_to64();
                let a = pow2((23 - k) as nat);
                let pk = pow2(k as nat);
                assert(pk > 0) by {
                    vstd::arithmetic::power2::lemma_pow2_pos(k as nat);
                }
                assert(frac >= a) by (nonlinear_arith)
                    requires
                        frac as int * pk >= a * pk,
                        pk > 0,
                ;
                assert(frac < 2 * a) by (nonlinear_arith)
                    requires
                        frac as int * pk < 2 * a * pk,
                        pk > 0,
                ;
                lemma_msb_index(frac as nat, (23 - k) as nat);
            }
            proof {
                vstd::arithmetic::power2::lemma_pow2_adds(k as nat, 29);
            }
            let low = ((m - 0x80_0000) as u64) << 29u64;
            assert(((m - 0x80_0000) as u64) << 29u64 == ((m - 0x80_0000) as u64) * 0x2000_0000)
                by (bit_vector)
                requires
                    m < 0x100_0000,
                    m >= 0x80_0000,
            ;
            proof {
                vstd::arithmetic::power2::lemma_pow2_adds(k as nat + 29, (896 - k) as nat);
                let pk = pow2(k as nat);
                let a = pow2((k + 29) as nat);
                let c = pow2((896 - k) as nat);
                assert(low + pow2(52) == m as int * pow2(29));
                assert((m as int * pow2(29)) * c == frac as int * (pk * pow2(29) * c))
                    by (nonlinear_arith)
                    requires
                        m as int == frac as int * pk,
                ;
                assert(pk * pow2(29) == a);
                assert(a * c == pow2(925));
                assert(f64_mag((897 - k) as u64, low) == f32_mag(exp, frac));
            }
            assert(low <= 0xf_ffff_ffff_ffff);
            ((897 - k) as u64, low)
        }
    } else {
        assert(((frac as u64) << 29u64) == (frac as u64) * 0x2000_0000) by (bit_vector)
            requires
                frac <= 0x7f_ffff,
        ;
        assert((frac as u64) * 0x2000_0000 <= 0xf_ffff_ffff_ffff);
        ((exp as u64) + 896, (frac as u64) << 29u64)
    };
    assert(e64 <= 0x7ff && f64f <= 0xf_ffff_ffff_ffff);
    let r = (sign << 63u64) | (e64 << 52u64) | f64f;
    assert(((r >> 52u64) & 0x7ff) == e64 && (r & 0xf_ffff_ffff_ffff) == f64f && (r >> 63u64)
        == sign) by (bit_vector)
        requires
            r == (sign << 63u64) | (e64 << 52u64) | f64f,
            sign <= 1,
            e64 <= 0x7ff,
            f64f <= 0xf_ffff_ffff_ffff,
    ;
    assert(r == sign * 0x8000_0000_0000_0000u64 + e64 * 0x10_0000_0000_0000u64 + f64f)
        by (bit_vector)
        requires
            r == (sign << 63u64) | (e64 << 52u64) | f64f,
            sign <= 1,
            e64 <= 0x7ff,
            f64f <= 0xf_ffff_ffff_ffff,
    ;
    proof {
        vstd::arithmetic::power2::lemma2_to64();
        vstd::arithmetic::power2::lemma2_to64_rest();
        if exp != 0 && exp != 0xff {
            vstd::arithmetic::power2::lemma_pow2_adds(29, (exp + 895) as nat);
            assert(((frac as u64) << 29u64) + pow2(52) == (frac + pow2(23)) * pow2(29));
            assert(((frac + pow2(23)) * pow2(29)) * pow2((exp + 895) as nat) == (frac + pow2(23))
                * (pow2(29) * pow2((exp + 895) as nat))) by (nonlinear_arith);
            assert(f64_mag(e64, f64f) == f32_mag(exp, frac));
        }
        let sb = b;
        assert(f32_sign(sb) == sign);
        assert(f32_exp(sb) == exp);
        assert(f32_frac(sb) == frac);
        if exp == 0xff && frac != 0 {
            assert(((frac as u64) << 29u64) | 0x8_0000_0000_0000 != 0) by (bit_vector);
        }
        assert(f64_exp(r) == e64 && f64_frac(r) == f64f);
    }
    r
}

/// The fields of a binary64 pattern are in range, and an infinity is one of
/// the two patterns with all exponent bits set and no fraction bits.
pub proof fn lemma_f64_fields(b: u64)
    ensures
        f64_exp(b) <= 0x7ff,
        f64_sign(b) <= 1,
        f64_frac(b) <= 0xf_ffff_ffff_ffff,
        spec_f64_is_infinite(b) && f64_sign(b) == 0 ==> b == 0x7ff0_0000_0000_0000,
        spec_f64_is_infinite(b) && f64_sign(b) != 0 ==> b == 0xfff0_0000_0000_0000,
{
    assert((b >> 52u64) & 0x7ff <= 0x7ff && b >> 63u64 <= 1 && b & 0xf_ffff_ffff_ffff
        <= 0xf_ffff_ffff_ffff && ((((b >> 52u64) & 0x7ff) == 0x7ff && (b & 0xf_ffff_ffff_ffff)
        == 0 && b >> 63u64 == 0) ==> b == 0x7ff0_0000_0000_0000) && ((((b >> 52u64) & 0x7ff)
        == 0x7ff && (b & 0xf_ffff_ffff_ffff) == 0 && b >> 63u64 != 0) ==> b
        == 0xfff0_0000_0000_0000)) by (bit_vector);
}

/// Dividing `full × p1` by `p1 × p2`: it divides exactly when `p2` divides
/// `full`, with quotient `full / p2`; likewise for the negated product.
proof fn lemma_scaled_division(full: int, p1: int, p2: int)
    requires
        full >= 0,
        p1 > 0,
        p2 > 0,
    ensures
        ((full * p1) % (p1 * p2) == 0) == (full % p2 == 0),
        ((-(full * p1)) % (p1 * p2) == 0) == (full % p2 == 0),
        full % p2 == 0 ==> (full * p1) / (p1 * p2) == full / p2,
        full % p2 == 0 ==> (-(full * p1)) / (p1 * p2) == -(full / p2),
{
    let d = p1 * p2;
    let q = full / p2;
    let r = full % p2;
    vstd::arithmetic::div_mod::lemma_fundamental_div_mod(full, p2);
    vstd::arithmetic::div_mod::lemma_mod_bound(full, p2);
    assert(full * p1 == q * d + r * p1) by (nonlinear_arith)
        requires
            full == p2 * q + r,
            d == p1 * p2,
    ;
    assert(0 <= r * p1 < d) by (nonlinear_arith)
        requires
            0 <= r < p2,
            p1 > 0,
            d == p1 * p2,
    ;
    assert(d > 0) by (nonlinear_arith)
        requires
            p1 > 0,
            p2 > 0,
            d == p1 * p2,
    ;
    vstd::arithmetic::div_mod::lemma_fundamental_div_mod_converse(full * p1, d, q, r * p1);
    assert((r * p1 == 0) == (r == 0)) by (nonlinear_arith)
        requires
            p1 > 0,
            r >= 0,
    ;
    if r == 0 {
        assert(-(full * p1) == (-q) * d + 0) by (nonlinear_arith)
            requires
                full * p1 == q * d + r * p1,
                r == 0,
        ;
        vstd::arithmetic::div_mod::lemma_fundamental_div_mod_converse(-(full * p1), d, -q, 0);
    } else {
        assert(-(full * p1) == (-q - 1) * d + (d - r * p1)) by (nonlinear_arith)
            requires
                full * p1 == q * d + r * p1,
        ;
        vstd::arithmetic::div_mod::lemma_fundamental_div_mod_converse(
            -(full * p1),
            d,
            -q - 1,
            d - r * p1,
        );
    }
}

/// Where the value of a finite binary64 pattern is a whole number, and which:
/// with `s` its value times 2^1074, `s` is a multiple of 2^1074 exactly when
/// the pattern's fraction bits below the binary point are zero, and the
/// quotient is the signed integer part.
pub proof fn lemma_f64_whole(b: u64)
    requires
        !spec_f64_is_nan(b),
        !spec_f64_is_infinite(b),
    ensures
        ({
            let s = spec_f64_scaled(b);
            let d = pow2(1074) as int;
            let e = f64_exp(b);
            let f = f64_frac(b);
            let full: int = f + pow2(52);
            let neg = f64_sign(b) == 1;
            let up: int = pow2((e - 1075) as nat) as int;
            let down: int = pow2((1075 - e) as nat) as int;
            &&& e == 0 ==> (s % d == 0) == (f == 0) && (f == 0 ==> s / d == 0)
            &&& e >= 1075 ==> s % d == 0 && s / d == (if neg {
                -(full * up)
            } else {
                full * up
            })
            &&& 1 <= e < 1075 ==> (s % d == 0) == (full % down == 0) && (full % down == 0 ==> s / d
                == (if neg {
                -(full / down)
            } else {
                full / down
            }))
        }),
{
    let d = pow2(1074) as int;
    let e = f64_exp(b);
    let f = f64_frac(b);
    let full: int = f + pow2(52);
    vstd::arithmetic::power2::lemma_pow2_pos(1074);
    lemma_f64_fields(b);
    if e == 0 {
        assert(pow2(0) == 1) by {
            vstd::arithmetic::power2::lemma2_to64();
        }
        lemma_scaled_division(f as int, 1, d);
        vstd::arithmetic::power2::lemma_pow2_strictly_increases(52, 1074);
        vstd::arithmetic::power2::lemma2_to64();
        vstd::arithmetic::power2::lemma2_to64_rest();
        assert(f < pow2(52));
        assert((f as nat) < (d as nat));
        vstd::arithmetic::div_mod::lemma_small_mod(f as nat, d as nat);
        if f == 0 {
            assert(spec_f64_scaled(b) == 0);
        }
        assert(f as int * 1 == f);
        assert(1 * d == d);
    } else if e >= 1075 {
        let k = (e - 1075) as nat;
        vstd::arithmetic::power2::lemma_pow2_adds(k, 1074);
        assert((e - 1) as nat == k + 1074);
        let m = full * pow2(k);
        assert(full * pow2((e - 1) as nat) == m * d) by (nonlinear_arith)
            requires
                pow2((e - 1) as nat) == pow2(k) * d,
                m == full * pow2(k),
        ;
        vstd::arithmetic::div_mod::lemma_fundamental_div_mod_converse(m * d, d, m, 0);
        assert(-(m * d) == (-m) * d + 0) by (nonlinear_arith);
        vstd::arithmetic::div_mod::lemma_fundamental_div_mod_converse(-(m * d), d, -m, 0);
    } else {
        let k = (1075 - e) as nat;
        let p1 = pow2((e - 1) as nat) as int;
        vstd::arithmetic::power2::lemma_pow2_adds((e - 1) as nat, k);
        assert((e - 1) as nat + k == 1074);
        vstd::arithmetic::power2::lemma_pow2_pos((e - 1) as nat);
        vstd::arithmetic::power2::lemma_pow2_pos(k);
        lemma_scaled_division(full as int, p1, pow2(k) as int);
    }
}

} // verus!
