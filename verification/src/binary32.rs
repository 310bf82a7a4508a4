//! Software arithmetic for IEEE 754 binary32 values carried as raw bit
//! patterns (`u32`), plus a total-order key for binary32 and binary64 bit
//! patterns.
//!
//! Conventions, fixed by this module and documented for callers:
//! - results are rounded toward zero (truncation);
//! - every NaN produced here is the canonical quiet NaN `QNAN32`;
//! - the total-order key orders values as
//!   negative NaNs < -inf < negative reals < -0 < +0 < positive reals
//!   < +inf < positive NaNs, so NaN sorts after every real value in the
//!   "larger" direction.
//!
//! A bit pattern encodes sign `s`, exponent field `e` (8 bits) and fraction
//! `f` (23 bits); the finite value is `sig * 2^(exp - 150)` with
//! `sig = f + 0x80_0000`, `exp = e` for normal values (`1 <= e <= 254`) and
//! `sig = f`, `exp = 1` for zeros and subnormals (`e == 0`).

use vstd::prelude::*;
use vstd::arithmetic::power2::pow2;

verus! {

/// Canonical quiet NaN.
pub const QNAN32: u32 = 0x7FC0_0000;

/// Bits of +1.0.
pub const ONE32: u32 = 0x3F80_0000;

/// Bits of +0.0.
pub const PLUS_ZERO32: u32 = 0;

/// Bits of -0.0.
pub const MINUS_ZERO32: u32 = 0x8000_0000;

/// Bits of +infinity.
pub const PLUS_INF32: u32 = 0x7F80_0000;

pub open spec fn spec_sign32(b: u32) -> bool {
    b >= 0x8000_0000
}

pub open spec fn spec_exp_field32(b: u32) -> u32 {
    ((b / 0x80_0000) % 0x100) as u32
}

pub open spec fn spec_frac_field32(b: u32) -> u32 {
    (b % 0x80_0000) as u32
}

pub open spec fn spec_is_nan32(b: u32) -> bool {
    spec_exp_field32(b) == 0xFF && spec_frac_field32(b) != 0
}

pub open spec fn spec_is_inf32(b: u32) -> bool {
    spec_exp_field32(b) == 0xFF && spec_frac_field32(b) == 0
}

pub open spec fn spec_is_zero32(b: u32) -> bool {
    spec_exp_field32(b) == 0 && spec_frac_field32(b) == 0
}

pub open spec fn spec_is_finite32(b: u32) -> bool {
    spec_exp_field32(b) < 0xFF
}

/// Decoded significand: the fraction with the hidden bit added for normal
/// values.
pub open spec fn spec_sig32(b: u32) -> nat {
    if spec_exp_field32(b) == 0 {
        spec_frac_field32(b) as nat
    } else {
        spec_frac_field32(b) as nat + 0x80_0000
    }
}

/// Decoded exponent, on the scale where the value is `sig * 2^(exp - 150)`.
pub open spec fn spec_exp32(b: u32) -> int {
    if spec_exp_field32(b) == 0 {
        1
    } else {
        spec_exp_field32(b) as int
    }
}

/// Magnitude bits: the bit pattern with the sign bit cleared.  For finite
/// values, magnitude order equals the order of these bits.
pub open spec fn spec_mag32(b: u32) -> u32 {
    (b % 0x8000_0000) as u32
}

pub open spec fn spec_zero_bits32(sign: bool) -> u32 {
    if sign {
        0x8000_0000u32
    } else {
        0u32
    }
}

pub open spec fn spec_inf_bits32(sign: bool) -> u32 {
    if sign {
        0xFF80_0000u32
    } else {
        0x7F80_0000u32
    }
}

/// Negation: flip the sign bit.
pub open spec fn spec_neg32(b: u32) -> u32 {
    if b >= 0x8000_0000 {
        (b - 0x8000_0000) as u32
    } else {
        (b + 0x8000_0000) as u32
    }
}

/// Total-order key for a binary32 bit pattern: key order is the total order
/// on values described in the module documentation.
pub open spec fn spec_key32(b: u32) -> u32 {
    if b >= 0x8000_0000 {
        (0xFFFF_FFFF - b) as u32
    } else {
        (b + 0x8000_0000) as u32
    }
}

/// Total-order key for a binary64 bit pattern, built the same way.
pub open spec fn spec_key64(b: u64) -> u64 {
    if b >= 0x8000_0000_0000_0000 {
        (0xFFFF_FFFF_FFFF_FFFF - b) as u64
    } else {
        (b + 0x8000_0000_0000_0000) as u64
    }
}

/// A binary64 bit pattern is a NaN: its magnitude bits exceed those of
/// +infinity.
pub open spec fn spec_is_nan64(b: u64) -> bool {
    (b % 0x8000_0000_0000_0000) > 0x7FF0_0000_0000_0000
}

/// Ordering key for binary64 payload values under the natural numeric
/// order: -0.0 and +0.0 share one key, every NaN shares one key above
/// +infinity (NaN is ordered last), and all other values keep the
/// total-order key.
pub open spec fn spec_f64_order_key(b: u64) -> u64 {
    if spec_is_nan64(b) {
        0xFFFF_FFFF_FFFF_FFFF
    } else if b == 0x8000_0000_0000_0000 {
        0x8000_0000_0000_0000
    } else {
        spec_key64(b)
    }
}

pub fn is_nan64(b: u64) -> (r: bool)
    ensures
        r == spec_is_nan64(b),
{
    (b % 0x8000_0000_0000_0000) > 0x7FF0_0000_0000_0000
}

pub fn f64_order_key(b: u64) -> (r: u64)
    ensures
        r == spec_f64_order_key(b),
{
    if is_nan64(b) {
        0xFFFF_FFFF_FFFF_FFFF
    } else if b == 0x8000_0000_0000_0000 {
        0x8000_0000_0000_0000
    } else {
        key64(b)
    }
}

pub fn sign32(b: u32) -> (r: bool)
    ensures
        r == spec_sign32(b),
{
    b >= 0x8000_0000
}

pub fn exp_field32(b: u32) -> (r: u32)
    ensures
        r == spec_exp_field32(b),
{
    (b / 0x80_0000) % 0x100
}

pub fn frac_field32(b: u32) -> (r: u32)
    ensures
        r == spec_frac_field32(b),
{
    b % 0x80_0000
}

pub fn is_nan32(b: u32) -> (r: bool)
    ensures
        r == spec_is_nan32(b),
{
    exp_field32(b) == 0xFF && frac_field32(b) != 0
}

pub fn is_inf32(b: u32) -> (r: bool)
    ensures
        r == spec_is_inf32(b),
{
    exp_field32(b) == 0xFF && frac_field32(b) == 0
}

pub fn is_zero32(b: u32) -> (r: bool)
    ensures
        r == spec_is_zero32(b),
{
    exp_field32(b) == 0 && frac_field32(b) == 0
}

pub fn sig32(b: u32) -> (r: u32)
    ensures
        r as nat == spec_sig32(b),
{
    if exp_field32(b) == 0 {
        frac_field32(b)
    } else {
        frac_field32(b) + 0x80_0000
    }
}

pub fn exp32(b: u32) -> (r: i64)
    ensures
        r as int == spec_exp32(b),
{
    let e = exp_field32(b);
    if e == 0 {
        1
    } else {
        e as i64
    }
}

pub fn mag32(b: u32) -> (r: u32)
    ensures
        r == spec_mag32(b),
{
    b % 0x8000_0000
}

pub fn zero_bits32(sign: bool) -> (r: u32)
    ensures
        r == spec_zero_bits32(sign),
{
    if sign {
        0x8000_0000
    } else {
        0
    }
}

pub fn inf_bits32(sign: bool) -> (r: u32)
    ensures
        r == spec_inf_bits32(sign),
{
    if sign {
        0xFF80_0000
    } else {
        0x7F80_0000
    }
}

pub fn neg32(b: u32) -> (r: u32)
    ensures
        r == spec_neg32(b),
{
    if b >= 0x8000_0000 {
        b - 0x8000_0000
    } else {
        b + 0x8000_0000
    }
}

pub fn key32(b: u32) -> (r: u32)
    ensures
        r == spec_key32(b),
{
    if b >= 0x8000_0000 {
        0xFFFF_FFFF - b
    } else {
        b + 0x8000_0000
    }
}

pub fn key64(b: u64) -> (r: u64)
    ensures
        r == spec_key64(b),
{
    if b >= 0x8000_0000_0000_0000 {
        0xFFFF_FFFF_FFFF_FFFF - b
    } else {
        b + 0x8000_0000_0000_0000
    }
}

// ---------------------------------------------------------------------------
// Packing: normalize a (sign, significand, exponent) triple and encode it.
// The value being encoded is `sig * 2^(e - 150)`, truncating on right shifts.
// ---------------------------------------------------------------------------

/// Shift the significand right until it fits in 24 bits.
pub open spec fn spec_norm_down(sig: nat, e: int) -> (nat, int)
    decreases sig,
{
    if sig >= 0x100_0000 {
        spec_norm_down(sig / 2, e + 1)
    } else {
        (sig, e)
    }
}

/// Shift right until the exponent reaches the bottom of the encodable range
/// (the subnormal range ends at `e == 1`).
pub open spec fn spec_squeeze(sig: nat, e: int) -> (nat, int)
    decreases 1 - e,
{
    if e < 1 {
        spec_squeeze(sig / 2, e + 1)
    } else {
        (sig, e)
    }
}

/// Shift left until the hidden bit is set or the exponent bottoms out.
pub open spec fn spec_norm_up(sig: nat, e: int) -> (nat, int)
    decreases e,
{
    if sig < 0x80_0000 && e > 1 {
        spec_norm_up(sig * 2, e - 1)
    } else {
        (sig, e)
    }
}

/// Encode a normalized triple: `sig < 2^24`, `e >= 1`, and either the hidden
/// bit is set or `e == 1` (subnormal).
pub open spec fn spec_encode32(sign: bool, sig: nat, e: int) -> u32 {
    if sig == 0 {
        spec_zero_bits32(sign)
    } else if e >= 255 {
        spec_inf_bits32(sign)
    } else {
        let base: int = if sig >= 0x80_0000 {
            (e - 1) * 0x80_0000 + sig
        } else {
            sig as int
        };
        if sign {
            (0x8000_0000 + base) as u32
        } else {
            base as u32
        }
    }
}

/// Round (toward zero) and encode an arbitrary `sig * 2^(e - 150)`.
pub open spec fn spec_pack32(sign: bool, sig: nat, e: int) -> u32 {
    let (s1, e1) = spec_norm_down(sig, e);
    let (s2, e2) = spec_squeeze(s1, e1);
    let (s3, e3) = spec_norm_up(s2, e2);
    spec_encode32(sign, s3, e3)
}

proof fn lemma_norm_down_bounds(sig: nat, e: int)
    ensures
        spec_norm_down(sig, e).0 < 0x100_0000,
        e <= spec_norm_down(sig, e).1,
        sig < 0x100_0000 ==> spec_norm_down(sig, e) == (sig, e),
    decreases sig,
{
    if sig >= 0x100_0000 {
        lemma_norm_down_bounds(sig / 2, e + 1);
    }
}

proof fn lemma_squeeze_bounds(sig: nat, e: int)
    requires
        sig < 0x100_0000,
    ensures
        spec_squeeze(sig, e).0 < 0x100_0000,
        spec_squeeze(sig, e).1 >= 1,
        e >= 1 ==> spec_squeeze(sig, e) == (sig, e),
    decreases 1 - e,
{
    if e < 1 {
        lemma_squeeze_bounds(sig / 2, e + 1);
    }
}

proof fn lemma_norm_up_bounds(sig: nat, e: int)
    requires
        sig < 0x100_0000,
        e >= 1,
    ensures
        spec_norm_up(sig, e).0 < 0x100_0000,
        spec_norm_up(sig, e).1 >= 1,
        spec_norm_up(sig, e).1 <= e,
    decreases e,
{
    if sig < 0x80_0000 && e > 1 {
        lemma_norm_up_bounds(sig * 2, e - 1);
    }
}

/// The sign of an encoded value is the sign handed in: a packed result with
/// `sign == false` never has the sign bit set.
pub proof fn lemma_pack32_sign(sign: bool, sig: nat, e: int)
    ensures
        spec_sign32(spec_pack32(sign, sig, e)) == sign,
{
    let (s1, e1) = spec_norm_down(sig, e);
    let (s2, e2) = spec_squeeze(s1, e1);
    let (s3, e3) = spec_norm_up(s2, e2);
    lemma_norm_down_bounds(sig, e);
    lemma_squeeze_bounds(s1, e1);
    lemma_norm_up_bounds(s2, e2);
    assert(s3 < 0x100_0000 && e3 >= 1);
    if s3 != 0 && e3 < 255 {
        let base: int = if s3 >= 0x80_0000 {
            (e3 - 1) * 0x80_0000 + s3
        } else {
            s3 as int
        };
        assert(0 <= base < 0x8000_0000) by {
            if s3 >= 0x80_0000 {
                assert((e3 - 1) * 0x80_0000 <= 253 * 0x80_0000) by (nonlinear_arith)
                    requires
                        1 <= e3 <= 254,
                ;
            }
        }
    }
}

proof fn lemma_squeeze_zero(e: int)
    ensures
        spec_squeeze(0, e).0 == 0,
        spec_squeeze(0, e).1 >= 1,
    decreases 1 - e,
{
    if e < 1 {
        lemma_squeeze_zero(e + 1);
    }
}

proof fn lemma_norm_up_zero(e: int)
    requires
        e >= 1,
    ensures
        spec_norm_up(0, e) == (0nat, 1int),
    decreases e,
{
    if e > 1 {
        lemma_norm_up_zero(e - 1);
    }
}

/// Packing with a significand of zero gives a (signed) zero.
pub proof fn lemma_pack32_zero(sign: bool, e: int)
    ensures
        spec_pack32(sign, 0, e) == spec_zero_bits32(sign),
{
    assert(spec_norm_down(0, e) == (0nat, e));
    lemma_squeeze_zero(e);
    lemma_norm_up_zero(spec_squeeze(0, e).1);
}

/// Exec packing; mirrors `spec_pack32`.
pub fn pack32(sign: bool, sig: u64, e: i64) -> (r: u32)
    requires
        sig <= 0x100_0000_0000_0000,
        -2000 <= e <= 2000,
    ensures
        r == spec_pack32(sign, sig as nat, e as int),
{
    let ghost sig0 = sig as nat;
    let ghost e0 = e as int;
    let mut sig = sig;
    let mut e = e;
    let ghost mut k: nat = 0nat;
    proof {
        vstd::arithmetic::power2::lemma2_to64();
    }
    while sig >= 0x100_0000
        invariant
            spec_norm_down(sig0, e0) == spec_norm_down(sig as nat, e as int),
            sig <= 0x100_0000_0000_0000,
            sig0 <= 0x100_0000_0000_0000,
            e == e0 + k,
            k <= 57,
            -2000 <= e0 <= 2000,
            sig as nat * vstd::arithmetic::power2::pow2(k) <= sig0,
        decreases sig,
    {
        proof {
            let p2k = vstd::arithmetic::power2::pow2(k);
            vstd::arithmetic::power2::lemma_pow2_unfold((k + 1) as nat);
            vstd::arithmetic::power2::lemma_pow2_pos(k);
            assert((sig as nat / 2) * vstd::arithmetic::power2::pow2((k + 1) as nat) <= sig as nat
                * p2k) by (nonlinear_arith)
                requires
                    vstd::arithmetic::power2::pow2((k + 1) as nat) == 2 * p2k,
                    p2k >= 1,
            ;
            if k >= 56 {
                vstd::arithmetic::power2::lemma2_to64_rest();
                if k > 56 {
                    vstd::arithmetic::power2::lemma_pow2_strictly_increases(56, k);
                }
                assert(sig as nat * vstd::arithmetic::power2::pow2(k) >= 2 * vstd::arithmetic::power2::pow2(k)) by (nonlinear_arith)
                    requires
                        sig >= 2,
                ;
                assert(false);
            }
            k = k + 1nat;
        }
        sig = sig / 2;
        e = e + 1;
    }
    let ghost p1 = spec_norm_down(sig0, e0);
    proof {
        assert(p1 == (sig as nat, e as int));
    }
    while e < 1
        invariant
            spec_squeeze(p1.0, p1.1) == spec_squeeze(sig as nat, e as int),
            sig < 0x100_0000,
            e <= 2100,
        decreases 1 - e,
    {
        sig = sig / 2;
        e = e + 1;
    }
    let ghost p2 = spec_squeeze(p1.0, p1.1);
    proof {
        assert(p2 == (sig as nat, e as int));
    }
    while sig < 0x80_0000 && e > 1
        invariant
            spec_norm_up(p2.0, p2.1) == spec_norm_up(sig as nat, e as int),
            sig < 0x100_0000,
            1 <= e <= 2100,
        decreases e,
    {
        sig = sig * 2;
        e = e - 1;
    }
    let ghost p3 = spec_norm_up(p2.0, p2.1);
    proof {
        assert(p3 == (sig as nat, e as int));
    }
    if sig == 0 {
        zero_bits32(sign)
    } else if e >= 255 {
        inf_bits32(sign)
    } else {
        let base: u64 = if sig >= 0x80_0000 {
            proof {
                assert((e - 1) * 0x80_0000 + sig < 0x8000_0000) by (nonlinear_arith)
                    requires
                        1 <= e <= 254,
                        sig < 0x100_0000,
                ;
            }
            (e as u64 - 1) * 0x80_0000 + sig
        } else {
            sig
        };
        if sign {
            0x8000_0000u32 + (base as u32)
        } else {
            base as u32
        }
    }
}

// ---------------------------------------------------------------------------
// Integer square root, by downward binary search on the result bits.
// ---------------------------------------------------------------------------

pub open spec fn spec_isqrt_down(m: nat, r: nat, b: nat) -> nat
    decreases b,
{
    if b == 0 {
        r
    } else if (r + b) * (r + b) <= m {
        spec_isqrt_down(m, r + b, b / 2)
    } else {
        spec_isqrt_down(m, r, b / 2)
    }
}

/// Truncated square root of `m`, for `m < 2^56`.
pub open spec fn spec_isqrt(m: nat) -> nat {
    spec_isqrt_down(m, 0, 0x800_0000)
}

proof fn lemma_isqrt_down_bounds(m: nat, r: nat, b: nat)
    requires
        r * r <= m,
        b > 0 ==> m < (r + 2 * b) * (r + 2 * b),
        b == 0 ==> m < (r + 1) * (r + 1),
        b == 0 || (exists|k: nat| b == pow2(k)),
    ensures
        spec_isqrt_down(m, r, b) * spec_isqrt_down(m, r, b) <= m,
        m < (spec_isqrt_down(m, r, b) + 1) * (spec_isqrt_down(m, r, b) + 1),
    decreases b,
{
    if b > 0 {
        let k = choose|k: nat| b == pow2(k);
        if k == 0 {
            assert(b == 1) by {
                vstd::arithmetic::power2::lemma2_to64();
            }
            if (r + b) * (r + b) <= m {
                lemma_isqrt_down_bounds(m, r + 1, 0);
            } else {
                lemma_isqrt_down_bounds(m, r, 0);
            }
        } else {
            assert(b == 2 * pow2((k - 1) as nat)) by {
                vstd::arithmetic::power2::lemma_pow2_unfold(k);
            }
            assert(b / 2 == pow2((k - 1) as nat));
            if (r + b) * (r + b) <= m {
                assert((r + b) + 2 * (b / 2) == r + 2 * b);
                lemma_isqrt_down_bounds(m, r + b, b / 2);
            } else {
                assert(r + 2 * (b / 2) == r + b);
                lemma_isqrt_down_bounds(m, r, b / 2);
            }
        }
    }
}

/// The truncated square root is exact: it is the largest integer whose
/// square does not exceed the argument.
pub proof fn lemma_isqrt_bounds(m: nat)
    requires
        m < 0x100_0000_0000_0000,
    ensures
        spec_isqrt(m) * spec_isqrt(m) <= m,
        m < (spec_isqrt(m) + 1) * (spec_isqrt(m) + 1),
{
    vstd::arithmetic::power2::lemma2_to64();
    assert(0x800_0000nat == pow2(27));
    assert((2 * 0x800_0000) * (2 * 0x800_0000) == 0x100_0000_0000_0000) by (nonlinear_arith);

    lemma_isqrt_down_bounds(m, 0, 0x800_0000);
}

pub fn isqrt64(m: u64) -> (r: u64)
    requires
        m < 0x100_0000_0000_0000,
    ensures
        r as nat == spec_isqrt(m as nat),
        r <= 0x1000_0000,
{
    let mut r: u64 = 0;
    let mut b: u64 = 0x800_0000;
    while b > 0
        invariant
            m < 0x100_0000_0000_0000,
            r + 2 * b <= 0x1000_0000,
            spec_isqrt(m as nat) == spec_isqrt_down(m as nat, r as nat, b as nat),
        decreases b,
    {
        proof {
            assert((r + b) * (r + b) <= 0x1000_0000 * 0x1000_0000) by (nonlinear_arith)
                requires
                    r + b <= 0x1000_0000,
            ;
        }
        let c = r + b;
        if c * c <= m {
            r = c;
        }
        b = b / 2;
    }
    r
}

/// Small power of two, as an executable table.
pub fn pow2_u64(k: u64) -> (r: u64)
    requires
        k <= 31,
    ensures
        r as nat == pow2(k as nat),
{
    proof {
        vstd::arithmetic::power2::lemma2_to64();
    }
    match k {
        0 => 0x1,
        1 => 0x2,
        2 => 0x4,
        3 => 0x8,
        4 => 0x10,
        5 => 0x20,
        6 => 0x40,
        7 => 0x80,
        8 => 0x100,
        9 => 0x200,
        10 => 0x400,
        11 => 0x800,
        12 => 0x1000,
        13 => 0x2000,
        14 => 0x4000,
        15 => 0x8000,
        16 => 0x10000,
        17 => 0x20000,
        18 => 0x40000,
        19 => 0x80000,
        20 => 0x100000,
        21 => 0x200000,
        22 => 0x400000,
        23 => 0x800000,
        24 => 0x1000000,
        25 => 0x2000000,
        26 => 0x4000000,
        27 => 0x8000000,
        28 => 0x10000000,
        29 => 0x20000000,
        30 => 0x40000000,
        _ => 0x80000000,
    }
}

// ---------------------------------------------------------------------------
// Addition, multiplication, division, square root.
// ---------------------------------------------------------------------------

/// Addition.  The smaller-magnitude operand is aligned exactly (the larger
/// one is shifted left, never losing bits); when the exponents are more than
/// 30 apart the smaller operand is dropped entirely.
pub open spec fn spec_add32(a: u32, b: u32) -> u32 {
    if spec_is_nan32(a) || spec_is_nan32(b) {
        QNAN32
    } else if spec_is_inf32(a) && spec_is_inf32(b) {
        if spec_sign32(a) == spec_sign32(b) {
            a
        } else {
            QNAN32
        }
    } else if spec_is_inf32(a) {
        a
    } else if spec_is_inf32(b) {
        b
    } else if spec_is_zero32(a) && spec_is_zero32(b) {
        if spec_sign32(a) && spec_sign32(b) {
            MINUS_ZERO32
        } else {
            PLUS_ZERO32
        }
    } else if spec_is_zero32(a) {
        b
    } else if spec_is_zero32(b) {
        a
    } else if spec_mag32(a) == spec_mag32(b) && spec_sign32(a) != spec_sign32(b) {
        PLUS_ZERO32
    } else {
        let hi = if spec_mag32(a) >= spec_mag32(b) {
            a
        } else {
            b
        };
        let lo = if spec_mag32(a) >= spec_mag32(b) {
            b
        } else {
            a
        };
        let d = spec_exp32(hi) - spec_exp32(lo);
        if d > 30 {
            hi
        } else {
            let hs = spec_sig32(hi) * pow2(if d >= 0 {
                d as nat
            } else {
                0nat
            });
            let ls = spec_sig32(lo);
            if spec_sign32(hi) == spec_sign32(lo) {
                spec_pack32(spec_sign32(hi), hs + ls, spec_exp32(lo))
            } else if hs >= ls {
                spec_pack32(spec_sign32(hi), (hs - ls) as nat, spec_exp32(lo))
            } else {
                spec_pack32(spec_sign32(hi), (ls - hs) as nat, spec_exp32(lo))
            }
        }
    }
}

pub fn add32(a: u32, b: u32) -> (r: u32)
    ensures
        r == spec_add32(a, b),
{
    if is_nan32(a) || is_nan32(b) {
        QNAN32
    } else if is_inf32(a) && is_inf32(b) {
        if sign32(a) == sign32(b) {
            a
        } else {
            QNAN32
        }
    } else if is_inf32(a) {
        a
    } else if is_inf32(b) {
        b
    } else if is_zero32(a) && is_zero32(b) {
        if sign32(a) && sign32(b) {
            MINUS_ZERO32
        } else {
            PLUS_ZERO32
        }
    } else if is_zero32(a) {
        b
    } else if is_zero32(b) {
        a
    } else if mag32(a) == mag32(b) && sign32(a) != sign32(b) {
        PLUS_ZERO32
    } else {
        let (hi, lo) = if mag32(a) >= mag32(b) {
            (a, b)
        } else {
            (b, a)
        };
        let d: i64 = exp32(hi) - exp32(lo);
        if d > 30 {
            hi
        } else {
            let shift: u64 = if d >= 0 {
                d as u64
            } else {
                0
            };
            let sh: u64 = sig32(hi) as u64;
            let pw: u64 = pow2_u64(shift);
            proof {
                vstd::arithmetic::power2::lemma2_to64();
                if shift < 30 {
                    vstd::arithmetic::power2::lemma_pow2_strictly_increases(shift as nat, 30);
                }
                assert(sh as nat * pw as nat <= 0x100_0000 * 0x4000_0000) by (nonlinear_arith)
                    requires
                        sh <= 0x100_0000,
                        pw <= 0x4000_0000,
                ;
            }
            let hs: u64 = sh * pw;
            let ls: u64 = sig32(lo) as u64;
            if sign32(hi) == sign32(lo) {
                pack32(sign32(hi), hs + ls, exp32(lo))
            } else if hs >= ls {
                pack32(sign32(hi), hs - ls, exp32(lo))
            } else {
                pack32(sign32(hi), ls - hs, exp32(lo))
            }
        }
    }
}

/// Subtraction: `a - b == a + (-b)`.
pub open spec fn spec_sub32(a: u32, b: u32) -> u32 {
    spec_add32(a, spec_neg32(b))
}

pub fn sub32(a: u32, b: u32) -> (r: u32)
    ensures
        r == spec_sub32(a, b),
{
    add32(a, neg32(b))
}

/// Multiplication.
pub open spec fn spec_mul32(a: u32, b: u32) -> u32 {
    if spec_is_nan32(a) || spec_is_nan32(b) {
        QNAN32
    } else {
        let sign = spec_sign32(a) != spec_sign32(b);
        if spec_is_inf32(a) || spec_is_inf32(b) {
            if spec_is_zero32(a) || spec_is_zero32(b) {
                QNAN32
            } else {
                spec_inf_bits32(sign)
            }
        } else if spec_is_zero32(a) || spec_is_zero32(b) {
            spec_zero_bits32(sign)
        } else {
            spec_pack32(sign, spec_sig32(a) * spec_sig32(b), spec_exp32(a) + spec_exp32(b) - 150)
        }
    }
}

pub fn mul32(a: u32, b: u32) -> (r: u32)
    ensures
        r == spec_mul32(a, b),
{
    if is_nan32(a) || is_nan32(b) {
        QNAN32
    } else {
        let sign = sign32(a) != sign32(b);
        if is_inf32(a) || is_inf32(b) {
            if is_zero32(a) || is_zero32(b) {
                QNAN32
            } else {
                inf_bits32(sign)
            }
        } else if is_zero32(a) || is_zero32(b) {
            zero_bits32(sign)
        } else {
            let sa: u64 = sig32(a) as u64;
            let sb: u64 = sig32(b) as u64;
            proof {
                assert(sa as nat * sb as nat <= 0x100_0000 * 0x100_0000) by (nonlinear_arith)
                    requires
                        sa <= 0x100_0000,
                        sb <= 0x100_0000,
                ;
            }
            let p: u64 = sa * sb;
            pack32(sign, p, exp32(a) + exp32(b) - 150)
        }
    }
}

/// Division, truncating the quotient after 30 extra bits.
pub open spec fn spec_div32(a: u32, b: u32) -> u32 {
    if spec_is_nan32(a) || spec_is_nan32(b) {
        QNAN32
    } else {
        let sign = spec_sign32(a) != spec_sign32(b);
        if spec_is_inf32(a) && spec_is_inf32(b) {
            QNAN32
        } else if spec_is_inf32(a) {
            spec_inf_bits32(sign)
        } else if spec_is_inf32(b) {
            spec_zero_bits32(sign)
        } else if spec_is_zero32(b) {
            if spec_is_zero32(a) {
                QNAN32
            } else {
                spec_inf_bits32(sign)
            }
        } else if spec_is_zero32(a) {
            spec_zero_bits32(sign)
        } else {
            let q = (spec_sig32(a) * 0x4000_0000) / spec_sig32(b);
            spec_pack32(sign, q, spec_exp32(a) - spec_exp32(b) + 120)
        }
    }
}

pub fn div32(a: u32, b: u32) -> (r: u32)
    ensures
        r == spec_div32(a, b),
{
    if is_nan32(a) || is_nan32(b) {
        QNAN32
    } else {
        let sign = sign32(a) != sign32(b);
        if is_inf32(a) && is_inf32(b) {
            QNAN32
        } else if is_inf32(a) {
            inf_bits32(sign)
        } else if is_inf32(b) {
            zero_bits32(sign)
        } else if is_zero32(b) {
            if is_zero32(a) {
                QNAN32
            } else {
                inf_bits32(sign)
            }
        } else if is_zero32(a) {
            zero_bits32(sign)
        } else {
            let num: u64 = (sig32(a) as u64) * 0x4000_0000;
            let den: u64 = sig32(b) as u64;
            assert(den != 0);
            let q: u64 = num / den;
            pack32(sign, q, exp32(a) - exp32(b) + 120)
        }
    }
}

/// Square root of non-negative values; the square root of a negative
/// non-zero value (including -inf) is the quiet NaN.
pub open spec fn spec_sqrt32(a: u32) -> u32 {
    if spec_is_nan32(a) {
        QNAN32
    } else if spec_is_zero32(a) {
        a
    } else if spec_sign32(a) {
        QNAN32
    } else if spec_is_inf32(a) {
        a
    } else {
        let k: nat = if spec_exp32(a) % 2 == 0 {
            30
        } else {
            31
        };
        let m = spec_sig32(a) * pow2(k);
        let s = spec_isqrt(m);
        spec_pack32(false, s, (spec_exp32(a) + 150 - k) / 2)
    }
}

pub fn sqrt32(a: u32) -> (r: u32)
    ensures
        r == spec_sqrt32(a),
{
    if is_nan32(a) {
        QNAN32
    } else if is_zero32(a) {
        a
    } else if sign32(a) {
        QNAN32
    } else if is_inf32(a) {
        a
    } else {
        let e = exp32(a);
        let k: u64 = if e % 2 == 0 {
            30
        } else {
            31
        };
        let sa: u64 = sig32(a) as u64;
        let pw: u64 = pow2_u64(k);
        proof {
            vstd::arithmetic::power2::lemma2_to64();
            assert(sa as nat * pw as nat <= 0x100_0000 * 0x8000_0000) by (nonlinear_arith)
                requires
                    sa <= 0x100_0000,
                    pw <= 0x8000_0000,
            ;
        }
        let m: u64 = sa * pw;
        let s: u64 = isqrt64(m);
        let pe: u64 = (e + 150 - k as i64) as u64;
        pack32(false, s, (pe / 2) as i64)
    }
}

// ---------------------------------------------------------------------------
// Sign and zero lemmas.
// ---------------------------------------------------------------------------

proof fn lemma_fields_plus_sign(x: u32)
    requires
        x < 0x8000_0000,
    ensures
        spec_exp_field32((x + 0x8000_0000) as u32) == spec_exp_field32(x),
        spec_frac_field32((x + 0x8000_0000) as u32) == spec_frac_field32(x),
        spec_mag32((x + 0x8000_0000) as u32) == x,
        spec_mag32(x) == x,
{
    let d = 0x80_0000int;
    let q = x as int / d;
    let r = x as int % d;
    vstd::arithmetic::div_mod::lemma_fundamental_div_mod(x as int, d);
    assert(x as int + 0x8000_0000 == d * (q + 0x100) + r);
    vstd::arithmetic::div_mod::lemma_fundamental_div_mod_converse(
        x as int + 0x8000_0000,
        d,
        q + 0x100,
        r,
    );
    vstd::arithmetic::div_mod::lemma_mod_multiples_vanish(1, q, 0x100);
    vstd::arithmetic::div_mod::lemma_mod_multiples_vanish(1, x as int, 0x8000_0000);
}

/// Negation flips the sign bit and preserves every other field.
pub proof fn lemma_neg32_props(b: u32)
    ensures
        spec_sign32(spec_neg32(b)) == !spec_sign32(b),
        spec_exp_field32(spec_neg32(b)) == spec_exp_field32(b),
        spec_frac_field32(spec_neg32(b)) == spec_frac_field32(b),
        spec_mag32(spec_neg32(b)) == spec_mag32(b),
{
    if b >= 0x8000_0000 {
        lemma_fields_plus_sign((b - 0x8000_0000) as u32);
    } else {
        lemma_fields_plus_sign(b);
    }
}

/// Subtracting a finite value from itself gives +0.
pub proof fn lemma_sub32_self_zero(x: u32)
    requires
        spec_is_finite32(x),
    ensures
        spec_sub32(x, x) == PLUS_ZERO32,
{
    lemma_neg32_props(x);
}

/// The sum of two values with clear sign bits has a clear sign bit.
pub proof fn lemma_add32_nonneg(a: u32, b: u32)
    requires
        !spec_sign32(a),
        !spec_sign32(b),
    ensures
        !spec_sign32(spec_add32(a, b)),
{
    if !(spec_is_nan32(a) || spec_is_nan32(b)) && !spec_is_inf32(a) && !spec_is_inf32(b)
        && !spec_is_zero32(a) && !spec_is_zero32(b) && !(spec_mag32(a) == spec_mag32(b)
        && spec_sign32(a) != spec_sign32(b)) {
        let hi = if spec_mag32(a) >= spec_mag32(b) {
            a
        } else {
            b
        };
        let lo = if spec_mag32(a) >= spec_mag32(b) {
            b
        } else {
            a
        };
        let d = spec_exp32(hi) - spec_exp32(lo);
        if d <= 30 {
            let hs = spec_sig32(hi) * pow2(if d >= 0 {
                d as nat
            } else {
                0nat
            });
            let ls = spec_sig32(lo);
            if spec_sign32(hi) == spec_sign32(lo) {
                lemma_pack32_sign(spec_sign32(hi), hs + ls, spec_exp32(lo));
            } else if hs >= ls {
                lemma_pack32_sign(spec_sign32(hi), (hs - ls) as nat, spec_exp32(lo));
            } else {
                lemma_pack32_sign(spec_sign32(hi), (ls - hs) as nat, spec_exp32(lo));
            }
        }
    }
}

/// A value multiplied by itself has a clear sign bit.
pub proof fn lemma_mul32_self_nonneg(a: u32)
    ensures
        !spec_sign32(spec_mul32(a, a)),
{
    if !spec_is_nan32(a) && !spec_is_inf32(a) && !spec_is_zero32(a) {
        lemma_pack32_sign(false, spec_sig32(a) * spec_sig32(a), spec_exp32(a) + spec_exp32(a) - 150);
    }
}

/// The square root of a value with a clear sign bit has a clear sign bit.
pub proof fn lemma_sqrt32_nonneg(a: u32)
    requires
        !spec_sign32(a),
    ensures
        !spec_sign32(spec_sqrt32(a)),
{
    if !spec_is_nan32(a) && !spec_is_zero32(a) && !spec_is_inf32(a) {
        let k: nat = if spec_exp32(a) % 2 == 0 {
            30
        } else {
            31
        };
        lemma_pack32_sign(
            false,
            spec_isqrt(spec_sig32(a) * pow2(k)),
            (spec_exp32(a) + 150 - k) / 2,
        );
    }
}

/// The total-order key of +0 is the least key among values with a clear
/// sign bit.
pub proof fn lemma_key32_zero_least_nonneg(b: u32)
    requires
        !spec_sign32(b),
    ensures
        spec_key32(PLUS_ZERO32) <= spec_key32(b),
{
}

} // verus!



