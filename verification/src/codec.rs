//! The payload codec: from a wire address and a centiunit value to the
//! fixed-size frame pair the device expects.
//!
//! Channel-family frames carry the value as a 4-byte little-endian IEEE-754
//! single-precision number.  Two numeric conventions apply by sub-feature
//! index: the ten equalizer-band indices and the pre-amp index carry the
//! value unscaled (engineering units), every other channel index carries the
//! value divided by one hundred (percent to fraction).  Since values are
//! stored as exact centiunits `c`, the encoded number is the rational
//! `c / 100` or `c / 10000`, rounded to the nearest representable number
//! with ties to even — computed here entirely in integer arithmetic.

use vstd::prelude::*;
use vstd::arithmetic::power2::*;
use vstd::arithmetic::div_mod::*;

use crate::registry::{DeviceError, Format};

verus! {

/// Largest centiunit magnitude the codec accepts: beyond this the scaled
/// value could no longer be recovered exactly from the encoded number.
pub const VALUE_LIMIT: i32 = 0x0080_0000;

/// Largest divisor the codec is stated for.
pub const DIVISOR_LIMIT: u32 = 100000;

/// The integer nearest to `num / den`, ties rounded to the even neighbour.
pub open spec fn rne_div(num: int, den: int) -> int
    recommends
        1 <= den,
{
    let q = num / den;
    let r = num % den;
    if 2 * r < den {
        q
    } else if 2 * r > den {
        q + 1
    } else if q % 2 == 0 {
        q
    } else {
        q + 1
    }
}

/// The smallest left shift that brings `a` into the normalization window
/// `[den * 2^23, den * 2^24)`.
pub open spec fn norm_shift(a: int, den: int) -> nat
    recommends
        1 <= a,
        1 <= den,
    decreases den * 0x100_0000 - a,
        when 1 <= a && 1 <= den
{
    if a >= den * 0x800000 {
        0
    } else {
        1 + norm_shift(2 * a, den)
    }
}

/// The IEEE-754 single-precision bit pattern nearest to the rational
/// `c / den`, ties to even.  Stated for `|c| <= den * 2^23`, which keeps the
/// result a normal number.
pub open spec fn f32_bits_of(c: int, den: int) -> int
    recommends
        1 <= den,
        -den * 0x800000 <= c <= den * 0x800000,
{
    if c == 0 {
        0
    } else {
        let a = if c < 0 {
            -c
        } else {
            c
        };
        let s = norm_shift(a, den);
        let m0 = rne_div(a * pow2(s), den);
        let sign: int = if c < 0 {
            0x8000_0000
        } else {
            0
        };
        if m0 == 0x100_0000 {
            sign + (151 - s) * 0x80_0000
        } else {
            sign + (150 - s) * 0x80_0000 + (m0 - 0x80_0000)
        }
    }
}

/// `a * pow2(s)` stays inside the window once the shift search ends.
proof fn lemma_norm_shift_window(a: int, den: int)
    requires
        1 <= a,
        1 <= den,
        a < den * 0x100_0000,
    ensures
        den * 0x80_0000 <= a * pow2(norm_shift(a, den)) < den * 0x100_0000,
    decreases den * 0x100_0000 - a,
{
    reveal(pow2);
    reveal(vstd::arithmetic::power::pow);
    if a >= den * 0x80_0000 {
        assert(norm_shift(a, den) == 0);
        lemma2_to64();
        assert(a * pow2(norm_shift(a, den)) == a);
    } else {
        lemma_norm_shift_window(2 * a, den);
        let s2 = norm_shift(2 * a, den);
        assert(norm_shift(a, den) == 1 + s2);
        lemma_pow2_unfold((1 + s2) as nat);
        assert(pow2((1 + s2) as nat) == 2 * pow2(s2));
        assert(a * (2 * pow2(s2)) == (2 * a) * pow2(s2)) by (nonlinear_arith);
    }
}

/// Rounding error of `rne_div`: at most half the divisor, and exactly half
/// only when the result is even.
proof fn lemma_rne_err(num: int, den: int)
    requires
        1 <= den,
    ensures
        -den <= 2 * (rne_div(num, den) * den - num) <= den,
        2 * (rne_div(num, den) * den - num) == den || 2 * (rne_div(num, den) * den - num) == -den
            ==> rne_div(num, den) % 2 == 0,
{
    lemma_fundamental_div_mod(num, den);
    let q = num / den;
    let r = num % den;
    lemma_mod_bound(num, den);
    assert(0 <= r < den);
    if 2 * r < den {
        assert(rne_div(num, den) == q);
        assert(q * den - num == -r) by (nonlinear_arith)
            requires num == den * q + r;
    } else if 2 * r > den {
        assert(rne_div(num, den) == q + 1);
        assert((q + 1) * den - num == den - r) by (nonlinear_arith)
            requires num == den * q + r;
    } else {
        // exact tie: the chosen neighbour is even
        if q % 2 == 0 {
            assert(rne_div(num, den) == q);
            assert(q * den - num == -r) by (nonlinear_arith)
                requires num == den * q + r;
        } else {
            assert(rne_div(num, den) == q + 1);
            assert((q + 1) * den - num == den - r) by (nonlinear_arith)
                requires num == den * q + r;
            assert((q + 1) % 2 == 0);
        }
    }
}

/// If `num` is within half of `den` of the multiple `a * den`, then `a` is
/// the rounded quotient.
proof fn lemma_rne_near(num: int, den: int, a: int)
    requires
        1 <= den,
        2 * (num - a * den) < den,
        2 * (num - a * den) > -den,
    ensures
        rne_div(num, den) == a,
{
    let delta = num - a * den;
    if delta >= 0 {
        lemma_fundamental_div_mod_converse(num, den, a, delta);
        assert(num / den == a && num % den == delta);
    } else {
        assert(num == (a - 1) * den + (den + delta)) by (nonlinear_arith)
            requires num - a * den == delta;
        lemma_fundamental_div_mod_converse(num, den, a - 1, den + delta);
        assert(num / den == a - 1 && num % den == den + delta);
    }
}

/// Rounding is unchanged when numerator and divisor double together.
proof fn lemma_rne_scale(x: int, den: int)
    requires
        1 <= den,
    ensures
        rne_div(2 * x, 2 * den) == rne_div(x, den),
{
    lemma_fundamental_div_mod(x, den);
    let q = x / den;
    let r = x % den;
    lemma_mod_bound(x, den);
    assert(2 * x == q * (2 * den) + 2 * r) by (nonlinear_arith)
        requires x == den * q + r;
    lemma_fundamental_div_mod_converse(2 * x, 2 * den, q, 2 * r);
}

/// Field decomposition of a normal single-precision pattern.
proof fn lemma_f32_fields(neg: bool, e: int, mf: int)
    requires
        1 <= e <= 254,
        0 <= mf < 0x80_0000,
    ensures
        ({
            let bits = (if neg { 0x8000_0000 as int } else { 0 }) + e * 0x80_0000 + mf;
            &&& f32_exp_field(bits) == e
            &&& bits % 0x80_0000 == mf
            &&& (bits >= 0x8000_0000) == neg
            &&& 0 <= bits < 0x1_0000_0000
        }),
{
    let sign: int = if neg {
        0x8000_0000
    } else {
        0
    };
    let bits = sign + e * 0x80_0000 + mf;
    let hi: int = if neg {
        256 + e
    } else {
        e
    };
    assert(bits == hi * 0x80_0000 + mf) by (nonlinear_arith)
        requires
            bits == sign + e * 0x80_0000 + mf,
            sign == if neg { 0x8000_0000 as int } else { 0 },
            hi == if neg { 256 + e } else { e },
    ;
    lemma_fundamental_div_mod_converse(bits, 0x80_0000, hi, mf);
    assert(bits / 0x80_0000 == hi && bits % 0x80_0000 == mf);
    if neg {
        lemma_fundamental_div_mod_converse(hi, 256, 1, e);
    } else {
        lemma_fundamental_div_mod_converse(hi, 256, 0, e);
    }
    assert(hi % 256 == e);
    assert(e * 0x80_0000 + mf < 0x8000_0000) by (nonlinear_arith)
        requires
            e <= 254,
            mf < 0x80_0000,
    ;
    assert(0 <= e * 0x80_0000) by (nonlinear_arith)
        requires 1 <= e;
}

/// Facts about the normalization shift on the encoder's input domain.
proof fn lemma_norm_facts(a: int, den: int)
    requires
        1 <= a <= 0x80_0000,
        1 <= den <= DIVISOR_LIMIT,
    ensures
        den * 0x80_0000 <= a * pow2(norm_shift(a, den)) < den * 0x100_0000,
        norm_shift(a, den) <= 40,
        den <= pow2(norm_shift(a, den)),
{
    assert(a < den * 0x100_0000) by (nonlinear_arith)
        requires
            a <= 0x80_0000,
            1 <= den,
    ;
    lemma_norm_shift_window(a, den);
    let s = norm_shift(a, den);
    let p = pow2(s) as int;
    lemma_pow2_pos(s);
    assert(den <= p) by (nonlinear_arith)
        requires
            den * 0x80_0000 <= a * p,
            a <= 0x80_0000,
            0 < p,
    ;
    assert(p <= a * p) by (nonlinear_arith)
        requires
            1 <= a,
            0 < p,
    ;
    lemma2_to64();
    lemma2_to64_rest();
    if s > 40 {
        lemma_pow2_strictly_increases(41, s);
        assert(false);
    }
}

/// Decoding a channel-family number and reapplying the divisor gives back
/// the centiunit value the codec was handed: the scaled encoding loses
/// nothing on the stated domain.
pub proof fn lemma_codec_round_trip(c: int, den: int)
    requires
        1 <= den <= DIVISOR_LIMIT,
        -VALUE_LIMIT <= c <= VALUE_LIMIT,
    ensures
        decode_centi_spec(f32_bits_of(c, den), den) == c,
{
    if c == 0 {
        return;
    }
    let a = if c < 0 {
        -c
    } else {
        c
    };
    let neg = c < 0;
    lemma_norm_facts(a, den);
    let s = norm_shift(a, den);
    let num = a * pow2(s);
    let m0 = rne_div(num, den);
    lemma_fundamental_div_mod(num, den);
    lemma_mod_bound(num, den);
    let q = num / den;
    let r = num % den;
    assert(0x80_0000 <= q < 0x100_0000) by (nonlinear_arith)
        requires
            num == den * q + r,
            0 <= r < den,
            1 <= den,
            den * 0x80_0000 <= num < den * 0x100_0000,
    ;
    lemma_rne_err(num, den);
    let p = pow2(s) as int;
    lemma_pow2_pos(s);
    if r == 0 {
        assert(m0 == q);
        assert(m0 * den == num) by (nonlinear_arith)
            requires
                num == den * q + r,
                r == 0,
                m0 == q,
        ;
    } else {
        // `den` cannot be the full power of two, or the division were exact
        if p == den {
            assert(num == den * a + 0) by (nonlinear_arith)
                requires num == a * p && p == den;
            lemma_fundamental_div_mod_converse(num, den, a, 0);
            assert(false);
        }
        assert(den < p);
    }
    if m0 < 0x100_0000 {
        let e = 150 - s;
        let mf = m0 - 0x80_0000;
        lemma_f32_fields(neg, e, mf);
        let bits = f32_bits_of(c, den);
        assert(bits == (if neg { 0x8000_0000 as int } else { 0 }) + e * 0x80_0000 + mf);
        assert(f32_exp_field(bits) == e && bits % 0x80_0000 == mf);
        if s == 0 {
            // window forces den == 1 here, and division by one is exact
            lemma2_to64();
            assert(p == 1);
            assert(den == 1);
            assert(r == 0) by {
                lemma_fundamental_div_mod_converse(num, 1, num, 0);
            };
            assert(decode_centi_spec(bits, den) == if neg { -(m0 * den * 1) } else { m0 * den * 1 });
            assert(m0 * den == a) by (nonlinear_arith)
                requires
                    m0 * den == num,
                    num == a * p,
                    p == 1,
            ;
        } else {
            assert(decode_centi_spec(bits, den) == if neg {
                -rne_div(m0 * den, p)
            } else {
                rne_div(m0 * den, p)
            });
            if r == 0 {
                assert(m0 * den == p * a + 0) by (nonlinear_arith)
                    requires
                        m0 * den == num,
                        num == a * p,
                ;
                lemma_fundamental_div_mod_converse(m0 * den, p, a, 0);
                assert(rne_div(m0 * den, p) == a);
            } else {
                assert(2 * (m0 * den - a * p) < p && 2 * (m0 * den - a * p) > -p) by (nonlinear_arith)
                    requires
                        -den <= 2 * (m0 * den - num) <= den,
                        num == a * p,
                        den < p,
                ;
                lemma_rne_near(m0 * den, p, a);
            }
        }
    } else {
        assert(m0 == 0x100_0000);
        // the quotient itself is below the window top, so this is a round-up
        assert(r != 0);
        assert(den < p);
        assert(s >= 1) by {
            if s == 0 {
                lemma2_to64();
                assert(p == 1);
            }
        };
        let e = 151 - s;
        lemma_f32_fields(neg, e, 0);
        let bits = f32_bits_of(c, den);
        assert(bits == (if neg { 0x8000_0000 as int } else { 0 }) + e * 0x80_0000 + 0);
        assert(f32_exp_field(bits) == e && bits % 0x80_0000 == 0);
        let mdec = 0x80_0000 as int;
        if s == 1 {
            // den < 2^1 means den == 1: the value is the exact integer m0
            lemma2_to64();
            assert(p == 2);
            assert(den == 1);
            assert(decode_centi_spec(bits, den) == if neg {
                -(mdec * den * 1)
            } else {
                mdec * den * 1
            });
            assert(2 * mdec * den == m0 * den) by (nonlinear_arith)
                requires m0 == 2 * mdec;
            assert(4 * (mdec * den - a) <= den && 4 * (mdec * den - a) >= -den) by (nonlinear_arith)
                requires
                    -den <= 2 * (m0 * den - num) <= den,
                    num == a * p,
                    p == 2,
                    m0 == 2 * mdec,
            ;
            assert(mdec * den == a);
        } else {
            let phalf = pow2((s - 1) as nat) as int;
            lemma_pow2_unfold(s);
            assert(p == 2 * phalf);
            lemma_pow2_pos((s - 1) as nat);
            assert(decode_centi_spec(bits, den) == if neg {
                -rne_div(mdec * den, phalf)
            } else {
                rne_div(mdec * den, phalf)
            });
            lemma_rne_scale(mdec * den, phalf);
            assert(2 * (mdec * den) == m0 * den) by (nonlinear_arith)
                requires m0 == 2 * mdec;
            assert(rne_div(2 * (mdec * den), 2 * phalf) == rne_div(m0 * den, p));
            assert(2 * (m0 * den - a * p) < p && 2 * (m0 * den - a * p) > -p) by (nonlinear_arith)
                requires
                    -den <= 2 * (m0 * den - num) <= den,
                    num == a * p,
                    den < p,
            ;
            lemma_rne_near(m0 * den, p, a);
            assert(rne_div(mdec * den, phalf) == a);
        }
    }
}

/// Executable counterpart of `f32_bits_of`.
pub fn f32_bits_centi(c: i32, den: u32) -> (r: u32)
    requires
        1 <= den <= DIVISOR_LIMIT,
        -VALUE_LIMIT <= c <= VALUE_LIMIT,
    ensures
        r == f32_bits_of(c as int, den as int),
{
    if c == 0 {
        return 0;
    }
    let ghost ci = c as int;
    let a: u64 = if c >= 0 {
        c as u64
    } else {
        (-(c as i64)) as u64
    };
    let ghost ai: int = if ci < 0 { -ci } else { ci };
    assert(a == ai);
    let d: u64 = den as u64;
    let bound: u64 = d * 0x80_0000;
    let mut num: u64 = a;
    let mut s: u32 = 0;
    proof {
        lemma2_to64();
    }
    while num < bound
        invariant
            1 <= d <= DIVISOR_LIMIT,
            1 <= a <= 0x80_0000,
            bound == d * 0x80_0000,
            1 <= num,
            num < d * 0x100_0000,
            num == ai * pow2(s as nat),
            norm_shift(ai, d as int) == s + norm_shift(num as int, d as int),
            pow2(s as nat) <= num,
            s <= 40,
        decreases 2 * bound - num,
    {
        proof {
            assert(norm_shift(num as int, d as int) == 1 + norm_shift(
                2 * num as int,
                d as int,
            ));
            lemma_pow2_unfold((s + 1) as nat);
            assert(ai * (2 * pow2(s as nat)) == 2 * (ai * pow2(s as nat))) by (nonlinear_arith);
            // the shift stays small: 2^s <= num < den * 2^23 < 2^40
            lemma2_to64_rest();
            if s >= 40 {
                assert(pow2(40) <= pow2(s as nat)) by {
                    if s > 40 {
                        lemma_pow2_strictly_increases(40, s as nat);
                    }
                };
                assert(false);
            }
        }
        num = num * 2;
        s = s + 1;
    }
    proof {
        assert(norm_shift(num as int, d as int) == 0);
        assert(norm_shift(ai, d as int) == s);
    }
    let q: u64 = num / d;
    let r: u64 = num % d;
    proof {
        lemma_fundamental_div_mod(num as int, d as int);
        assert(d * 0x80_0000 <= num) by {
            assert(bound <= num);
        };
        assert(0x80_0000 <= q < 0x100_0000) by (nonlinear_arith)
            requires
                num as int == d * q + r,
                0 <= r < d,
                1 <= d,
                d * 0x80_0000 <= num,
                num < d * 0x100_0000,
        ;
    }
    let m0: u64 = if 2 * r < d {
        q
    } else if 2 * r > d {
        q + 1
    } else if q % 2 == 0 {
        q
    } else {
        q + 1
    };
    assert(m0 == rne_div(num as int, d as int));
    let e: u32 = if m0 == 0x100_0000 {
        151 - s
    } else {
        150 - s
    };
    let m_field: u32 = if m0 == 0x100_0000 {
        0
    } else {
        (m0 - 0x80_0000) as u32
    };
    let sign: u32 = if c < 0 {
        0x8000_0000
    } else {
        0
    };
    sign + e * 0x80_0000 + m_field
}

/// The exponent field of a single-precision bit pattern.
pub open spec fn f32_exp_field(bits: int) -> int {
    (bits / 0x80_0000) % 256
}

/// The centiunit value a single-precision bit pattern stands for after the
/// divisor `den` is reapplied, rounded to the nearest integer with ties to
/// even.  Denormal patterns read as zero.
pub open spec fn decode_centi_spec(bits: int, den: int) -> int
    recommends
        1 <= den,
        0 <= bits < 0x1_0000_0000,
{
    let e = f32_exp_field(bits);
    if e == 0 {
        0
    } else {
        let m = 0x80_0000 + bits % 0x80_0000;
        let mag = if e >= 150 {
            m * den * pow2((e - 150) as nat)
        } else {
            rne_div(m * den, pow2((150 - e) as nat) as int)
        };
        if bits >= 0x8000_0000 {
            -mag
        } else {
            mag
        }
    }
}

/// The little-endian byte order of a 32-bit pattern.
pub open spec fn le_bytes_of_u32(v: int) -> Seq<u8> {
    seq![
        (v % 256) as u8,
        ((v / 256) % 256) as u8,
        ((v / 65536) % 256) as u8,
        ((v / 16777216) % 256) as u8,
    ]
}

/// Splits a 32-bit pattern into its little-endian bytes.
pub fn u32_le_bytes(v: u32) -> (r: [u8; 4])
    ensures
        r@ == le_bytes_of_u32(v as int),
{
    let b0 = (v % 256) as u8;
    let b1 = ((v / 256) % 256) as u8;
    let b2 = ((v / 65536) % 256) as u8;
    let b3 = ((v / 16777216) % 256) as u8;
    let r = [b0, b1, b2, b3];
    proof {
        assert(r@ =~= le_bytes_of_u32(v as int));
    }
    r
}

/// The divisor the channel family applies before encoding: the ten
/// equalizer-band indices and the pre-amp index carry the value unscaled
/// (so only the centiunit scale of 100 is removed), every other index is
/// divided by another hundred.
pub open spec fn spec_channel_divisor(idx: u8) -> int {
    if 0x0a <= idx <= 0x14 {
        100
    } else {
        10000
    }
}

/// Executable counterpart of `spec_channel_divisor`.
pub fn channel_divisor(idx: u8) -> (r: u32)
    ensures
        r == spec_channel_divisor(idx),
{
    if 0x0a <= idx && idx <= 0x14 {
        100
    } else {
        10000
    }
}

/// Small executable power of two.
fn pow2_u64(e: u32) -> (r: u64)
    requires
        e <= 40,
    ensures
        r == pow2(e as nat),
{
    let mut r: u64 = 1;
    let mut i: u32 = 0;
    proof {
        lemma2_to64();
        lemma2_to64_rest();
    }
    while i < e
        invariant
            i <= e <= 40,
            r == pow2(i as nat),
            pow2(40) == 0x100_0000_0000,
        decreases e - i,
    {
        proof {
            lemma_pow2_unfold((i + 1) as nat);
            if i + 1 < 40 {
                lemma_pow2_strictly_increases((i + 1) as nat, 40);
            }
        }
        r = r * 2;
        i = i + 1;
    }
    r
}

/// Executable round-to-nearest-even division.
fn rne_div_u64(num: u64, den: u64) -> (r: u64)
    requires
        1 <= den < 0x4000_0000_0000_0000,
        num < 0x8000_0000_0000_0000,
    ensures
        r == rne_div(num as int, den as int),
        r <= num + 1,
{
    let q: u64 = num / den;
    let rem: u64 = num % den;
    proof {
        lemma_fundamental_div_mod(num as int, den as int);
        assert(q <= num) by (nonlinear_arith)
            requires
                num as int == den * q + rem,
                0 <= rem,
                1 <= den,
                0 <= q,
        ;
    }
    if 2 * rem < den {
        q
    } else if 2 * rem > den {
        q + 1
    } else if q % 2 == 0 {
        q
    } else {
        q + 1
    }
}

/// Reads a channel-family float segment back into centiunits, reversing the
/// index-dependent scaling.  Returns `None` for a number too large for the
/// codec's stated domain (an exponent field above 160).
pub fn decode_channel_value(b0: u8, b1: u8, b2: u8, b3: u8, idx: u8) -> (r: Option<i64>)
    ensures
        ({
            let bits = b0 + b1 * 256 + b2 * 0x1_0000 + b3 * 0x100_0000;
            &&& f32_exp_field(bits) <= 160 ==> (r matches Some(v) && v == decode_centi_spec(
                bits,
                spec_channel_divisor(idx),
            ))
            &&& f32_exp_field(bits) > 160 ==> r is None
        }),
{
    let bits: u32 = b0 as u32 + b1 as u32 * 256 + b2 as u32 * 0x1_0000 + b3 as u32 * 0x100_0000;
    let e: u32 = (bits / 0x80_0000) % 256;
    assert(e == f32_exp_field(bits as int));
    if e > 160 {
        return None;
    }
    if e == 0 {
        return Some(0);
    }
    let den: u64 = channel_divisor(idx) as u64;
    assert(den <= 10000);
    let m: u64 = 0x80_0000 + (bits % 0x80_0000) as u64;
    let ghost di = den as int;
    let mag: u64 = if e >= 150 {
        let pw = pow2_u64(e - 150);
        proof {
            lemma2_to64();
            if e > 150 {
                if e < 160 {
                    lemma_pow2_strictly_increases((e - 150) as nat, 10);
                }
            }
            assert(pow2((e - 150) as nat) <= 1024);
            assert(m * den <= 0x100_0000 * 10000) by (nonlinear_arith)
                requires
                    m <= 0x100_0000,
                    den <= 10000,
            ;
            assert((m * den) * pw <= 0x100_0000 * 10000 * 1024) by (nonlinear_arith)
                requires
                    m * den <= 0x100_0000 * 10000,
                    pw <= 1024,
            ;
        }
        m * den * pw
    } else if e <= 111 {
        // the number is below half a centiunit: it reads as zero
        proof {
            let k = (150 - e) as nat;
            lemma2_to64();
            lemma2_to64_rest();
            if k > 39 {
                lemma_pow2_strictly_increases(39, k);
            }
            assert(pow2(39) <= pow2(k));
            assert(m * di < 0x40_0000_0000) by (nonlinear_arith)
                requires
                    m <= 0x100_0000,
                    di <= 10000,
            ;
            assert(2 * (m * di - 0) < pow2(k) && 2 * (m * di - 0) > -(pow2(k) as int));
            lemma_rne_near(m * di, pow2(k) as int, 0);
        }
        0
    } else {
        let p = pow2_u64(150 - e);
        proof {
            lemma_pow2_pos((150 - e) as nat);
            lemma2_to64();
            lemma2_to64_rest();
            if 150 - e < 40 {
                lemma_pow2_strictly_increases((150 - e) as nat, 40);
            }
            assert(p <= 0x100_0000_0000);
            assert(m * den < 0x8000_0000_0000_0000) by (nonlinear_arith)
                requires
                    m <= 0x100_0000,
                    den <= 10000,
            ;
        }
        rne_div_u64(m * den, p)
    };
    assert(mag <= 0x100_0000 * 10000 * 1024 + 1) by (nonlinear_arith)
        requires
            mag <= 0x100_0000 * 10000 * 1024 || mag <= m * den + 1,
            m <= 0x100_0000,
            den <= 10000,
    ;
    if bits >= 0x8000_0000 {
        Some(-(mag as i64))
    } else {
        Some(mag as i64)
    }
}

/// Converts a 0-100 value to the four little-endian bytes of the matching
/// 0.0-1.0 single-precision number.
pub fn value_to_bytes(value: u8) -> (r: [u8; 4])
    ensures
        r@ == le_bytes_of_u32(f32_bits_of(value as int, 100)),
{
    u32_le_bytes(f32_bits_centi(value as i32, 100))
}

/// One device command: a data frame and the commit frame that seals it,
/// each 65 bytes (one report-id byte and 64 payload bytes), written
/// back to back.
#[derive(Clone, Debug, PartialEq)]
pub struct Payload {
    /// The frame carrying the address and value.
    pub data: Vec<u8>,
    /// The fixed acknowledgement frame of the same family.
    pub commit: Vec<u8>,
}

/// The mathematical value of a `Payload`.
pub struct PayloadModel {
    pub data: Seq<u8>,
    pub commit: Seq<u8>,
}

impl View for Payload {
    type V = PayloadModel;

    open spec fn view(&self) -> PayloadModel {
        PayloadModel { data: self.data@, commit: self.commit@ }
    }
}

impl DeepView for Payload {
    type V = PayloadModel;

    open spec fn deep_view(&self) -> PayloadModel {
        self.view()
    }
}

/// Byte `i` of the data frame for address `id` and centiunit value `c`.
pub open spec fn spec_data_byte(id: Format, c: int, i: int) -> u8 {
    match id {
        Format::Global(n) => if i == 1 {
            0x5a
        } else if i == 2 {
            0x26
        } else if i == 3 {
            0x05
        } else if i == 4 {
            0x07
        } else if i == 5 {
            n
        } else if i == 7 {
            if c > 0 {
                0x01
            } else {
                0x00
            }
        } else {
            0
        },
        Format::SBX(n) => if i == 1 {
            0x5a
        } else if i == 2 {
            0x12
        } else if i == 3 {
            0x07
        } else if i == 4 {
            0x01
        } else if i == 5 {
            0x96
        } else if i == 6 {
            n
        } else if 7 <= i < 11 {
            le_bytes_of_u32(f32_bits_of(c, spec_channel_divisor(n)))[i - 7]
        } else {
            0
        },
        Format::RGB(_) => 0,
        Format::Routing(n) => if i == 1 {
            0x5a
        } else if i == 2 {
            0x2c
        } else if i == 3 {
            n
        } else if i == 5 {
            if c > 0 {
                0x04
            } else {
                0x02
            }
        } else {
            0
        },
    }
}

/// Byte `i` of the commit frame for address `id`.
pub open spec fn spec_commit_byte(id: Format, i: int) -> u8 {
    match id {
        Format::Global(_) => if i == 1 {
            0x5a
        } else if i == 2 {
            0x26
        } else if i == 3 {
            0x03
        } else if i == 4 {
            0x08
        } else if i == 5 {
            0xff
        } else if i == 6 {
            0xff
        } else {
            0
        },
        Format::SBX(n) => if i == 1 {
            0x5a
        } else if i == 2 {
            0x11
        } else if i == 3 {
            0x03
        } else if i == 4 {
            0x01
        } else if i == 5 {
            0x96
        } else if i == 6 {
            n
        } else {
            0
        },
        Format::RGB(_) => 0,
        Format::Routing(_) => if i == 1 {
            0x5a
        } else if i == 2 {
            0x2c
        } else if i == 3 {
            0x01
        } else if i == 4 {
            0x01
        } else {
            0
        },
    }
}

/// The full data frame for address `id` and centiunit value `c`.
pub open spec fn spec_data_frame(id: Format, c: int) -> Seq<u8> {
    Seq::new(65, |i: int| spec_data_byte(id, c, i))
}

/// The full commit frame for address `id`.
pub open spec fn spec_commit_frame(id: Format) -> Seq<u8> {
    Seq::new(65, |i: int| spec_commit_byte(id, i))
}

/// The frame pair for address `id` and centiunit value `c`.
pub open spec fn spec_payload(id: Format, c: int) -> PayloadModel {
    PayloadModel { data: spec_data_frame(id, c), commit: spec_commit_frame(id) }
}

/// Extends a frame under construction with zero bytes up to its full size.
fn pad_frame(v: &mut Vec<u8>)
    requires
        old(v)@.len() <= 65,
    ensures
        final(v)@.len() == 65,
        forall|k: int| 0 <= k < old(v)@.len() ==> final(v)@[k] == old(v)@[k],
        forall|k: int| old(v)@.len() <= k < 65 ==> final(v)@[k] == 0u8,
{
    while v.len() < 65
        invariant
            old(v)@.len() <= v@.len() <= 65,
            forall|k: int| 0 <= k < old(v)@.len() ==> v@[k] == old(v)@[k],
            forall|k: int| old(v)@.len() <= k < v@.len() ==> v@[k] == 0u8,
        decreases 65 - v@.len(),
    {
        v.push(0u8);
    }
}

/// Builds the frame pair for one state change: the device applies the data
/// frame only once the commit frame follows it.  The color family has no
/// encoding and is refused rather than silently accepted.
pub fn create_payload(id: &Format, c: i32) -> (r: Result<Payload, DeviceError>)
    requires
        -VALUE_LIMIT <= c <= VALUE_LIMIT,
    ensures
        match r {
            Ok(p) => p@ == spec_payload(*id, c as int) && !(*id is RGB),
            Err(e) => e == DeviceError::Unimplemented && *id is RGB,
        },
{
    let mut data: Vec<u8> = Vec::new();
    let mut commit: Vec<u8> = Vec::new();
    data.push(0x00);
    data.push(0x5a);
    commit.push(0x00);
    commit.push(0x5a);
    match *id {
        Format::Global(n) => {
            data.push(0x26);
            data.push(0x05);
            data.push(0x07);
            data.push(n);
            data.push(0x00);
            data.push(if c > 0 {
                0x01
            } else {
                0x00
            });
            commit.push(0x26);
            commit.push(0x03);
            commit.push(0x08);
            commit.push(0xff);
            commit.push(0xff);
        },
        Format::SBX(n) => {
            let bytes = u32_le_bytes(f32_bits_centi(c, channel_divisor(n)));
            data.push(0x12);
            data.push(0x07);
            data.push(0x01);
            data.push(0x96);
            data.push(n);
            data.push(bytes[0]);
            data.push(bytes[1]);
            data.push(bytes[2]);
            data.push(bytes[3]);
            commit.push(0x11);
            commit.push(0x03);
            commit.push(0x01);
            commit.push(0x96);
            commit.push(n);
        },
        Format::RGB(_) => {
            return Err(DeviceError::Unimplemented);
        },
        Format::Routing(n) => {
            data.push(0x2c);
            data.push(n);
            data.push(0x00);
            data.push(if c > 0 {
                0x04
            } else {
                0x02
            });
            data.push(0x00);
            commit.push(0x2c);
            commit.push(0x01);
            commit.push(0x01);
            commit.push(0x00);
        },
    }
    pad_frame(&mut data);
    pad_frame(&mut commit);
    proof {
        assert(data@ =~= spec_data_frame(*id, c as int));
        assert(commit@ =~= spec_commit_frame(*id));
    }
    Ok(Payload { data, commit })
}

/// The lower-case hexadecimal digit for a value below sixteen.
pub open spec fn spec_hex_digit(n: int) -> char {
    if n == 0 {
        '0'
    } else if n == 1 {
        '1'
    } else if n == 2 {
        '2'
    } else if n == 3 {
        '3'
    } else if n == 4 {
        '4'
    } else if n == 5 {
        '5'
    } else if n == 6 {
        '6'
    } else if n == 7 {
        '7'
    } else if n == 8 {
        '8'
    } else if n == 9 {
        '9'
    } else if n == 10 {
        'a'
    } else if n == 11 {
        'b'
    } else if n == 12 {
        'c'
    } else if n == 13 {
        'd'
    } else if n == 14 {
        'e'
    } else {
        'f'
    }
}

/// The rendering of the first `upto` bytes: `0x`-prefixed pairs of
/// digits, separated by comma and space.
pub open spec fn spec_hex_items(bytes: Seq<u8>, upto: int) -> Seq<char>
    decreases upto,
{
    if upto <= 0 {
        Seq::empty()
    } else {
        let b = bytes[upto - 1];
        let sep: Seq<char> = if upto - 1 > 0 {
            seq![',', ' ']
        } else {
            Seq::empty()
        };
        spec_hex_items(bytes, upto - 1) + sep + seq![
            '0',
            'x',
            spec_hex_digit(b as int / 16),
            spec_hex_digit(b as int % 16),
        ]
    }
}

/// The rendering of a whole byte buffer, bracketed.
pub open spec fn spec_format_hex(bytes: Seq<u8>) -> Seq<char> {
    seq!['['] + spec_hex_items(bytes, bytes.len() as int) + seq![']']
}

/// Executable counterpart of `spec_hex_digit`.
fn hex_digit(n: u8) -> (r: &'static str)
    requires
        n < 16,
    ensures
        r@ =~= seq![spec_hex_digit(n as int)],
{
    proof {
        reveal_strlit("0");
        reveal_strlit("1");
        reveal_strlit("2");
        reveal_strlit("3");
        reveal_strlit("4");
        reveal_strlit("5");
        reveal_strlit("6");
        reveal_strlit("7");
        reveal_strlit("8");
        reveal_strlit("9");
        reveal_strlit("a");
        reveal_strlit("b");
        reveal_strlit("c");
        reveal_strlit("d");
        reveal_strlit("e");
        reveal_strlit("f");
    }
    if n == 0 {
        "0"
    } else if n == 1 {
        "1"
    } else if n == 2 {
        "2"
    } else if n == 3 {
        "3"
    } else if n == 4 {
        "4"
    } else if n == 5 {
        "5"
    } else if n == 6 {
        "6"
    } else if n == 7 {
        "7"
    } else if n == 8 {
        "8"
    } else if n == 9 {
        "9"
    } else if n == 10 {
        "a"
    } else if n == 11 {
        "b"
    } else if n == 12 {
        "c"
    } else if n == 13 {
        "d"
    } else if n == 14 {
        "e"
    } else {
        "f"
    }
}

/// Renders a byte buffer as a bracketed list of `0x`-prefixed pairs of
/// lower-case hexadecimal digits.
pub fn format_hex(bytes: &[u8]) -> (r: String)
    ensures
        r@ == spec_format_hex(bytes@),
{
    let mut out: String = "[".to_owned();
    let mut i: usize = 0;
    proof {
        reveal_strlit("[");
        assert(out@ =~= seq!['['] + spec_hex_items(bytes@, 0));
    }
    while i < bytes.len()
        invariant
            i <= bytes@.len(),
            out@ == seq!['['] + spec_hex_items(bytes@, i as int),
        decreases bytes@.len() - i,
    {
        if i > 0 {
            out.append(", ");
        }
        out.append("0x");
        let b = bytes[i];
        out.append(hex_digit(b / 16));
        out.append(hex_digit(b % 16));
        proof {
            reveal_strlit(", ");
            reveal_strlit("0x");
            assert(out@ =~= seq!['['] + spec_hex_items(bytes@, i + 1 as int));
        }
        i = i + 1;
    }
    out.append("]");
    proof {
        reveal_strlit("]");
        assert(out@ =~= spec_format_hex(bytes@));
    }
    out
}

} // verus!
