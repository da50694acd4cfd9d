//! JavaScript numbers as bit patterns. The bridge carries a number as the
//! 64 bits of its IEEE 754 double, so values with no exact host integer form
//! (NaN, infinities, fractions) cross unchanged. This module gives those
//! bits their integer meaning: encoding a host integer into bits, with
//! round-to-nearest-even above the exact range, and truncating bits back to
//! a saturated host integer, as `as`-casts between `f64` and integers do.

use vstd::prelude::*;
use vstd::arithmetic::power2::{
    lemma2_to64, lemma2_to64_rest, lemma_pow2_adds, lemma_pow2_pos, lemma_pow2_strictly_increases,
    pow2,
};

verus! {

/// The sign bit.
pub open spec fn sign_of(bits: u64) -> bool {
    bits >= 0x8000000000000000
}

/// The biased exponent field.
pub open spec fn exp_of(bits: u64) -> int {
    (bits as int / pow2(52) as int) % 2048
}

/// The fraction field.
pub open spec fn frac_of(bits: u64) -> int {
    bits as int % pow2(52) as int
}

/// Not a number: all exponent bits set and a nonzero fraction.
pub open spec fn bits_is_nan(bits: u64) -> bool {
    exp_of(bits) == 2047 && frac_of(bits) != 0
}

/// One of the two infinities.
pub open spec fn bits_is_infinite(bits: u64) -> bool {
    exp_of(bits) == 2047 && frac_of(bits) == 0
}

/// A finite value, normal, subnormal or zero.
pub open spec fn bits_is_finite(bits: u64) -> bool {
    exp_of(bits) != 2047
}

/// The full significand, hidden bit included for normal values.
pub open spec fn mant_of(bits: u64) -> int {
    if exp_of(bits) == 0 {
        frac_of(bits)
    } else {
        pow2(52) as int + frac_of(bits)
    }
}

/// The binary exponent the significand is scaled by: the represented
/// magnitude is `mant_of * 2^bexp_of`.
pub open spec fn bexp_of(bits: u64) -> int {
    (if exp_of(bits) == 0 {
        1
    } else {
        exp_of(bits)
    }) - 1075
}

/// The magnitude truncated toward zero, as an unbounded integer.
pub open spec fn mag_floor(bits: u64) -> int {
    if bexp_of(bits) >= 0 {
        mant_of(bits) * pow2(bexp_of(bits) as nat) as int
    } else {
        mant_of(bits) / pow2((-bexp_of(bits)) as nat) as int
    }
}

/// The value truncated toward zero, as an unbounded integer. Meaningful for
/// finite values; an infinity yields its (enormous) significand scaling.
pub open spec fn trunc_of(bits: u64) -> int {
    if sign_of(bits) {
        -mag_floor(bits)
    } else {
        mag_floor(bits)
    }
}

/// An integer clamped into a range.
pub open spec fn clamp(x: int, lo: int, hi: int) -> int {
    if x < lo {
        lo
    } else if x > hi {
        hi
    } else {
        x
    }
}

/// The power of the highest binary digit of a positive integer.
pub open spec fn floor_log2(m: int) -> nat
    decreases m,
{
    if m < 2 {
        0
    } else {
        1 + floor_log2(m / 2)
    }
}

/// The defining property of `floor_log2`.
pub proof fn lemma_floor_log2(m: int)
    requires
        m >= 1,
    ensures
        pow2(floor_log2(m)) <= m < pow2(floor_log2(m) + 1),
    decreases m,
{
    lemma2_to64();
    if m < 2 {
    } else {
        lemma_floor_log2(m / 2);
        let k = floor_log2(m / 2);
        assert(pow2(k + 1) == 2 * pow2(k)) by {
            lemma_pow2_adds(k, 1);
            lemma2_to64();
        }
        assert(pow2(k + 2) == 2 * pow2(k + 1)) by {
            lemma_pow2_adds(k + 1, 1);
            lemma2_to64();
        }
    }
}

/// The bits that encode a magnitude and a sign, rounding to nearest, ties
/// to even, when the magnitude exceeds the exactly representable range.
pub open spec fn encode_mag(mag: int, neg: bool) -> int {
    let sign_term: int = if neg {
        pow2(63) as int
    } else {
        0
    };
    if mag == 0 {
        sign_term
    } else {
        let k = floor_log2(mag);
        if k <= 52 {
            sign_term + (1023 + k) * pow2(52) + (mag * pow2((52 - k) as nat) - pow2(52))
        } else {
            let drop = (k - 52) as nat;
            let rem = mag % pow2(drop) as int;
            let base = mag / pow2(drop) as int;
            let half = pow2((drop - 1) as nat) as int;
            let rounded = if rem > half || (rem == half && base % 2 == 1) {
                base + 1
            } else {
                base
            };
            if rounded == pow2(53) {
                sign_term + (1023 + k + 1) * pow2(52)
            } else {
                sign_term + (1023 + k) * pow2(52) + (rounded - pow2(52))
            }
        }
    }
}

/// Two raised to a small power.
pub fn pow2_u64(e: u64) -> (r: u64)
    requires
        e <= 63,
    ensures
        r as int == pow2(e as nat),
        r >= 1,
{
    let mut i: u64 = 0;
    let mut r: u64 = 1;
    proof {
        lemma2_to64();
    }
    while i < e
        invariant
            0 <= i <= e <= 63,
            r as int == pow2(i as nat),
        decreases e - i,
    {
        proof {
            lemma_pow2_adds(i as nat, 1);
            lemma2_to64();
            if (i as nat) + 1 < 64 {
                lemma_pow2_strictly_increases((i as nat) + 1, 64);
            }
            lemma2_to64_rest();
        }
        r = r * 2;
        i = i + 1;
    }
    proof {
        lemma_pow2_pos(e as nat);
    }
    r
}

/// The power of the highest binary digit.
pub fn log2_floor_u64(m: u64) -> (k: u64)
    requires
        m >= 1,
    ensures
        k as nat == floor_log2(m as int),
        k <= 63,
{
    let mut x: u64 = m;
    let mut k: u64 = 0;
    proof {
        lemma2_to64();
    }
    while x >= 2
        invariant
            x >= 1,
            k <= 63,
            floor_log2(m as int) == k as nat + floor_log2(x as int),
            pow2(k as nat) <= m as int,
        decreases x,
    {
        proof {
            lemma_pow2_adds(k as nat, 1);
            lemma2_to64();
            lemma_floor_log2(x as int);
            assert(pow2(k as nat) * 2 <= m as int) by {
                assert(pow2(floor_log2(x as int)) >= 2) by {
                    lemma2_to64();
                    if floor_log2(x as int) > 1 {
                        lemma_pow2_strictly_increases(1, floor_log2(x as int));
                    }
                }
                lemma_floor_log2_combine(m as int, k as nat, x as int);
                lemma_pow2_pos(k as nat);
                vstd::arithmetic::mul::lemma_mul_left_inequality(
                    pow2(k as nat) as int,
                    2,
                    pow2(floor_log2(x as int)) as int,
                );
            }
            assert(k < 63) by {
                lemma2_to64_rest();
            }
        }
        x = x / 2;
        k = k + 1;
    }
    proof {
        assert(floor_log2(x as int) == 0);
        lemma2_to64_rest();
        if k > 63 {
            assert(pow2(64) <= pow2(k as nat)) by {
                if k as nat > 64 {
                    lemma_pow2_strictly_increases(64, k as nat);
                }
            }
        }
    }
    k
}

/// A power-of-two lower bound carried through the scan of `log2_floor_u64`:
/// the digits above position `k` of `m` are worth at least `pow2(k)` times
/// the value they spell.
proof fn lemma_floor_log2_combine(m: int, k: nat, x: int)
    requires
        x >= 1,
        pow2(k) <= m,
        floor_log2(m) == k + floor_log2(x),
    ensures
        pow2(k) * pow2(floor_log2(x)) <= m,
{
    lemma_pow2_pos(k);
    lemma_floor_log2(m);
    lemma_pow2_adds(k, floor_log2(x));
}

/// Encodes a magnitude and sign as double bits: exact for magnitudes up to
/// two to the fifty-third, rounded to nearest (ties to even) above.
pub fn dbl_encode(mag: u64, neg: bool) -> (r: u64)
    ensures
        r as int == encode_mag(mag as int, neg),
{
    let sign_term: u64 = if neg { 0x8000000000000000 } else { 0 };
    proof {
        lemma2_to64_rest();
        lemma2_to64();
    }
    if mag == 0 {
        return sign_term;
    }
    let k = log2_floor_u64(mag);
    proof {
        lemma_floor_log2(mag as int);
    }
    if k <= 52 {
        let p = pow2_u64(52 - k);
        proof {
            lemma_pow2_adds((k + 1) as nat, (52 - k) as nat);
            assert((mag as int) * (p as int) < pow2(53)) by {
                vstd::arithmetic::mul::lemma_mul_strict_inequality(
                    mag as int,
                    pow2((k + 1) as nat) as int,
                    p as int,
                );
            }
            lemma_pow2_adds(k as nat, (52 - k) as nat);
            assert((mag as int) * (p as int) >= pow2(52)) by {
                vstd::arithmetic::mul::lemma_mul_inequality(
                    pow2(k as nat) as int,
                    mag as int,
                    p as int,
                );
            }
        }
        let base = mag * p;
        sign_term + (1023 + k) * 0x10000000000000 + (base - 0x10000000000000)
    } else {
        let drop = k - 52;
        let p = pow2_u64(drop);
        let rem = mag % p;
        let base = mag / p;
        let half = p / 2;
        proof {
            lemma_pow2_adds((drop - 1) as nat, 1);
            lemma2_to64();
            assert(half as int == pow2((drop - 1) as nat)) by {
                vstd::arithmetic::div_mod::lemma_div_multiples_vanish(
                    pow2((drop - 1) as nat) as int,
                    2,
                );
            }
            assert(base as int == mag as int / pow2(drop as nat) as int);
            assert(rem as int == mag as int % pow2(drop as nat) as int);
            lemma_pow2_pos(drop as nat);
            assert((base as int) >= pow2(52)) by {
                lemma_pow2_adds(52, drop as nat);
                vstd::arithmetic::div_mod::lemma_div_multiples_vanish(
                    pow2(52) as int,
                    pow2(drop as nat) as int,
                );
                vstd::arithmetic::div_mod::lemma_div_is_ordered(
                    pow2(k as nat) as int,
                    mag as int,
                    pow2(drop as nat) as int,
                );
            }
            assert((base as int) < pow2(53)) by {
                lemma_pow2_adds(53, drop as nat);
                vstd::arithmetic::div_mod::lemma_multiply_divide_lt(
                    mag as int,
                    pow2(drop as nat) as int,
                    pow2(53) as int,
                );
            }
        }
        let rounded = if rem > half || (rem == half && base % 2 == 1) { base + 1 } else { base };
        if rounded == 0x20000000000000 {
            sign_term + (1023 + k + 1) * 0x10000000000000
        } else {
            sign_term + (1023 + k) * 0x10000000000000 + (rounded - 0x10000000000000)
        }
    }
}

/// The pieces a finite double's truncation is made of.
pub struct TruncParts {
    /// All exponent bits set and a nonzero fraction: no numeric value.
    pub nan: bool,
    /// The sign bit.
    pub neg: bool,
    /// The truncated magnitude does not fit in sixty-four bits.
    pub huge: bool,
    /// The truncated magnitude, when it fits.
    pub mag: u64,
}

/// Splits double bits into sign and truncated magnitude.
pub fn dbl_trunc_parts(bits: u64) -> (r: TruncParts)
    ensures
        r.nan == bits_is_nan(bits),
        r.neg == sign_of(bits),
        !r.nan && r.huge ==> mag_floor(bits) >= pow2(64),
        !r.nan && !r.huge ==> r.mag as int == mag_floor(bits),
{
    proof {
        lemma2_to64();
        lemma2_to64_rest();
    }
    let p52: u64 = 0x10000000000000;
    let e = (bits / p52) % 2048;
    let f = bits % p52;
    let neg = bits >= 0x8000000000000000;
    proof {
        assert(e as int == exp_of(bits));
        assert(f as int == frac_of(bits));
    }
    if e == 2047 {
        if f != 0 {
            return TruncParts { nan: true, neg, huge: false, mag: 0 };
        }
        proof {
            assert(bexp_of(bits) == 972);
            assert(mant_of(bits) == pow2(52));
            lemma_pow2_adds(52, 972);
            lemma_pow2_strictly_increases(64, 1024);
        }
        return TruncParts { nan: false, neg, huge: true, mag: 0 };
    }
    if e == 0 {
        proof {
            assert(mant_of(bits) == f as int);
            assert(bexp_of(bits) == -1074);
            lemma_pow2_strictly_increases(52, 1074);
            vstd::arithmetic::div_mod::lemma_basic_div(f as int, pow2(1074) as int);
        }
        return TruncParts { nan: false, neg, huge: false, mag: 0 };
    }
    let mant = p52 + f;
    proof {
        assert(mant as int == mant_of(bits));
        assert(bexp_of(bits) == e - 1075);
    }
    if e >= 1075 {
        let shift = e - 1075;
        if shift >= 12 {
            proof {
                assert(mag_floor(bits) == mant_of(bits) * pow2(shift as nat) as int);
                assert(mant_of(bits) >= pow2(52));
                assert(pow2(shift as nat) >= pow2(12)) by {
                    if shift > 12 {
                        lemma_pow2_strictly_increases(12, shift as nat);
                    }
                }
                lemma_pow2_adds(52, 12);
                vstd::arithmetic::mul::lemma_mul_inequality(
                    pow2(52) as int,
                    mant_of(bits),
                    pow2(12) as int,
                );
                vstd::arithmetic::mul::lemma_mul_left_inequality(
                    mant_of(bits),
                    pow2(12) as int,
                    pow2(shift as nat) as int,
                );
            }
            return TruncParts { nan: false, neg, huge: true, mag: 0 };
        }
        let p = pow2_u64(shift);
        proof {
            assert(((mant as int) * (p as int)) < pow2(64)) by {
                assert((mant as int) < pow2(53));
                assert((p as int) <= pow2(11)) by {
                    if shift < 11 {
                        lemma_pow2_strictly_increases(shift as nat, 11);
                    }
                }
                lemma_pow2_adds(53, 11);
                vstd::arithmetic::mul::lemma_mul_strict_upper_bound(
                    mant as int,
                    pow2(53) as int,
                    p as int,
                    pow2(11) as int + 1,
                );
            }
        }
        TruncParts { nan: false, neg, huge: false, mag: mant * p }
    } else {
        let s = 1075 - e;
        if s >= 53 {
            proof {
                assert(mant_of(bits) < pow2(53));
                assert(pow2(53) <= pow2(s as nat)) by {
                    if s > 53 {
                        lemma_pow2_strictly_increases(53, s as nat);
                    }
                }
                vstd::arithmetic::div_mod::lemma_basic_div(mant_of(bits), pow2(s as nat) as int);
            }
            return TruncParts { nan: false, neg, huge: false, mag: 0 };
        }
        let p = pow2_u64(s);
        let mag = mant / p;
        proof {
            assert(mag as int == mant_of(bits) / pow2(s as nat) as int);
        }
        TruncParts { nan: false, neg, huge: false, mag }
    }
}

/// Truncation of an exactly encoded integer magnitude gives it back:
/// encoding any magnitude up to two to the fifty-third loses nothing.
pub proof fn lemma_encode_trunc_exact(mag: u64, neg: bool)
    requires
        (mag as int) <= pow2(53),
    ensures
        0 <= encode_mag(mag as int, neg) < pow2(64),
        !bits_is_nan(encode_mag(mag as int, neg) as u64),
        bits_is_finite(encode_mag(mag as int, neg) as u64),
        trunc_of(encode_mag(mag as int, neg) as u64) == if neg {
            -(mag as int)
        } else {
            mag as int
        },
        mag > 0 ==> sign_of(encode_mag(mag as int, neg) as u64) == neg,
{
    lemma2_to64();
    lemma2_to64_rest();
    let m = mag as int;
    let sign_term: int = if neg { pow2(63) as int } else { 0 };
    if m == 0 {
        let bits = sign_term as u64;
        assert(exp_of(bits) == 0 && frac_of(bits) == 0) by {
            if neg {
                assert(pow2(63) as int / pow2(52) as int == pow2(11)) by {
                    lemma_pow2_adds(11, 52);
                    vstd::arithmetic::div_mod::lemma_div_multiples_vanish(
                        pow2(11) as int,
                        pow2(52) as int,
                    );
                }
                assert(pow2(63) as int % pow2(52) as int == 0) by {
                    lemma_pow2_adds(11, 52);
                    vstd::arithmetic::div_mod::lemma_mod_multiples_basic(
                        pow2(11) as int,
                        pow2(52) as int,
                    );
                }
            }
        }
        assert(mant_of(bits) == 0);
        lemma_pow2_pos(1074);
        vstd::arithmetic::div_mod::lemma_basic_div(0, pow2(1074) as int);
        assert(mag_floor(bits) == 0);
    } else {
        let k = floor_log2(m);
        lemma_floor_log2(m);
        assert(k <= 53) by {
            if k >= 54 {
                lemma_pow2_strictly_increases(53, k);
            }
        }
        if k <= 52 {
            let mant = m * pow2((52 - k) as nat) as int;
            assert(pow2(52) <= mant < pow2(53)) by {
                lemma_pow2_adds(k, (52 - k) as nat);
                lemma_pow2_adds(k + 1, (52 - k) as nat);
                vstd::arithmetic::mul::lemma_mul_inequality(
                    pow2(k) as int,
                    m,
                    pow2((52 - k) as nat) as int,
                );
                vstd::arithmetic::mul::lemma_mul_strict_inequality(
                    m,
                    pow2(k + 1) as int,
                    pow2((52 - k) as nat) as int,
                );
            }
            let bits_i = sign_term + (1023 + k) * pow2(52) + (mant - pow2(52));
            lemma_field_split(neg, 1023 + k as int, mant - pow2(52));
            let bits = bits_i as u64;
            assert(exp_of(bits) == 1023 + k);
            assert(frac_of(bits) == mant - pow2(52));
            assert(mant_of(bits) == mant);
            assert(bexp_of(bits) == k - 52);
            lemma_pow2_pos((52 - k) as nat);
            if k == 52 {
                assert(mag_floor(bits) == mant * pow2(0) as int);
                assert(mant * pow2(0) as int == m) by (nonlinear_arith)
                    requires
                        mant == m * pow2(0) as int,
                        pow2(0) as int == 1,
                {
                }
                assert(mag_floor(bits) == m);
            } else {
                assert(mag_floor(bits) == mant / pow2((52 - k) as nat) as int);
                assert(mant / pow2((52 - k) as nat) as int == m) by (nonlinear_arith)
                    requires
                        mant == m * pow2((52 - k) as nat) as int,
                        pow2((52 - k) as nat) as int > 0,
                {
                }
                assert(mag_floor(bits) == m);
            }
        } else {
            assert(k == 53);
            assert(m == pow2(53)) by {
                if m > pow2(53) {
                    lemma_pow2_adds(53, 1);
                }
            }
            let drop: nat = 1;
            let rem = m % 2;
            let base = m / 2;
            assert(rem == 0 && base == pow2(52)) by {
                lemma_pow2_adds(52, 1);
                vstd::arithmetic::div_mod::lemma_div_multiples_vanish(pow2(52) as int, 2);
                vstd::arithmetic::div_mod::lemma_mod_multiples_basic(pow2(52) as int, 2);
            }
            let bits_i = sign_term + (1023 + 53) * pow2(52);
            assert(encode_mag(m, neg) == bits_i);
            lemma_field_split(neg, 1076, 0);
            let bits = bits_i as u64;
            assert(exp_of(bits) == 1076);
            assert(frac_of(bits) == 0);
            assert(mant_of(bits) == pow2(52));
            assert(bexp_of(bits) == 1);
            assert(mag_floor(bits) == pow2(52) as int * pow2(1) as int);
            lemma_pow2_adds(52, 1);
        }
    }
}

/// Reading the exponent and fraction fields back out of assembled bits.
proof fn lemma_field_split(neg: bool, e: int, f: int)
    requires
        0 <= e < 2048,
        0 <= f < pow2(52),
    ensures
        0 <= (if neg {
            pow2(63) as int
        } else {
            0
        }) + e * pow2(52) + f < pow2(64),
        exp_of(((if neg {
            pow2(63) as int
        } else {
            0
        }) + e * pow2(52) + f) as u64) == e,
        frac_of(((if neg {
            pow2(63) as int
        } else {
            0
        }) + e * pow2(52) + f) as u64) == f,
        sign_of(((if neg {
            pow2(63) as int
        } else {
            0
        }) + e * pow2(52) + f) as u64) == neg,
{
    lemma2_to64();
    lemma2_to64_rest();
    let s: int = if neg { pow2(63) as int } else { 0 };
    let se: int = if neg { 2048 + e } else { e };
    assert(s + e * pow2(52) == se * pow2(52)) by {
        lemma_pow2_adds(11, 52);
        vstd::arithmetic::mul::lemma_mul_is_distributive_add_other_way(
            pow2(52) as int,
            2048,
            e,
        );
    }
    let bits_i = se * pow2(52) + f;
    assert(0 <= bits_i < pow2(64)) by {
        lemma_pow2_adds(12, 52);
        vstd::arithmetic::mul::lemma_mul_inequality(se, 4095, pow2(52) as int);
        vstd::arithmetic::mul::lemma_mul_nonnegative(se, pow2(52) as int);
    }
    assert(bits_i / pow2(52) as int == se) by {
        vstd::arithmetic::div_mod::lemma_fundamental_div_mod_converse(
            bits_i,
            pow2(52) as int,
            se,
            f,
        );
    }
    assert(bits_i % pow2(52) as int == f) by {
        vstd::arithmetic::div_mod::lemma_fundamental_div_mod_converse(
            bits_i,
            pow2(52) as int,
            se,
            f,
        );
    }
    assert(se % 2048 == e) by {
        if neg {
            vstd::arithmetic::div_mod::lemma_mod_sub_multiples_vanish(e, 2048);
            vstd::arithmetic::div_mod::lemma_small_mod(e as nat, 2048);
        } else {
            vstd::arithmetic::div_mod::lemma_small_mod(e as nat, 2048);
        }
    }
    assert(sign_of(bits_i as u64) == neg) by {
        if neg {
            vstd::arithmetic::mul::lemma_mul_inequality(2048, se, pow2(52) as int);
            lemma_pow2_adds(11, 52);
        } else {
            vstd::arithmetic::mul::lemma_mul_inequality(se, 2047, pow2(52) as int);
        }
    }
}

/// The double bits that stand for an integer.
pub open spec fn int_to_bits(n: int) -> u64 {
    encode_mag(
        if n < 0 {
            -n
        } else {
            n
        },
        n < 0,
    ) as u64
}

/// The integer read back out of double bits, as an i64-saturated
/// truncation.
pub open spec fn bits_to_int(bits: u64) -> int {
    if bits_is_nan(bits) {
        0
    } else {
        clamp(trunc_of(bits), i64::MIN as int, i64::MAX as int)
    }
}

/// The unsigned integer double bits truncate to, saturated into `0..=hi`,
/// with NaN going to zero.
pub open spec fn bits_to_uint(bits: u64, hi: int) -> int {
    if bits_is_nan(bits) {
        0
    } else {
        clamp(trunc_of(bits), 0, hi)
    }
}

/// The signed integer double bits truncate to, saturated into `lo..=hi`,
/// with NaN going to zero.
pub open spec fn bits_to_sint(bits: u64, lo: int, hi: int) -> int {
    if bits_is_nan(bits) {
        0
    } else {
        clamp(trunc_of(bits), lo, hi)
    }
}

/// Integers within the exactly representable range survive the number
/// round trip: encoding as a double and truncating back returns the
/// original integer.
pub proof fn lemma_int_round_trip(n: int)
    requires
        -pow2(53) <= n <= pow2(53),
    ensures
        bits_to_int(int_to_bits(n)) == n,
{
    lemma2_to64_rest();
    let neg = n < 0;
    let mag: u64 = if n < 0 {
        (-n) as u64
    } else {
        n as u64
    };
    lemma_encode_trunc_exact(mag, neg);
    assert(int_to_bits(n) == encode_mag(mag as int, neg) as u64);
}

} // verus!
