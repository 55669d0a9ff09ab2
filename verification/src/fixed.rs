//! Fixed-point arithmetic shared by the analysis passes.
//!
//! Every quantity of the library is an integer: samples are numerators over
//! 2^31 between -2^31 and 2^31, so that both ends of the range [-1, 1] are
//! held; spectral magnitudes and thresholds are numerators over 2^32. Numbers
//! that arrive as IEEE-754 single-precision values enter as their 32-bit
//! patterns and are decoded here, by integer arithmetic alone.

use vstd::prelude::*;
use vstd::arithmetic::power2::pow2;
use vstd::arithmetic::power2::lemma2_to64;
use vstd::arithmetic::power2::lemma_pow2_unfold;
use vstd::arithmetic::power2::lemma_pow2_strictly_increases;
use vstd::arithmetic::div_mod::lemma_basic_div;

verus! {

/// The biased exponent field of a single-precision bit pattern.
pub open spec fn float_exponent(bits: u32) -> int {
    (bits as int / 0x80_0000) % 0x100
}

/// The fraction field of a single-precision bit pattern.
pub open spec fn float_fraction(bits: u32) -> int {
    bits as int % 0x80_0000
}

/// Whether the sign bit of the pattern is set.
pub open spec fn float_is_negative(bits: u32) -> bool {
    bits >= 0x8000_0000u32
}

/// Whether the pattern encodes a NaN.
pub open spec fn float_is_nan(bits: u32) -> bool {
    float_exponent(bits) == 255 && float_fraction(bits) != 0
}

/// Whether the pattern encodes an infinity.
pub open spec fn float_is_infinite(bits: u32) -> bool {
    float_exponent(bits) == 255 && float_fraction(bits) == 0
}

/// The integer significand of a finite pattern: the magnitude of the encoded
/// number is `float_significand(bits) * 2^float_power(bits)`.
pub open spec fn float_significand(bits: u32) -> int {
    if float_exponent(bits) == 0 {
        float_fraction(bits)
    } else {
        float_fraction(bits) + 0x80_0000
    }
}

/// The power of two that scales the significand of a finite pattern.
pub open spec fn float_power(bits: u32) -> int {
    if float_exponent(bits) == 0 {
        -149
    } else {
        float_exponent(bits) - 150
    }
}

/// The magnitude of the finite number that `bits` encodes, multiplied by
/// `2^frac` and rounded toward zero.
pub open spec fn float_scaled(bits: u32, frac: nat) -> nat {
    let p = float_power(bits) + frac;
    if p >= 0 {
        (float_significand(bits) * pow2(p as nat)) as nat
    } else {
        (float_significand(bits) / (pow2((-p) as nat) as int)) as nat
    }
}

/// The smaller of two integers.
pub open spec fn lesser(a: int, b: int) -> int {
    if a <= b {
        a
    } else {
        b
    }
}

/// The sample that stands for 1.0.
pub const SAMPLE_ONE: i64 = 0x8000_0000;

/// Whether a number is a sample: a numerator over 2^31 of a value in [-1, 1].
pub open spec fn is_sample(value: int) -> bool {
    -SAMPLE_ONE <= value <= SAMPLE_ONE
}

/// The sample, as a numerator over 2^31, that a single-precision number
/// stands for: the number times 2^31, rounded toward zero, and a number
/// outside [-1, 1] held to the nearer end. A NaN stands for silence.
pub open spec fn sample_of_float_spec(bits: u32) -> int {
    if float_is_nan(bits) {
        0
    } else {
        let magnitude = if float_is_infinite(bits) {
            SAMPLE_ONE as int
        } else {
            lesser(float_scaled(bits, 31) as int, SAMPLE_ONE as int)
        };
        if float_is_negative(bits) {
            -magnitude
        } else {
            magnitude
        }
    }
}

/// The spectral magnitude, as a numerator over 2^32, that a single-precision
/// number stands for: the number times 2^32, rounded toward zero and held to
/// the range of `u64`. A NaN and every negative number stand for zero.
pub open spec fn magnitude_of_float_spec(bits: u32) -> int {
    if float_is_nan(bits) || float_is_negative(bits) {
        0
    } else if float_is_infinite(bits) {
        u64::MAX as int
    } else {
        lesser(float_scaled(bits, 32) as int, u64::MAX as int)
    }
}

/// The threshold, as a numerator over 2^32, that a single-precision number
/// stands for: the number times 2^32, rounded toward zero and held to the
/// range `-i64::MAX ..= i64::MAX`. A NaN stands for the largest threshold,
/// which nothing exceeds.
pub open spec fn threshold_of_float_spec(bits: u32) -> int {
    if float_is_nan(bits) {
        i64::MAX as int
    } else {
        let magnitude = if float_is_infinite(bits) {
            i64::MAX as int
        } else {
            lesser(float_scaled(bits, 32) as int, i64::MAX as int)
        };
        if float_is_negative(bits) {
            -magnitude
        } else {
            magnitude
        }
    }
}

/// Whether `r` is the integer square root of `x`.
pub open spec fn is_floor_sqrt(r: nat, x: nat) -> bool {
    r * r <= x < (r + 1) * (r + 1)
}

/// The integer square root: the largest `r` with `r * r <= x`.
pub open spec fn floor_sqrt(x: nat) -> nat {
    choose|r: nat| is_floor_sqrt(r, x)
}

/// `n / d` rounded to the nearest integer, a tie going up; zero when `d` is zero.
pub open spec fn rounded_div(n: nat, d: nat) -> nat {
    if d == 0 {
        0
    } else {
        (2 * n + d) / (2 * d)
    }
}

/// A number in [-1, 1] that is a whole multiple of 2^-31 is held exactly:
/// its sample is the number times 2^31, with nothing rounded away and
/// nothing cut off.
pub proof fn lemma_sample_is_exact(bits: u32)
    requires
        float_exponent(bits) != 255,
        float_power(bits) + 31 >= 0,
        float_significand(bits) * pow2((float_power(bits) + 31) as nat) <= SAMPLE_ONE,
    ensures
        sample_of_float_spec(bits) == if float_is_negative(bits) {
            -(float_significand(bits) * pow2((float_power(bits) + 31) as nat))
        } else {
            float_significand(bits) * pow2((float_power(bits) + 31) as nat)
        },
{
    let scaled = float_significand(bits) * pow2((float_power(bits) + 31) as nat);
    assert(scaled >= 0) by (nonlinear_arith)
        requires
            scaled == float_significand(bits) * pow2((float_power(bits) + 31) as nat),
            float_significand(bits) >= 0,
    ;
}

/// Both ends of the range are held: the samples of 1.0 and of -1.0 are full
/// scale, and the sample of 0.5 is half of it.
pub proof fn lemma_ends_are_held()
    ensures
        sample_of_float_spec(0x3f80_0000) == SAMPLE_ONE,
        sample_of_float_spec(0xbf80_0000) == -SAMPLE_ONE,
        sample_of_float_spec(0x3f00_0000) == SAMPLE_ONE / 2,
{
    lemma2_to64();
    assert(float_exponent(0x3f80_0000) == 127 && float_fraction(0x3f80_0000) == 0);
    assert(float_exponent(0xbf80_0000) == 127 && float_fraction(0xbf80_0000) == 0);
    assert(float_exponent(0x3f00_0000) == 126 && float_fraction(0x3f00_0000) == 0);
    assert(float_scaled(0x3f80_0000, 31) == 0x80_0000 * pow2(8));
    assert(float_scaled(0xbf80_0000, 31) == 0x80_0000 * pow2(8));
    assert(float_scaled(0x3f00_0000, 31) == 0x80_0000 * pow2(7));
}

/// Every natural number has an integer square root.
pub proof fn lemma_floor_sqrt_exists(x: nat)
    ensures
        is_floor_sqrt(floor_sqrt(x), x),
    decreases x,
{
    if x == 0 {
        assert(is_floor_sqrt(0, 0)) by {
            assert(0nat * 0nat == 0 && (0nat + 1) * (0nat + 1) == 1) by (nonlinear_arith);
        }
    } else {
        lemma_floor_sqrt_exists((x - 1) as nat);
        let r = floor_sqrt((x - 1) as nat);
        if (r + 1) * (r + 1) <= x {
            assert((r + 2) * (r + 2) > (r + 1) * (r + 1)) by (nonlinear_arith);
            assert(is_floor_sqrt(r + 1, x));
        } else {
            assert(is_floor_sqrt(r, x));
        }
    }
}

/// The integer square root is the only number between whose square and the
/// next square `x` lies.
pub proof fn lemma_floor_sqrt_unique(r: nat, x: nat)
    requires
        is_floor_sqrt(r, x),
    ensures
        r == floor_sqrt(x),
{
    lemma_floor_sqrt_exists(x);
    let s = floor_sqrt(x);
    if r < s {
        assert((r + 1) * (r + 1) <= s * s) by (nonlinear_arith)
            requires
                r + 1 <= s,
        ;
    } else if s < r {
        assert((s + 1) * (s + 1) <= r * r) by (nonlinear_arith)
            requires
                s + 1 <= r,
        ;
    }
}

/// The integer square root grows with its argument.
pub proof fn lemma_floor_sqrt_monotonic(x: nat, y: nat)
    requires
        x <= y,
    ensures
        floor_sqrt(x) <= floor_sqrt(y),
{
    lemma_floor_sqrt_exists(x);
    lemma_floor_sqrt_exists(y);
    let r = floor_sqrt(x);
    let s = floor_sqrt(y);
    if s < r {
        assert((s + 1) * (s + 1) <= r * r) by (nonlinear_arith)
            requires
                s + 1 <= r,
        ;
    }
}

/// Computes a power of two.
pub(crate) fn power_of_two(n: u32) -> (p: u128)
    requires
        n <= 64,
    ensures
        p == pow2(n as nat),
{
    let mut p: u128 = 1;
    let mut i: u32 = 0;
    proof {
        lemma2_to64();
    }
    while i < n
        invariant
            i <= n <= 64,
            p == pow2(i as nat),
            p <= 0x1_0000_0000_0000_0000u128,
        decreases n - i,
    {
        proof {
            lemma2_to64();
            lemma_pow2_unfold((i + 1) as nat);
            if i + 1 < 64 {
                lemma_pow2_strictly_increases((i + 1) as nat, 64);
            }
        }
        p = p * 2;
        i = i + 1;
    }
    p
}

/// Decodes the magnitude of a finite single-precision number as a numerator
/// over `2^frac`, held to the range of `u64`.
pub(crate) fn scale_float(bits: u32, frac: u32) -> (r: u64)
    requires
        frac <= 64,
    ensures
        r == lesser(float_scaled(bits, frac as nat) as int, u64::MAX as int),
{
    let e: u32 = (bits / 0x80_0000) % 0x100;
    let f: u32 = bits % 0x80_0000;
    let sig: u64 = if e == 0 {
        f as u64
    } else {
        (f + 0x80_0000) as u64
    };
    let base: i64 = if e == 0 {
        -149
    } else {
        e as i64 - 150
    };
    let pw: i64 = base + frac as i64;
    proof {
        lemma2_to64();
        assert(sig == float_significand(bits));
        assert(pw == float_power(bits) + frac);
    }
    if sig == 0 {
        proof {
            if pw >= 0 {
                assert(0 * pow2(pw as nat) == 0) by (nonlinear_arith);
            } else {
                vstd::arithmetic::power2::lemma_pow2_pos((-pw) as nat);
                lemma_basic_div(0, pow2((-pw) as nat) as int);
            }
        }
        0
    } else if pw >= 64 {
        proof {
            if pw > 64 {
                lemma_pow2_strictly_increases(64, pw as nat);
            }
            assert(sig * pow2(pw as nat) >= pow2(pw as nat)) by (nonlinear_arith)
                requires
                    sig >= 1,
            ;
        }
        u64::MAX
    } else if pw >= 0 {
        let p: u128 = power_of_two(pw as u32);
        proof {
            if pw < 63 {
                lemma_pow2_strictly_increases(pw as nat, 63);
            }
            lemma_pow2_unfold(64);
            assert(sig * p <= 0x100_0000 * 0x8000_0000_0000_0000) by (nonlinear_arith)
                requires
                    sig < 0x100_0000,
                    p <= 0x8000_0000_0000_0000,
            ;
        }
        let wide: u128 = sig as u128 * p;
        if wide > u64::MAX as u128 {
            u64::MAX
        } else {
            wide as u64
        }
    } else {
        let d: i64 = -pw;
        if d >= 24 {
            proof {
                if d > 24 {
                    lemma_pow2_strictly_increases(24, d as nat);
                }
                lemma_basic_div(sig as int, pow2(d as nat) as int);
            }
            0
        } else {
            let p: u128 = power_of_two(d as u32);
            proof {
                vstd::arithmetic::power2::lemma_pow2_pos(d as nat);
                vstd::arithmetic::div_mod::lemma_div_nonincreasing(sig as int, p as int);
                vstd::arithmetic::div_mod::lemma_div_pos_is_pos(sig as int, p as int);
            }
            (sig as u128 / p) as u64
        }
    }
}

/// Reads a single-precision bit pattern as a sample.
pub fn sample_of_float(bits: u32) -> (s: i64)
    ensures
        s == sample_of_float_spec(bits),
        is_sample(s as int),
{
    let e: u32 = (bits / 0x80_0000) % 0x100;
    let f: u32 = bits % 0x80_0000;
    if e == 255 && f != 0 {
        0
    } else {
        let magnitude: i64 = if e == 255 {
            SAMPLE_ONE
        } else {
            let scaled: u64 = scale_float(bits, 31);
            if scaled > 0x8000_0000 {
                SAMPLE_ONE
            } else {
                scaled as i64
            }
        };
        if bits >= 0x8000_0000u32 {
            0 - magnitude
        } else {
            magnitude
        }
    }
}

/// Reads a single-precision bit pattern as a spectral magnitude.
pub fn magnitude_of_float(bits: u32) -> (m: u64)
    ensures
        m == magnitude_of_float_spec(bits),
{
    let e: u32 = (bits / 0x80_0000) % 0x100;
    let f: u32 = bits % 0x80_0000;
    if (e == 255 && f != 0) || bits >= 0x8000_0000u32 {
        0
    } else if e == 255 {
        u64::MAX
    } else {
        scale_float(bits, 32)
    }
}

/// Reads a single-precision bit pattern as a detection threshold.
pub fn threshold_of_float(bits: u32) -> (t: i64)
    ensures
        t == threshold_of_float_spec(bits),
{
    let e: u32 = (bits / 0x80_0000) % 0x100;
    let f: u32 = bits % 0x80_0000;
    if e == 255 && f != 0 {
        i64::MAX
    } else {
        let magnitude: i64 = if e == 255 {
            i64::MAX
        } else {
            let scaled: u64 = scale_float(bits, 32);
            if scaled > i64::MAX as u64 {
                i64::MAX
            } else {
                scaled as i64
            }
        };
        if bits >= 0x8000_0000u32 {
            0 - magnitude
        } else {
            magnitude
        }
    }
}

/// Computes the integer square root by bisection.
pub fn integer_sqrt(x: u128) -> (r: u64)
    ensures
        r == floor_sqrt(x as nat),
{
    let mut lo: u128 = 0;
    let mut hi: u128 = 0x1_0000_0000_0000_0000;
    assert(lo * lo <= x);
    assert(x < hi * hi) by (nonlinear_arith)
        requires
            hi == 0x1_0000_0000_0000_0000u128,
            x <= u128::MAX,
    ;
    while hi - lo > 1
        invariant
            lo < hi <= 0x1_0000_0000_0000_0000u128,
            lo * lo <= x < hi * hi,
        decreases hi - lo,
    {
        let mid: u128 = lo + (hi - lo) / 2;
        assert(mid * mid <= 0xffff_ffff_ffff_ffff * 0xffff_ffff_ffff_ffff) by (nonlinear_arith)
            requires
                mid <= 0xffff_ffff_ffff_ffffu128,
        ;
        if mid * mid <= x {
            lo = mid;
        } else {
            hi = mid;
        }
    }
    proof {
        assert(hi == lo + 1);
        assert(is_floor_sqrt(lo as nat, x as nat));
        lemma_floor_sqrt_unique(lo as nat, x as nat);
    }
    lo as u64
}

/// Rounding to the nearest with a tie going up is rounding down and adding
/// one where the remainder is at least half the divisor.
pub proof fn lemma_rounded_div(n: nat, d: nat)
    requires
        d > 0,
    ensures
        rounded_div(n, d) == n / d + if 2 * (n % d) >= d {
            1nat
        } else {
            0nat
        },
{
    let q = (n / d) as int;
    let r = (n % d) as int;
    vstd::arithmetic::div_mod::lemma_fundamental_div_mod(n as int, d as int);
    vstd::arithmetic::div_mod::lemma_div_pos_is_pos(n as int, d as int);
    if 2 * r >= d {
        assert(2 * n + d == (q + 1) * (2 * d) + (2 * r - d)) by (nonlinear_arith)
            requires
                n == d * q + r,
        ;
        vstd::arithmetic::div_mod::lemma_fundamental_div_mod_converse(
            (2 * n + d) as int,
            (2 * d) as int,
            q + 1,
            2 * r - d,
        );
    } else {
        assert(2 * n + d == q * (2 * d) + (2 * r + d)) by (nonlinear_arith)
            requires
                n == d * q + r,
        ;
        vstd::arithmetic::div_mod::lemma_fundamental_div_mod_converse(
            (2 * n + d) as int,
            (2 * d) as int,
            q,
            2 * r + d,
        );
    }
}

/// Divides and rounds to the nearest integer, a tie going up. Dividing by
/// zero gives zero.
pub fn divide_rounded(n: u128, d: u128) -> (q: u128)
    ensures
        q == rounded_div(n as nat, d as nat),
{
    if d == 0 {
        0
    } else {
        let q: u128 = n / d;
        let r: u128 = n % d;
        proof {
            lemma_rounded_div(n as nat, d as nat);
            vstd::arithmetic::div_mod::lemma_fundamental_div_mod(n as int, d as int);
            if d >= 2 {
                assert(q * 2 <= n) by (nonlinear_arith)
                    requires
                        n == d * q + r,
                        d >= 2,
                        q >= 0,
                        r >= 0,
                ;
            }
        }
        if r >= d - r {
            q + 1
        } else {
            q
        }
    }
}

} // verus!
