//! Fixed-point numbers: whole millionths, and how doubles map onto them.
//!
//! A coordinate is an `i64` count of millionths of a unit, of magnitude at
//! most `COORD_LIMIT` (2^53), so that sums of squared differences fit in 128
//! bits and every coordinate is exactly representable as a double.
//! A double enters as its IEEE-754 binary64 bit pattern and is rounded to the
//! nearest millionth by integer arithmetic on its sign, exponent and fraction.
//! Where a file holds a double beyond the limit, the limit stands for it,
//! and zero for one that is not a number.

use vstd::prelude::*;
use vstd::arithmetic::power2::pow2;
use vstd::arithmetic::power2::lemma2_to64;
use vstd::arithmetic::power2::lemma2_to64_rest;
use vstd::arithmetic::power2::lemma_pow2_adds;
use vstd::arithmetic::power2::lemma_pow2_pos;
use vstd::arithmetic::power2::lemma_pow2_unfold;
use vstd::arithmetic::power2::lemma_pow2_strictly_increases;

verus! {

/// Millionths in one unit.
pub const MICRO: i64 = 1_000_000;

/// Largest magnitude of a coordinate, in millionths: 2^53.
pub const COORD_LIMIT: i64 = 0x20_0000_0000_0000;

/// Whether `v` is a coordinate the library works with.
pub open spec fn coord_ok(v: int) -> bool {
    -COORD_LIMIT <= v <= COORD_LIMIT
}

/// Whether `v` is within the coordinate limit.
pub fn is_coord(v: i64) -> (r: bool)
    ensures
        r == coord_ok(v as int),
{
    -COORD_LIMIT <= v && v <= COORD_LIMIT
}

/// The biased exponent field of a binary64 bit pattern.
pub open spec fn f64_exponent(bits: u64) -> int {
    (bits as int / 0x10_0000_0000_0000) % 0x800
}

/// The fraction field of a binary64 bit pattern.
pub open spec fn f64_fraction(bits: u64) -> int {
    bits as int % 0x10_0000_0000_0000
}

/// The sign bit of a binary64 bit pattern.
pub open spec fn f64_negative(bits: u64) -> bool {
    bits >= 0x8000_0000_0000_0000
}

/// Neither an infinity nor a NaN.
pub open spec fn f64_finite(bits: u64) -> bool {
    f64_exponent(bits) != 0x7ff
}

/// The integer significand: the fraction, with the hidden bit for a normal
/// number.
pub open spec fn f64_significand(bits: u64) -> int {
    if f64_exponent(bits) == 0 {
        f64_fraction(bits)
    } else {
        f64_fraction(bits) + 0x10_0000_0000_0000
    }
}

/// The binary exponent `e` for which the magnitude of a finite pattern is
/// `f64_significand * 2^e`.
pub open spec fn f64_scale(bits: u64) -> int {
    (if f64_exponent(bits) == 0 {
        1
    } else {
        f64_exponent(bits)
    }) - 1075
}

/// `p * 2^e`, rounded to the nearest integer, a tie going up; for `p >= 0`.
pub open spec fn round_shift(p: int, e: int) -> int {
    if e >= 0 {
        p * pow2(e as nat)
    } else {
        (2 * p + pow2((-e) as nat)) / (2 * pow2((-e) as nat) as int)
    }
}

/// `n` times the magnitude of the double `bits`, in millionths, rounded to
/// the nearest millionth.
pub open spec fn scaled_magnitude(n: int, bits: u64) -> int {
    round_shift(n * f64_significand(bits) * 1_000_000, f64_scale(bits))
}

/// `n` times the double `bits`, in millionths, rounded to the nearest
/// millionth (a tie going away from zero).
pub open spec fn scaled_micro(n: int, bits: u64) -> int {
    if n < 0 {
        if f64_negative(bits) {
            scaled_magnitude(-n, bits)
        } else {
            -scaled_magnitude(-n, bits)
        }
    } else {
        if f64_negative(bits) {
            -scaled_magnitude(n, bits)
        } else {
            scaled_magnitude(n, bits)
        }
    }
}

/// The double `bits` in millionths.
pub open spec fn micro_of(bits: u64) -> int {
    scaled_micro(1, bits)
}

/// Whether `n` times the double `bits` is a coordinate.
pub open spec fn scaled_ok(n: int, bits: u64) -> bool {
    f64_finite(bits) && coord_ok(scaled_micro(n, bits))
}

proof fn lemma_pow2_106()
    ensures
        pow2(106) == 0x400_0000_0000_0000_0000_0000_0000,
        pow2(53) == 0x20_0000_0000_0000,
{
    lemma2_to64();
    lemma2_to64_rest();
    lemma_pow2_adds(53, 53);
    assert(0x20_0000_0000_0000int * 0x20_0000_0000_0000int
        == 0x400_0000_0000_0000_0000_0000_0000int);
}

/// 2^k for k <= 106.
fn pow2_u128(k: u32) -> (d: u128)
    requires
        k <= 106,
    ensures
        d as int == pow2(k as nat),
        1 <= d <= 0x400_0000_0000_0000_0000_0000_0000,
{
    let mut d: u128 = 1;
    let mut i: u32 = 0;
    proof {
        lemma2_to64();
        lemma_pow2_106();
    }
    while i < k
        invariant
            i <= k <= 106,
            d as int == pow2(i as nat),
            1 <= d <= pow2(106),
            pow2(106) == 0x400_0000_0000_0000_0000_0000_0000,
        decreases k - i,
    {
        proof {
            lemma_pow2_unfold((i + 1) as nat);
            if i + 1 < 106 {
                lemma_pow2_strictly_increases((i + 1) as nat, 106);
            }
        }
        d = d * 2;
        i = i + 1;
    }
    d
}

/// `n` times the double `bits`, rounded to millionths; `None` where the
/// double is not finite or the product is no coordinate.
pub fn micro_scaled(n: i32, bits: u64) -> (r: Option<i64>)
    ensures
        r == (if scaled_ok(n as int, bits) {
            Some(scaled_micro(n as int, bits) as i64)
        } else {
            None
        }),
{
    let exp: u64 = (bits / 0x10_0000_0000_0000) % 0x800;
    let frac: u64 = bits % 0x10_0000_0000_0000;
    let negative: bool = (bits >= 0x8000_0000_0000_0000) != (n < 0);
    if exp == 0x7ff {
        return None;
    }
    let sig: u64 = if exp == 0 {
        frac
    } else {
        frac + 0x10_0000_0000_0000
    };
    let e: u64 = if exp == 0 {
        1
    } else {
        exp
    };
    let a: u128 = if n < 0 {
        (-(n as i64)) as u128
    } else {
        n as u128
    };
    assert(a * sig <= 0x8000_0000 * 0x20_0000_0000_0000) by (nonlinear_arith)
        requires
            0 <= a <= 0x8000_0000,
            0 <= sig <= 0x20_0000_0000_0000,
    ;
    let p: u128 = a * (sig as u128) * 1_000_000;
    let ghost mag = scaled_magnitude(a as int, bits);
    proof {
        assert(a as int == if n < 0 {
            -(n as int)
        } else {
            n as int
        });
        assert(p as int == a as int * f64_significand(bits) * 1_000_000);
        assert(f64_scale(bits) == e as int - 1075);
        assert(mag == round_shift(p as int, e as int - 1075));
    }
    let q: u128;
    if p == 0 {
        proof {
            if e >= 1075 {
                assert(0 * pow2((e - 1075) as nat) == 0);
            } else {
                let d = pow2((1075 - e) as nat) as int;
                lemma_pow2_pos((1075 - e) as nat);
                assert((2 * 0 + d) / (2 * d) == 0) by (nonlinear_arith)
                    requires
                        d > 0,
                ;
            }
            assert(mag == 0);
        }
        q = 0;
    } else if e >= 1075 {
        proof {
            let k = (e - 1075) as nat;
            lemma_pow2_pos(k);
            assert(a >= 1) by {
                if a == 0 {
                    assert(a * (sig as u128) * 1_000_000 == 0) by (nonlinear_arith)
                        requires
                            a == 0,
                    ;
                }
            }
            assert(sig >= 0x10_0000_0000_0000);
            assert(a * sig >= 0x10_0000_0000_0000) by (nonlinear_arith)
                requires
                    a >= 1,
                    sig >= 0x10_0000_0000_0000,
            ;
            assert(p as int * pow2(k) >= p as int) by (nonlinear_arith)
                requires
                    p >= 0,
                    pow2(k) >= 1,
            ;
            assert(mag > COORD_LIMIT);
        }
        return None;
    } else {
        let shift: u64 = 1075 - e;
        if shift > 106 {
            proof {
                let d = pow2(shift as nat) as int;
                lemma_pow2_106();
                lemma_pow2_strictly_increases(106, shift as nat);
                assert(2 * p < d);
                assert((2 * p + d) / (2 * d) == 0) by (nonlinear_arith)
                    requires
                        0 <= 2 * p < d,
                ;
                assert(mag == 0);
            }
            q = 0;
        } else {
            let d: u128 = pow2_u128(shift as u32);
            q = (2 * p + d) / (2 * d);
            assert(q as int == mag);
        }
    }
    if q > COORD_LIMIT as u128 {
        return None;
    }
    if negative {
        Some(-(q as i64))
    } else {
        Some(q as i64)
    }
}

/// The double `bits` rounded to millionths; `None` where it is not finite
/// or is no coordinate.
pub fn micro_from_bits(bits: u64) -> (r: Option<i64>)
    ensures
        r == (if scaled_ok(1, bits) {
            Some(micro_of(bits) as i64)
        } else {
            None
        }),
{
    micro_scaled(1, bits)
}

/// Rounding keeps the order of magnitudes.
pub proof fn lemma_round_shift_monotone(p1: int, p2: int, e: int)
    requires
        0 <= p1 <= p2,
    ensures
        0 <= round_shift(p1, e) <= round_shift(p2, e),
{
    if e >= 0 {
        let k = pow2(e as nat) as int;
        lemma_pow2_pos(e as nat);
        assert(0 <= p1 * k <= p2 * k) by (nonlinear_arith)
            requires
                0 <= p1 <= p2,
                k >= 1,
        ;
    } else {
        let d = pow2((-e) as nat) as int;
        lemma_pow2_pos((-e) as nat);
        vstd::arithmetic::div_mod::lemma_div_is_ordered(2 * p1 + d, 2 * p2 + d, 2 * d);
        vstd::arithmetic::div_mod::lemma_div_pos_is_pos(2 * p1 + d, 2 * d);
    }
}

/// `v`, or the end of the coordinate range that is nearest to it.
pub open spec fn clamped(v: int) -> int {
    if v < -COORD_LIMIT {
        -COORD_LIMIT as int
    } else if v > COORD_LIMIT {
        COORD_LIMIT as int
    } else {
        v
    }
}

/// Whether a binary64 bit pattern is not a number.
pub open spec fn f64_is_nan(bits: u64) -> bool {
    f64_exponent(bits) == 0x7ff && f64_fraction(bits) != 0
}

/// `n` times the double `bits` as a coordinate: the product in millionths
/// where it is within the coordinate limit, the end of the range on its
/// side where it is beyond it or infinite, and zero where it is not a
/// number (as zero times an infinity is not).
pub open spec fn saturated(n: int, bits: u64) -> int {
    if f64_finite(bits) {
        clamped(scaled_micro(n, bits))
    } else if f64_is_nan(bits) || n == 0 {
        0
    } else if (n < 0) != f64_negative(bits) {
        -COORD_LIMIT as int
    } else {
        COORD_LIMIT as int
    }
}

/// A magnitude is not negative.
pub proof fn lemma_magnitude(n: int, bits: u64)
    requires
        n >= 0,
    ensures
        scaled_magnitude(n, bits) >= 0,
{
    let sig = f64_significand(bits);
    assert(0 <= n * sig * 1_000_000) by (nonlinear_arith)
        requires
            0 <= n,
            0 <= sig,
    ;
    lemma_round_shift_monotone(0, n * sig * 1_000_000, f64_scale(bits));
}

/// `n` times the double `bits` as a coordinate.
pub fn micro_saturated(n: i32, bits: u64) -> (r: i64)
    ensures
        r as int == saturated(n as int, bits),
        coord_ok(r as int),
{
    match micro_scaled(n, bits) {
        Some(m) => m,
        None => {
            let exp: u64 = (bits / 0x10_0000_0000_0000) % 0x800;
            let frac: u64 = bits % 0x10_0000_0000_0000;
            let negative: bool = (bits >= 0x8000_0000_0000_0000) != (n < 0);
            proof {
                if n < 0 {
                    lemma_magnitude(-(n as int), bits);
                } else {
                    lemma_magnitude(n as int, bits);
                }
            }
            if exp == 0x7ff && (frac != 0 || n == 0) {
                0
            } else if negative {
                -COORD_LIMIT
            } else {
                COORD_LIMIT
            }
        },
    }
}

/// The sum of two coordinates, or the end of the coordinate range that is
/// nearest to it.
pub fn add_clamped(a: i64, b: i64) -> (r: i64)
    requires
        coord_ok(a as int),
        coord_ok(b as int),
    ensures
        r as int == clamped(a + b),
        coord_ok(r as int),
{
    let sum: i64 = a + b;
    if sum < -COORD_LIMIT {
        -COORD_LIMIT
    } else if sum > COORD_LIMIT {
        COORD_LIMIT
    } else {
        sum
    }
}

/// The integer square root: the largest `r` with `r * r <= n`.
pub open spec fn is_floor_sqrt(n: int, r: int) -> bool {
    0 <= r && r * r <= n < (r + 1) * (r + 1)
}

/// At most one number is the integer square root of `n`.
pub proof fn lemma_floor_sqrt_unique(n: int, r1: int, r2: int)
    requires
        is_floor_sqrt(n, r1),
        is_floor_sqrt(n, r2),
    ensures
        r1 == r2,
{
    if r1 < r2 {
        assert((r1 + 1) * (r1 + 1) <= r2 * r2) by (nonlinear_arith)
            requires
                0 <= r1 + 1 <= r2,
        ;
    } else if r2 < r1 {
        assert((r2 + 1) * (r2 + 1) <= r1 * r1) by (nonlinear_arith)
            requires
                0 <= r2 + 1 <= r1,
        ;
    }
}

/// Every number from zero on has an integer square root.
pub proof fn lemma_floor_sqrt_exists(n: int)
    requires
        n >= 0,
    ensures
        is_floor_sqrt(n, floor_sqrt(n)),
    decreases n,
{
    if n == 0 {
        assert(is_floor_sqrt(0, 0));
    } else {
        lemma_floor_sqrt_exists(n - 1);
        let r = floor_sqrt(n - 1);
        if n < (r + 1) * (r + 1) {
            assert(is_floor_sqrt(n, r));
        } else {
            assert((r + 2) * (r + 2) > (r + 1) * (r + 1)) by (nonlinear_arith)
                requires
                    r >= 0,
            ;
            assert(is_floor_sqrt(n, r + 1));
        }
    }
}

/// The integer square root of `n`, as a spec value.
pub open spec fn floor_sqrt(n: int) -> int {
    choose|r: int| is_floor_sqrt(n, r)
}

/// Computes the integer square root by bisection.
pub fn isqrt(n: u128) -> (r: u64)
    ensures
        is_floor_sqrt(n as int, r as int),
        r as int == floor_sqrt(n as int),
{
    let mut lo: u128 = 0;
    let mut hi: u128 = 0x1_0000_0000_0000_0000;
    assert(hi * hi > n) by (nonlinear_arith)
        requires
            hi == 0x1_0000_0000_0000_0000,
            n <= 0xffff_ffff_ffff_ffff_ffff_ffff_ffff_ffff,
    ;
    while hi - lo > 1
        invariant
            0 <= lo < hi <= 0x1_0000_0000_0000_0000,
            lo * lo <= n,
            n < hi * hi,
        decreases hi - lo,
    {
        let mid: u128 = lo + (hi - lo) / 2;
        assert(mid * mid <= 0xffff_ffff_ffff_ffff * 0xffff_ffff_ffff_ffff) by (nonlinear_arith)
            requires
                0 <= mid <= 0xffff_ffff_ffff_ffff,
        ;
        if mid * mid <= n {
            lo = mid;
        } else {
            hi = mid;
        }
    }
    proof {
        assert(hi == lo + 1);
        let r = lo as int;
        assert(is_floor_sqrt(n as int, r));
        let c = floor_sqrt(n as int);
        assert(is_floor_sqrt(n as int, c));
        lemma_floor_sqrt_unique(n as int, r, c);
    }
    lo as u64
}

} // verus!
