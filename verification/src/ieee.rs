//! Fixed-point numbers as IEEE-754 bit patterns: the single- or
//! double-precision float nearest to a number of millionths, a tie going
//! to the even significand.
//!
//! A magnitude of `a` millionths is `a / 10^6`. Its binade is the exponent
//! `e` with `2^(p-1) <= a / (10^6 * 2^e) < 2^p`, where `p` is the number of
//! significand bits (24 or 53); its significand is that quotient rounded to
//! the nearest integer. Every magnitude from 1 to 2^64 - 1 is a normal
//! number in both formats.

use vstd::prelude::*;
use vstd::arithmetic::power2::pow2;
use vstd::arithmetic::power2::lemma2_to64;
use vstd::arithmetic::power2::lemma2_to64_rest;
use vstd::arithmetic::power2::lemma_pow2_pos;
use vstd::arithmetic::power2::lemma_pow2_strictly_increases;
use vstd::arithmetic::power2::lemma_pow2_unfold;

verus! {

/// `n / d` rounded to the nearest integer, a tie going to the even one;
/// for `n >= 0` and `d > 0`.
pub open spec fn round_half_even(n: int, d: int) -> int {
    let q = n / d;
    let r = n % d;
    if 2 * r > d || (2 * r == d && q % 2 == 1) {
        q + 1
    } else {
        q
    }
}

/// The numerator of `a / (10^6 * 2^e)`, written without negative powers.
pub open spec fn ratio_num(a: int, e: int) -> int {
    if e >= 0 {
        a
    } else {
        a * (pow2((-e) as nat) as int)
    }
}

/// The denominator of `a / (10^6 * 2^e)`, written without negative powers.
pub open spec fn ratio_den(e: int) -> int {
    if e >= 0 {
        1_000_000 * (pow2(e as nat) as int)
    } else {
        1_000_000
    }
}

/// Whether `e` is the binade of `a` millionths for significands of `p`
/// bits: `2^(p-1) <= a / (10^6 * 2^e) < 2^p`.
pub open spec fn in_binade(a: int, p: nat, e: int) -> bool {
    (pow2((p - 1) as nat) as int) * ratio_den(e) <= ratio_num(a, e) < (pow2(p) as int)
        * ratio_den(e)
}

/// The binade of `a` millionths.
pub open spec fn binade_of(a: int, p: nat) -> int {
    choose|e: int| in_binade(a, p, e)
}

/// The significand of `a` millionths: `a / (10^6 * 2^e)` in its binade
/// `e`, rounded to the nearest integer, a tie going to the even one. It is
/// `2^p` where the rounding carries.
pub open spec fn significand_of(a: int, p: nat) -> int {
    round_half_even(ratio_num(a, binade_of(a, p)), ratio_den(binade_of(a, p)))
}

/// The bits of the single-precision float nearest to `v` millionths.
pub open spec fn f32_bits_of(v: int) -> int {
    let a = if v < 0 { -v } else { v };
    let sign = if v < 0 { 0x8000_0000int } else { 0int };
    if v == 0 {
        0
    } else {
        sign + (binade_of(a, 24) + 150) * 0x80_0000 + (significand_of(a, 24) - 0x80_0000)
    }
}

/// The bits of the double-precision float nearest to `v` millionths.
pub open spec fn f64_bits_of(v: int) -> int {
    let a = if v < 0 { -v } else { v };
    let sign = if v < 0 { 0x8000_0000_0000_0000int } else { 0int };
    if v == 0 {
        0
    } else {
        sign + (binade_of(a, 53) + 1075) * 0x10_0000_0000_0000 + (significand_of(a, 53)
            - 0x10_0000_0000_0000)
    }
}

/// A magnitude has one binade.
pub proof fn lemma_binade_unique(a: int, p: nat, e1: int, e2: int)
    requires
        p >= 1,
        in_binade(a, p, e1),
        in_binade(a, p, e2),
    ensures
        e1 == e2,
{
    lemma_binade_order(a, p, e1, e2);
    lemma_binade_order(a, p, e2, e1);
}

/// Of two binades of one magnitude the first is no lower than the second.
proof fn lemma_binade_order(a: int, p: nat, e1: int, e2: int)
    requires
        p >= 1,
        in_binade(a, p, e1),
        in_binade(a, p, e2),
    ensures
        e1 >= e2,
{
    if e1 < e2 {
        let lo = pow2((p - 1) as nat) as int;
        let hi = pow2(p) as int;
        lemma_pow2_unfold(p);
        lemma_pow2_pos((p - 1) as nat);
        assert(hi == 2 * lo);
        if e1 >= 0 {
            // a < 2 lo 10^6 2^e1 <= lo 10^6 2^e2 <= a
            let d1 = pow2(e1 as nat) as int;
            let d2 = pow2(e2 as nat) as int;
            lemma_pow2_unfold((e1 + 1) as nat);
            if e1 + 1 < e2 {
                lemma_pow2_strictly_increases((e1 + 1) as nat, e2 as nat);
            }
            assert(2 * d1 <= d2);
            assert(hi * (1_000_000 * d1) <= lo * (1_000_000 * d2)) by (nonlinear_arith)
                requires
                    hi == 2 * lo,
                    2 * d1 <= d2,
                    lo > 0,
            ;
        } else if e2 < 0 {
            // a 2^-e1 < 2 lo 10^6 and lo 10^6 <= a 2^-e2, with 2^-e1 >= 2 2^-e2
            let n1 = pow2((-e1) as nat) as int;
            let n2 = pow2((-e2) as nat) as int;
            lemma_pow2_unfold((-e2 + 1) as nat);
            if -e2 + 1 < -e1 {
                lemma_pow2_strictly_increases((-e2 + 1) as nat, (-e1) as nat);
            }
            lemma_pow2_pos((-e2) as nat);
            assert(2 * n2 <= n1);
            assert(a >= 0) by (nonlinear_arith)
                requires
                    lo * 1_000_000 <= a * n2,
                    n2 > 0,
                    lo > 0,
            ;
            assert(a * n1 >= 2 * (a * n2)) by (nonlinear_arith)
                requires
                    2 * n2 <= n1,
                    a >= 0,
            ;
        } else {
            // a 2^-e1 < 2 lo 10^6 with 2^-e1 >= 2, and lo 10^6 2^e2 <= a
            let n1 = pow2((-e1) as nat) as int;
            let d2 = pow2(e2 as nat) as int;
            lemma_pow2_unfold((-e1) as nat);
            lemma_pow2_pos((-e1 - 1) as nat);
            lemma_pow2_pos(e2 as nat);
            assert(n1 >= 2);
            assert(lo * (1_000_000 * d2) >= lo * 1_000_000) by (nonlinear_arith)
                requires
                    d2 >= 1,
                    lo > 0,
            ;
            assert(a * n1 >= 2 * a) by (nonlinear_arith)
                requires
                    n1 >= 2,
                    a >= 0,
            ;
        }
    }
}

/// `n / d` rounded to the nearest integer, a tie going to the even one.
fn divide_rounding(n: u128, d: u128) -> (q: u128)
    requires
        d > 0,
        n / d < 0xffff_ffff_ffff_ffff,
        d <= 0x7fff_ffff_ffff_ffff_ffff_ffff_ffff,
    ensures
        q as int == round_half_even(n as int, d as int),
{
    let q: u128 = n / d;
    let r: u128 = n % d;
    if 2 * r > d || (2 * r == d && q % 2 == 1) {
        q + 1
    } else {
        q
    }
}

/// The binade and the significand of `a` millionths for significands of
/// `p` bits; `top` is `2^(p-1)`.
fn decompose(a: u64, p: u32, top: u128) -> (r: (i32, u128))
    requires
        a > 0,
        p == 24 || p == 53,
        top == pow2((p - 1) as nat),
    ensures
        r.0 as int == binade_of(a as int, p as nat),
        r.1 as int == significand_of(a as int, p as nat),
        -128 <= r.0 <= 64,
        top <= r.1 <= 2 * top,
{
    proof {
        lemma2_to64();
        lemma2_to64_rest();
        lemma_pow2_unfold(p as nat);
    }
    assert(top == 0x80_0000 || top == 0x10_0000_0000_0000);
    let low: u128 = top * 1_000_000;
    let mut e: i32 = 0;
    let m: u128;
    if a as u128 >= low {
        let mut d: u128 = 1_000_000;
        while (a as u128) / d >= 2 * top
            invariant
                0 <= e <= 64,
                top == 0x80_0000 || top == 0x10_0000_0000_0000,
                d == 1_000_000 * pow2(e as nat),
                d >= 1_000_000,
                top * d <= a,
            decreases a - d,
        {
            proof {
                lemma2_to64();
                lemma2_to64_rest();
                lemma_pow2_unfold((e + 1) as nat);
                assert(2 * top * d <= a) by (nonlinear_arith)
                    requires
                        (a as int) / (d as int) >= 2 * top,
                        d > 0,
                        a >= 0,
                ;
                assert(2 * d <= a) by (nonlinear_arith)
                    requires
                        2 * top * d <= a,
                        top >= 1,
                        d >= 0,
                ;
                if e >= 63 {
                    if e > 63 {
                        lemma_pow2_strictly_increases(63, e as nat);
                    }
                    assert(d >= 1_000_000 * 0x8000_0000_0000_0000);
                }
                assert(top * (2 * d) == 2 * top * d) by (nonlinear_arith);
            }
            d = 2 * d;
            e = e + 1;
        }
        proof {
            assert(a < 2 * top * d) by (nonlinear_arith)
                requires
                    (a as int) / (d as int) < 2 * top,
                    d > 0,
                    a >= 0,
            ;
            assert(pow2(p as nat) * d == 2 * top * d) by (nonlinear_arith)
                requires
                    pow2(p as nat) == 2 * top,
            ;
            assert(in_binade(a as int, p as nat, e as int));
            let c = binade_of(a as int, p as nat);
            lemma_binade_unique(a as int, p as nat, e as int, c);
            assert((a as int) / (d as int) >= top) by (nonlinear_arith)
                requires
                    top * d <= a,
                    d > 0,
                    top > 0,
            ;
        }
        m = divide_rounding(a as u128, d);
    } else {
        let mut n: u128 = a as u128;
        let ghost mut k: nat = 0;
        proof {
            assert(a * pow2(0) == a) by (nonlinear_arith)
                requires
                    pow2(0) == 1,
            ;
        }
        while n < low
            invariant
                e == -(k as int),
                0 <= k <= 128,
                top == 0x80_0000 || top == 0x10_0000_0000_0000,
                low == top * 1_000_000,
                n == a * pow2(k),
                n > 0,
                a > 0,
                k > 0 ==> n < 2 * low,
                k == 0 ==> n < low,
            decreases 2 * low - n,
        {
            proof {
                lemma_pow2_unfold(k + 1);
                lemma_pow2_pos(k);
                assert(a * pow2(k) >= pow2(k)) by (nonlinear_arith)
                    requires
                        a >= 1,
                        pow2(k) >= 0,
                ;
                if k >= 73 {
                    lemma_pow2_73();
                    if k > 73 {
                        lemma_pow2_strictly_increases(73, k);
                    }
                    assert(n >= 0x200_0000_0000_0000_0000);
                }
                assert(a * (2 * pow2(k)) == 2 * (a * pow2(k))) by (nonlinear_arith);
                k = k + 1;
            }
            n = 2 * n;
            e = e - 1;
        }
        proof {
            lemma2_to64();
            lemma2_to64_rest();
            lemma_pow2_unfold(p as nat);
            assert(k > 0);
            assert(pow2(p as nat) * 1_000_000 == 2 * low);
            assert(in_binade(a as int, p as nat, e as int));
            let c = binade_of(a as int, p as nat);
            lemma_binade_unique(a as int, p as nat, e as int, c);
            assert((n as int) / 1_000_000 < 2 * top);
            assert((n as int) / 1_000_000 >= top);
        }
        m = divide_rounding(n, 1_000_000);
    }
    (e, m)
}

proof fn lemma_pow2_73()
    ensures
        pow2(73) == 0x200_0000_0000_0000_0000,
{
    lemma2_to64();
    lemma2_to64_rest();
    vstd::arithmetic::power2::lemma_pow2_adds(63, 10);
    assert(0x8000_0000_0000_0000int * 0x400 == 0x200_0000_0000_0000_0000int);
}

/// The bits of the single-precision float nearest to `a` millionths.
pub fn f32_bits_unsigned(a: u64) -> (r: u32)
    ensures
        r as int == f32_bits_of(a as int),
        r < 0x7f80_0000,
{
    if a == 0 {
        return 0;
    }
    proof {
        lemma2_to64();
    }
    let (e, m) = decompose(a, 24, 0x80_0000);
    let biased: u128 = (e + 150) as u128;
    (biased * 0x80_0000 + (m - 0x80_0000)) as u32
}

/// The bits of the single-precision float nearest to `v` millionths.
pub fn f32_bits(v: i64) -> (r: u32)
    ensures
        r as int == f32_bits_of(v as int),
{
    if v < 0 {
        let a: u64 = (-(v as i128)) as u64;
        f32_bits_unsigned(a) + 0x8000_0000
    } else {
        f32_bits_unsigned(v as u64)
    }
}

/// The bits of the double-precision float nearest to `v` millionths.
pub fn f64_bits(v: i64) -> (r: u64)
    ensures
        r as int == f64_bits_of(v as int),
{
    if v == 0 {
        return 0;
    }
    proof {
        lemma2_to64();
        lemma2_to64_rest();
    }
    let a: u64 = if v < 0 { (-(v as i128)) as u64 } else { v as u64 };
    let (e, m) = decompose(a, 53, 0x10_0000_0000_0000);
    let biased: u128 = (e + 1075) as u128;
    let magnitude: u64 = (biased * 0x10_0000_0000_0000 + (m - 0x10_0000_0000_0000)) as u64;
    if v < 0 {
        magnitude + 0x8000_0000_0000_0000
    } else {
        magnitude
    }
}

} // verus!
