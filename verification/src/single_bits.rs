//! Products and quotients of single-precision numbers as bit patterns.
//!
//! The smallest number above zero is `2^-149`, and every other is a whole number of it, so a result
//! is rounded by counting that unit with [`nearest_single`].
use vstd::arithmetic::power2::pow2;
use vstd::prelude::*;

use crate::single::{
    is_nan, is_negative, lemma_nearest_at_least, lemma_nearest_doubled, nearest_single, scale,
    significand, to_single, LIMIT,
};

verus! {

/// The pattern of infinity.
pub const INFINITY: u32 = 0x7f80_0000;

/// A pattern that stands for no number.
pub const NOT_A_NUMBER: u32 = 0x7fc0_0000;

/// The pattern of `u * 2^i` units, where `u` has at most 24 significant bits.
pub open spec fn pattern_of(u: nat, i: nat) -> nat
    decreases u,
{
    if u >= LIMIT {
        pattern_of(u / 2, i + 1)
    } else if u < 0x80_0000 {
        u
    } else if i >= 254 {
        INFINITY as nat
    } else {
        i * 0x80_0000 + u
    }
}

/// The number nearest to `n / d * 2^e`, in units.
pub open spec fn units_of(n: nat, d: nat, e: int) -> nat {
    if e + 149 >= 0 {
        nearest_single(n * pow2((e + 149) as nat), d)
    } else {
        nearest_single(n, d * pow2((-(e + 149)) as nat))
    }
}

/// The pattern of the number nearest to `n / d * 2^e`.
pub open spec fn magnitude(n: nat, d: nat, e: int) -> nat {
    pattern_of(units_of(n, d, e), 0)
}

/// A pattern with its sign bit set or not.
pub open spec fn with_sign(negative: bool, pattern: nat) -> u32 {
    if negative {
        (0x8000_0000 + pattern) as u32
    } else {
        pattern as u32
    }
}

/// Whether a pattern stands for an infinite number.
pub open spec fn is_infinite(bits: u32) -> bool {
    bits % 0x8000_0000 == INFINITY
}

/// Whether a pattern stands for zero.
pub open spec fn is_zero(bits: u32) -> bool {
    bits % 0x8000_0000 == 0
}

/// The product of two numbers.
pub open spec fn product_of(a: u32, b: u32) -> u32 {
    let negative = is_negative(a) != is_negative(b);
    if is_nan(a) || is_nan(b) || (is_infinite(a) && is_zero(b)) || (is_zero(a) && is_infinite(b)) {
        NOT_A_NUMBER
    } else if is_infinite(a) || is_infinite(b) {
        with_sign(negative, INFINITY as nat)
    } else {
        with_sign(
            negative,
            magnitude(significand(a) * significand(b), 1, scale(a) + scale(b) - 300),
        )
    }
}

/// A number divided by a whole number.
pub open spec fn quotient_of(a: u32, d: nat) -> u32 {
    if is_nan(a) {
        NOT_A_NUMBER
    } else if is_infinite(a) {
        a
    } else {
        with_sign(is_negative(a), magnitude(significand(a), d, scale(a) - 150))
    }
}

/// A power of two passes through the rounding of a number that is not small.
proof fn lemma_nearest_scaled(n: nat, d: nat, k: nat, j: nat)
    requires
        d > 0,
        j <= k,
        n * pow2((k - j) as nat) >= LIMIT * d,
    ensures
        nearest_single(n * pow2(k), d) == pow2(j) * nearest_single(n * pow2((k - j) as nat), d),
    decreases j,
{
    broadcast use vstd::arithmetic::power2::lemma_pow2_unfold;

    vstd::arithmetic::power2::lemma2_to64();
    if j > 0 {
        let x = n * pow2((k - 1) as nat);
        let y = n * pow2((k - j) as nat);
        assert(pow2(k) == 2 * pow2((k - 1) as nat));
        assert(n * pow2(k) == 2 * x) by (nonlinear_arith)
            requires
                pow2(k) == 2 * pow2((k - 1) as nat),
                x == n * pow2((k - 1) as nat),
        ;
        assert(x >= y) by {
            if j > 1 {
                vstd::arithmetic::power2::lemma_pow2_strictly_increases(
                    (k - j) as nat,
                    (k - 1) as nat,
                );
            }
            assert(n * pow2((k - 1) as nat) >= n * pow2((k - j) as nat)) by (nonlinear_arith)
                requires
                    pow2((k - 1) as nat) >= pow2((k - j) as nat),
            ;
        }
        assert((2 * x) / d >= LIMIT) by (nonlinear_arith)
            requires
                x >= y,
                y >= LIMIT * d,
                d > 0,
        ;
        lemma_nearest_doubled(x, d);
        lemma_nearest_scaled(n, d, (k - 1) as nat, (j - 1) as nat);
        let rest = nearest_single(y, d);
        assert(pow2(j) == 2 * pow2((j - 1) as nat));
        assert(2 * (pow2((j - 1) as nat) * rest) == pow2(j) * rest) by (nonlinear_arith)
            requires
                pow2(j) == 2 * pow2((j - 1) as nat),
        ;
    } else {
        let rest = nearest_single(n * pow2(k), d);
        assert(pow2(0) * rest == rest) by (nonlinear_arith)
            requires
                pow2(0) == 1,
        ;
    }
}

/// The pattern of a number times a power of two.
proof fn lemma_pattern_scaled(r: nat, j: nat, i: nat)
    requires
        r >= 0x80_0000,
    ensures
        pattern_of(pow2(j) * r, i) == pattern_of(r, i + j),
    decreases j,
{
    broadcast use vstd::arithmetic::power2::lemma_pow2_unfold;

    vstd::arithmetic::power2::lemma2_to64();
    if j > 0 {
        let rest = pow2((j - 1) as nat) * r;
        assert(pow2(j) * r == 2 * rest) by (nonlinear_arith)
            requires
                pow2(j) == 2 * pow2((j - 1) as nat),
                rest == pow2((j - 1) as nat) * r,
        ;
        vstd::arithmetic::power2::lemma_pow2_pos((j - 1) as nat);
        assert(rest >= r) by (nonlinear_arith)
            requires
                rest == pow2((j - 1) as nat) * r,
                pow2((j - 1) as nat) >= 1,
        ;
        lemma_pattern_scaled(r, (j - 1) as nat, i + 1);
    } else {
        assert(pow2(0) * r == r) by (nonlinear_arith)
            requires
                pow2(0) == 1,
        ;
    }
}

proof fn lemma_pattern_bounded(u: nat, i: nat)
    ensures
        pattern_of(u, i) <= INFINITY,
    decreases u,
{
    if u >= LIMIT {
        lemma_pattern_bounded(u / 2, i + 1);
    } else if 0x80_0000 <= u && i < 254 {
        assert(i * 0x80_0000 <= 253 * 0x80_0000);
    }
}

/// The pattern of `u * 2^i` units.
fn to_pattern(u: u128, i: u32) -> (out: u32)
    requires
        i <= 1000,
    ensures
        out == pattern_of(u as nat, i as nat),
        out <= INFINITY,
{
    let mut rest: u128 = u;
    let mut up: u32 = i;
    proof {
        lemma_pattern_bounded(u as nat, i as nat);
    }
    let ghost mut bound: int = 128;
    proof {
        vstd::arithmetic::power2::lemma2_to64();
        vstd::arithmetic::power2::lemma_pow2_adds(64, 64);
    }
    while rest >= LIMIT
        invariant
            i <= 1000,
            pattern_of(u as nat, i as nat) == pattern_of(rest as nat, up as nat),
            0 <= bound,
            up + bound == i + 128,
            rest < pow2(bound as nat),
        decreases rest,
    {
        proof {
            assert(bound > 0) by {
                if bound == 0 {
                    vstd::arithmetic::power2::lemma2_to64();
                }
            }
            vstd::arithmetic::power2::lemma_pow2_unfold(bound as nat);
            bound = bound - 1;
        }
        rest = rest / 2;
        up = up + 1;
    }
    if rest < 0x80_0000 {
        rest as u32
    } else if up >= 254 {
        INFINITY
    } else {
        up * 0x80_0000 + rest as u32
    }
}

/// `2^n`.
fn power(n: u32) -> (out: u128)
    requires
        n <= 64,
    ensures
        out == pow2(n as nat),
        1 <= out <= 0x1_0000_0000_0000_0000,
{
    let mut out: u128 = 1;
    let mut i: u32 = 0;
    proof {
        vstd::arithmetic::power2::lemma2_to64();
    }
    while i < n
        invariant
            i <= n <= 64,
            out == pow2(i as nat),
            1 <= out <= 0x1_0000_0000_0000_0000,
        decreases n - i,
    {
        proof {
            vstd::arithmetic::power2::lemma_pow2_unfold((i + 1) as nat);
            vstd::arithmetic::power2::lemma2_to64();
            if i + 1 < 64 {
                vstd::arithmetic::power2::lemma_pow2_strictly_increases((i + 1) as nat, 64);
            }
        }
        out = 2 * out;
        i = i + 1;
    }
    out
}

/// The pattern of the number nearest to `n / d * 2^e`.
fn to_magnitude(n: u128, d: u128, e: i32) -> (out: u32)
    requires
        n <= 0x1_0000_0000_0000,
        1 <= d <= 128,
        -300 <= e <= 300,
    ensures
        out == magnitude(n as nat, d as nat, e as int),
        out <= INFINITY,
{
    let up: i32 = e + 149;
    if n == 0 {
        proof {
            lemma_nothing(d as nat, e as int);
        }
        return 0;
    }
    proof {
        vstd::arithmetic::power2::lemma2_to64();
        lemma_pattern_bounded(units_of(n as nat, d as nat, e as int), 0);
    }
    if up < 0 {
        let down: u32 = (-up) as u32;
        if down > 64 {
            proof {
                vstd::arithmetic::power2::lemma_pow2_strictly_increases(64, down as nat);
                let den = (d * pow2(down as nat)) as nat;
                assert(2 * n < den) by (nonlinear_arith)
                    requires
                        n <= 0x1_0000_0000_0000,
                        pow2(down as nat) > 0x1_0000_0000_0000_0000,
                        d >= 1,
                        den == d * pow2(down as nat),
                ;
                vstd::arithmetic::div_mod::lemma_basic_div(n as int, den as int);
                vstd::arithmetic::div_mod::lemma_small_mod(n as nat, den);
                assert(nearest_single(n as nat, den) == 0);
            }
            return 0;
        }
        let unit: u128 = power(down);
        assert(0 < d * unit <= 128 * 0x1_0000_0000_0000_0000) by (nonlinear_arith)
            requires
                1 <= d <= 128,
                1 <= unit <= 0x1_0000_0000_0000_0000,
        ;
        return to_pattern(to_single(n, d * unit), 0);
    }
    let most: i32 = if up > 40 {
        40
    } else {
        up
    };
    let j: i32 = up - most;
    let unit: u128 = power(most as u32);
    proof {
        vstd::arithmetic::power2::lemma_pow2_adds(32, 8);
        if most < 40 {
            vstd::arithmetic::power2::lemma_pow2_strictly_increases(most as nat, 40);
        }
        assert(unit <= 0x100_0000_0000);
        assert(0 < n * unit <= 0x1_0000_0000_0000 * 0x100_0000_0000) by (nonlinear_arith)
            requires
                1 <= n <= 0x1_0000_0000_0000,
                1 <= unit <= 0x100_0000_0000,
        ;
    }
    let r: u128 = to_single(n * unit, d);
    proof {
        if j > 0 {
            assert(n * unit >= LIMIT * d) by (nonlinear_arith)
                requires
                    n >= 1,
                    unit == 0x100_0000_0000,
                    d <= 128,
                    LIMIT == 0x100_0000,
            ;
            lemma_nearest_scaled(n as nat, d as nat, up as nat, j as nat);
            lemma_nearest_at_least((n * unit) as nat, d as nat);
            lemma_pattern_scaled(r as nat, j as nat, 0);
        }
    }
    to_pattern(r, j as u32)
}

proof fn lemma_nothing(d: nat, e: int)
    requires
        d > 0,
    ensures
        magnitude(0, d, e) == 0,
{
    if e + 149 >= 0 {
        let p = pow2((e + 149) as nat);
        assert(0 * p == 0) by (nonlinear_arith);
        vstd::arithmetic::div_mod::lemma_basic_div(0, d as int);
        vstd::arithmetic::div_mod::lemma_small_mod(0, d);
    } else {
        let p = pow2((-(e + 149)) as nat);
        vstd::arithmetic::power2::lemma_pow2_pos((-(e + 149)) as nat);
        assert(d * p > 0) by (nonlinear_arith)
            requires
                d > 0,
                p > 0,
        ;
        vstd::arithmetic::div_mod::lemma_basic_div(0, (d * p) as int);
        vstd::arithmetic::div_mod::lemma_small_mod(0, d * p);
    }
}

fn signed_pattern(negative: bool, pattern: u32) -> (out: u32)
    requires
        pattern <= INFINITY,
    ensures
        out == with_sign(negative, pattern as nat),
{
    if negative {
        0x8000_0000 + pattern
    } else {
        pattern
    }
}

/// The parts of the pattern of a finite number: its significand and its scale.
fn parts(bits: u32) -> (parts: (u128, i32))
    ensures
        parts.0 == significand(bits),
        parts.1 == scale(bits),
        parts.0 < 0x100_0000,
        1 <= parts.1 <= 255,
{
    let exp: u32 = (bits / 0x80_0000) % 256;
    let low: u32 = bits % 0x80_0000;
    if exp == 0 {
        (low as u128, 1)
    } else {
        (low as u128 + 0x80_0000, exp as i32)
    }
}

/// The product of two numbers.
pub fn product(a: u32, b: u32) -> (out: u32)
    ensures
        out == product_of(a, b),
{
    let size_a: u32 = a % 0x8000_0000;
    let size_b: u32 = b % 0x8000_0000;
    if size_a > INFINITY || size_b > INFINITY || (size_a == INFINITY && size_b == 0) || (size_a == 0
        && size_b == INFINITY) {
        return NOT_A_NUMBER;
    }
    let negative: bool = (a >= 0x8000_0000) != (b >= 0x8000_0000);
    if size_a == INFINITY || size_b == INFINITY {
        return signed_pattern(negative, INFINITY);
    }
    let (m, up) = parts(a);
    let (n, down) = parts(b);
    assert(m * n <= 0x1_0000_0000_0000) by (nonlinear_arith)
        requires
            0 <= m < 0x100_0000,
            0 <= n < 0x100_0000,
    ;
    signed_pattern(negative, to_magnitude(m * n, 1, up + down - 300))
}

/// A number divided by a whole number.
pub fn quotient(a: u32, d: u32) -> (out: u32)
    requires
        1 <= d <= 128,
    ensures
        out == quotient_of(a, d as nat),
{
    let size: u32 = a % 0x8000_0000;
    if size > INFINITY {
        return NOT_A_NUMBER;
    }
    if size == INFINITY {
        return a;
    }
    let (n, up) = parts(a);
    signed_pattern(a >= 0x8000_0000, to_magnitude(n, d as u128, up - 150))
}

} // verus!
