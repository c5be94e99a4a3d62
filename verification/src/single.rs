//! Single-precision arithmetic in integers.
//!
//! A single-precision number is an integer of at most 24 bits times a power of two, and each
//! operation gives the representable number nearest to the exact result, the even one of two that
//! are equally near. Here a number is an integer count of some unit that its user fixes, so one
//! function, [`nearest_single`], says what every operation rounds to.
use vstd::arithmetic::power2::pow2;
use vstd::prelude::*;

verus! {

/// Numbers below this count need no rounding: `2^24`.
pub const LIMIT: u128 = 0x100_0000;

/// `num / den` to the nearest integer, the even one of two that are equally near.
pub open spec fn round_half_even(num: nat, den: nat) -> nat {
    let k = num / den;
    let r = num % den;
    if 2 * r > den || (2 * r == den && k % 2 == 1) {
        k + 1
    } else {
        k
    }
}

/// `num / den` to the nearest number of at most 24 significant bits, the even one of two that are
/// equally near. Exact where the quotient has no more than 24 bits to its point and no fraction.
pub open spec fn nearest_single(num: nat, den: nat) -> nat
    decreases num / den,
{
    if den > 0 && num / den >= LIMIT {
        proof {
            lemma_halves(num, den);
        }
        2 * nearest_single(num, 2 * den)
    } else {
        round_half_even(num, den)
    }
}

/// `num / den` to the nearest integer, the larger one of two that are equally near.
pub open spec fn round_half_up(num: nat, den: nat) -> nat {
    (2 * num + den) / (2 * den)
}

/// Doubling the divisor makes a quotient that is not small smaller.
pub proof fn lemma_halves(num: nat, den: nat)
    requires
        den > 0,
        num / den >= LIMIT,
    ensures
        num / (2 * den) < num / den,
{
    assert(num / (2 * den) < num / den) by (nonlinear_arith)
        requires
            den > 0,
            num / den >= 0x100_0000,
    ;
}

/// Rounding never passes a representable number: what is at most `c * 2^j` stays so.
pub proof fn lemma_nearest_bounded(num: nat, den: nat, c: nat, j: nat)
    requires
        den > 0,
        c <= LIMIT,
        num <= c * pow2(j) * den,
    ensures
        nearest_single(num, den) <= c * pow2(j),
    decreases num / den,
{
    broadcast use vstd::arithmetic::power2::lemma_pow2_unfold;

    let b = c * pow2(j);
    if num / den >= LIMIT {
        lemma_halves(num, den);
        assert(b >= LIMIT) by (nonlinear_arith)
            requires
                num <= b * den,
                den > 0,
                num / den >= 0x100_0000,
                LIMIT == 0x100_0000,
        ;
        if j == 0 {
            assert(pow2(0) == 1) by {
                vstd::arithmetic::power2::lemma2_to64();
            }
            assert(c * pow2(0) == c) by (nonlinear_arith)
                requires
                    pow2(0) == 1,
            ;
            assert(num <= 0x80_0000 * pow2(0) * (2 * den)) by (nonlinear_arith)
                requires
                    num <= b * den,
                    b == 0x100_0000,
                    pow2(0) == 1,
            ;
            lemma_nearest_bounded(num, 2 * den, 0x80_0000, 0);
        } else {
            let i = (j - 1) as nat;
            assert(pow2(j) == 2 * pow2(i));
            assert(c * pow2(j) == 2 * (c * pow2(i))) by (nonlinear_arith)
                requires
                    pow2(j) == 2 * pow2(i),
            ;
            assert(c * pow2(i) * (2 * den) == c * pow2(j) * den) by (nonlinear_arith)
                requires
                    c * pow2(j) == 2 * (c * pow2(i)),
            ;
            lemma_nearest_bounded(num, 2 * den, c, i);
        }
    } else {
        let k = num / den;
        assert(k <= b && (k == b ==> num % den == 0)) by (nonlinear_arith)
            requires
                num <= b * den,
                den > 0,
                k == num / den,
        ;
    }
}

/// Doubling both numbers changes no quotient.
pub proof fn lemma_nearest_doubled(num: nat, den: nat)
    requires
        den > 0,
    ensures
        nearest_single(2 * num, 2 * den) == nearest_single(num, den),
    decreases num / den,
{
    assert((2 * num) / (2 * den) == num / den && (2 * num) % (2 * den) == 2 * (num % den)) by {
        vstd::arithmetic::div_mod::lemma_fundamental_div_mod(num as int, den as int);
        let q = num as int / den as int;
        let r = num as int % (den as int);
        assert(2 * num == q * (2 * den) + 2 * r) by (nonlinear_arith)
            requires
                num == den * q + r,
        ;
        vstd::arithmetic::div_mod::lemma_fundamental_div_mod_converse(
            2 * num as int,
            2 * den as int,
            q,
            2 * r,
        );
    }
    if num / den >= LIMIT {
        lemma_halves(num, den);
        lemma_nearest_doubled(num, 2 * den);
    }
}

/// What is not small stays so.
pub proof fn lemma_nearest_at_least(num: nat, den: nat)
    requires
        den > 0,
        num >= LIMIT * den,
    ensures
        nearest_single(num, den) >= LIMIT,
    decreases num / den,
{
    assert(num / den >= LIMIT) by (nonlinear_arith)
        requires
            num >= LIMIT * den,
            den > 0,
    ;
    lemma_halves(num, den);
    if num >= LIMIT * (2 * den) {
        lemma_nearest_at_least(num, 2 * den);
    } else {
        assert(num / (2 * den) < LIMIT && num / (2 * den) >= 0x80_0000) by (nonlinear_arith)
            requires
                num < LIMIT * (2 * den),
                num >= LIMIT * den,
                LIMIT == 0x100_0000,
                den > 0,
        ;
        assert(nearest_single(num, 2 * den) == round_half_even(num, 2 * den));
    }
}

/// Rounding keeps the order of numbers.
pub proof fn lemma_nearest_monotone(a: nat, b: nat, den: nat)
    requires
        den > 0,
        a <= b,
    ensures
        nearest_single(a, den) <= nearest_single(b, den),
    decreases b / den,
{
    vstd::arithmetic::div_mod::lemma_div_is_ordered(a as int, b as int, den as int);
    if b / den >= LIMIT {
        lemma_halves(b, den);
        if a / den >= LIMIT {
            lemma_nearest_monotone(a, b, 2 * den);
        } else {
            assert(b >= LIMIT * den) by (nonlinear_arith)
                requires
                    b / den >= LIMIT,
                    den > 0,
            ;
            lemma_nearest_at_least(b, den);
        }
    } else {
        let x = a / den;
        let y = b / den;
        assert(x == y ==> a % den <= b % den) by (nonlinear_arith)
            requires
                a <= b,
                den > 0,
                x == a / den,
                y == b / den,
        ;
    }
}

/// A number of at most 24 bits times a power of two needs no rounding.
pub proof fn lemma_nearest_exact(m: nat, j: nat)
    requires
        m < LIMIT,
    ensures
        nearest_single(m * pow2(j), 1) == m * pow2(j),
    decreases j,
{
    vstd::arithmetic::power2::lemma2_to64();
    let n = m * pow2(j);
    if j == 0 {
        assert(n == m) by (nonlinear_arith)
            requires
                n == m * pow2(0),
                pow2(0) == 1,
        ;
    } else if n >= LIMIT {
        vstd::arithmetic::power2::lemma_pow2_unfold(j);
        let half = m * pow2((j - 1) as nat);
        assert(n == 2 * half) by (nonlinear_arith)
            requires
                n == m * pow2(j),
                half == m * pow2((j - 1) as nat),
                pow2(j) == 2 * pow2((j - 1) as nat),
        ;
        lemma_nearest_exact(m, (j - 1) as nat);
        lemma_nearest_doubled(half, 1);
    }
}

/// The number nearest to `num / den`.
pub fn to_single(num: u128, den: u128) -> (out: u128)
    requires
        den > 0,
        num < 0x4000_0000_0000_0000_0000_0000_0000_0000,
        den < 0x4000_0000_0000_0000_0000_0000_0000_0000,
    ensures
        out == nearest_single(num as nat, den as nat),
{
    let mut unit: u128 = den;
    let mut scale: u128 = 1;
    while num / unit >= LIMIT
        invariant
            unit > 0,
            scale > 0,
            unit < 0x4000_0000_0000_0000_0000_0000_0000_0000,
            num < 0x4000_0000_0000_0000_0000_0000_0000_0000,
            scale <= unit,
            scale == 1 || (num / unit) * 2 + 2 > LIMIT,
            nearest_single(num as nat, den as nat) == scale * nearest_single(
                num as nat,
                unit as nat,
            ),
        decreases num / unit,
    {
        proof {
            lemma_halves(num as nat, unit as nat);
            assert(2 * unit <= num && 2 * (num as int / (2 * unit)) + 2 > num as int / unit as int)
                by (nonlinear_arith)
                requires
                    unit > 0,
                    num / unit >= 0x100_0000,
            ;
            let n = nearest_single(num as nat, (2 * unit) as nat);
            assert(scale * (2 * n) == (2 * scale) * n) by (nonlinear_arith);
        }
        unit = 2 * unit;
        scale = 2 * scale;
    }
    let k: u128 = num / unit;
    let r: u128 = num % unit;
    assert(0 <= r < unit) by (nonlinear_arith)
        requires
            r == num % unit,
            unit > 0,
    ;
    assert(k * scale <= num) by (nonlinear_arith)
        requires
            k == num / unit,
            0 < scale <= unit,
    ;
    assert((k + 1) * scale <= 2 * num + 1) by (nonlinear_arith)
        requires
            k * scale <= num,
            scale == 1 || k >= 1,
            scale > 0,
            k >= 0,
    ;
    if 2 * r > unit || (2 * r == unit && k % 2 == 1) {
        assert(scale * (k + 1) == (k + 1) * scale) by (nonlinear_arith);
        (k + 1) * scale
    } else {
        assert(scale * k == k * scale) by (nonlinear_arith);
        k * scale
    }
}

/// The eight bits of a single-precision bit pattern that hold its exponent.
pub open spec fn exponent(bits: u32) -> nat {
    ((bits / 0x80_0000) % 256) as nat
}

/// The integer that the fraction bits of a pattern stand for, the leading one restored.
pub open spec fn significand(bits: u32) -> nat {
    if exponent(bits) == 0 {
        (bits % 0x80_0000) as nat
    } else {
        (bits % 0x80_0000 + 0x80_0000) as nat
    }
}

/// Whether a pattern stands for no number.
pub open spec fn is_nan(bits: u32) -> bool {
    exponent(bits) == 255 && bits % 0x80_0000 != 0
}

/// Whether the sign bit of a pattern is set.
pub open spec fn is_negative(bits: u32) -> bool {
    bits >= 0x8000_0000
}

/// Whether a pattern stands for a number above zero.
pub open spec fn is_positive(bits: u32) -> bool {
    !is_negative(bits) && !is_nan(bits) && bits != 0
}

/// Whether a pattern stands for a number above zero.
pub fn positive(bits: u32) -> (yes: bool)
    ensures
        yes == is_positive(bits),
{
    0 < bits && bits <= 0x7f80_0000
}

/// How many binary places stand behind the point of [`significand`].
pub open spec fn binary_places(bits: u32) -> nat
    recommends
        exponent(bits) < 127,
{
    if exponent(bits) == 0 {
        149
    } else {
        (150 - exponent(bits)) as nat
    }
}

/// The fraction `bits`, held between 0 and 1, of `extent`, to the nearest whole number, the larger
/// one of two that are equally near. What is no number counts as 0.
pub open spec fn fraction_of(bits: u32, extent: nat) -> nat {
    if is_negative(bits) || is_nan(bits) {
        0
    } else if exponent(bits) >= 127 {
        extent
    } else {
        round_half_up(
            nearest_single(significand(bits) * extent, 1),
            pow2(binary_places(bits)),
        )
    }
}

/// A fraction of an extent lies between nothing and the whole of it.
pub proof fn lemma_fraction_within(bits: u32, extent: nat)
    requires
        extent < LIMIT,
    ensures
        fraction_of(bits, extent) <= extent,
{
    if !is_negative(bits) && !is_nan(bits) && exponent(bits) < 127 {
        let m = significand(bits);
        let t = binary_places(bits);
        let p = nearest_single(m * extent, 1);
        vstd::arithmetic::power2::lemma_pow2_pos(t);
        lemma_significand_below_one(bits);
        assert(m * extent <= extent * pow2(t) * 1) by (nonlinear_arith)
            requires
                m <= pow2(t),
        ;
        lemma_nearest_bounded(m * extent, 1, extent, t);
        assert(round_half_up(p, pow2(t)) <= extent) by (nonlinear_arith)
            requires
                p <= extent * pow2(t),
                pow2(t) > 0,
                round_half_up(p, pow2(t)) == (2 * p + pow2(t)) / (2 * pow2(t)),
        ;
    }
}

proof fn lemma_significand_below_one(bits: u32)
    requires
        exponent(bits) < 127,
    ensures
        significand(bits) <= pow2(binary_places(bits)),
        significand(bits) < 0x100_0000,
{
    let t = binary_places(bits);
    vstd::arithmetic::power2::lemma2_to64();
    assert(pow2(24) == 0x100_0000);
    if t > 24 {
        vstd::arithmetic::power2::lemma_pow2_strictly_increases(24, t);
    }
}

/// The fraction `bits` of `extent`: see [`fraction_of`].
pub fn fraction(bits: u32, extent: u32) -> (out: u32)
    requires
        extent < LIMIT,
    ensures
        out == fraction_of(bits, extent as nat),
        out <= extent,
{
    proof {
        lemma_fraction_within(bits, extent as nat);
    }
    let exp: u32 = (bits / 0x80_0000) % 256;
    let low: u32 = bits % 0x80_0000;
    if bits >= 0x8000_0000 || (exp == 255 && low != 0) {
        return 0;
    }
    if exp >= 127 {
        return extent;
    }
    let m: u128 = if exp == 0 {
        low as u128
    } else {
        low as u128 + 0x80_0000
    };
    let places: u32 = if exp == 0 {
        149
    } else {
        150 - exp
    };
    proof {
        lemma_significand_below_one(bits);
        assert(m * extent < 0x1_0000_0000_0000) by (nonlinear_arith)
            requires
                m < 0x100_0000,
                extent < 0x100_0000,
        ;
        vstd::arithmetic::power2::lemma2_to64();
        assert(m * extent <= 0x100_0000 * pow2(24) * 1);
        lemma_nearest_bounded((m * extent) as nat, 1, 0x100_0000, 24);
        assert(pow2(24) == 0x100_0000);
    }
    let p: u128 = to_single(m * (extent as u128), 1);
    let ghost whole = pow2(places as nat);
    if places > 64 {
        proof {
            vstd::arithmetic::power2::lemma_pow2_strictly_increases(64, places as nat);
            assert(round_half_up(p as nat, whole) == 0) by (nonlinear_arith)
                requires
                    2 * p < whole,
                    round_half_up(p as nat, whole) == (2 * (p as nat) + whole) / (2 * whole),
            ;
        }
        return 0;
    }
    let mut unit: u128 = 1;
    let mut i: u32 = 0;
    while i < places
        invariant
            i <= places <= 64,
            unit == pow2(i as nat),
            unit <= 0x1_0000_0000_0000_0000,
        decreases places - i,
    {
        proof {
            vstd::arithmetic::power2::lemma_pow2_unfold((i + 1) as nat);
            vstd::arithmetic::power2::lemma2_to64();
            if i + 1 < 64 {
                vstd::arithmetic::power2::lemma_pow2_strictly_increases((i + 1) as nat, 64);
            }
        }
        unit = 2 * unit;
        i = i + 1;
    }
    ((2 * p + unit) / (2 * unit)) as u32
}

/// The power of two that [`significand`] counts, with 150 added.
pub open spec fn scale(bits: u32) -> int {
    if exponent(bits) == 0 {
        1
    } else {
        exponent(bits) as int
    }
}

/// `n * 2^e` to the nearest whole number, the larger one of two that are equally near.
pub open spec fn scaled_whole(n: nat, e: int) -> nat {
    if e >= 0 {
        n * pow2(e as nat)
    } else {
        round_half_up(n, pow2((-e) as nat))
    }
}

/// The product of two numbers in single precision, to the nearest whole number of 32 bits, the one
/// further from zero of two that are equally near. What is no number counts as 0.
pub open spec fn whole_product(a: u32, b: u32) -> int {
    let infinite = exponent(a) == 255 || exponent(b) == 255;
    let zero = a % 0x8000_0000 == 0 || b % 0x8000_0000 == 0;
    if is_nan(a) || is_nan(b) || zero {
        0
    } else {
        let size = scaled_whole(
            nearest_single(significand(a) * significand(b), 1),
            scale(a) + scale(b) - 300,
        );
        if is_negative(a) != is_negative(b) {
            if infinite || size > 0x8000_0000 {
                -0x8000_0000
            } else {
                -size
            }
        } else if infinite || size > 0x7fff_ffff {
            0x7fff_ffff
        } else {
            size as int
        }
    }
}

/// `n * 2^e` to the nearest whole number, or `2^32` where it is more.
fn scale_whole(n: u128, e: i32) -> (out: u64)
    requires
        0 < n <= 0x1_0000_0000_0000,
        -300 <= e <= 300,
    ensures
        out == (if scaled_whole(n as nat, e as int) > 0x1_0000_0000 {
            0x1_0000_0000
        } else {
            scaled_whole(n as nat, e as int)
        }),
{
    proof {
        vstd::arithmetic::power2::lemma2_to64();
    }
    if e >= 33 {
        proof {
            vstd::arithmetic::power2::lemma_pow2_strictly_increases(32, e as nat);
            let w = pow2(e as nat);
            assert(n * w >= w) by (nonlinear_arith)
                requires
                    n >= 1,
                    w > 0,
            ;
        }
        return 0x1_0000_0000;
    }
    if e >= 0 {
        let mut unit: u128 = 1;
        let mut i: i32 = 0;
        while i < e
            invariant
                0 <= i <= e <= 32,
                unit == pow2(i as nat),
                unit <= 0x1_0000_0000,
            decreases e - i,
        {
            proof {
                vstd::arithmetic::power2::lemma_pow2_unfold((i + 1) as nat);
                vstd::arithmetic::power2::lemma2_to64();
                if i + 1 < 32 {
                    vstd::arithmetic::power2::lemma_pow2_strictly_increases((i + 1) as nat, 32);
                }
            }
            unit = 2 * unit;
            i = i + 1;
        }
        assert(n * unit <= 0x1_0000_0000_0000 * 0x1_0000_0000) by (nonlinear_arith)
            requires
                0 <= n <= 0x1_0000_0000_0000,
                0 <= unit <= 0x1_0000_0000,
        ;
        let whole: u128 = n * unit;
        return if whole > 0x1_0000_0000 {
            0x1_0000_0000
        } else {
            whole as u64
        };
    }
    let places: i32 = -e;
    let ghost whole = pow2(places as nat);
    if places > 64 {
        proof {
            vstd::arithmetic::power2::lemma_pow2_strictly_increases(64, places as nat);
            assert(round_half_up(n as nat, whole) == 0) by (nonlinear_arith)
                requires
                    2 * n < whole,
                    round_half_up(n as nat, whole) == (2 * (n as nat) + whole) / (2 * whole),
            ;
        }
        return 0;
    }
    let mut unit: u128 = 1;
    let mut i: i32 = 0;
    while i < places
        invariant
            0 <= i <= places <= 64,
            unit == pow2(i as nat),
            1 <= unit <= 0x1_0000_0000_0000_0000,
        decreases places - i,
    {
        proof {
            vstd::arithmetic::power2::lemma_pow2_unfold((i + 1) as nat);
            vstd::arithmetic::power2::lemma2_to64();
            if i + 1 < 64 {
                vstd::arithmetic::power2::lemma_pow2_strictly_increases((i + 1) as nat, 64);
            }
        }
        unit = 2 * unit;
        i = i + 1;
    }
    let out: u128 = (2 * n + unit) / (2 * unit);
    assert(out <= n + 1) by (nonlinear_arith)
        requires
            out == (2 * n + unit) / (2 * unit),
            unit >= 1,
    ;
    if out > 0x1_0000_0000 {
        0x1_0000_0000
    } else {
        out as u64
    }
}

/// The product of two numbers as a whole number: see [`whole_product`].
pub fn rounded_product(a: u32, b: u32) -> (out: i32)
    ensures
        out == whole_product(a, b),
{
    let exp_a: u32 = (a / 0x80_0000) % 256;
    let exp_b: u32 = (b / 0x80_0000) % 256;
    let low_a: u32 = a % 0x80_0000;
    let low_b: u32 = b % 0x80_0000;
    if (exp_a == 255 && low_a != 0) || (exp_b == 255 && low_b != 0) || a % 0x8000_0000 == 0 || b
        % 0x8000_0000 == 0 {
        return 0;
    }
    let opposite: bool = (a >= 0x8000_0000) != (b >= 0x8000_0000);
    if exp_a == 255 || exp_b == 255 {
        return if opposite {
            i32::MIN
        } else {
            i32::MAX
        };
    }
    let m: u128 = if exp_a == 0 {
        low_a as u128
    } else {
        low_a as u128 + 0x80_0000
    };
    let n: u128 = if exp_b == 0 {
        low_b as u128
    } else {
        low_b as u128 + 0x80_0000
    };
    let scale_a: i32 = if exp_a == 0 {
        1
    } else {
        exp_a as i32
    };
    let scale_b: i32 = if exp_b == 0 {
        1
    } else {
        exp_b as i32
    };
    proof {
        assert(0 < m * n <= 0x1_0000_0000_0000) by (nonlinear_arith)
            requires
                0 < m <= 0x100_0000,
                0 < n <= 0x100_0000,
        ;
        vstd::arithmetic::power2::lemma2_to64();
        assert(m * n <= 0x100_0000 * pow2(24) * 1);
        lemma_nearest_bounded((m * n) as nat, 1, 0x100_0000, 24);
        lemma_nearest_positive((m * n) as nat, 1);
    }
    let product: u128 = to_single(m * n, 1);
    let size: u64 = scale_whole(product, scale_a + scale_b - 300);
    if opposite {
        if size >= 0x8000_0000 {
            i32::MIN
        } else {
            -(size as i32)
        }
    } else if size > 0x7fff_ffff {
        i32::MAX
    } else {
        size as i32
    }
}

proof fn lemma_nearest_positive(num: nat, den: nat)
    requires
        den > 0,
        num >= den,
    ensures
        nearest_single(num, den) > 0,
    decreases num / den,
{
    assert(num / den >= 1) by (nonlinear_arith)
        requires
            num >= den,
            den > 0,
    ;
    if num / den >= LIMIT {
        lemma_halves(num, den);
        assert(num >= 2 * den) by (nonlinear_arith)
            requires
                num / den >= 0x100_0000,
                den > 0,
        ;
        lemma_nearest_positive(num, 2 * den);
    }
}

} // verus!
