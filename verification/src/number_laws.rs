//! What holds of every rounded number: how far it may lie from the exact one.
use vstd::arithmetic::power2::pow2;
use vstd::prelude::*;

use crate::single::{
    binary_places, exponent, fraction_of, is_nan, is_negative, is_positive, lemma_fraction_within,
    lemma_halves, nearest_single, round_half_even, round_half_up, scale, scaled_whole, significand,
    whole_product, LIMIT,
};
use crate::single_bits::{
    is_infinite, is_zero, magnitude, pattern_of, product_of, quotient_of, units_of,
};

verus! {

/// How far `a` lies from `b`.
pub open spec fn gap(a: int, b: int) -> int {
    if a < b {
        b - a
    } else {
        a - b
    }
}

proof fn lemma_half_even_close(num: nat, den: nat)
    requires
        den > 0,
    ensures
        2 * gap((round_half_even(num, den) * den) as int, num as int) <= den,
        den == 1 ==> round_half_even(num, den) == num,
{
    let k = num / den;
    let r = num % den;
    vstd::arithmetic::div_mod::lemma_fundamental_div_mod(num as int, den as int);
    assert(num == k * den + r && 0 <= r < den && (k + 1) * den == k * den + den)
        by (nonlinear_arith)
        requires
            num == den * k + r,
            r == num % den,
            den > 0,
    ;
}

/// Rounding to 24 bits moves a number by no more than the `2^24`th part of it, or, where it has
/// fewer than 24 bits before the point, by no more than half; and a whole number of no more than 24
/// bits stays.
pub proof fn lemma_nearest_is_close(num: nat, den: nat)
    requires
        den > 0,
    ensures
        num >= 0x80_0000 * den ==> 0x100_0000 * gap(
            (nearest_single(num, den) * den) as int,
            num as int,
        ) <= num,
        num < 0x100_0000 * den ==> 2 * gap(
            (nearest_single(num, den) * den) as int,
            num as int,
        ) <= den,
        den == 1 && num < 0x100_0000 ==> nearest_single(num, den) == num,
        den == 1 ==> 0x100_0000 * gap(nearest_single(num, den) as int, num as int) <= num,
    decreases num / den,
{
    assert(num / den >= 0x100_0000 <==> num >= 0x100_0000 * den) by (nonlinear_arith)
        requires
            den > 0,
    ;
    let near = nearest_single(num, den);
    if num / den >= LIMIT {
        lemma_halves(num, den);
        lemma_nearest_is_close(num, 2 * den);
        let half = nearest_single(num, 2 * den);
        assert(half * (2 * den) == near * den) by (nonlinear_arith)
            requires
                near == 2 * half,
        ;
        assert(near * den == near || den != 1) by (nonlinear_arith);
    } else {
        lemma_half_even_close(num, den);
        assert(near * den == near || den != 1) by (nonlinear_arith);
    }
}

/// Rounding gives a number of no more than 24 significant bits, and of all such numbers none lies
/// nearer.
pub proof fn lemma_nearest_is_nearest(num: nat, den: nat, c: nat, j: nat)
    requires
        den > 0,
        c <= 0x100_0000,
    ensures
        exists|m: nat, i: nat|
            m <= 0x100_0000 && nearest_single(num, den) == #[trigger] (m * pow2(i)),
        gap((nearest_single(num, den) * den) as int, num as int) <= gap(
            (c * pow2(j) * den) as int,
            num as int,
        ),
    decreases num / den,
{
    lemma_power_of_nothing();
    assert(num / den >= 0x100_0000 <==> num >= 0x100_0000 * den) by (nonlinear_arith)
        requires
            den > 0,
    ;
    let near = nearest_single(num, den);
    let other = c * pow2(j);
    if num / den >= LIMIT {
        lemma_halves(num, den);
        let half = nearest_single(num, 2 * den);
        assert(half * (2 * den) == near * den) by (nonlinear_arith)
            requires
                near == 2 * half,
        ;
        if j > 0 {
            vstd::arithmetic::power2::lemma_pow2_unfold(j);
        }
        if j > 0 || c % 2 == 0 {
            let (d, i) = if j > 0 {
                (c, (j - 1) as nat)
            } else {
                (c / 2, 0nat)
            };
            assert(other == 2 * (d * pow2(i))) by (nonlinear_arith)
                requires
                    other == c * pow2(j),
                    (j > 0 && d == c && pow2(j) == 2 * pow2(i)) || (j == 0 && i == 0 && c == 2 * d),
            ;
            lemma_nearest_is_nearest(num, 2 * den, d, i);
            let half_other = d * pow2(i);
            assert(half_other * (2 * den) == other * den) by (nonlinear_arith)
                requires
                    other == 2 * half_other,
            ;
        } else {
            lemma_nearest_is_nearest(num, 2 * den, 0x80_0000, 0);
            assert(pow2(0) == 1);
            assert(0x80_0000 * pow2(0) == 0x80_0000);
            assert(other == c) by (nonlinear_arith)
                requires
                    other == c * pow2(j),
                    pow2(j) == 1,
            ;
            assert(other * den <= 0x100_0000 * den && 0x80_0000 * (2 * den) == 0x100_0000 * den)
                by (nonlinear_arith)
                requires
                    other <= 0x100_0000,
            ;
        }
        let (m, i) = choose|m: nat, i: nat|
            m <= 0x100_0000 && half == #[trigger] (m * pow2(i));
        vstd::arithmetic::power2::lemma_pow2_unfold(i + 1);
        assert(near == m * pow2(i + 1)) by (nonlinear_arith)
            requires
                near == 2 * half,
                half == m * pow2(i),
                pow2(i + 1) == 2 * pow2(i),
        ;
    } else {
        let k = num / den;
        let r = num % den;
        vstd::arithmetic::div_mod::lemma_fundamental_div_mod(num as int, den as int);
        assert(num == k * den + r && (k + 1) * den == k * den + den && 0 <= r < den)
            by (nonlinear_arith)
            requires
                num == den * k + r,
                r == num % den,
                den > 0,
        ;
        if other <= k {
            assert(other * den <= k * den) by (nonlinear_arith)
                requires
                    other <= k,
            ;
        } else {
            assert(other * den >= (k + 1) * den) by (nonlinear_arith)
                requires
                    other >= k + 1,
            ;
        }
        assert(near * pow2(0) == near) by (nonlinear_arith)
            requires
                pow2(0) == 1,
        ;
        assert(near <= 0x100_0000);
    }
}

/// Rounding to a whole number gives the nearest, and of two that are equally near the larger.
pub proof fn lemma_half_up_is_nearest(num: nat, den: nat)
    requires
        den > 0,
    ensures
        2 * num - den < 2 * (round_half_up(num, den) * den) <= 2 * num + den,
{
    let k = round_half_up(num, den);
    let n = (2 * num + den) as int;
    let d = (2 * den) as int;
    vstd::arithmetic::div_mod::lemma_fundamental_div_mod(n, d);
    assert(k * d <= n < k * d + d && k * d == 2 * (k * den)) by (nonlinear_arith)
        requires
            n == d * (n / d) + n % d,
            0 <= n % d < d,
            k == n / d,
            d == 2 * den,
    ;
}

/// A pattern stands for a number above zero exactly where it lies above that of zero and not above
/// that of infinity.
pub proof fn lemma_positive_patterns(bits: u32)
    ensures
        is_positive(bits) <==> 0 < bits <= 0x7f80_0000,
{
}

/// A fraction of an extent: all of it from one on, nothing for what is below zero or no number, and
/// between them the whole number nearest to the product. With the pattern read as `m / 2^t`, the
/// result is exact to half a unit, and to the rounding of a product of more than 24 bits.
pub proof fn lemma_fraction_is_nearest(bits: u32, extent: nat)
    requires
        extent < 0x100_0000,
    ensures
        0x3f80_0000 <= bits <= 0x7f80_0000 ==> fraction_of(bits, extent) == extent,
        bits == 0 || bits > 0x7f80_0000 ==> fraction_of(bits, extent) == 0,
        bits < 0x3f80_0000 ==> {
            let e = bits as int / 0x80_0000;
            let m = if e == 0 {
                bits as int
            } else {
                bits as int % 0x80_0000 + 0x80_0000
            };
            let unit = pow2(
                (if e == 0 {
                    149
                } else {
                    150 - e
                }) as nat,
            ) as int;
            let exact = m * extent;
            let out = fraction_of(bits, extent);
            let near = nearest_single(exact as nat, 1);
            &&& out <= extent
            &&& 2 * near - unit < 2 * (out * unit) <= 2 * near + unit
            &&& exact < 0x100_0000 ==> 2 * exact - unit < 2 * (out * unit) <= 2 * exact + unit
            &&& 0x100_0000 * gap(2 * (out * unit), 2 * exact) <= 0x100_0000 * unit + 2 * exact
        },
{
    lemma_fraction_within(bits, extent);
    if bits < 0x3f80_0000 {
        let t = binary_places(bits);
        let exact = significand(bits) * extent;
        let near = nearest_single(exact, 1);
        vstd::arithmetic::power2::lemma_pow2_pos(t);
        lemma_nearest_is_close(exact, 1);
        lemma_half_up_is_nearest(near, pow2(t));
        if bits == 0 {
            let out = fraction_of(bits, extent);
            let unit = pow2(t);
            assert(exact == 0) by (nonlinear_arith)
                requires
                    exact == significand(bits) * extent,
                    significand(bits) == 0,
            ;
            assert(out == 0) by (nonlinear_arith)
                requires
                    2 * (out * unit) <= unit,
                    unit > 0,
                    out >= 0,
            ;
        }
    }
}

/// The product of two numbers above zero as a whole number: with the patterns read as `m * 2^a` and
/// `n * 2^b`, it is the whole number nearest to `m * n * 2^(a + b)`, to the rounding of a product
/// of more than 24 bits, or the largest number there is where that is less.
pub proof fn lemma_whole_product_is_nearest(a: u32, b: u32)
    requires
        0 < a < 0x7f80_0000,
        0 < b < 0x7f80_0000,
    ensures
        ({
            let out = whole_product(a, b);
            let exact = significand(a) * significand(b);
            let e = scale(a) + scale(b) - 300;
            let unit = pow2((-e) as nat) as int;
            let many = pow2(e as nat);
            let near = nearest_single(exact, 1);
            &&& 0 <= out <= 0x7fff_ffff
            &&& e < 0 && out < 0x7fff_ffff ==> 2 * near - unit < 2 * (out * unit) <= 2 * near + unit
            &&& e >= 0 && out < 0x7fff_ffff ==> out == near * many
            &&& e < 0 && out < 0x7fff_ffff ==> 0x100_0000 * gap(2 * (out * unit), 2 * exact as int)
                <= 0x100_0000 * unit + 2 * exact
            &&& e < 0 && out == 0x7fff_ffff ==> 0x100_0000 * (2 * (out * unit) - 2 * exact)
                <= 0x100_0000 * unit + 2 * exact
            &&& e >= 0 && out < 0x7fff_ffff ==> 0x100_0000 * gap(out, (exact * many) as int)
                <= exact * many
            &&& e >= 0 && out == 0x7fff_ffff ==> 0x100_0000 * (out - exact * many) <= exact * many
        }),
{
    let exact = significand(a) * significand(b);
    let e = scale(a) + scale(b) - 300;
    let near = nearest_single(exact, 1);
    let size = scaled_whole(near, e);
    let out = whole_product(a, b);
    lemma_nearest_is_close(exact, 1);
    if e < 0 {
        let unit = pow2((-e) as nat);
        vstd::arithmetic::power2::lemma_pow2_pos((-e) as nat);
        lemma_half_up_is_nearest(near, unit);
        if size > 0x7fff_ffff {
            assert(out * unit <= size * unit) by (nonlinear_arith)
                requires
                    out <= size,
            ;
        }
    } else {
        let many = pow2(e as nat);
        vstd::arithmetic::power2::lemma_pow2_pos(e as nat);
        let off = near - exact;
        let apart = gap(near as int, exact as int);
        assert(near * many - exact * many == off * many) by (nonlinear_arith)
            requires
                off == near - exact,
        ;
        assert(0x100_0000 * (apart * many) <= exact * many && -(apart * many) <= off * many <= apart
            * many) by (nonlinear_arith)
            requires
                0x100_0000 * apart <= exact,
                -apart <= off <= apart,
                many > 0,
        ;
    }
}

/// The sign of a product follows from the signs of the numbers, and the order of the numbers does
/// not matter; with nothing, or with what is no number, the product counts as 0.
pub proof fn lemma_whole_product_signs(a: u32, b: u32)
    requires
        a < 0x8000_0000,
        b < 0x8000_0000,
    ensures
        whole_product(a, b) == whole_product(b, a),
        ({
            let out = whole_product(a, b);
            let a_neg = (a + 0x8000_0000) as u32;
            let b_neg = (b + 0x8000_0000) as u32;
            &&& whole_product(a_neg, b_neg) == out
            &&& whole_product(a_neg, b) == whole_product(a, b_neg)
            &&& out < 0x7fff_ffff ==> whole_product(a_neg, b) == -out
            &&& out == 0x7fff_ffff ==> -0x8000_0000 <= whole_product(a_neg, b) <= -out
        }),
        a == 0 || b == 0 || a > 0x7f80_0000 || b > 0x7f80_0000 ==> whole_product(a, b) == 0,
        a == 0x7f80_0000 && 0 < b <= 0x7f80_0000 ==> whole_product(a, b) == 0x7fff_ffff,
{
    assert(significand(a) * significand(b) == significand(b) * significand(a))
        by (nonlinear_arith);
    let a_neg = (a + 0x8000_0000) as u32;
    let b_neg = (b + 0x8000_0000) as u32;
    assert(exponent(a_neg) == exponent(a) && a_neg % 0x80_0000 == a % 0x80_0000);
    assert(exponent(b_neg) == exponent(b) && b_neg % 0x80_0000 == b % 0x80_0000);
    assert(a_neg % 0x8000_0000 == a && b_neg % 0x8000_0000 == b);
}

proof fn lemma_power_of_nothing()
    ensures
        pow2(0) == 1,
{
    vstd::arithmetic::power2::lemma2_to64();
}

/// The number that a pattern stands for, without its sign, in units of `2^-149`.
pub open spec fn units_in(bits: u32) -> nat {
    significand(bits) * pow2((scale(bits) - 1) as nat)
}

proof fn lemma_pattern_stands_for(u: nat, i: nat)
    requires
        exists|m: nat, j: nat| m <= 0x100_0000 && u == #[trigger] (m * pow2(j)),
        i == 0 || u >= 0x80_0000,
    ensures
        pattern_of(u, i) <= 0x7f80_0000,
        pattern_of(u, i) < 0x7f80_0000 ==> units_in(pattern_of(u, i) as u32) == u * pow2(i),
        pattern_of(u, i) == 0x7f80_0000 ==> u * pow2(i) >= 0x80_0000 * pow2(254),
    decreases u,
{
    lemma_power_of_nothing();
    vstd::arithmetic::power2::lemma_pow2_pos(i);
    let (m, j) = choose|m: nat, j: nat| m <= 0x100_0000 && u == #[trigger] (m * pow2(j));
    if u >= LIMIT {
        let half = u / 2;
        if j == 0 {
            assert(u == m) by (nonlinear_arith)
                requires
                    u == m * pow2(j),
                    pow2(j) == 1,
            ;
            assert(half == 0x80_0000);
            assert(half == 0x80_0000 * pow2(0));
        } else {
            let k = (j - 1) as nat;
            vstd::arithmetic::power2::lemma_pow2_unfold(j);
            assert(u == 2 * (m * pow2(k))) by (nonlinear_arith)
                requires
                    u == m * pow2(j),
                    pow2(j) == 2 * pow2(k),
            ;
            assert(half == m * pow2(k));
        }
        assert(u == 2 * half);
        lemma_pattern_stands_for(half, i + 1);
        vstd::arithmetic::power2::lemma_pow2_unfold(i + 1);
        assert(half * pow2(i + 1) == u * pow2(i)) by (nonlinear_arith)
            requires
                u == 2 * half,
                pow2(i + 1) == 2 * pow2(i),
        ;
    } else if u < 0x80_0000 {
        let bits = u as u32;
        assert(exponent(bits) == 0);
        assert(u * pow2(0) == u) by (nonlinear_arith)
            requires
                pow2(0) == 1,
        ;
    } else if i >= 254 {
        if i > 254 {
            vstd::arithmetic::power2::lemma_pow2_strictly_increases(254, i);
        }
        vstd::arithmetic::power2::lemma_pow2_pos(254);
        assert(u * pow2(i) >= 0x80_0000 * pow2(254)) by (nonlinear_arith)
            requires
                u >= 0x80_0000,
                pow2(i) >= pow2(254),
        ;
    } else {
        let bits = (i * 0x80_0000 + u) as u32;
        assert(bits == i * 0x80_0000 + u);
        assert(bits as int / 0x80_0000 == i + 1);
        assert(exponent(bits) == i + 1);
        assert(significand(bits) == u);
    }
}

proof fn lemma_magnitude_stands_for(n: nat, d: nat, e: int)
    requires
        d > 0,
    ensures
        magnitude(n, d, e) <= 0x7f80_0000,
        magnitude(n, d, e) < 0x7f80_0000 ==> units_in(magnitude(n, d, e) as u32) == units_of(
            n,
            d,
            e,
        ),
        magnitude(n, d, e) == 0x7f80_0000 ==> units_of(n, d, e) >= 0x80_0000 * pow2(254),
{
    let u = units_of(n, d, e);
    lemma_power_of_nothing();
    if e + 149 >= 0 {
        lemma_nearest_is_nearest(n * pow2((e + 149) as nat), d, 0, 0);
    } else {
        let p = pow2((-(e + 149)) as nat);
        vstd::arithmetic::power2::lemma_pow2_pos((-(e + 149)) as nat);
        assert(d * p > 0) by (nonlinear_arith)
            requires
                d > 0,
                p > 0,
        ;
        lemma_nearest_is_nearest(n, d * p, 0, 0);
    }
    lemma_pattern_stands_for(u, 0);
    assert(u * pow2(0) == u) by (nonlinear_arith)
        requires
            pow2(0) == 1,
    ;
}

/// The sign of a product follows from those of the numbers; what is no number gives none, nor do
/// nothing and infinity together; and infinity with anything else gives infinity.
pub proof fn lemma_product_signs(a: u32, b: u32)
    ensures
        ({
            let x = a as int % 0x8000_0000;
            let y = b as int % 0x8000_0000;
            let out = product_of(a, b);
            let none = x > 0x7f80_0000 || y > 0x7f80_0000 || (x == 0x7f80_0000 && y == 0) || (x == 0
                && y == 0x7f80_0000);
            &&& none ==> out == 0x7fc0_0000
            &&& !none ==> (out >= 0x8000_0000 <==> (a >= 0x8000_0000) != (b >= 0x8000_0000))
            &&& !none && (x == 0x7f80_0000 || y == 0x7f80_0000) ==> out as int % 0x8000_0000
                == 0x7f80_0000
            &&& product_of(b, a) == out
        }),
{
    assert(significand(a) * significand(b) == significand(b) * significand(a))
        by (nonlinear_arith);
    let x = a as int % 0x8000_0000;
    let y = b as int % 0x8000_0000;
    assert(is_nan(a) <==> x > 0x7f80_0000);
    assert(is_nan(b) <==> y > 0x7f80_0000);
    lemma_magnitude_stands_for(
        significand(a) * significand(b),
        1,
        scale(a) + scale(b) - 300,
    );
}

/// The product of two finite numbers is the number nearest to the exact product: no further from it
/// than the `2^24`th part, or, among the smallest numbers, than half a unit of `2^-149`; and it is
/// infinite only where the exact product passes all finite numbers.
pub proof fn lemma_product_is_nearest(a: u32, b: u32)
    requires
        a as int % 0x8000_0000 < 0x7f80_0000,
        b as int % 0x8000_0000 < 0x7f80_0000,
    ensures
        ({
            let size = (product_of(a, b) as int % 0x8000_0000) as u32;
            let exact = significand(a) * significand(b);
            let e = scale(a) + scale(b) - 151;
            let many = pow2(e as nat);
            let unit = pow2((-e) as nat);
            let out = units_in(size);
            &&& size <= 0x7f80_0000
            &&& size < 0x7f80_0000 && e >= 0 ==> out == nearest_single(exact * many, 1)
            &&& size < 0x7f80_0000 && e < 0 ==> out == nearest_single(exact, unit)
            &&& size < 0x7f80_0000 && e >= 0 ==> 0x100_0000 * gap(
                out as int,
                (exact * many) as int,
            ) <= exact * many
            &&& size < 0x7f80_0000 && e < 0 && exact >= 0x80_0000 * unit ==> 0x100_0000 * gap(
                (out * unit) as int,
                exact as int,
            ) <= exact
            &&& size < 0x7f80_0000 && e < 0 && exact < 0x100_0000 * unit ==> 2 * gap(
                (out * unit) as int,
                exact as int,
            ) <= unit
            &&& size == 0x7f80_0000 && e >= 0 ==> 0x100_0001 * (exact * many) >= 0x100_0000 * (
            0x80_0000 * pow2(254))
        }),
{
    let exact = significand(a) * significand(b);
    let e = scale(a) + scale(b) - 300;
    assert(!is_nan(a) && !is_nan(b));
    lemma_magnitude_stands_for(exact, 1, e);
    if e + 149 >= 0 {
        lemma_nearest_is_close(exact * pow2((e + 149) as nat), 1);
    } else {
        let unit = pow2((-(e + 149)) as nat);
        vstd::arithmetic::power2::lemma_pow2_pos((-(e + 149)) as nat);
        assert(1 * unit == unit);
        lemma_nearest_is_close(exact, unit);
    }
}

/// A number divided by a whole number keeps its sign and is the number nearest to the exact
/// quotient; what is no number stays none, and infinity stays what it is.
pub proof fn lemma_quotient_is_nearest(a: u32, d: nat)
    requires
        d > 0,
    ensures
        a as int % 0x8000_0000 > 0x7f80_0000 ==> quotient_of(a, d) == 0x7fc0_0000,
        a as int % 0x8000_0000 == 0x7f80_0000 ==> quotient_of(a, d) == a,
        a as int % 0x8000_0000 < 0x7f80_0000 ==> {
            let size = (quotient_of(a, d) as int % 0x8000_0000) as u32;
            let exact = units_in((a as int % 0x8000_0000) as u32);
            let out = units_in(size);
            &&& quotient_of(a, d) >= 0x8000_0000 <==> a >= 0x8000_0000
            &&& size <= 0x7f80_0000
            &&& size < 0x7f80_0000 ==> out == nearest_single(exact, d)
            &&& size < 0x7f80_0000 && exact >= 0x80_0000 * d ==> 0x100_0000 * gap(
                (out * d) as int,
                exact as int,
            ) <= exact
            &&& size < 0x7f80_0000 && exact < 0x100_0000 * d ==> 2 * gap(
                (out * d) as int,
                exact as int,
            ) <= d
        },
{
    assert(is_nan(a) <==> a as int % 0x8000_0000 > 0x7f80_0000);
    if a as int % 0x8000_0000 < 0x7f80_0000 {
        let plain = (a as int % 0x8000_0000) as u32;
        assert(exponent(plain) == exponent(a));
        assert(plain % 0x80_0000 == a % 0x80_0000);
        lemma_magnitude_stands_for(significand(a), d, scale(a) - 150);
        lemma_nearest_is_close(units_in(plain), d);
    }
}

/// The parts of a pattern: its top bit is the sign, the next eight the exponent, and the other 23
/// the fraction, with a one before it unless the exponent is zero.
pub proof fn lemma_pattern_parts(bits: u32)
    ensures
        ({
            let plain = bits as int % 0x8000_0000;
            let low = bits as int % 0x80_0000;
            let e = plain / 0x80_0000;
            &&& is_negative(bits) <==> bits >= 0x8000_0000
            &&& exponent(bits) == e
            &&& is_nan(bits) <==> plain > 0x7f80_0000
            &&& e == 0 ==> significand(bits) == low && scale(bits) == 1
            &&& e > 0 ==> significand(bits) == low + 0x80_0000 && scale(bits) == e
            &&& is_zero(bits) <==> plain == 0
            &&& is_infinite(bits) <==> plain == 0x7f80_0000
        }),
{
}

/// Of two whole numbers that are equally near, rounding gives the even one; and a number of more
/// than 24 bits before the point is rounded as half of it is.
pub proof fn lemma_nearest_is_even(num: nat, den: nat)
    requires
        den > 0,
    ensures
        num < 0x100_0000 * den && 2 * (num % den) == den ==> nearest_single(num, den) % 2 == 0,
        num >= 0x100_0000 * den ==> nearest_single(num, den) == 2 * nearest_single(num, 2 * den),
{
    assert(num / den < 0x100_0000 <==> num < 0x100_0000 * den) by (nonlinear_arith)
        requires
            den > 0,
    ;
}

/// A product below zero that passes the least number of 32 bits is held at that, as is one with
/// infinity; any other is minus the product of the sizes.
pub proof fn lemma_whole_product_held(a: u32, b: u32)
    requires
        0 < a <= 0x7f80_0000,
        0 < b < 0x7f80_0000,
    ensures
        ({
            let out = whole_product((a + 0x8000_0000) as u32, b);
            let near = nearest_single(significand(a) * significand(b), 1);
            let e = scale(a) + scale(b) - 300;
            let unit = pow2((-e) as nat);
            let size = near * pow2(e as nat);
            &&& a == 0x7f80_0000 ==> out == -0x8000_0000
            &&& a < 0x7f80_0000 && e >= 0 && size >= 0x8000_0000 ==> out == -0x8000_0000
            &&& a < 0x7f80_0000 && e >= 0 && size < 0x8000_0000 ==> out == -size
            &&& a < 0x7f80_0000 && e < 0 && 2 * near + unit >= 0x1_0000_0000 * unit ==> out
                == -0x8000_0000
            &&& a < 0x7f80_0000 && e < 0 && 2 * near + unit < 0x1_0000_0000 * unit ==> 2 * near
                - unit < 2 * (-out * unit) <= 2 * near + unit
        }),
{
    let a_neg = (a + 0x8000_0000) as u32;
    assert(exponent(a_neg) == exponent(a) && a_neg % 0x80_0000 == a % 0x80_0000);
    assert(a_neg % 0x8000_0000 == a);
    let near = nearest_single(significand(a) * significand(b), 1);
    let e = scale(a) + scale(b) - 300;
    let size = scaled_whole(near, e);
    let out = whole_product(a_neg, b);
    if a < 0x7f80_0000 && e < 0 {
        let unit = pow2((-e) as nat);
        vstd::arithmetic::power2::lemma_pow2_pos((-e) as nat);
        lemma_half_up_is_nearest(near, unit);
        if 2 * near + unit >= 0x1_0000_0000 * unit {
            assert(size >= 0x8000_0000) by (nonlinear_arith)
                requires
                    2 * near - unit < 2 * (size * unit),
                    2 * near + unit >= 0x1_0000_0000 * unit,
                    unit > 0,
            ;
        } else {
            assert(size < 0x8000_0000) by (nonlinear_arith)
                requires
                    2 * (size * unit) <= 2 * near + unit,
                    2 * near + unit < 0x1_0000_0000 * unit,
                    unit > 0,
            ;
            assert(-out == size);
        }
    }
}

} // verus!
