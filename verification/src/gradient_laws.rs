//! What holds of the gradient, row by row: how dark it makes each sample, and where it ends.
//!
//! The exact gradient ends `13483177 / 2^25` of the way down, which is 0.40183, and has a strength
//! of `15099494 / 2^24`, which is 0.9: these are the single-precision numbers.
use vstd::prelude::*;

use crate::gradient::{
    clearness, cutoff, graded, is_shaded, lemma_shares, mixed, opacity, part_below, shade_of,
    STRENGTH, UNITS_25, UNITS_64, UNITS_88,
};
use crate::number_laws::{gap, lemma_half_up_is_nearest, lemma_nearest_is_close};
use crate::raster::{lemma_new_at, Raster};
use crate::single::{nearest_single, round_half_up};

verus! {

proof fn lemma_cutoff_close(height: nat)
    ensures
        0x100_0000 * gap(cutoff(height) as int, 13483177 * height as int) <= 3 * (13483177
            * height as int),
{
    let tall = nearest_single(height, 1);
    lemma_nearest_is_close(height, 1);
    lemma_nearest_is_close(tall * 13483177, 1);
    assert(cutoff(height) == nearest_single(tall * 13483177, 1));
}

/// The gradient ends, to the rounding of single precision, 0.40183 of the way down: it reaches the
/// rows above that and no row below.
pub proof fn lemma_gradient_ends(height: nat, y: nat)
    ensures
        is_shaded(height, y) ==> 0xff_ffff * (0x200_0000 * y) < 0x100_0003 * (13483177
            * height as int),
        !is_shaded(height, y) ==> 0x100_0001 * (0x200_0000 * y) >= 0xff_fffd * (13483177
            * height as int),
        is_shaded(1920, y) <==> y <= 771,
{
    lemma_cutoff_close(height);
    lemma_cutoff_close(1920);
    lemma_nearest_is_close(y, 1);
    assert(UNITS_25 == 0x200_0000);
}

proof fn lemma_scaled_gap(x: int, y: int, k: int, b: int, c: int)
    requires
        0 <= c,
        0 <= k,
        k * gap(x, y) <= b,
    ensures
        k * gap(x * c, y * c) <= b * c,
{
    let d = gap(x, y);
    assert(gap(x * c, y * c) == d * c) by {
        assert(x * c - y * c == (x - y) * c) by (nonlinear_arith);
        if x < y {
            assert(y * c - x * c == (y - x) * c) by (nonlinear_arith);
            assert((y - x) * c >= 0) by (nonlinear_arith)
                requires
                    y > x,
                    c >= 0,
            ;
            if x * c == y * c {
                assert(d * c == 0);
            }
        } else {
            assert((x - y) * c >= 0) by (nonlinear_arith)
                requires
                    x >= y,
                    c >= 0,
            ;
        }
    }
    assert(k * (d * c) <= b * c) by (nonlinear_arith)
        requires
            k * d <= b,
            c >= 0,
    ;
}

/// How far the gradient has come at row `y`, against the exact share.
proof fn lemma_share_above(height: nat, y: nat)
    requires
        is_shaded(height, y),
    ensures
        ({
            let above = nearest_single(
                (nearest_single(y, 1) * UNITS_25 * UNITS_64) as nat,
                cutoff(height),
            );
            let c0 = 13483177 * height as int;
            &&& above <= UNITS_64
            &&& 0x100_0000 * gap(above * c0, 0x200_0000 * y * UNITS_64) <= 9 * (c0 * UNITS_64)
        }),
{
    let row = nearest_single(y, 1);
    let end = cutoff(height);
    let c0 = 13483177 * height as int;
    let u = UNITS_64 as int;
    let n = (row * UNITS_25 * UNITS_64) as nat;
    let above = nearest_single(n, end);
    assert(u == 0x1_0000_0000_0000_0000);
    assert(UNITS_25 == 0x200_0000);
    lemma_shares(height, y);
    lemma_cutoff_close(height);
    lemma_gradient_ends(height, y);
    lemma_nearest_is_close(y, 1);
    lemma_nearest_is_close(n, end);
    assert(n == 0x200_0000 * row * u);
    assert(n <= end * u) by (nonlinear_arith)
        requires
            n == 0x200_0000 * row * u,
            row * 0x200_0000 < end,
            u > 0,
    ;
    // what rounding the quotient adds
    let q = end * u;
    assert(q == end * 0x1_0000_0000_0000_0000);
    let first = above * end - n;
    assert(above * end == (above * end) as int);
    assert(0x100_0000 * gap((above * end) as int, n as int) <= 2 * q);
    // what the end being rounded adds
    let second = above * c0 - above * end;
    let slack = gap(end as int, c0);
    assert(-(u * slack) <= second <= u * slack) by (nonlinear_arith)
        requires
            second == above * c0 - above * end,
            0 <= above <= u,
            -slack <= c0 - end <= slack,
            slack >= 0,
    ;
    assert(0x100_0000 * (u * slack) <= 3 * (c0 * u)) by (nonlinear_arith)
        requires
            0x100_0000 * slack <= 3 * c0,
            u > 0,
    ;
    // what the row being rounded adds
    let third = n - 0x200_0000 * y * u;
    assert(0x100_0000 * gap(third, 0) <= 2 * (c0 * u)) by {
        assert(third == 0x200_0000 * (row - y) * u);
        assert(0x100_0000 * gap(row as int, y as int) <= y);
        assert(0x200_0000 * y <= 2 * c0);
    }
    assert(above * c0 - 0x200_0000 * y * u == first + second + third);
}

/// The colour's share in row `y`, against the exact share.
proof fn lemma_opacity_close(height: nat, y: nat)
    requires
        is_shaded(height, y),
    ensures
        ({
            let c0 = 13483177 * height as int;
            0x100_0000 * gap(
                opacity(height, y) * c0,
                15099494 * (c0 - 0x200_0000 * y) * UNITS_64,
            ) <= 11 * (UNITS_88 * c0)
        }),
{
    let c0 = 13483177 * height as int;
    let u = UNITS_64 as int;
    let w = UNITS_88 as int;
    let end = cutoff(height);
    let above = nearest_single((nearest_single(y, 1) * UNITS_25 * UNITS_64) as nat, end);
    let below = part_below(height, y);
    let tint = opacity(height, y);
    assert(u == 0x1_0000_0000_0000_0000);
    assert(w == 0x100_0000 * u);
    assert(STRENGTH == 15099494);
    lemma_shares(height, y);
    lemma_share_above(height, y);
    lemma_nearest_is_close((UNITS_64 - above) as nat, 1);
    lemma_nearest_is_close(STRENGTH as nat * below, 1);
    let left = u - above;
    lemma_scaled_gap(below as int, left, 0x100_0000, u, c0);
    assert(left * c0 == u * c0 - above * c0) by (nonlinear_arith)
        requires
            left == u - above,
    ;
    assert(u * c0 == c0 * u) by (nonlinear_arith);
    assert((c0 - 0x200_0000 * y) * u == c0 * u - 0x200_0000 * y * u) by (nonlinear_arith);
    assert(0x100_0000 * gap(below * c0, (c0 - 0x200_0000 * y) * u) <= 10 * (c0 * u));
    lemma_scaled_gap(tint as int, 15099494 * below as int, 0x100_0000, w, c0);
    let pure = (c0 - 0x200_0000 * y) * u;
    assert(15099494 * below * c0 == 15099494 * (below * c0)) by (nonlinear_arith);
    assert(15099494 * (c0 - 0x200_0000 * y) * u == 15099494 * pure) by (nonlinear_arith)
        requires
            pure == (c0 - 0x200_0000 * y) * u,
    ;
    assert(w * c0 == 0x100_0000 * (c0 * u)) by (nonlinear_arith)
        requires
            w == 0x100_0000 * u,
    ;
}

/// A mixture before it is rounded to a whole number, against the mixture by the same share.
proof fn lemma_mixture_close(value: u8, shade: nat, height: nat, y: nat)
    requires
        is_shaded(height, y),
        shade <= 14,
    ensures
        ({
            let light = nearest_single(value as nat * clearness(height, y), 1);
            let dark = nearest_single(shade * opacity(height, y), 1);
            let sum = nearest_single(light + dark, 1);
            0x100_0000 * gap(
                sum as int,
                value * UNITS_88 + (shade - value) * opacity(height, y),
            ) <= 800 * UNITS_88
        }),
{
    let w = UNITS_88 as int;
    let tint = opacity(height, y);
    let clear = clearness(height, y);
    lemma_shares(height, y);
    lemma_nearest_is_close((UNITS_88 - tint) as nat, 1);
    let v = value as nat;
    let light = nearest_single(v * clear, 1);
    let dark = nearest_single(shade * tint, 1);
    lemma_nearest_is_close(v * clear, 1);
    lemma_nearest_is_close(shade * tint, 1);
    lemma_nearest_is_close(light + dark, 1);
    let full = w - tint;
    assert(w == 0x100_0000_0000_0000_0000_0000);
    lemma_scaled_gap(clear as int, full, 0x100_0000, full, v as int);
    assert(full * v <= 255 * w && clear * v == v * clear) by (nonlinear_arith)
        requires
            0 <= full <= w,
            0 <= v <= 255,
    ;
    assert(shade * tint <= 14 * w) by (nonlinear_arith)
        requires
            0 <= shade <= 14,
            0 <= tint <= w,
    ;
    assert(full * v + shade * tint == v * w + (shade - v) * tint) by (nonlinear_arith)
        requires
            full == w - tint,
    ;
}

proof fn lemma_mixed_close(value: u8, shade: nat, height: nat, y: nat)
    requires
        is_shaded(height, y),
        shade <= 14,
    ensures
        ({
            let c0 = 13483177 * height as int;
            let whole = 0x100_0000 * c0;
            10000 * gap(
                mixed(value, shade, height, y) * whole,
                value * whole + 15099494 * (shade - value) * (c0 - 0x200_0000 * y),
            ) <= 5003 * whole
        }),
{
    let w = UNITS_88 as int;
    let u = UNITS_64 as int;
    let c0 = 13483177 * height as int;
    let whole = 0x100_0000 * c0;
    let v = value as int;
    let s = shade as int;
    let tint = opacity(height, y) as int;
    let light = nearest_single(value as nat * clearness(height, y), 1);
    let dark = nearest_single(shade * opacity(height, y), 1);
    let sum = nearest_single(light + dark, 1);
    let near = round_half_up(sum, UNITS_88 as nat);
    assert(w == 0x100_0000 * u);
    assert(u == 0x1_0000_0000_0000_0000);
    lemma_shares(height, y);
    lemma_mixture_close(value, shade, height, y);
    lemma_opacity_close(height, y);
    lemma_half_up_is_nearest(sum, UNITS_88 as nat);
    // the mixture never passes white, so it is not held back
    assert(v * w + (s - v) * tint <= 255 * w) by (nonlinear_arith)
        requires
            0 <= v <= 255,
            0 <= s <= 14,
            0 <= tint <= w,
    ;
    assert(near <= 255) by (nonlinear_arith)
        requires
            2 * (near * w) <= 2 * sum + w,
            0x100_0000 * sum <= 0x100_0000 * (255 * w) + 800 * w,
            w > 0,
    ;
    assert(mixed(value, shade, height, y) == near);
    // everything times the cutoff
    let mix = v * w + (s - v) * tint;
    lemma_scaled_gap(sum as int, mix, 0x100_0000, 800 * w, c0);
    lemma_scaled_gap(2 * (near * w), 2 * sum as int, 1, w, c0);
    let pure = 15099494 * (c0 - 0x200_0000 * y) * u;
    let off = tint * c0 - pure;
    let wide = w * c0;
    assert(-11 * wide <= 0x100_0000 * off <= 11 * wide);
    assert(mix * c0 == v * wide + (s - v) * (tint * c0)) by (nonlinear_arith)
        requires
            mix == v * w + (s - v) * tint,
            wide == w * c0,
    ;
    assert((s - v) * (tint * c0) == (s - v) * pure + (s - v) * off) by (nonlinear_arith)
        requires
            off == tint * c0 - pure,
    ;
    assert(-255 * (11 * wide) <= 0x100_0000 * ((s - v) * off) <= 255 * (11 * wide))
        by (nonlinear_arith)
        requires
            -11 * wide <= 0x100_0000 * off <= 11 * wide,
            -255 <= s - v <= 255,
    ;
    assert(800 * w * c0 == 800 * wide) by (nonlinear_arith)
        requires
            wide == w * c0,
    ;
    assert(2 * (near * w) * c0 == 2 * (near * wide) && 2 * sum * c0 == 2 * (sum * c0))
        by (nonlinear_arith)
        requires
            wide == w * c0,
    ;
    let goal = v * wide + (s - v) * pure;
    assert(10000 * gap(near * wide, goal) <= 5003 * wide);
    // and without the unit of the shares
    let exact = v * whole + 15099494 * (s - v) * (c0 - 0x200_0000 * y);
    assert(wide == whole * u) by (nonlinear_arith)
        requires
            wide == w * c0,
            w == 0x100_0000 * u,
            whole == 0x100_0000 * c0,
    ;
    assert(near * wide == (near * whole) * u && goal == exact * u) by (nonlinear_arith)
        requires
            wide == whole * u,
            goal == v * wide + (s - v) * pure,
            pure == 15099494 * (c0 - 0x200_0000 * y) * u,
            exact == v * whole + 15099494 * (s - v) * (c0 - 0x200_0000 * y),
    ;
    assert(10000 * gap(near * whole, exact) <= 5003 * whole);
}

/// Under the gradient each sample is the mean of the picture and the colour (14, 14, 12), weighed
/// by the colour's share, to the nearest whole number and three ten-thousandths: a share of nine
/// tenths in the top row, which falls evenly and ends 0.40183 of the way down. Below that the
/// picture is as it was. Only the sample, its channel and its row matter.
pub proof fn lemma_gradient_mixes_evenly(base: Raster, x: int, y: int, c: int)
    requires
        base.depth == 3,
        0 <= x < base.width,
        0 <= y < base.height,
        0 <= c < 3,
    ensures
        graded(base).width == base.width,
        graded(base).height == base.height,
        graded(base).depth == 3,
        graded(base).wf(),
        !is_shaded(base.height, y as nat) ==> graded(base).at(x, y, c) == base.at(x, y, c),
        is_shaded(base.height, y as nat) ==> {
            let end = 13483177 * base.height as int;
            let whole = 0x100_0000 * end;
            let value = base.at(x, y, c);
            let colour: int = if c == 2 {
                12
            } else {
                14
            };
            10000 * gap(
                graded(base).at(x, y, c) * whole,
                value * whole + 15099494 * (colour - value) * (end - 0x200_0000 * y),
            ) <= 5003 * whole
        },
{
    let f = |x: int, y: int, c: int|
        if is_shaded(base.height, y as nat) {
            mixed(base.at(x, y, c), shade_of(c), base.height, y as nat)
        } else {
            base.at(x, y, c)
        };
    lemma_new_at(base.width, base.height, 3, f, x, y, c);
    assert(graded(base) =~= Raster::new(base.width, base.height, 3, f));
    if is_shaded(base.height, y as nat) {
        lemma_mixed_close(base.at(x, y, c), shade_of(c), base.height, y as nat);
    }
}

/// On the composition the gradient reaches the first 772 rows and no others, and a sample there is
/// never brighter than the brighter of picture and colour, nor darker than the darker.
pub proof fn lemma_gradient_on_composition(base: Raster, x: int, y: int, c: int)
    requires
        base.width == 1080,
        base.height == 1920,
        base.depth == 3,
        0 <= x < 1080,
        0 <= y < 1920,
        0 <= c < 3,
    ensures
        y >= 772 ==> graded(base).at(x, y, c) == base.at(x, y, c),
        y < 772 ==> {
            let value = base.at(x, y, c);
            let colour: int = if c == 2 {
                12
            } else {
                14
            };
            let out = graded(base).at(x, y, c);
            &&& value <= colour ==> value <= out <= colour
            &&& value >= colour ==> colour <= out <= value
        },
{
    lemma_gradient_mixes_evenly(base, x, y, c);
    lemma_gradient_ends(1920, y as nat);
    if y < 772 {
        let value = base.at(x, y, c) as int;
        let colour: int = if c == 2 {
            12
        } else {
            14
        };
        let end = 13483177 * 1920int;
        let whole = 0x100_0000 * end;
        let out = graded(base).at(x, y, c) as int;
        let part = 15099494 * (end - 0x200_0000 * y);
        assert(0 <= part <= whole);
        let d = colour - value;
        assert(15099494 * d * (end - 0x200_0000 * y) == d * part) by (nonlinear_arith)
            requires
                part == 15099494 * (end - 0x200_0000 * y),
        ;
        if d >= 0 {
            assert(0 <= d * part <= d * whole) by (nonlinear_arith)
                requires
                    0 <= part <= whole,
                    d >= 0,
            ;
        } else {
            assert(d * whole <= d * part <= 0) by (nonlinear_arith)
                requires
                    0 <= part <= whole,
                    d <= 0,
            ;
        }
    }
}

} // verus!
