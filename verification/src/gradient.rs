//! The dark gradient at the top of a picture.
//!
//! A row at height `y` of a picture `h` rows tall is mixed with the colour (14, 14, 12): the
//! colour's share is `0.9 * (1 - y / (h * 0.40183))`, and rows from `h * 0.40183` on are left as
//! they are. Every step is taken in single precision, so each is rounded as [`nearest_single`]
//! says.
use vstd::arithmetic::power2::pow2;
use vstd::prelude::*;

use crate::raster::{lemma_new_at, lemma_offset, Canvas, Raster};
use crate::single::{
    lemma_nearest_bounded, lemma_nearest_exact, lemma_nearest_monotone, nearest_single,
    round_half_up, to_single, LIMIT,
};

verus! {

/// The single-precision number 0.40183 in units of `2^-25`.
pub const CUTOFF_SHARE: u128 = 13483177;

/// The single-precision number 0.9 in units of `2^-24`.
pub const STRENGTH: u128 = 15099494;

/// The colour's red and green.
pub const SHADE_RED_GREEN: u128 = 14;

/// The colour's blue.
pub const SHADE_BLUE: u128 = 12;

/// `2^25`: the units of a cutoff in one row.
pub const UNITS_25: u128 = 0x200_0000;

/// `2^64`: the units of a share of the gradient in the whole.
pub const UNITS_64: u128 = 0x1_0000_0000_0000_0000;

/// `2^88`: the units of an opacity in full opacity.
pub const UNITS_88: u128 = 0x100_0000_0000_0000_0000_0000;

/// Where the gradient ends, in units of `2^-25` rows.
pub open spec fn cutoff(height: nat) -> nat {
    nearest_single(nearest_single(height, 1) * CUTOFF_SHARE as nat, 1)
}

/// Whether the gradient reaches row `y`.
pub open spec fn is_shaded(height: nat, y: nat) -> bool {
    nearest_single(y, 1) * UNITS_25 < cutoff(height)
}

/// The part of the gradient that lies below row `y`, in units of `2^-64`.
pub open spec fn part_below(height: nat, y: nat) -> nat {
    let above = nearest_single(
        (nearest_single(y, 1) * UNITS_25 * UNITS_64) as nat,
        cutoff(height),
    );
    nearest_single((UNITS_64 - above) as nat, 1)
}

/// The colour's share in row `y`, in units of `2^-88`.
pub open spec fn opacity(height: nat, y: nat) -> nat {
    nearest_single(STRENGTH as nat * part_below(height, y), 1)
}

/// The picture's share in row `y`, in units of `2^-88`.
pub open spec fn clearness(height: nat, y: nat) -> nat {
    nearest_single((UNITS_88 - opacity(height, y)) as nat, 1)
}

/// The sample `value` of row `y` mixed with `shade`.
pub open spec fn mixed(value: u8, shade: nat, height: nat, y: nat) -> u8 {
    let sum = nearest_single(
        nearest_single(value as nat * clearness(height, y), 1) + nearest_single(
            shade * opacity(height, y),
            1,
        ),
        1,
    );
    let whole = round_half_up(sum, UNITS_88 as nat);
    if whole <= 255 {
        whole as u8
    } else {
        255
    }
}

/// The shade of channel `c`.
pub open spec fn shade_of(c: int) -> nat {
    if c == 2 {
        SHADE_BLUE as nat
    } else {
        SHADE_RED_GREEN as nat
    }
}

/// `base` under the gradient.
pub open spec fn graded(base: Raster) -> Raster {
    Raster::new(
        base.width,
        base.height,
        3,
        |x: int, y: int, c: int|
            if is_shaded(base.height, y as nat) {
                mixed(base.at(x, y, c), shade_of(c), base.height, y as nat)
            } else {
                base.at(x, y, c)
            },
    )
}

proof fn lemma_units()
    ensures
        pow2(0) == 1,
        pow2(64) == UNITS_64,
        pow2(88) == UNITS_88,
        pow2(56) == 0x100_0000_0000_0000,
        pow2(32) == 0x1_0000_0000,
{
    vstd::arithmetic::power2::lemma2_to64();
    vstd::arithmetic::power2::lemma_pow2_adds(64, 24);
    vstd::arithmetic::power2::lemma_pow2_adds(32, 24);
}

/// What rounding a product of a small number and a share gives is no more than that many wholes.
proof fn lemma_share_bounded(n: nat, c: nat, j: nat)
    requires
        c <= LIMIT,
        n <= c * pow2(j),
    ensures
        nearest_single(n, 1) <= c * pow2(j),
{
    assert(c * pow2(j) * 1 == c * pow2(j)) by (nonlinear_arith);
    lemma_nearest_bounded(n, 1, c, j);
}

/// The mixture of every possible sample of one row with one shade.
fn mix_table(
    shade: u128,
    clear: u128,
    tint: u128,
    Ghost(height): Ghost<nat>,
    Ghost(y): Ghost<nat>,
) -> (table: Vec<u8>)
    requires
        shade <= 14,
        clear <= UNITS_88,
        tint <= UNITS_88,
        clear == clearness(height, y),
        tint == opacity(height, y),
    ensures
        table@.len() == 256,
        forall|v: u8| #[trigger] table@[v as int] == mixed(v, shade as nat, height, y),
{
    proof {
        lemma_units();
        assert(shade * tint <= 14 * UNITS_88) by (nonlinear_arith)
            requires
                shade <= 14,
                0 <= tint <= UNITS_88,
        ;
        lemma_share_bounded((shade * tint) as nat, 14, 88);
    }
    let dark: u128 = to_single(shade * tint, 1);
    let mut table: Vec<u8> = Vec::new();
    let mut v: u128 = 0;
    while v < 256
        invariant
            v <= 256,
            table@.len() == v,
            shade <= 14,
            clear <= UNITS_88,
            clear == clearness(height, y),
            tint == opacity(height, y),
            dark <= 14 * UNITS_88,
            dark == nearest_single((shade * tint) as nat, 1),
            forall|k: u8|
                k < v ==> #[trigger] table@[k as int] == mixed(k, shade as nat, height, y),
        decreases 256 - v,
    {
        proof {
            lemma_units();
            assert(v * clear <= 255 * UNITS_88) by (nonlinear_arith)
                requires
                    v <= 255,
                    0 <= clear <= UNITS_88,
            ;
            lemma_share_bounded((v * clear) as nat, 255, 88);
        }
        let light: u128 = to_single(v * clear, 1);
        proof {
            lemma_share_bounded((light + dark) as nat, 269, 88);
        }
        let sum: u128 = to_single(light + dark, 1);
        let whole: u128 = (2 * sum + UNITS_88) / (2 * UNITS_88);
        let out: u8 = if whole <= 255 {
            whole as u8
        } else {
            255
        };
        assert(round_half_up(sum as nat, UNITS_88 as nat) == whole);
        assert(out == mixed(v as u8, shade as nat, height, y));
        table.push(out);
        v = v + 1;
    }
    table
}

/// Lays the gradient over the canvas.
pub fn apply_gradient(canvas: &mut Canvas)
    requires
        old(canvas).wf(),
    ensures
        final(canvas)@ == graded(old(canvas)@),
        final(canvas).wf(),
{
    let ghost base = canvas@;
    let ghost f = |x: int, y: int, c: int|
        if is_shaded(base.height, y as nat) {
            mixed(base.at(x, y, c), shade_of(c), base.height, y as nat)
        } else {
            base.at(x, y, c)
        };
    let ghost goal = graded(base);
    assert(goal == Raster::new(base.width, base.height, 3, f));
    let w: usize = canvas.width as usize;
    let h: usize = canvas.height as usize;
    proof {
        lemma_units();
        lemma_share_bounded(h as nat, 1, 32);
    }
    let tall: u128 = to_single(h as u128, 1);
    proof {
        assert(tall * CUTOFF_SHARE <= 0x100_0000_0000_0000) by (nonlinear_arith)
            requires
                0 <= tall <= 0x1_0000_0000,
                CUTOFF_SHARE == 13483177,
        ;
        lemma_share_bounded((tall * CUTOFF_SHARE) as nat, 1, 56);
    }
    let end: u128 = to_single(tall * CUTOFF_SHARE, 1);
    let mut out: Vec<u8> = Vec::new();
    let mut row: usize = 0;
    while row < h
        invariant
            row <= h,
            w == canvas.width,
            h == canvas.height,
            canvas@ == base,
            base.wf(),
            end == cutoff(base.height),
            end <= 0x100_0000_0000_0000,
            f == (|x: int, y: int, c: int|
                if is_shaded(base.height, y as nat) {
                    mixed(base.at(x, y, c), shade_of(c), base.height, y as nat)
                } else {
                    base.at(x, y, c)
                }),
            goal == Raster::new(base.width, base.height, 3, f),
            out@.len() == row * w * 3,
            out@.len() <= goal.samples.len(),
            forall|i: int| 0 <= i < out@.len() ==> out@[i] == goal.samples[i],
        decreases h - row,
    {
        proof {
            lemma_units();
            lemma_share_bounded(row as nat, 1, 32);
        }
        let y: u128 = to_single(row as u128, 1);
        let mut red_green: Vec<u8> = Vec::new();
        let mut blue: Vec<u8> = Vec::new();
        let shaded: bool = y * UNITS_25 < end;
        if shaded {
            proof {
                assert(y * UNITS_25 * UNITS_64 <= 1 * pow2(64) * end) by (nonlinear_arith)
                    requires
                        y * UNITS_25 < end,
                        pow2(64) == UNITS_64,
                        UNITS_64 > 0,
                ;
                assert(end * UNITS_64 <= 0x100_0000_0000_0000 * UNITS_64) by (nonlinear_arith)
                    requires
                        0 <= end <= 0x100_0000_0000_0000,
                        UNITS_64 > 0,
                ;
                lemma_nearest_bounded((y * UNITS_25 * UNITS_64) as nat, end as nat, 1, 64);
            }
            let above: u128 = to_single(y * UNITS_25 * UNITS_64, end);
            proof {
                lemma_share_bounded((UNITS_64 - above) as nat, 1, 64);
            }
            let below: u128 = to_single(UNITS_64 - above, 1);
            proof {
                assert(STRENGTH * below <= UNITS_88) by (nonlinear_arith)
                    requires
                        0 <= below <= UNITS_64,
                        STRENGTH == 15099494,
                        UNITS_88 == 0x100_0000 * UNITS_64,
                ;
                lemma_share_bounded((STRENGTH * below) as nat, 1, 88);
            }
            let tint: u128 = to_single(STRENGTH * below, 1);
            proof {
                lemma_share_bounded((UNITS_88 - tint) as nat, 1, 88);
            }
            let clear: u128 = to_single(UNITS_88 - tint, 1);
            red_green = mix_table(
                SHADE_RED_GREEN,
                clear,
                tint,
                Ghost(base.height),
                Ghost(row as nat),
            );
            blue = mix_table(SHADE_BLUE, clear, tint, Ghost(base.height), Ghost(row as nat));
        }
        let mut col: usize = 0;
        while col < w
            invariant
                col <= w,
                row < h,
                w == canvas.width,
                h == canvas.height,
                canvas@ == base,
                base.wf(),
                shaded == is_shaded(base.height, row as nat),
                shaded ==> red_green@.len() == 256 && blue@.len() == 256,
                shaded ==> forall|v: u8| #[trigger]
                    red_green@[v as int] == mixed(
                        v,
                        SHADE_RED_GREEN as nat,
                        base.height,
                        row as nat,
                    ),
                shaded ==> forall|v: u8| #[trigger]
                    blue@[v as int] == mixed(v, SHADE_BLUE as nat, base.height, row as nat),
                f == (|x: int, y: int, c: int|
                    if is_shaded(base.height, y as nat) {
                        mixed(base.at(x, y, c), shade_of(c), base.height, y as nat)
                    } else {
                        base.at(x, y, c)
                    }),
                goal == Raster::new(base.width, base.height, 3, f),
                out@.len() == (row * w + col) * 3,
                forall|i: int| 0 <= i < out@.len() ==> out@[i] == goal.samples[i],
            decreases w - col,
        {
            proof {
                lemma_offset(base.width, base.height, 3, col as int, row as int, 0);
                lemma_offset(base.width, base.height, 3, col as int, row as int, 2);
                lemma_new_at(base.width, base.height, 3, f, col as int, row as int, 0);
                lemma_new_at(base.width, base.height, 3, f, col as int, row as int, 1);
                lemma_new_at(base.width, base.height, 3, f, col as int, row as int, 2);
            }
            let at: usize = out.len();
            assert(at + 2 < canvas.pixels.len());
            let r: u8 = canvas.pixels[at];
            let g: u8 = canvas.pixels[at + 1];
            let b: u8 = canvas.pixels[at + 2];
            if shaded {
                out.push(red_green[r as usize]);
                out.push(red_green[g as usize]);
                out.push(blue[b as usize]);
            } else {
                out.push(r);
                out.push(g);
                out.push(b);
            }
            col = col + 1;
        }
        proof {
            assert((row + 1) * w * 3 == (row * w + w) * 3) by (nonlinear_arith);
            assert((row + 1) * w * 3 <= w * h * 3) by (nonlinear_arith)
                requires
                    row + 1 <= h,
            ;
        }
        row = row + 1;
    }
    assert(h * w * 3 == w * h * 3) by (nonlinear_arith);
    assert(out@ =~= goal.samples);
    canvas.pixels = out;
}

/// Rows that the gradient does not reach stay as they are.
pub proof fn lemma_gradient_leaves_rest(base: Raster, x: int, y: int, c: int)
    requires
        base.depth == 3,
        base.holds(x, y, c),
        !is_shaded(base.height, y as nat),
    ensures
        graded(base).at(x, y, c) == base.at(x, y, c),
{
    let f = |x: int, y: int, c: int|
        if is_shaded(base.height, y as nat) {
            mixed(base.at(x, y, c), shade_of(c), base.height, y as nat)
        } else {
            base.at(x, y, c)
        };
    lemma_new_at(base.width, base.height, 3, f, x, y, c);
    assert(graded(base) =~= Raster::new(base.width, base.height, 3, f));
}

/// The shares of a row that the gradient reaches lie between nothing and the whole.
pub proof fn lemma_shares(height: nat, y: nat)
    requires
        is_shaded(height, y),
    ensures
        ({
            let above = nearest_single(
                (nearest_single(y, 1) * UNITS_25 * UNITS_64) as nat,
                cutoff(height),
            );
            above <= UNITS_64
        }),
        part_below(height, y) <= UNITS_64,
        STRENGTH * part_below(height, y) <= UNITS_88,
        opacity(height, y) <= UNITS_88,
{
    lemma_units();
    let end = cutoff(height);
    let n = (nearest_single(y, 1) * UNITS_25 * UNITS_64) as nat;
    let row = nearest_single(y, 1);
    assert(n <= 1 * pow2(64) * end) by (nonlinear_arith)
        requires
            n == row * UNITS_25 * UNITS_64,
            row * UNITS_25 < end,
            pow2(64) == UNITS_64,
            UNITS_64 > 0,
    ;
    lemma_nearest_bounded(n, end, 1, 64);
    let above = nearest_single(n, end);
    lemma_share_bounded((UNITS_64 - above) as nat, 1, 64);
    let below = part_below(height, y);
    assert(STRENGTH * below <= UNITS_88) by (nonlinear_arith)
        requires
            0 <= below <= UNITS_64,
            STRENGTH == 15099494,
            UNITS_88 == 0x100_0000 * UNITS_64,
    ;
    lemma_share_bounded((STRENGTH * below) as nat, 1, 88);
}

/// The gradient falls: where it reaches a row it reaches every row above, and there the colour has
/// no smaller share and the picture no larger one.
pub proof fn lemma_gradient_falls(height: nat, above: nat, below: nat)
    requires
        above <= below,
        is_shaded(height, below),
    ensures
        is_shaded(height, above),
        opacity(height, below) <= opacity(height, above),
        clearness(height, above) <= clearness(height, below),
{
    let end = cutoff(height);
    let a = nearest_single(above, 1);
    let b = nearest_single(below, 1);
    lemma_nearest_monotone(above, below, 1);
    lemma_shares(height, below);
    lemma_shares(height, above);
    assert(a * UNITS_25 * UNITS_64 <= b * UNITS_25 * UNITS_64) by (nonlinear_arith)
        requires
            a <= b,
            UNITS_25 > 0,
            UNITS_64 > 0,
    ;
    lemma_nearest_monotone(
        (a * UNITS_25 * UNITS_64) as nat,
        (b * UNITS_25 * UNITS_64) as nat,
        end,
    );
    let x = nearest_single((a * UNITS_25 * UNITS_64) as nat, end);
    let y = nearest_single((b * UNITS_25 * UNITS_64) as nat, end);
    lemma_nearest_monotone((UNITS_64 - y) as nat, (UNITS_64 - x) as nat, 1);
    let p = part_below(height, above);
    let q = part_below(height, below);
    assert(STRENGTH * q <= STRENGTH * p) by (nonlinear_arith)
        requires
            q <= p,
            STRENGTH > 0,
    ;
    lemma_nearest_monotone(STRENGTH as nat * q, STRENGTH as nat * p, 1);
    lemma_nearest_monotone(
        (UNITS_88 - opacity(height, above)) as nat,
        (UNITS_88 - opacity(height, below)) as nat,
        1,
    );
}

/// In the top row the colour has its full strength of nine tenths.
pub proof fn lemma_gradient_at_top(height: nat)
    requires
        is_shaded(height, 0),
    ensures
        opacity(height, 0) == STRENGTH * UNITS_64,
{
    lemma_units();
    let end = cutoff(height);
    assert(nearest_single(0, 1) == 0);
    assert(0 * UNITS_25 * UNITS_64 == 0) by (nonlinear_arith);
    vstd::arithmetic::div_mod::lemma_basic_div(0, end as int);
    vstd::arithmetic::div_mod::lemma_small_mod(0, end);
    assert(nearest_single(0, end) == 0);
    lemma_nearest_exact(1, 64);
    lemma_nearest_exact(STRENGTH as nat, 64);
}

} // verus!
