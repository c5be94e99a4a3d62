//! How one picture is composed: its crop, its gradient, its logo, and where logo and text stand.
//!
//! Everything is composed on a single 9:16 canvas; the square output is a centred crop of it.
use vstd::prelude::*;

use crate::paths::{extension, lower_extension};
use crate::raster::{lemma_new_at, lemma_offset, Canvas, Overlay, Raster};
use crate::single::{
    fraction, fraction_of, is_positive, lemma_fraction_within, positive, round_half_up,
};
use crate::single_bits::{product, product_of, quotient, quotient_of};
use crate::text::{ascii_lowercase, same_text};

verus! {

/// Width of the composition in pixels.
pub const COMP_W: u32 = 1080;

/// Height of the composition in pixels.
pub const COMP_H: u32 = 1920;

/// Aspect of the composition: width to height.
pub const ASPECT_W: u32 = 9;

pub const ASPECT_H: u32 = 16;

/// Side of the square output in pixels.
pub const SQUARE_SIDE: u32 = 1080;

/// Quality that JPEG outputs are compressed at.
pub const JPEG_QUALITY: i32 = 92;

/// The single-precision number 84: the font size where none is given, in pixels.
pub const TEXT_FONT_PX: u32 = 0x42a8_0000;

/// The single-precision number 1.18: the line height where none is given, as a multiple of the
/// font size.
pub const LINE_HEIGHT_FACTOR: u32 = 0x3f97_0a3d;

/// Where the first template puts the text block.
pub const T1_TEXT_X: i32 = 104;

pub const T1_TEXT_Y: i32 = 350;

/// Where the first template puts the logo.
pub const T1_LOGO_X: i32 = 357;

pub const T1_LOGO_Y: i32 = 1297;

/// Margin of what a custom layout anchors left or right: the text margin of the first template.
pub const CUSTOM_MARGIN: i32 = 104;

/// Output variant. Both derive from the same composed 9:16 canvas: `Portrait916` is that canvas as
/// it is, `Square1x1` its centred square.
#[derive(Clone, Copy, PartialEq, Eq, Hash, Structural)]
pub enum Format {
    Portrait916,
    Square1x1,
}

impl Format {
    /// What file names say of the format.
    pub open spec fn suffix_text(self) -> Seq<char> {
        match self {
            Format::Portrait916 => "9x16"@,
            Format::Square1x1 => "1x1"@,
        }
    }

    /// What file names say of the format.
    pub fn suffix(self) -> (text: &'static str)
        ensures
            text@ == self.suffix_text(),
    {
        match self {
            Format::Portrait916 => "9x16",
            Format::Square1x1 => "1x1",
        }
    }
}

/// The two formats never share a suffix.
pub proof fn lemma_suffixes_differ(a: Format, b: Format)
    requires
        a != b,
    ensures
        a.suffix_text() != b.suffix_text(),
{
    reveal_strlit("9x16");
    reveal_strlit("1x1");
    assert("9x16"@.len() != "1x1"@.len());
}

/// What kind of picture file an extension stands for.
#[derive(Clone, Copy, PartialEq, Eq, Structural)]
pub enum Kind {
    Jpeg,
    Png,
}

impl Kind {
    /// The kind of picture that a path names.
    pub open spec fn of_path(path: Seq<char>) -> Option<Kind> {
        let ext = lower_extension(path);
        if ext == "jpg"@ || ext == "jpeg"@ {
            Some(Kind::Jpeg)
        } else if ext == "png"@ {
            Some(Kind::Png)
        } else {
            None
        }
    }

    /// The kind of picture that a path names.
    pub fn from_path(path: &str) -> (kind: Option<Kind>)
        ensures
            kind == Kind::of_path(path@),
    {
        proof {
            reveal_strlit("jpg");
            reveal_strlit("jpeg");
            reveal_strlit("png");
            assert("jpg"@.len() == 3 && "jpeg"@.len() == 4 && "png"@.len() == 3);
        }
        match extension(path) {
            None => None,
            Some(raw) => {
                let ext = ascii_lowercase(raw.as_str());
                if same_text(ext.as_str(), "jpg") || same_text(ext.as_str(), "jpeg") {
                    Some(Kind::Jpeg)
                } else if same_text(ext.as_str(), "png") {
                    Some(Kind::Png)
                } else {
                    None
                }
            },
        }
    }
}

/// Horizontal anchoring of the text block and of the logo in custom layouts.
#[derive(Clone, Copy, PartialEq, Eq, Structural)]
pub enum Anchor {
    Left,
    Center,
    Right,
}

/// A layout choice. `Template1` has fixed positions; `Custom` places the text block and the logo by
/// anchors and by fractions of the canvas. Numbers with a fraction are single-precision bit
/// patterns.
#[derive(Clone, Copy)]
pub enum LayoutSpec {
    Template1,
    Custom {
        logo_x: Anchor,
        /// Top of the logo, as a fraction of the canvas height.
        logo_y: u32,
        text_x: Anchor,
        /// Top of the text block, as a fraction of the canvas height.
        text_y: u32,
        /// Width of the text block, as a fraction of the canvas width.
        text_w: u32,
        /// Font size in canvas pixels.
        font_px: u32,
        /// Line height as a multiple of the font size.
        line_height: u32,
        /// Letter spacing as a percentage of the font size.
        letter_spacing: u32,
    },
}

/// A [`LayoutSpec`] resolved to pixel positions on the composition. The last three are
/// single-precision bit patterns.
#[derive(Clone, Copy)]
pub struct Layout {
    pub text_origin: (i32, i32),
    pub text_max_width: i32,
    pub logo_pos: (i32, i32),
    pub font_px: u32,
    pub line_height: u32,
    /// Letter spacing in canvas pixels.
    pub letter_spacing_px: u32,
}

/// `n` halved, towards zero.
pub open spec fn half_to_zero(n: int) -> int {
    if n < 0 {
        -((-n) / 2)
    } else {
        n / 2
    }
}

/// The 32 bits of `n` read as a signed number.
pub open spec fn as_signed(n: u32) -> int {
    if n < 0x8000_0000 {
        n as int
    } else {
        n - 0x1_0000_0000
    }
}

/// Left edge of content of width `content` anchored on a canvas of width `canvas`.
pub open spec fn anchored(anchor: Anchor, canvas: int, content: int) -> int {
    match anchor {
        Anchor::Left => CUSTOM_MARGIN as int,
        Anchor::Center => half_to_zero(canvas - content),
        Anchor::Right => canvas - content - CUSTOM_MARGIN,
    }
}

/// Whether the arithmetic of an anchor stays within 32 bits.
pub open spec fn anchor_fits(anchor: Anchor, canvas: int, content: int) -> bool {
    match anchor {
        Anchor::Left => true,
        Anchor::Center => i32::MIN <= canvas - content <= i32::MAX,
        Anchor::Right => i32::MIN <= canvas - content <= i32::MAX && canvas - content
            - CUSTOM_MARGIN >= i32::MIN,
    }
}

fn signed(n: u32) -> (out: i64)
    ensures
        out == as_signed(n),
{
    if n < 0x8000_0000 {
        n as i64
    } else {
        n as i64 - 0x1_0000_0000
    }
}

fn halve(n: i64) -> (out: i64)
    requires
        n > i64::MIN,
    ensures
        out == half_to_zero(n as int),
{
    if n < 0 {
        -((-n) / 2)
    } else {
        n / 2
    }
}

/// Left edge of content anchored on a canvas.
pub fn anchor_x(anchor: Anchor, canvas_w: u32, content_w: u32) -> (x: i32)
    requires
        anchor_fits(anchor, as_signed(canvas_w), as_signed(content_w)),
    ensures
        x == anchored(anchor, as_signed(canvas_w), as_signed(content_w)),
{
    let room: i64 = signed(canvas_w) - signed(content_w);
    match anchor {
        Anchor::Left => CUSTOM_MARGIN,
        Anchor::Center => halve(room) as i32,
        Anchor::Right => (room - CUSTOM_MARGIN as i64) as i32,
    }
}

/// The layout that a [`LayoutSpec`] stands for, with a logo `logo_w` pixels wide.
pub open spec fn layout_of(spec: LayoutSpec, logo_w: u32) -> Layout {
    match spec {
        LayoutSpec::Template1 => Layout {
            text_origin: (T1_TEXT_X, T1_TEXT_Y),
            text_max_width: (COMP_W - 2 * T1_TEXT_X) as i32,
            logo_pos: (T1_LOGO_X, T1_LOGO_Y),
            font_px: TEXT_FONT_PX,
            line_height: LINE_HEIGHT_FACTOR,
            letter_spacing_px: 0,
        },
        LayoutSpec::Custom {
            logo_x,
            logo_y,
            text_x,
            text_y,
            text_w,
            font_px,
            line_height,
            letter_spacing,
        } => {
            let box_w = fraction_of(text_w, COMP_W as nat) as int;
            let size = if is_positive(font_px) {
                font_px
            } else {
                TEXT_FONT_PX
            };
            Layout {
                text_origin: (
                    anchored(text_x, COMP_W as int, box_w) as i32,
                    fraction_of(text_y, COMP_H as nat) as i32,
                ),
                text_max_width: box_w as i32,
                logo_pos: (
                    anchored(logo_x, COMP_W as int, as_signed(logo_w)) as i32,
                    fraction_of(logo_y, COMP_H as nat) as i32,
                ),
                font_px: size,
                line_height: if is_positive(line_height) {
                    line_height
                } else {
                    LINE_HEIGHT_FACTOR
                },
                letter_spacing_px: product_of(quotient_of(letter_spacing, 100), size),
            }
        },
    }
}

/// Resolves a [`LayoutSpec`] to pixel positions on the composition. The width of the logo enters
/// its anchoring; its height does not matter, since layouts name the top of the logo.
pub fn resolve_layout(spec: &LayoutSpec, logo_w: u32, _logo_h: u32) -> (layout: Layout)
    requires
        *spec matches LayoutSpec::Custom { logo_x, .. } ==> anchor_fits(
            logo_x,
            COMP_W as int,
            as_signed(logo_w),
        ),
    ensures
        layout == layout_of(*spec, logo_w),
{
    match *spec {
        LayoutSpec::Template1 => Layout {
            text_origin: (T1_TEXT_X, T1_TEXT_Y),
            text_max_width: COMP_W as i32 - 2 * T1_TEXT_X,
            logo_pos: (T1_LOGO_X, T1_LOGO_Y),
            font_px: TEXT_FONT_PX,
            line_height: LINE_HEIGHT_FACTOR,
            letter_spacing_px: 0,
        },
        LayoutSpec::Custom {
            logo_x,
            logo_y,
            text_x,
            text_y,
            text_w,
            font_px,
            line_height,
            letter_spacing,
        } => {
            let box_w: u32 = fraction(text_w, COMP_W);
            let tx: i32 = anchor_x(text_x, COMP_W, box_w);
            let ty: u32 = fraction(text_y, COMP_H);
            let lx: i32 = anchor_x(logo_x, COMP_W, logo_w);
            let ly: u32 = fraction(logo_y, COMP_H);
            let size: u32 = if positive(font_px) {
                font_px
            } else {
                TEXT_FONT_PX
            };
            Layout {
                text_origin: (tx, ty as i32),
                text_max_width: box_w as i32,
                logo_pos: (lx, ly as i32),
                font_px: size,
                line_height: if positive(line_height) {
                    line_height
                } else {
                    LINE_HEIGHT_FACTOR
                },
                letter_spacing_px: product(quotient(letter_spacing, 100), size),
            }
        },
    }
}

/// A custom layout puts the text block, margins apart, inside the canvas: its width is at most the
/// canvas width, its top at most the canvas height, and a centred block has equal room on both
/// sides up to the odd pixel.
pub proof fn lemma_custom_text_inside(
    logo_x: Anchor,
    logo_y: u32,
    text_x: Anchor,
    text_y: u32,
    text_w: u32,
    font_px: u32,
    line_height: u32,
    letter_spacing: u32,
    logo_w: u32,
)
    ensures
        ({
            let l = layout_of(
                LayoutSpec::Custom {
                    logo_x,
                    logo_y,
                    text_x,
                    text_y,
                    text_w,
                    font_px,
                    line_height,
                    letter_spacing,
                },
                logo_w,
            );
            &&& 0 <= l.text_max_width <= COMP_W
            &&& 0 <= l.text_origin.1 <= COMP_H
            &&& text_x == Anchor::Left ==> l.text_origin.0 == CUSTOM_MARGIN
            &&& text_x == Anchor::Right ==> l.text_origin.0 + l.text_max_width + CUSTOM_MARGIN
                == COMP_W
            &&& text_x == Anchor::Center ==> 0 <= COMP_W - (2 * l.text_origin.0 + l.text_max_width)
                <= 1
            &&& is_positive(l.font_px)
            &&& is_positive(l.line_height)
        }),
{
    lemma_fraction_within(text_w, COMP_W as nat);
    lemma_fraction_within(text_y, COMP_H as nat);
}

/// A custom layout puts the top of the logo at the fraction of the canvas height that it names,
/// which lies on the canvas; and a logo anchored at the centre has equal room on both sides up to
/// the odd pixel.
pub proof fn lemma_custom_logo_placed(
    logo_x: Anchor,
    logo_y: u32,
    text_x: Anchor,
    text_y: u32,
    text_w: u32,
    font_px: u32,
    line_height: u32,
    letter_spacing: u32,
    logo_w: u32,
)
    requires
        logo_w <= COMP_W,
    ensures
        ({
            let l = layout_of(
                LayoutSpec::Custom {
                    logo_x,
                    logo_y,
                    text_x,
                    text_y,
                    text_w,
                    font_px,
                    line_height,
                    letter_spacing,
                },
                logo_w,
            );
            &&& l.logo_pos.1 == fraction_of(logo_y, COMP_H as nat)
            &&& 0 <= l.logo_pos.1 <= COMP_H
            &&& logo_x == Anchor::Left ==> l.logo_pos.0 == CUSTOM_MARGIN
            &&& logo_x == Anchor::Right ==> l.logo_pos.0 + logo_w + CUSTOM_MARGIN == COMP_W
            &&& logo_x == Anchor::Center ==> 0 <= COMP_W - (2 * l.logo_pos.0 + logo_w) <= 1
        }),
{
    lemma_fraction_within(logo_y, COMP_H as nat);
}

/// A rectangle of pixels inside an image.
#[derive(Clone, Copy)]
pub struct Rect {
    pub x: u32,
    pub y: u32,
    pub w: u32,
    pub h: u32,
}

/// The lower 32 bits of `n`.
pub open spec fn low_32(n: int) -> int {
    n % 0x1_0000_0000
}

/// The centred rectangle of aspect `aw:ah` in an image of `w` by `h` pixels: its full height where
/// that leaves the width inside, its full width otherwise.
pub open spec fn aspect_rect(w: u32, h: u32, aw: u32, ah: u32) -> Rect {
    let cw = low_32(h * aw / ah as int);
    let ch = low_32(w * ah / aw as int);
    if cw <= w {
        Rect { x: ((w - cw) / 2) as u32, y: 0, w: cw as u32, h }
    } else {
        Rect { x: 0, y: ((h - ch) / 2) as u32, w, h: ch as u32 }
    }
}

/// The centred rectangle of aspect `aw:ah` in an image of `w` by `h` pixels.
pub fn center_crop_rect(w: u32, h: u32, aw: u32, ah: u32) -> (rect: Rect)
    requires
        aw > 0,
        ah > 0,
    ensures
        rect == aspect_rect(w, h, aw, ah),
        rect.x + rect.w <= w,
        rect.y + rect.h <= h,
{
    assert(h as int * aw as int <= 0xffff_ffff * 0xffff_ffff && w as int * ah as int <= 0xffff_ffff
        * 0xffff_ffff) by (nonlinear_arith)
        requires
            h <= 0xffff_ffff,
            w <= 0xffff_ffff,
            aw <= 0xffff_ffff,
            ah <= 0xffff_ffff,
    ;
    let wide: u64 = h as u64 * aw as u64 / ah as u64;
    let tall: u64 = w as u64 * ah as u64 / aw as u64;
    let cw: u32 = (wide % 0x1_0000_0000) as u32;
    if cw <= w {
        Rect { x: (w - cw) / 2, y: 0, w: cw, h }
    } else {
        proof {
            lemma_narrow_fits(w as int, h as int, aw as int, ah as int);
        }
        let ch: u32 = (tall % 0x1_0000_0000) as u32;
        Rect { x: 0, y: (h - ch) / 2, w, h: ch }
    }
}

/// Where the width that an aspect asks for is too large, the height that it asks for is not.
pub proof fn lemma_narrow_fits(w: int, h: int, aw: int, ah: int)
    requires
        aw > 0,
        ah > 0,
        w >= 0,
        0 <= h <= 0xffff_ffff,
        low_32(h * aw / ah) > w,
    ensures
        0 <= w * ah / aw <= h,
        low_32(w * ah / aw) == w * ah / aw,
{
    assert(0 <= h * aw / ah && w < h * aw / ah) by (nonlinear_arith)
        requires
            ah > 0,
            aw > 0,
            h >= 0,
            (h * aw / ah) % 0x1_0000_0000 > w,
    ;
    assert(w * ah <= h * aw) by (nonlinear_arith)
        requires
            ah > 0,
            w < h * aw / ah,
    ;
    assert(0 <= w * ah / aw <= h) by (nonlinear_arith)
        requires
            aw > 0,
            ah > 0,
            w >= 0,
            w * ah <= h * aw,
    ;
}

/// The crop lies inside the image, spans it in one direction, is centred up to the odd pixel in the
/// other, and is the largest such rectangle: one pixel more in that other direction would pass the
/// aspect.
pub proof fn lemma_crop_is_largest_centred(w: u32, h: u32, aw: u32, ah: u32)
    requires
        aw > 0,
        ah > 0,
        h * aw / ah as int <= u32::MAX,
    ensures
        ({
            let r = aspect_rect(w, h, aw, ah);
            &&& r.x + r.w <= w
            &&& r.y + r.h <= h
            &&& 0 <= (w - r.w) - 2 * r.x <= 1
            &&& 0 <= (h - r.h) - 2 * r.y <= 1
            &&& {
                ||| r.h == h && r.w * ah <= h * aw < (r.w + 1) * ah
                ||| r.w == w && r.h * aw <= w * ah < (r.h + 1) * aw
            }
        }),
{
    let wi = w as int;
    let hi = h as int;
    let a = aw as int;
    let b = ah as int;
    assert(hi * a / b >= 0) by (nonlinear_arith)
        requires
            hi >= 0,
            a > 0,
            b > 0,
    ;
    let cw = low_32(hi * a / b);
    assert(cw == hi * a / b);
    assert(cw * b <= hi * a < (cw + 1) * b) by (nonlinear_arith)
        requires
            cw == hi * a / b,
            b > 0,
    ;
    if cw > w {
        lemma_narrow_fits(wi, hi, a, b);
        let ch = low_32(wi * b / a);
        assert(ch * a <= wi * b < (ch + 1) * a) by (nonlinear_arith)
            requires
                ch == wi * b / a,
                a > 0,
        ;
    }
}

/// One channel of an overlay pixel of opacity `alpha` over one of the canvas, rounded.
pub open spec fn blended(under: u8, over: u8, alpha: u8) -> u8 {
    round_half_up((under * (255 - alpha) + over * alpha) as nat, 255) as u8
}

/// One channel of an overlay pixel over one of the canvas.
pub fn blend(under: u8, over: u8, alpha: u8) -> (out: u8)
    ensures
        out == blended(under, over, alpha),
{
    proof {
        lemma_blend_range(under, over, alpha);
    }
    let mixed: u32 = under as u32 * (255 - alpha as u32) + over as u32 * alpha as u32;
    ((2 * mixed + 255) / 510) as u8
}

proof fn lemma_blend_range(under: u8, over: u8, alpha: u8)
    ensures
        0 <= under * (255 - alpha) + over * alpha <= 255 * 255,
        0 <= under * (255 - alpha) <= 255 * 255,
        0 <= over * alpha <= 255 * 255,
{
    assert(0 <= under * (255 - alpha) + over * alpha <= 255 * 255 && 0 <= under * (255 - alpha)
        <= 255 * 255 && 0 <= over * alpha <= 255 * 255) by (nonlinear_arith)
        requires
            0 <= under <= 255,
            0 <= over <= 255,
            0 <= alpha <= 255,
    ;
}

/// A transparent pixel changes nothing, an opaque one replaces what is under it, and any other
/// stays between the two.
pub proof fn lemma_blend_ends(under: u8, over: u8, alpha: u8)
    ensures
        blended(under, over, 0) == under,
        blended(under, over, 255) == over,
        under <= over ==> under <= blended(under, over, alpha) <= over,
        over <= under ==> over <= blended(under, over, alpha) <= under,
{
    lemma_blend_range(under, over, alpha);
    let mixed = under * (255 - alpha) + over * alpha;
    let clear: u8 = 0;
    let full: u8 = 255;
    assert(under * (255 - clear) + over * clear == 255 * under) by (nonlinear_arith)
        requires
            clear == 0,
    ;
    assert(under * (255 - full) + over * full == 255 * over) by (nonlinear_arith)
        requires
            full == 255,
    ;
    assert((2 * (255 * under) + 255) / 510 == under && (2 * (255 * over) + 255) / 510 == over)
        by (nonlinear_arith);
    assert(blended(under, over, clear) == under);
    assert(blended(under, over, full) == over);
    if under <= over {
        assert(255 * under <= mixed <= 255 * over) by (nonlinear_arith)
            requires
                mixed == under * (255 - alpha) + over * alpha,
                under <= over,
                0 <= alpha <= 255,
        ;
    } else {
        assert(255 * over <= mixed <= 255 * under) by (nonlinear_arith)
            requires
                mixed == under * (255 - alpha) + over * alpha,
                over < under,
                0 <= alpha <= 255,
        ;
    }
}

/// `base` with `top` laid over it, its top left corner at `(px, py)`; what passes the edges of
/// `base` is left out.
pub open spec fn overlaid(base: Raster, top: Raster, px: int, py: int) -> Raster {
    Raster::new(
        base.width,
        base.height,
        3,
        |x: int, y: int, c: int|
            if 0 <= x - px < top.width && 0 <= y - py < top.height {
                blended(
                    base.at(x, y, c),
                    top.at(x - px, y - py, c),
                    top.at(x - px, y - py, 3),
                )
            } else {
                base.at(x, y, c)
            },
    )
}

/// Lays `top` over the canvas, its top left corner at `(x, y)`.
pub fn overlay_rgba(canvas: &mut Canvas, top: &Overlay, x: i32, y: i32)
    requires
        old(canvas).wf(),
        top.wf(),
    ensures
        final(canvas)@ == overlaid(old(canvas)@, top@, x as int, y as int),
        final(canvas).wf(),
{
    let ghost base = canvas@;
    let ghost goal = overlaid(base, top@, x as int, y as int);
    let w: usize = canvas.width as usize;
    let h: usize = canvas.height as usize;
    let tw: i64 = top.width as i64;
    let th: i64 = top.height as i64;
    let ghost f = |i: int, j: int, c: int|
        if 0 <= i - x < top@.width && 0 <= j - y < top@.height {
            blended(base.at(i, j, c), top@.at(i - x, j - y, c), top@.at(i - x, j - y, 3))
        } else {
            base.at(i, j, c)
        };
    let mut out: Vec<u8> = Vec::new();
    let mut row: usize = 0;
    while row < h
        invariant
            row <= h,
            w == canvas.width,
            h == canvas.height,
            tw == top.width,
            th == top.height,
            canvas@ == base,
            base.wf(),
            top.wf(),
            f == (|i: int, j: int, c: int|
                if 0 <= i - x < top@.width && 0 <= j - y < top@.height {
                    blended(base.at(i, j, c), top@.at(i - x, j - y, c), top@.at(i - x, j - y, 3))
                } else {
                    base.at(i, j, c)
                }),
            goal == Raster::new(base.width, base.height, 3, f),
            out@.len() == row * w * 3,
            out@.len() <= goal.samples.len(),
            forall|i: int| 0 <= i < out@.len() ==> out@[i] == goal.samples[i],
        decreases h - row,
    {
        let ghost start = out@;
        let mut col: usize = 0;
        while col < w
            invariant
                col <= w,
                row < h,
                w == canvas.width,
                h == canvas.height,
                tw == top.width,
                th == top.height,
                canvas@ == base,
                base.wf(),
                top.wf(),
                f == (|i: int, j: int, c: int|
                    if 0 <= i - x < top@.width && 0 <= j - y < top@.height {
                        blended(
                            base.at(i, j, c),
                            top@.at(i - x, j - y, c),
                            top@.at(i - x, j - y, 3),
                        )
                    } else {
                        base.at(i, j, c)
                    }),
                goal == Raster::new(base.width, base.height, 3, f),
                out@.len() == (row * w + col) * 3,
                forall|i: int| 0 <= i < out@.len() ==> out@[i] == goal.samples[i],
            decreases w - col,
        {
            proof {
                lemma_pixel(base, col as int, row as int);
                lemma_new_at(base.width, base.height, 3, f, col as int, row as int, 0);
                lemma_new_at(base.width, base.height, 3, f, col as int, row as int, 1);
                lemma_new_at(base.width, base.height, 3, f, col as int, row as int, 2);
            }
            let at: usize = out.len();
            assert(at + 2 < canvas.pixels.len());
            let dx: i64 = col as i64 - x as i64;
            let dy: i64 = row as i64 - y as i64;
            if 0 <= dx && dx < tw && 0 <= dy && dy < th {
                proof {
                    lemma_offset(top@.width, top@.height, 4, dx as int, dy as int, 0);
                    lemma_offset(top@.width, top@.height, 4, dx as int, dy as int, 3);
                    assert((dy * tw + dx) * 4 + 3 < top.pixels@.len());
                    assert(0 <= dy * tw + dx <= (dy * tw + dx) * 4) by (nonlinear_arith)
                        requires
                            0 <= dx,
                            0 <= dy,
                            0 <= tw,
                    ;
                    assert(0 <= dy * tw) by (nonlinear_arith)
                        requires
                            0 <= dy,
                            0 <= tw,
                    ;
                }
                let down: usize = dy as usize;
                let across: usize = dx as usize;
                let stride: usize = tw as usize;
                assert(down * stride == dy * tw);
                assert((down * stride + across) * 4 + 3 < top.pixels.len());
                let from: usize = (down * stride + across) * 4;
                let alpha = top.pixels[from + 3];
                out.push(blend(canvas.pixels[at], top.pixels[from], alpha));
                out.push(blend(canvas.pixels[at + 1], top.pixels[from + 1], alpha));
                out.push(blend(canvas.pixels[at + 2], top.pixels[from + 2], alpha));
            } else {
                out.push(canvas.pixels[at]);
                out.push(canvas.pixels[at + 1]);
                out.push(canvas.pixels[at + 2]);
            }
            col = col + 1;
        }
        proof {
            assert((row + 1) * w * 3 == (row * w + w) * 3) by (nonlinear_arith);
            assert((row + 1) * w * 3 <= w * h * 3) by (nonlinear_arith)
                requires
                    row + 1 <= h,
            ;
        }
        row = row + 1;
    }
    assert(h * w * 3 == w * h * 3) by (nonlinear_arith);
    assert(out@ =~= goal.samples);
    canvas.pixels = out;
}

/// The three samples of a pixel stand one after another inside the image.
proof fn lemma_pixel(base: Raster, x: int, y: int)
    requires
        base.depth == 3,
        base.wf(),
        0 <= x < base.width,
        0 <= y < base.height,
    ensures
        0 <= (y * base.width + x) * 3,
        (y * base.width + x) * 3 + 2 < base.samples.len(),
        base.offset(x, y, 0) == (y * base.width + x) * 3,
{
    lemma_offset(base.width, base.height, 3, x, y, 0);
    lemma_offset(base.width, base.height, 3, x, y, 2);
}

/// Outside the rectangle that an overlay covers, the canvas stays as it was.
pub proof fn lemma_overlay_leaves_rest(
    base: Raster,
    top: Raster,
    px: int,
    py: int,
    x: int,
    y: int,
    c: int,
)
    requires
        base.depth == 3,
        base.holds(x, y, c),
        !(px <= x < px + top.width && py <= y < py + top.height),
    ensures
        overlaid(base, top, px, py).at(x, y, c) == base.at(x, y, c),
{
    let f = |x: int, y: int, c: int|
        if 0 <= x - px < top.width && 0 <= y - py < top.height {
            blended(base.at(x, y, c), top.at(x - px, y - py, c), top.at(x - px, y - py, 3))
        } else {
            base.at(x, y, c)
        };
    lemma_new_at(base.width, base.height, 3, f, x, y, c);
    assert(overlaid(base, top, px, py) =~= Raster::new(base.width, base.height, 3, f));
}

} // verus!
