//! What holds of every layout: where the text and the logo stand, and what that depends on.
use vstd::prelude::*;

use crate::compositor::{anchor_fits, anchored, as_signed, layout_of, Anchor, LayoutSpec};
use crate::single::{fraction_of, lemma_fraction_within};
use crate::single_bits::{product_of, quotient_of};

verus! {

/// The first template has fixed places: the text block starts at (104, 350) and leaves 104 pixels
/// on either side, the logo stands at (357, 1297), and the text is 84 pixels high with lines 1.18
/// times that apart and no letter spacing. The logo's size does not matter.
pub proof fn lemma_first_template(logo_w: u32)
    ensures
        ({
            let l = layout_of(LayoutSpec::Template1, logo_w);
            &&& l.text_origin == (104i32, 350i32)
            &&& l.text_origin.0 + l.text_max_width + 104 == 1080
            &&& l.logo_pos == (357i32, 1297i32)
            &&& l.font_px == 0x42a8_0000
            &&& l.line_height == 0x3f97_0a3d
            &&& l.letter_spacing_px == 0
        }),
{
}

/// What is anchored left keeps a margin of 104 pixels there, what is anchored right keeps it on its
/// right, and what is anchored in the middle has as much room on either side up to the odd pixel,
/// which is on its right where there is room and on its left where it is too wide.
pub proof fn lemma_anchors_place_content(canvas: int, content: int)
    ensures
        anchored(Anchor::Left, canvas, content) == 104,
        anchored(Anchor::Right, canvas, content) + content + 104 == canvas,
        content <= canvas ==> 0 <= canvas - (2 * anchored(Anchor::Center, canvas, content)
            + content) <= 1,
        content > canvas ==> -1 <= canvas - (2 * anchored(Anchor::Center, canvas, content)
            + content) <= 0,
{
}

/// A custom layout puts the top of the text block at the fraction of the canvas height that it
/// names, whatever its anchor, makes it as wide as the fraction of the canvas width that it names,
/// and puts it left, in the middle or right on the canvas as its anchor says.
pub proof fn lemma_custom_text_placed(spec: LayoutSpec, logo_w: u32)
    requires
        spec is Custom,
    ensures
        ({
            let l = layout_of(spec, logo_w);
            &&& l.text_origin.1 == fraction_of(spec->text_y, 1920)
            &&& l.text_max_width == fraction_of(spec->text_w, 1080)
            &&& spec->text_x is Left ==> l.text_origin.0 == 104
            &&& spec->text_x is Right ==> l.text_origin.0 + l.text_max_width + 104 == 1080
            &&& spec->text_x is Center ==> 0 <= 1080 - (2 * l.text_origin.0 + l.text_max_width)
                <= 1
            &&& 0x3f80_0000 <= spec->text_y <= 0x7f80_0000 ==> l.text_origin.1 == 1920
            &&& spec->text_y == 0 || spec->text_y > 0x7f80_0000 ==> l.text_origin.1 == 0
        }),
{
    lemma_fraction_within(spec->text_w, 1080);
    lemma_fraction_within(spec->text_y, 1920);
    crate::number_laws::lemma_fraction_is_nearest(spec->text_y, 1920);
}

/// A custom layout puts the top of the logo at the fraction of the canvas height that it names,
/// whatever its anchor, and puts it left, in the middle or right on the canvas as its anchor says.
pub proof fn lemma_custom_logo_anchored(spec: LayoutSpec, logo_w: u32)
    requires
        spec is Custom,
        logo_w <= 0x7fff_ffff || logo_w >= 0x8000_0000 + 1081,
    ensures
        ({
            let l = layout_of(spec, logo_w);
            let w = if logo_w <= 0x7fff_ffff {
                logo_w as int
            } else {
                logo_w - 0x1_0000_0000
            };
            &&& l.logo_pos.1 == fraction_of(spec->logo_y, 1920)
            &&& spec->logo_x is Left ==> l.logo_pos.0 == 104
            &&& spec->logo_x is Right ==> l.logo_pos.0 + w + 104 == 1080
            &&& spec->logo_x is Center && w <= 1080 ==> 0 <= 1080 - (2 * l.logo_pos.0 + w) <= 1
            &&& spec->logo_x is Center && w > 1080 ==> -1 <= 1080 - (2 * l.logo_pos.0 + w) <= 0
        }),
{
    lemma_fraction_within(spec->logo_y, 1920);
}

/// An anchor can be computed exactly where its steps stay within 32 bits, and widths are read as
/// signed numbers.
pub proof fn lemma_anchors_that_fit(canvas_w: u32, content_w: u32)
    ensures
        ({
            let canvas = if canvas_w <= 0x7fff_ffff {
                canvas_w as int
            } else {
                canvas_w - 0x1_0000_0000
            };
            let content = if content_w <= 0x7fff_ffff {
                content_w as int
            } else {
                content_w - 0x1_0000_0000
            };
            let room = canvas - content;
            &&& as_signed(canvas_w) == canvas
            &&& as_signed(content_w) == content
            &&& anchor_fits(Anchor::Left, canvas, content)
            &&& anchor_fits(Anchor::Center, canvas, content) <==> -0x8000_0000 <= room
                <= 0x7fff_ffff
            &&& anchor_fits(Anchor::Right, canvas, content) <==> -0x8000_0000 + 104 <= room
                <= 0x7fff_ffff
        }),
{
}

/// A custom layout keeps the font size and the line height that it names where they are above
/// zero, and takes those of the first template otherwise; letters are set apart by the percentage
/// that it names of the font size it comes to.
pub proof fn lemma_custom_type_size(spec: LayoutSpec, logo_w: u32)
    requires
        spec is Custom,
    ensures
        ({
            let l = layout_of(spec, logo_w);
            &&& 0 < spec->font_px <= 0x7f80_0000 ==> l.font_px == spec->font_px
            &&& spec->font_px == 0 || spec->font_px > 0x7f80_0000 ==> l.font_px == 0x42a8_0000
            &&& 0 < spec->line_height <= 0x7f80_0000 ==> l.line_height == spec->line_height
            &&& spec->line_height == 0 || spec->line_height > 0x7f80_0000 ==> l.line_height
                == 0x3f97_0a3d
            &&& l.letter_spacing_px == product_of(quotient_of(spec->letter_spacing, 100), l.font_px)
        }),
{
}

/// Each part of a custom layout depends on what names it and on nothing else: the height of the
/// text on `text_y`, its width on `text_w`, its left edge on `text_x` and `text_w`, and so on.
pub proof fn lemma_layout_parts_independent(
    a: LayoutSpec,
    b: LayoutSpec,
    logo_a: u32,
    logo_b: u32,
)
    requires
        a is Custom,
        b is Custom,
    ensures
        ({
            let x = layout_of(a, logo_a);
            let y = layout_of(b, logo_b);
            &&& a->text_y == b->text_y ==> x.text_origin.1 == y.text_origin.1
            &&& a->text_w == b->text_w ==> x.text_max_width == y.text_max_width
            &&& a->text_w == b->text_w && a->text_x == b->text_x ==> x.text_origin.0
                == y.text_origin.0
            &&& a->logo_y == b->logo_y ==> x.logo_pos.1 == y.logo_pos.1
            &&& logo_a == logo_b && a->logo_x == b->logo_x ==> x.logo_pos.0 == y.logo_pos.0
            &&& a->font_px == b->font_px ==> x.font_px == y.font_px
            &&& a->line_height == b->line_height ==> x.line_height == y.line_height
            &&& a->font_px == b->font_px && a->letter_spacing == b->letter_spacing
                ==> x.letter_spacing_px == y.letter_spacing_px
            &&& a->text_y == b->logo_y ==> x.text_origin.1 == y.logo_pos.1
        }),
{
}

} // verus!
