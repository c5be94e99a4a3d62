//! What holds of every picture that is composed, sample by sample.
use vstd::prelude::*;

use crate::canvas::{
    black, cropped, cropped_to_aspect, encoded_of, finished, follows_decoding, is_prepared,
    may_prepare, pictured, png_outcome, straight, unmultiplied, EncodedModel, PreparedCanvas,
    SourceError,
};
use crate::compositor::{
    aspect_rect, blended, lemma_crop_is_largest_centred, overlaid, Format, Kind, Rect,
};
use crate::gradient::graded;
use crate::imaging::{is_decoding, is_resampling, png_file};
use crate::raster::{lemma_new_at, lemma_offset, Canvas, Overlay, Raster};

verus! {

/// A canvas stores its rows from the top, each from the left, three samples to a pixel.
pub proof fn lemma_canvas_samples(canvas: Canvas, x: int, y: int, c: int)
    requires
        canvas.wf(),
        0 <= x < canvas.width,
        0 <= y < canvas.height,
        0 <= c < 3,
    ensures
        canvas.pixels@.len() == canvas.width * canvas.height * 3,
        0 <= 3 * (canvas.width * y + x) + c < canvas.pixels@.len(),
        canvas@.at(x, y, c) == canvas.pixels@[3 * (canvas.width * y + x) + c],
        canvas@.holds(x, y, c),
        canvas@.width == canvas.width,
        canvas@.height == canvas.height,
        canvas@.depth == 3,
{
    lemma_offset(canvas.width as nat, canvas.height as nat, 3, x, y, c);
    assert((y * canvas.width + x) * 3 + c == 3 * (canvas.width * y + x) + c) by (nonlinear_arith);
}

/// An overlay stores its rows from the top, each from the left, four samples to a pixel, the last
/// of them its opacity.
pub proof fn lemma_overlay_samples(overlay: Overlay, x: int, y: int, c: int)
    requires
        overlay.wf(),
        0 <= x < overlay.width,
        0 <= y < overlay.height,
        0 <= c < 4,
    ensures
        overlay.pixels@.len() == overlay.width * overlay.height * 4,
        0 <= 4 * (overlay.width * y + x) + c < overlay.pixels@.len(),
        overlay@.at(x, y, c) == overlay.pixels@[4 * (overlay.width * y + x) + c],
        overlay@.holds(x, y, c),
        overlay@.width == overlay.width,
        overlay@.height == overlay.height,
        overlay@.depth == 4,
{
    lemma_offset(overlay.width as nat, overlay.height as nat, 4, x, y, c);
    assert((y * overlay.width + x) * 4 + c == 4 * (overlay.width * y + x) + c)
        by (nonlinear_arith);
}

/// Blending gives the whole number nearest to the mean of the two values, weighed by opacity. There
/// is only one: the mean is never halfway between two.
pub proof fn lemma_blend_is_nearest(under: u8, over: u8, alpha: u8)
    ensures
        -255 <= 510 * blended(under, over, alpha) - 2 * (under * (255 - alpha) + over * alpha)
            <= 255,
{
    let mixed = under * (255 - alpha) + over * alpha;
    assert(0 <= mixed <= 255 * 255) by (nonlinear_arith)
        requires
            mixed == under * (255 - alpha) + over * alpha,
            0 <= under <= 255,
            0 <= over <= 255,
            0 <= alpha <= 255,
    ;
    let near = (2 * mixed + 255) / 510;
    assert(0 <= near <= 255);
    assert(blended(under, over, alpha) == near);
}

/// An overlay stands upright at its place: its pixel `(i, j)` lands on the pixel of the canvas `i`
/// to the right of the place and `j` below it, and there each channel is the mean of the two,
/// weighed by the opacity of that overlay pixel, to the nearest whole number. An opaque pixel is
/// found unchanged, and under a transparent one the canvas is.
pub proof fn lemma_overlay_lands_upright(
    base: Raster,
    top: Raster,
    px: int,
    py: int,
    i: int,
    j: int,
    c: int,
)
    requires
        base.depth == 3,
        0 <= c < 3,
        0 <= i < top.width,
        0 <= j < top.height,
        0 <= px + i < base.width,
        0 <= py + j < base.height,
    ensures
        ({
            let under = base.at(px + i, py + j, c);
            let over = top.at(i, j, c);
            let alpha = top.at(i, j, 3);
            let out = overlaid(base, top, px, py).at(px + i, py + j, c);
            &&& -255 <= 510 * out - 2 * (under * (255 - alpha) + over * alpha) <= 255
            &&& alpha == 255 ==> out == over
            &&& alpha == 0 ==> out == under
        }),
{
    let x = px + i;
    let y = py + j;
    let f = |x: int, y: int, c: int|
        if 0 <= x - px < top.width && 0 <= y - py < top.height {
            blended(base.at(x, y, c), top.at(x - px, y - py, c), top.at(x - px, y - py, 3))
        } else {
            base.at(x, y, c)
        };
    lemma_new_at(base.width, base.height, 3, f, x, y, c);
    assert(overlaid(base, top, px, py) =~= Raster::new(base.width, base.height, 3, f));
    let under = base.at(x, y, c);
    let over = top.at(i, j, c);
    let alpha = top.at(i, j, 3);
    let out = overlaid(base, top, px, py).at(x, y, c);
    lemma_blend_is_nearest(under, over, alpha);
    assert(alpha == 255 ==> under * (255 - alpha) + over * alpha == 255 * over)
        by (nonlinear_arith);
    assert(alpha == 0 ==> under * (255 - alpha) + over * alpha == 255 * under)
        by (nonlinear_arith);
}

/// An overlay changes neither the size of a canvas nor what it does not cover.
pub proof fn lemma_overlay_keeps_canvas(base: Raster, top: Raster, px: int, py: int)
    requires
        base.depth == 3,
    ensures
        ({
            let out = overlaid(base, top, px, py);
            &&& out.width == base.width
            &&& out.height == base.height
            &&& out.depth == 3
            &&& out.wf()
            &&& forall|x: int, y: int, c: int|
                0 <= x < base.width && 0 <= y < base.height && 0 <= c < 3 && (x < px || x >= px
                    + top.width || y < py || y >= py + top.height) ==> #[trigger] out.at(x, y, c)
                    == base.at(x, y, c)
        }),
{
    let out = overlaid(base, top, px, py);
    assert forall|x: int, y: int, c: int|
        0 <= x < base.width && 0 <= y < base.height && 0 <= c < 3 && (x < px || x >= px + top.width
            || y < py || y >= py + top.height) implies #[trigger] out.at(x, y, c) == base.at(
        x,
        y,
        c,
    ) by {
        crate::compositor::lemma_overlay_leaves_rest(base, top, px, py, x, y, c);
    }
}

/// Where overlays cover no pixel of the canvas, they change nothing.
pub proof fn lemma_overlay_beside_canvas(base: Raster, top: Raster, px: int, py: int)
    requires
        base.depth == 3,
        base.wf(),
        px >= base.width || py >= base.height || px + top.width <= 0 || py + top.height <= 0,
    ensures
        overlaid(base, top, px, py) == base,
{
    lemma_overlay_keeps_canvas(base, top, px, py);
    lemma_same_samples(overlaid(base, top, px, py), base);
}

/// Two images of one size with the same samples are the same.
pub proof fn lemma_same_samples(a: Raster, b: Raster)
    requires
        a.wf(),
        b.wf(),
        a.width == b.width,
        a.height == b.height,
        a.depth == b.depth,
        a.depth > 0,
        forall|x: int, y: int, c: int|
            0 <= x < a.width && 0 <= y < a.height && 0 <= c < a.depth ==> #[trigger] a.at(x, y, c)
                == b.at(x, y, c),
    ensures
        a == b,
{
    let w = a.width as int;
    let d = a.depth as int;
    assert forall|k: int| 0 <= k < a.samples.len() implies a.samples[k] == b.samples[k] by {
        let p = k / d;
        let c = k % d;
        lemma_sample_place(k, w, a.height as int, d);
        assert(a.at(p % w, p / w, c) == b.at(p % w, p / w, c));
        assert(a.offset(p % w, p / w, c) == k);
        assert(b.offset(p % w, p / w, c) == k);
    }
    assert(a.samples =~= b.samples);
}

proof fn lemma_sample_place(k: int, w: int, h: int, d: int)
    requires
        0 <= k < w * h * d,
        0 <= w,
        0 <= h,
        0 < d,
    ensures
        ({
            let p = k / d;
            &&& 0 <= p % w < w
            &&& 0 <= p / w < h
            &&& 0 <= k % d < d
            &&& (p / w * w + p % w) * d + k % d == k
        }),
{
    let p = k / d;
    vstd::arithmetic::div_mod::lemma_fundamental_div_mod(k, d);
    assert(w > 0 && 0 <= p < w * h) by (nonlinear_arith)
        requires
            0 <= k < w * h * d,
            0 <= w,
            0 <= h,
            0 < d,
            p == k / d,
    ;
    vstd::arithmetic::div_mod::lemma_fundamental_div_mod(p, w);
    assert(0 <= p / w < h) by (nonlinear_arith)
        requires
            0 <= p < w * h,
            w > 0,
    ;
    assert((p / w * w + p % w) * d + k % d == k) by (nonlinear_arith)
        requires
            k == d * p + k % d,
            p == w * (p / w) + p % w,
    ;
}

/// A crop shows the samples inside its rectangle, each as far from its edges as it was from those
/// of the rectangle.
pub proof fn lemma_crop_shows_rectangle(base: Raster, rect: Rect, x: int, y: int, c: int)
    requires
        rect.x <= x < rect.x + rect.w,
        rect.y <= y < rect.y + rect.h,
        0 <= c < 3,
    ensures
        cropped(base, rect).width == rect.w,
        cropped(base, rect).height == rect.h,
        cropped(base, rect).depth == 3,
        cropped(base, rect).wf(),
        cropped(base, rect).at(x - rect.x, y - rect.y, c) == base.at(x, y, c),
{
    let f = |x: int, y: int, c: int| base.at(rect.x + x, rect.y + y, c);
    lemma_new_at(rect.w as nat, rect.h as nat, 3, f, x - rect.x, y - rect.y, c);
    assert(cropped(base, rect) =~= Raster::new(rect.w as nat, rect.h as nat, 3, f));
}

/// Cropping to an aspect keeps the middle of a picture, one sample for another, over its full
/// height or its full width, and cuts as much off either side up to the odd pixel.
pub proof fn lemma_aspect_crop_is_centred(
    base: Raster,
    aw: u32,
    ah: u32,
    x: int,
    y: int,
    c: int,
)
    requires
        aw > 0,
        ah > 0,
        base.width <= u32::MAX,
        base.height <= u32::MAX,
        base.height * aw / ah as int <= u32::MAX,
    ensures
        ({
            let crop = cropped_to_aspect(base, aw, ah);
            let left = (base.width - crop.width) / 2;
            let above = (base.height - crop.height) / 2;
            &&& crop.width <= base.width
            &&& crop.height <= base.height
            &&& crop.depth == 3
            &&& crop.wf()
            &&& 0 <= x < crop.width && 0 <= y < crop.height && 0 <= c < 3 ==> crop.at(x, y, c)
                == base.at(left + x, above + y, c)
            &&& {
                ||| crop.height == base.height && crop.width * ah <= base.height * aw < (crop.width
                    + 1) * ah
                ||| crop.width == base.width && crop.height * aw <= base.width * ah < (crop.height
                    + 1) * aw
            }
        }),
{
    let w = base.width as u32;
    let h = base.height as u32;
    let rect = aspect_rect(w, h, aw, ah);
    lemma_crop_is_largest_centred(w, h, aw, ah);
    let crop = cropped_to_aspect(base, aw, ah);
    if 0 <= x < crop.width && 0 <= y < crop.height && 0 <= c < 3 {
        lemma_crop_shows_rectangle(base, rect, rect.x + x, rect.y + y, c);
    }
    assert((base.width - crop.width) / 2 == rect.x);
    assert((base.height - crop.height) / 2 == rect.y);
}

/// The logo lies over the gradient, not under it, and once: on the finished canvas each of its
/// pixels is mixed with the picture under the gradient, an opaque one is found unchanged, and what
/// it does not cover is the picture under the gradient alone.
pub proof fn lemma_logo_over_gradient(resampled: Raster, logo: Raster, px: int, py: int)
    requires
        resampled.depth == 3,
        resampled.wf(),
    ensures
        ({
            let out = finished(resampled, logo, px, py);
            &&& out.width == resampled.width
            &&& out.height == resampled.height
            &&& out.depth == 3
            &&& out.wf()
            &&& forall|i: int, j: int, c: int|
                0 <= i < logo.width && 0 <= j < logo.height && 0 <= c < 3 && 0 <= px + i
                    < resampled.width && 0 <= py + j < resampled.height ==> {
                    let under = graded(resampled).at(px + i, py + j, c);
                    let over = #[trigger] logo.at(i, j, c);
                    let alpha = logo.at(i, j, 3);
                    let mixed = out.at(px + i, py + j, c);
                    &&& -255 <= 510 * mixed - 2 * (under * (255 - alpha) + over * alpha) <= 255
                    &&& alpha == 255 ==> mixed == over
                    &&& alpha == 0 ==> mixed == under
                }
            &&& forall|x: int, y: int, c: int|
                0 <= x < resampled.width && 0 <= y < resampled.height && 0 <= c < 3 && (x < px || x
                    >= px + logo.width || y < py || y >= py + logo.height) ==> #[trigger] out.at(
                    x,
                    y,
                    c,
                ) == graded(resampled).at(x, y, c)
        }),
{
    let shaded = graded(resampled);
    let out = finished(resampled, logo, px, py);
    lemma_overlay_keeps_canvas(shaded, logo, px, py);
    assert forall|i: int, j: int, c: int|
        0 <= i < logo.width && 0 <= j < logo.height && 0 <= c < 3 && 0 <= px + i < resampled.width
            && 0 <= py + j < resampled.height implies {
        let under = graded(resampled).at(px + i, py + j, c);
        let over = #[trigger] logo.at(i, j, c);
        let alpha = logo.at(i, j, 3);
        let mixed = out.at(px + i, py + j, c);
        &&& -255 <= 510 * mixed - 2 * (under * (255 - alpha) + over * alpha) <= 255
        &&& alpha == 255 ==> mixed == over
        &&& alpha == 0 ==> mixed == under
    } by {
        lemma_overlay_lands_upright(shaded, logo, px, py, i, j, c);
    }
}

/// A prepared canvas has the size of the composition and shows every opaque pixel of the logo at
/// the logo's place, whatever the picture.
pub proof fn lemma_prepared_shows_logo(
    picture: Raster,
    kind: Kind,
    logo: Raster,
    logo_pos: (i32, i32),
    out: PreparedCanvas,
    i: int,
    j: int,
    c: int,
)
    requires
        is_prepared(picture, kind, logo, logo_pos, out),
        out.canvas.wf(),
        0 <= i < logo.width,
        0 <= j < logo.height,
        0 <= c < 3,
        0 <= logo_pos.0 + i < 1080,
        0 <= logo_pos.1 + j < 1920,
        logo.at(i, j, 3) == 255,
    ensures
        out.kind == kind,
        out.canvas.width == 1080,
        out.canvas.height == 1920,
        out.canvas@.at(logo_pos.0 + i, logo_pos.1 + j, c) == logo.at(i, j, c),
{
    let crop = cropped_to_aspect(picture, 9, 16);
    let resampled = choose|resampled: Raster|
        {
            &&& #[trigger] crate::canvas::may_resample(crop, resampled)
            &&& out.canvas@ == finished(
                resampled,
                logo,
                logo_pos.0 as int,
                logo_pos.1 as int,
            )
            &&& out.kind == kind
        };
    lemma_overlay_lands_upright(
        graded(resampled),
        logo,
        logo_pos.0 as int,
        logo_pos.1 as int,
        i,
        j,
        c,
    );
}

/// A picture that has the size of the composition already is not resampled: under the gradient and
/// beside the logo, its samples are what the canvas is made of.
pub proof fn lemma_composition_is_not_resampled(
    picture: Raster,
    kind: Kind,
    logo: Raster,
    logo_pos: (i32, i32),
    out: PreparedCanvas,
)
    requires
        is_prepared(picture, kind, logo, logo_pos, out),
        picture.width == 1080,
        picture.height == 1920,
        picture.depth == 3,
        picture.wf(),
    ensures
        out.canvas@ == finished(picture, logo, logo_pos.0 as int, logo_pos.1 as int),
{
    let crop = cropped_to_aspect(picture, 9, 16);
    assert forall|x: int, y: int, c: int|
        0 <= x < crop.width && 0 <= y < crop.height && 0 <= c < crop.depth implies
        #[trigger] crop.at(x, y, c) == picture.at(x, y, c) by {
        lemma_aspect_crop_is_centred(picture, 9, 16, x, y, c);
    }
    lemma_aspect_crop_is_centred(picture, 9, 16, 0, 0, 0);
    lemma_same_samples(crop, picture);
}

/// A picture that could be decoded is always prepared, as the kind that its file is; a file that
/// could not is reported with why.
pub proof fn lemma_decoding_followed(
    decoded: Result<Raster, Seq<char>>,
    kind: Kind,
    logo: Raster,
    logo_pos: (i32, i32),
    out: Result<PreparedCanvas, String>,
)
    requires
        follows_decoding(decoded, kind, logo, logo_pos, out),
    ensures
        decoded is Ok ==> out is Ok && out->Ok_0.kind == kind && is_prepared(
            decoded->Ok_0,
            kind,
            logo,
            logo_pos,
            out->Ok_0,
        ),
        decoded is Err ==> out is Err && out->Err_0@ == "decode: "@ + decoded->Err_0,
{
}

/// Preparing a file answers in one of these ways only: a file that is no picture by its name is
/// refused, whatever it holds; one that could not be read is reported with what the system said;
/// and otherwise the canvas, or the error, follows from decoding the bytes.
pub proof fn lemma_preparing_answers(
    path: Seq<char>,
    contents: Result<Vec<u8>, SourceError>,
    logo: Raster,
    logo_pos: (i32, i32),
    out: Result<PreparedCanvas, String>,
)
    requires
        may_prepare(path, contents, logo, logo_pos, out),
    ensures
        Kind::of_path(path) is None ==> out is Err && out->Err_0@ == "unsupported format"@,
        Kind::of_path(path) is Some && contents is Err ==> {
            &&& out is Err
            &&& out->Err_0@ == match contents->Err_0 {
                SourceError::Open(e) => "open: "@ + e@,
                SourceError::Header(e) => "read header: "@ + e@,
                SourceError::Rest(e) => "decode: "@ + e@,
            }
        },
        out is Ok ==> {
            &&& contents is Ok
            &&& Kind::of_path(path) == Some(out->Ok_0.kind)
            &&& exists|picture: Raster| #[trigger]
                is_decoding(out->Ok_0.kind, contents->Ok_0@, Ok(picture)) && is_prepared(
                    picture,
                    out->Ok_0.kind,
                    logo,
                    logo_pos,
                    out->Ok_0,
                )
        },
        out is Err && contents is Ok && Kind::of_path(path) is Some ==> exists|e: Seq<char>|
            out->Err_0@ == "decode: "@ + e && #[trigger] is_decoding(
                Kind::of_path(path)->Some_0,
                contents->Ok_0@,
                Err(e),
            ),
{
    if let Some(kind) = Kind::of_path(path) {
        if let Ok(bytes) = contents {
            let decoded = choose|decoded: Result<Raster, Seq<char>>|
                #[trigger] is_decoding(kind, bytes@, decoded) && follows_decoding(
                    decoded,
                    kind,
                    logo,
                    logo_pos,
                    out,
                );
            assert(is_decoding(kind, bytes@, decoded));
        }
    }
}

/// The square output shows the canvas from row 420 on, as far as the canvas reaches, whatever its
/// size; the portrait output shows all of it.
pub proof fn lemma_square_shows_middle(canvas: Raster, x: int, y: int, c: int)
    requires
        canvas.depth == 3,
        canvas.width <= u32::MAX,
        canvas.height <= u32::MAX,
        0 <= x < 1080,
        0 <= y < 1080,
        0 <= c < 3,
        x < canvas.width,
        y + 420 < canvas.height,
    ensures
        pictured(canvas, Format::Portrait916) == canvas,
        ({
            let square = pictured(canvas, Format::Square1x1);
            &&& square.at(x, y, c) == canvas.at(x, y + 420, c)
            &&& square.depth == 3
            &&& square.wf()
            &&& square.width == (if canvas.width < 1080 {
                canvas.width as int
            } else {
                1080
            })
            &&& square.height == (if canvas.height < 1500 {
                canvas.height - 420
            } else {
                1080
            })
        }),
{
    let rect = crate::canvas::clamped(
        crate::canvas::square(),
        canvas.width as u32,
        canvas.height as u32,
    );
    lemma_crop_shows_rectangle(canvas, rect, x, y + 420, c);
}

/// A JPEG output is compressed at quality 92, a PNG output is the file of the picture or reports
/// why there is none, and both are made of the picture that the format shows.
pub proof fn lemma_outputs_show_format(canvas: Raster, format: Format)
    ensures
        encoded_of(canvas, format, Kind::Jpeg) == Ok::<EncodedModel, Seq<char>>(
            EncodedModel::Jpeg { picture: pictured(canvas, format), quality: 92 },
        ),
        png_file(pictured(canvas, format)) matches Ok(bytes) ==> encoded_of(
            canvas,
            format,
            Kind::Png,
        ) == Ok::<EncodedModel, Seq<char>>(EncodedModel::Png(bytes)),
        png_file(pictured(canvas, format)) matches Err(e) ==> encoded_of(canvas, format, Kind::Png)
            == Err::<EncodedModel, Seq<char>>("PNG encode: "@ + e),
{
}

/// The logo as an overlay has, pixel for pixel, the opacity of its rendering, no colour where that
/// is nothing, and the colours of the rendering where the opacity is full.
pub proof fn lemma_logo_keeps_pixels(
    width: nat,
    height: nat,
    pixels: Seq<u8>,
    x: int,
    y: int,
    c: int,
)
    requires
        pixels.len() == width * height * 4,
        0 <= x < width,
        0 <= y < height,
        0 <= c < 3,
    ensures
        ({
            let at = 4 * (width * y + x);
            let value = pixels[at + c];
            let alpha = pixels[at + 3];
            let logo = straight(width, height, pixels);
            let out = logo.at(x, y, c);
            &&& logo.width == width
            &&& logo.height == height
            &&& logo.depth == 4
            &&& logo.wf()
            &&& 0 <= at
            &&& at + 3 < pixels.len()
            &&& logo.at(x, y, 3) == alpha
            &&& alpha == 0 ==> out == 0
            &&& alpha == 255 ==> out == value
            &&& 0 < alpha && value <= alpha ==> -(alpha as int) <= 2 * (out * alpha - value * 255)
                <= alpha
        }),
{
    let base = Raster { width, height, depth: 4, samples: pixels };
    let f = |x: int, y: int, c: int|
        if c < 3 {
            unmultiplied(base.at(x, y, c), base.at(x, y, 3))
        } else {
            base.at(x, y, 3)
        };
    let logo = straight(width, height, pixels);
    assert(logo =~= Raster::new(width, height, 4, f));
    lemma_new_at(width, height, 4, f, x, y, c);
    lemma_new_at(width, height, 4, f, x, y, 3);
    lemma_offset(width, height, 4, x, y, c);
    lemma_offset(width, height, 4, x, y, 3);
    lemma_offset(width, height, 4, x, y, 0);
    let at = 4 * (width * y + x);
    assert((y * width + x) * 4 == at) by (nonlinear_arith)
        requires
            at == 4 * (width * y + x),
    ;
    let value = pixels[at + c];
    let alpha = pixels[at + 3];
    if 0 < alpha && value <= alpha {
        crate::canvas::lemma_unmultiplied_is_nearest(value, alpha);
    }
}

/// Crops, canvases under the gradient and outputs have the size that they should, whatever is in
/// them.
pub proof fn lemma_picture_sizes(base: Raster, rect: Rect)
    ensures
        cropped(base, rect).width == rect.w,
        cropped(base, rect).height == rect.h,
        cropped(base, rect).depth == 3,
        cropped(base, rect).wf(),
        graded(base).width == base.width,
        graded(base).height == base.height,
        graded(base).depth == 3,
        graded(base).wf(),
        pictured(base, Format::Portrait916) == base,
        base.width <= u32::MAX && base.height <= u32::MAX ==> {
            let square = pictured(base, Format::Square1x1);
            &&& square.width == (if base.width < 1080 {
                base.width as int
            } else {
                1080
            })
            &&& square.height == (if base.height < 420 {
                0
            } else if base.height < 1500 {
                base.height - 420
            } else {
                1080
            })
        },
{
}

/// The composition without any light has its size, and every sample of it is zero.
pub proof fn lemma_black_is_dark(x: int, y: int, c: int)
    requires
        0 <= x < 1080,
        0 <= y < 1920,
        0 <= c < 3,
    ensures
        black().width == 1080,
        black().height == 1920,
        black().depth == 3,
        black().wf(),
        black().at(x, y, c) == 0,
{
    lemma_new_at(1080, 1920, 3, |x: int, y: int, c: int| 0u8, x, y, c);
}

/// A prepared canvas is made of the centred crop of the picture, of the aspect 9 to 16, resampled
/// as it is to the size of the composition: a crop of that size stays, one without pixels gives
/// black, and nothing else happens to it before the gradient and the logo.
pub proof fn lemma_prepared_from_crop(
    picture: Raster,
    kind: Kind,
    logo: Raster,
    logo_pos: (i32, i32),
    out: PreparedCanvas,
)
    requires
        is_prepared(picture, kind, logo, logo_pos, out),
    ensures
        out.kind == kind,
        exists|resampled: Raster|
            {
                let crop = cropped_to_aspect(picture, 9, 16);
                &&& #[trigger] is_resampling(cropped_to_aspect(picture, 9, 16), resampled)
                &&& resampled.width == 1080
                &&& resampled.height == 1920
                &&& crop.width == 1080 && crop.height == 1920 ==> resampled == crop
                &&& crop.width == 0 || crop.height == 0 ==> resampled == black()
                &&& out.canvas@ == overlaid(
                    graded(resampled),
                    logo,
                    logo_pos.0 as int,
                    logo_pos.1 as int,
                )
            },
{
    let crop = cropped_to_aspect(picture, 9, 16);
    let resampled = choose|resampled: Raster|
        {
            &&& #[trigger] crate::canvas::may_resample(crop, resampled)
            &&& out.canvas@ == finished(
                resampled,
                logo,
                logo_pos.0 as int,
                logo_pos.1 as int,
            )
            &&& out.kind == kind
        };
    assert(is_resampling(crop, resampled));
}

/// Undoing the product with alpha divides by it, to the nearest whole number, and keeps the lower
/// eight bits of what comes out; nothing of it is left where alpha is nothing.
pub proof fn lemma_unmultiplied_divides(value: u8, alpha: u8)
    ensures
        alpha == 0 ==> unmultiplied(value, alpha) == 0,
        alpha > 0 ==> exists|q: int|
            0 <= q && q * alpha <= value * 255 + alpha / 2 < (q + 1) * alpha && unmultiplied(
                value,
                alpha,
            ) == #[trigger] (q % 256),
{
    if alpha > 0 {
        let a = alpha as int;
        let n = value * 255 + alpha as int / 2;
        let q = n / a;
        assert(0 <= q && q * a <= n < (q + 1) * a) by (nonlinear_arith)
            requires
                a > 0,
                q == n / a,
                n >= 0,
        ;
        assert(unmultiplied(value, alpha) == q % 256);
    }
}

/// A PNG file is written as it is, and the failure to make one is reported.
pub proof fn lemma_png_answers(file: Result<Seq<u8>, Seq<char>>)
    ensures
        file matches Ok(bytes) ==> png_outcome(file) == Ok::<EncodedModel, Seq<char>>(
            EncodedModel::Png(bytes),
        ),
        file matches Err(e) ==> png_outcome(file) == Err::<EncodedModel, Seq<char>>(
            "PNG encode: "@ + e,
        ),
{
}

/// Whatever the size of a picture, the crop of an aspect is centred in it up to the odd pixel; it
/// has the full height, and a width that is the lower 32 bits of the one that the aspect asks for,
/// unless that is too wide: then it has the full width, and the height that the aspect asks for.
pub proof fn lemma_crop_of_any_size(w: u32, h: u32, aw: u32, ah: u32)
    requires
        aw > 0,
        ah > 0,
    ensures
        ({
            let r = aspect_rect(w, h, aw, ah);
            let asked = (h * aw / ah as int) % 0x1_0000_0000;
            &&& asked <= w ==> r.w == asked && r.h == h && r.y == 0 && 0 <= w - r.w - 2 * r.x <= 1
            &&& asked > w ==> r.w == w && r.h == w * ah / aw as int && r.x == 0 && 0 <= h - r.h - 2
                * r.y <= 1
        }),
{
    let asked = (h * aw / ah as int) % 0x1_0000_0000;
    if asked > w {
        crate::compositor::lemma_narrow_fits(w as int, h as int, aw as int, ah as int);
    }
}

} // verus!
