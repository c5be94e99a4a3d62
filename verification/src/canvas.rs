//! The canvas of one picture, from the source file to what is written: crop, resampling, gradient,
//! logo, and the crop of the square output.
use vstd::prelude::*;

use crate::compositor::{
    aspect_rect, center_crop_rect, overlaid, overlay_rgba, Format, Kind, Rect, ASPECT_H, ASPECT_W,
    COMP_H, COMP_W, JPEG_QUALITY, SQUARE_SIDE,
};
use crate::gradient::{apply_gradient, graded};
use crate::imaging::{
    decode_outcome, decode_rgb, encode_png, is_decoding, is_resampling, png_file, resize,
};
use crate::raster::{lemma_new_at, lemma_offset, Canvas, Overlay, Raster};
use crate::text::{bytes_outcome, outcome};

verus! {

/// The part of `base` inside a rectangle.
pub open spec fn cropped(base: Raster, rect: Rect) -> Raster {
    Raster::new(
        rect.w as nat,
        rect.h as nat,
        3,
        |x: int, y: int, c: int| base.at(rect.x + x, rect.y + y, c),
    )
}

/// Copies the part of a canvas inside a rectangle.
pub fn crop(canvas: &Canvas, rect: Rect) -> (out: Canvas)
    requires
        canvas.wf(),
        rect.x + rect.w <= canvas.width,
        rect.y + rect.h <= canvas.height,
    ensures
        out@ == cropped(canvas@, rect),
        out.wf(),
{
    let ghost base = canvas@;
    let ghost f = |x: int, y: int, c: int| base.at(rect.x + x, rect.y + y, c);
    let ghost goal = cropped(base, rect);
    assert(goal == Raster::new(rect.w as nat, rect.h as nat, 3, f));
    let w: usize = rect.w as usize;
    let h: usize = rect.h as usize;
    let left: usize = rect.x as usize;
    let top: usize = rect.y as usize;
    let stride: usize = canvas.width as usize;
    let mut out: Vec<u8> = Vec::new();
    let mut row: usize = 0;
    while row < h
        invariant
            row <= h,
            w == rect.w,
            h == rect.h,
            left == rect.x,
            top == rect.y,
            stride == canvas.width,
            canvas@ == base,
            base.wf(),
            rect.x + rect.w <= canvas.width,
            rect.y + rect.h <= canvas.height,
            f == (|x: int, y: int, c: int| base.at(rect.x + x, rect.y + y, c)),
            goal == Raster::new(rect.w as nat, rect.h as nat, 3, f),
            out@.len() == row * w * 3,
            out@.len() <= goal.samples.len(),
            forall|i: int| 0 <= i < out@.len() ==> out@[i] == goal.samples[i],
        decreases h - row,
    {
        let mut col: usize = 0;
        while col < w
            invariant
                col <= w,
                row < h,
                w == rect.w,
                h == rect.h,
                left == rect.x,
                top == rect.y,
                stride == canvas.width,
                canvas@ == base,
                base.wf(),
                rect.x + rect.w <= canvas.width,
                rect.y + rect.h <= canvas.height,
                f == (|x: int, y: int, c: int| base.at(rect.x + x, rect.y + y, c)),
                goal == Raster::new(rect.w as nat, rect.h as nat, 3, f),
                out@.len() == (row * w + col) * 3,
                forall|i: int| 0 <= i < out@.len() ==> out@[i] == goal.samples[i],
            decreases w - col,
        {
            let ghost x = left + col;
            let ghost y = top + row;
            proof {
                lemma_offset(base.width, base.height, 3, x, y, 0);
                lemma_offset(base.width, base.height, 3, x, y, 2);
                lemma_new_at(rect.w as nat, rect.h as nat, 3, f, col as int, row as int, 0);
                lemma_new_at(rect.w as nat, rect.h as nat, 3, f, col as int, row as int, 1);
                lemma_new_at(rect.w as nat, rect.h as nat, 3, f, col as int, row as int, 2);
                assert(0 <= y * stride && 0 <= y * stride + x <= (y * stride + x) * 3)
                    by (nonlinear_arith)
                    requires
                        0 <= x,
                        0 <= y,
                        0 <= stride,
                ;
            }
            assert((y * stride + x) * 3 + 2 < canvas.pixels.len());
            let from: usize = ((top + row) * stride + (left + col)) * 3;
            out.push(canvas.pixels[from]);
            out.push(canvas.pixels[from + 1]);
            out.push(canvas.pixels[from + 2]);
            col = col + 1;
        }
        proof {
            assert((row + 1) * w * 3 == (row * w + w) * 3) by (nonlinear_arith);
            assert((row + 1) * w * 3 <= w * h * 3) by (nonlinear_arith)
                requires
                    row + 1 <= h,
            ;
        }
        row = row + 1;
    }
    assert(h * w * 3 == w * h * 3) by (nonlinear_arith);
    assert(out@ =~= goal.samples);
    Canvas { width: rect.w, height: rect.h, pixels: out }
}

/// `base` cropped to the centred rectangle of aspect `aw:ah`.
pub open spec fn cropped_to_aspect(base: Raster, aw: u32, ah: u32) -> Raster {
    cropped(base, aspect_rect(base.width as u32, base.height as u32, aw, ah))
}

/// Crops a picture to the centred rectangle of aspect `aw:ah`.
pub fn center_crop_to_aspect(picture: &Canvas, aw: u32, ah: u32) -> (out: Canvas)
    requires
        picture.wf(),
        aw > 0,
        ah > 0,
    ensures
        out@ == cropped_to_aspect(picture@, aw, ah),
        out.wf(),
{
    crop(picture, center_crop_rect(picture.width, picture.height, aw, ah))
}

/// A canvas ready for text, and the kind of file that it is written as.
pub struct PreparedCanvas {
    pub canvas: Canvas,
    pub kind: Kind,
}

/// What a source picture becomes once it is resampled: the gradient, and over it the logo.
pub open spec fn finished(resampled: Raster, logo: Raster, x: int, y: int) -> Raster {
    overlaid(graded(resampled), logo, x, y)
}

/// Lays the gradient and then the logo over a resampled picture.
pub fn finish_canvas(resampled: Canvas, kind: Kind, logo: &Overlay, logo_pos: (i32, i32)) -> (out:
    PreparedCanvas)
    requires
        resampled.wf(),
        logo.wf(),
    ensures
        out.kind == kind,
        out.canvas@ == finished(resampled@, logo@, logo_pos.0 as int, logo_pos.1 as int),
        out.canvas.wf(),
{
    let mut canvas = resampled;
    apply_gradient(&mut canvas);
    overlay_rgba(&mut canvas, logo, logo_pos.0, logo_pos.1);
    PreparedCanvas { canvas, kind }
}

/// Why the contents of a source file could not be read, with what the system says of it.
pub enum SourceError {
    /// The file could not be opened.
    Open(String),
    /// Its first bytes could not be read.
    Header(String),
    /// The rest could not be read.
    Rest(String),
}

/// How a failure to read a source file is reported.
pub open spec fn source_error_text(error: SourceError) -> Seq<char> {
    match error {
        SourceError::Open(e) => "open: "@ + e@,
        SourceError::Header(e) => "read header: "@ + e@,
        SourceError::Rest(e) => "decode: "@ + e@,
    }
}

/// Whether `resampled` may be the crop `crop` resampled to the size of the composition. A crop of
/// that size already stays as it is, and one without pixels gives black.
pub open spec fn may_resample(crop: Raster, resampled: Raster) -> bool {
    &&& is_resampling(crop, resampled)
    &&& resampled.width == COMP_W
    &&& resampled.height == COMP_H
    &&& crop.width == COMP_W && crop.height == COMP_H ==> resampled == crop
    &&& crop.width == 0 || crop.height == 0 ==> resampled == black()
}

/// The composition without any light.
pub open spec fn black() -> Raster {
    Raster::new(COMP_W as nat, COMP_H as nat, 3, |x: int, y: int, c: int| 0u8)
}

/// Whether `out` is a result of preparing the decoded picture `picture`: cropped to the aspect of
/// the composition, resampled to its size, and finished.
pub open spec fn is_prepared(
    picture: Raster,
    kind: Kind,
    logo: Raster,
    logo_pos: (i32, i32),
    out: PreparedCanvas,
) -> bool {
    exists|resampled: Raster|
        {
            &&& #[trigger] may_resample(
                cropped_to_aspect(picture, ASPECT_W, ASPECT_H),
                resampled,
            )
            &&& out.canvas@ == finished(resampled, logo, logo_pos.0 as int, logo_pos.1 as int)
            &&& out.kind == kind
        }
}

/// Whether `out` is what preparing the picture that decoding `decoded` gave comes to.
pub open spec fn follows_decoding(
    decoded: Result<Raster, Seq<char>>,
    kind: Kind,
    logo: Raster,
    logo_pos: (i32, i32),
    out: Result<PreparedCanvas, String>,
) -> bool {
    match decoded {
        Ok(picture) => out matches Ok(o) && is_prepared(picture, kind, logo, logo_pos, o),
        Err(e) => out matches Err(text) && text@ == "decode: "@ + e,
    }
}

/// What preparing a canvas from the file at `path` may come to.
pub open spec fn may_prepare(
    path: Seq<char>,
    contents: Result<Vec<u8>, SourceError>,
    logo: Raster,
    logo_pos: (i32, i32),
    out: Result<PreparedCanvas, String>,
) -> bool {
    match Kind::of_path(path) {
        None => out matches Err(text) && text@ == "unsupported format"@,
        Some(kind) => match contents {
            Err(error) => out matches Err(text) && text@ == source_error_text(error),
            Ok(bytes) => exists|decoded: Result<Raster, Seq<char>>|
                #[trigger] is_decoding(kind, bytes@, decoded) && follows_decoding(
                    decoded,
                    kind,
                    logo,
                    logo_pos,
                    out,
                ),
        },
    }
}

/// The 9:16 crop of a picture is narrow enough to be resampled within memory.
proof fn lemma_crop_is_narrow(w: int, h: int, samples: int)
    requires
        0 <= w <= u32::MAX,
        0 <= h <= u32::MAX,
        16 * w <= 9 * h + 8,
        w * h * 3 == samples,
        samples <= usize::MAX,
    ensures
        w * COMP_H * 16 <= isize::MAX,
{
    if w >= 30000 {
        assert(w * h * 3 >= 30000 * 53332 * 3) by (nonlinear_arith)
            requires
                w >= 30000,
                16 * w <= 9 * h + 8,
        ;
        assert(usize::MAX > 0x1_0000_0000);
    }
}

/// Builds the shared 9:16 canvas of what decoding a source file gave.
pub fn prepare_decoded(
    decoded: Result<Canvas, String>,
    kind: Kind,
    logo: &Overlay,
    logo_pos: (i32, i32),
) -> (out: Result<PreparedCanvas, String>)
    requires
        logo.wf(),
        decoded matches Ok(picture) ==> picture.wf(),
    ensures
        follows_decoding(decode_outcome(decoded), kind, logo@, logo_pos, out),
        out matches Ok(o) ==> o.canvas.wf() && o.canvas.width == COMP_W && o.canvas.height
            == COMP_H,
        decoded matches Ok(picture) ==> {
            let crop = cropped_to_aspect(picture@, ASPECT_W, ASPECT_H);
            let x = logo_pos.0 as int;
            let y = logo_pos.1 as int;
            out matches Ok(o) && {
                &&& crop.width == COMP_W && crop.height == COMP_H ==> o.canvas@ == finished(
                    crop,
                    logo@,
                    x,
                    y,
                )
                &&& crop.width == 0 || crop.height == 0 ==> o.canvas@ == finished(
                    black(),
                    logo@,
                    x,
                    y,
                )
            }
        },
{
    match decoded {
        Err(e) => Err("decode: ".to_string().concat(e.as_str())),
        Ok(picture) => {
            let narrow = center_crop_to_aspect(&picture, ASPECT_W, ASPECT_H);
            proof {
                assert(16 * narrow.width <= 9 * narrow.height + 8);
                lemma_crop_is_narrow(
                    narrow.width as int,
                    narrow.height as int,
                    narrow.pixels.len() as int,
                );
            }
            let resampled = resize(&narrow, COMP_W, COMP_H);
            let ghost model = resampled@;
            proof {
                if narrow.width == 0 || narrow.height == 0 {
                    assert(model =~= black());
                }
            }
            let prepared = finish_canvas(resampled, kind, logo, logo_pos);
            assert(may_resample(cropped_to_aspect(picture@, ASPECT_W, ASPECT_H), model));
            assert(is_prepared(picture@, kind, logo@, logo_pos, prepared));
            Ok(prepared)
        },
    }
}

/// Builds the shared 9:16 canvas of a source file: crop, resampling, gradient, logo. `contents` are
/// the bytes of the file at `source_path`.
pub fn prepare_canvas(
    source_path: &str,
    contents: &Result<Vec<u8>, SourceError>,
    logo: &Overlay,
    logo_pos: (i32, i32),
) -> (out: Result<PreparedCanvas, String>)
    requires
        logo.wf(),
    ensures
        may_prepare(source_path@, *contents, logo@, logo_pos, out),
        out matches Ok(o) ==> o.canvas.wf() && o.canvas.width == COMP_W && o.canvas.height
            == COMP_H,
{
    let kind = match Kind::from_path(source_path) {
        Some(kind) => kind,
        None => {
            return Err("unsupported format".to_string());
        },
    };
    let bytes = match contents {
        Ok(bytes) => bytes,
        Err(SourceError::Open(e)) => {
            return Err("open: ".to_string().concat(e.as_str()));
        },
        Err(SourceError::Header(e)) => {
            return Err("read header: ".to_string().concat(e.as_str()));
        },
        Err(SourceError::Rest(e)) => {
            return Err("decode: ".to_string().concat(e.as_str()));
        },
    };
    prepare_decoded(decode_rgb(kind, bytes), kind, logo, logo_pos)
}

/// `rect` cut off at the edges of a picture of `w` by `h` pixels.
pub open spec fn clamped(rect: Rect, w: u32, h: u32) -> Rect {
    let x = if rect.x < w {
        rect.x
    } else {
        w
    };
    let y = if rect.y < h {
        rect.y
    } else {
        h
    };
    Rect {
        x,
        y,
        w: if rect.w < w - x {
            rect.w
        } else {
            (w - x) as u32
        },
        h: if rect.h < h - y {
            rect.h
        } else {
            (h - y) as u32
        },
    }
}

/// Cuts a rectangle off at the edges of a picture.
fn clamp_rect(rect: Rect, w: u32, h: u32) -> (out: Rect)
    ensures
        out == clamped(rect, w, h),
        out.x + out.w <= w,
        out.y + out.h <= h,
{
    let x: u32 = if rect.x < w {
        rect.x
    } else {
        w
    };
    let y: u32 = if rect.y < h {
        rect.y
    } else {
        h
    };
    Rect {
        x,
        y,
        w: if rect.w < w - x {
            rect.w
        } else {
            w - x
        },
        h: if rect.h < h - y {
            rect.h
        } else {
            h - y
        },
    }
}

/// The centred square of the composition.
pub open spec fn square() -> Rect {
    Rect { x: 0, y: ((COMP_H - SQUARE_SIDE) / 2) as u32, w: SQUARE_SIDE, h: SQUARE_SIDE }
}

/// The picture that an output in a format shows of a composed canvas.
pub open spec fn pictured(canvas: Raster, format: Format) -> Raster {
    match format {
        Format::Portrait916 => canvas,
        Format::Square1x1 => cropped(
            canvas,
            clamped(square(), canvas.width as u32, canvas.height as u32),
        ),
    }
}

/// The picture that an output in a format shows of a composed canvas.
pub fn output_picture(canvas: &Canvas, format: Format) -> (picture: Canvas)
    requires
        canvas.wf(),
    ensures
        picture@ == pictured(canvas@, format),
        picture.wf(),
{
    match format {
        Format::Portrait916 => Canvas {
            width: canvas.width,
            height: canvas.height,
            pixels: canvas.pixels.clone(),
        },
        Format::Square1x1 => {
            let y: u32 = (COMP_H - SQUARE_SIDE) / 2;
            let rect = Rect { x: 0, y, w: SQUARE_SIDE, h: SQUARE_SIDE };
            crop(canvas, clamp_rect(rect, canvas.width, canvas.height))
        },
    }
}

/// What is to be written for one output, in mathematical terms.
pub enum EncodedModel {
    Png(Seq<u8>),
    Jpeg { picture: Raster, quality: int },
}

/// What is to be written for one output.
pub enum Encoded {
    /// The bytes of the file.
    Png(Vec<u8>),
    /// The picture, to be compressed at that quality.
    Jpeg { picture: Canvas, quality: i32 },
}

impl DeepView for Encoded {
    type V = EncodedModel;

    open spec fn deep_view(&self) -> EncodedModel {
        match *self {
            Encoded::Png(bytes) => EncodedModel::Png(bytes@),
            Encoded::Jpeg { picture, quality } => EncodedModel::Jpeg {
                picture: picture@,
                quality: quality as int,
            },
        }
    }
}

/// What a PNG file, or the failure to make one, comes to.
pub open spec fn png_outcome(file: Result<Seq<u8>, Seq<char>>) -> Result<EncodedModel, Seq<char>> {
    match file {
        Ok(bytes) => Ok(EncodedModel::Png(bytes)),
        Err(e) => Err("PNG encode: "@ + e),
    }
}

/// What a PNG file, or the failure to make one, comes to.
pub fn png_output(file: Result<Vec<u8>, String>) -> (out: Result<Encoded, String>)
    ensures
        outcome(out) == png_outcome(bytes_outcome(file)),
{
    match file {
        Ok(bytes) => Ok(Encoded::Png(bytes)),
        Err(e) => Err("PNG encode: ".to_string().concat(e.as_str())),
    }
}

/// What a composed canvas comes to as a file of a kind, in a format.
pub open spec fn encoded_of(canvas: Raster, format: Format, kind: Kind) -> Result<
    EncodedModel,
    Seq<char>,
> {
    let picture = pictured(canvas, format);
    match kind {
        Kind::Jpeg => Ok(EncodedModel::Jpeg { picture, quality: JPEG_QUALITY as int }),
        Kind::Png => png_outcome(png_file(picture)),
    }
}

/// Encodes a composed canvas in one format.
pub fn encode_output(canvas: &Canvas, format: Format, kind: Kind) -> (out: Result<Encoded, String>)
    requires
        canvas.wf(),
    ensures
        outcome(out) == encoded_of(canvas@, format, kind),
        out matches Ok(Encoded::Jpeg { picture, .. }) ==> picture.wf(),
{
    let picture = output_picture(canvas, format);
    match kind {
        Kind::Jpeg => Ok(Encoded::Jpeg { picture, quality: JPEG_QUALITY }),
        Kind::Png => png_output(encode_png(&picture)),
    }
}

/// A composed canvas gives a portrait output of 1080 by 1920 pixels, which is the canvas itself,
/// and a square one of 1080 by 1080, which is the canvas from row 420 on.
pub proof fn lemma_output_sizes(canvas: Raster, x: int, y: int, c: int)
    requires
        canvas.width == COMP_W,
        canvas.height == COMP_H,
        canvas.depth == 3,
    ensures
        pictured(canvas, Format::Portrait916) == canvas,
        pictured(canvas, Format::Square1x1).width == 1080,
        pictured(canvas, Format::Square1x1).height == 1080,
        pictured(canvas, Format::Square1x1).wf(),
        0 <= x < 1080 && 0 <= y < 1080 && 0 <= c < 3 ==> pictured(canvas, Format::Square1x1).at(
            x,
            y,
            c,
        ) == canvas.at(x, y + 420, c),
{
    let rect = square();
    let f = |x: int, y: int, c: int| canvas.at(rect.x + x, rect.y + y, c);
    assert(clamped(rect, canvas.width as u32, canvas.height as u32) == rect);
    lemma_new_at(1080, 1080, 3, f, 0, 0, 0);
    if 0 <= x < 1080 && 0 <= y < 1080 && 0 <= c < 3 {
        lemma_new_at(1080, 1080, 3, f, x, y, c);
    }
}

/// One channel of a pixel of opacity `alpha` whose colour was multiplied by it, with the product
/// undone.
pub open spec fn unmultiplied(value: u8, alpha: u8) -> u8 {
    if alpha == 0 {
        0
    } else {
        ((value * 255 + alpha / 2) / alpha as int % 256) as u8
    }
}

/// The picture with straight alpha that `pixels`, in which colours are multiplied by alpha, show.
pub open spec fn straight(width: nat, height: nat, pixels: Seq<u8>) -> Raster {
    let base = Raster { width, height, depth: 4, samples: pixels };
    Raster::new(
        width,
        height,
        4,
        |x: int, y: int, c: int|
            if c < 3 {
                unmultiplied(base.at(x, y, c), base.at(x, y, 3))
            } else {
                base.at(x, y, 3)
            },
    )
}

/// Undoes the product with alpha in one channel.
fn unmultiply(value: u8, alpha: u8) -> (out: u8)
    ensures
        out == unmultiplied(value, alpha),
{
    if alpha == 0 {
        0
    } else {
        let wide: u32 = (value as u32 * 255 + alpha as u32 / 2) / alpha as u32;
        (wide % 256) as u8
    }
}

/// The logo as an overlay, from the pixels of a rendering in which colours are multiplied by alpha.
/// Pixels that are not as many as the size asks for make no overlay.
pub fn logo_overlay(pixels: &Vec<u8>, width: u32, height: u32) -> (logo: Result<Overlay, String>)
    ensures
        match logo {
            Ok(overlay) => {
                &&& pixels@.len() == width * height * 4
                &&& overlay@ == straight(width as nat, height as nat, pixels@)
                &&& overlay.wf()
            },
            Err(e) => pixels@.len() != width * height * 4 && e@ == "logo image alloc failed"@,
        },
{
    assert(width * height <= u32::MAX * u32::MAX) by (nonlinear_arith)
        requires
            0 <= width <= u32::MAX,
            0 <= height <= u32::MAX,
    ;
    let expected: u128 = width as u128 * height as u128 * 4;
    if pixels.len() as u128 != expected {
        return Err("logo image alloc failed".to_string());
    }
    let ghost base = Raster {
        width: width as nat,
        height: height as nat,
        depth: 4,
        samples: pixels@,
    };
    let ghost f = |x: int, y: int, c: int|
        if c < 3 {
            unmultiplied(base.at(x, y, c), base.at(x, y, 3))
        } else {
            base.at(x, y, 3)
        };
    let ghost goal = straight(width as nat, height as nat, pixels@);
    assert(goal == Raster::new(width as nat, height as nat, 4, f));
    let n: usize = pixels.len();
    let mut out: Vec<u8> = Vec::new();
    while out.len() < n
        invariant
            n == pixels@.len() == width * height * 4,
            base == (Raster {
                width: width as nat,
                height: height as nat,
                depth: 4,
                samples: pixels@,
            }),
            f == (|x: int, y: int, c: int|
                if c < 3 {
                    unmultiplied(base.at(x, y, c), base.at(x, y, 3))
                } else {
                    base.at(x, y, 3)
                }),
            goal == Raster::new(width as nat, height as nat, 4, f),
            out@.len() <= n,
            out@.len() % 4 == 0,
            forall|i: int| 0 <= i < out@.len() ==> out@[i] == goal.samples[i],
        decreases n - out@.len(),
    {
        let at: usize = out.len();
        let ghost p = at as int / 4;
        let ghost x = p % (width as int);
        let ghost y = p / width as int;
        proof {
            lemma_pixel_place(p, width as int, height as int);
            assert(base.offset(x, y, 0) == at);
            lemma_new_at(width as nat, height as nat, 4, f, x, y, 0);
            lemma_new_at(width as nat, height as nat, 4, f, x, y, 1);
            lemma_new_at(width as nat, height as nat, 4, f, x, y, 2);
            lemma_new_at(width as nat, height as nat, 4, f, x, y, 3);
        }
        let alpha: u8 = pixels[at + 3];
        out.push(unmultiply(pixels[at], alpha));
        out.push(unmultiply(pixels[at + 1], alpha));
        out.push(unmultiply(pixels[at + 2], alpha));
        out.push(alpha);
    }
    assert(out@ =~= goal.samples);
    Ok(Overlay { width, height, pixels: out })
}

proof fn lemma_pixel_place(p: int, w: int, h: int)
    requires
        0 <= w,
        0 <= h,
        0 <= p,
        p * 4 < w * h * 4,
    ensures
        0 <= p % w < w,
        0 <= p / w < h,
        (p / w) * w + p % w == p,
{
    assert(w > 0) by (nonlinear_arith)
        requires
            0 <= w,
            0 <= p,
            p * 4 < w * h * 4,
    ;
    vstd::arithmetic::div_mod::lemma_fundamental_div_mod(p, w);
    assert(0 <= p / w < h) by (nonlinear_arith)
        requires
            w > 0,
            0 <= p < w * h,
    ;
    assert((p / w) * w + p % w == p) by (nonlinear_arith)
        requires
            p == w * (p / w) + p % w,
    ;
}

/// Undoing the product with alpha gives the nearest value whose product it was: at most 255, the
/// value itself for an opaque pixel, and full colour where the product is alpha itself.
pub proof fn lemma_unmultiplied_is_nearest(value: u8, alpha: u8)
    requires
        0 < alpha,
        value <= alpha,
    ensures
        -(alpha as int) <= 2 * (unmultiplied(value, alpha) * alpha - value * 255) <= alpha,
        alpha == 255 ==> unmultiplied(value, alpha) == value,
        value == alpha ==> unmultiplied(value, alpha) == 255,
        value == 0 ==> unmultiplied(value, alpha) == 0,
{
    let v = value as int;
    let a = alpha as int;
    let n = v * 255 + a / 2;
    let q = n / a;
    assert(q * a <= n < (q + 1) * a) by (nonlinear_arith)
        requires
            a > 0,
            q == n / a,
    ;
    assert(0 <= q <= 255) by (nonlinear_arith)
        requires
            q * a <= n < (q + 1) * a,
            n == v * 255 + a / 2,
            0 <= v <= a,
            a > 0,
    ;
    assert(unmultiplied(value, alpha) == q);
    assert((q + 1) * a == q * a + a) by (nonlinear_arith);
    if v == a {
        assert(q == 255) by (nonlinear_arith)
            requires
                q * a <= n < (q + 1) * a,
                n == v * 255 + a / 2,
                v == a,
                a > 0,
        ;
    }
    if a == 255 {
        assert(q == v) by (nonlinear_arith)
            requires
                q * a <= n < (q + 1) * a,
                n == v * 255 + a / 2,
                a == 255,
        ;
    }
    if v == 0 {
        assert(q == 0) by (nonlinear_arith)
            requires
                q * a <= n < (q + 1) * a,
                n == a / 2,
                0 <= q,
                a > 0,
        ;
    }
}

} // verus!
