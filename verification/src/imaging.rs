//! Picture files and resampling, done by the `image` crate.
use image::codecs::png::{CompressionType, FilterType, PngEncoder};
use image::imageops::FilterType as ResizeFilter;
use image::{ExtendedColorType, ImageEncoder, ImageFormat, ImageReader, RgbImage};
use std::io::Cursor;
use vstd::prelude::*;

use crate::compositor::Kind;
use crate::raster::{Canvas, Raster};
use crate::text::bytes_outcome;

verus! {

/// What decoding came to, in mathematical terms.
pub open spec fn decode_outcome(r: Result<Canvas, String>) -> Result<Raster, Seq<char>> {
    match r {
        Ok(canvas) => Ok(canvas@),
        Err(e) => Err(e@),
    }
}

/// Whether `picture` is a result of decoding `bytes`, the contents of a file whose name says that
/// it is of kind `kind`. A decoder may use what instructions the machine has, so this is a relation
/// and not a function.
pub uninterp spec fn is_decoding(
    kind: Kind,
    bytes: Seq<u8>,
    picture: Result<Raster, Seq<char>>,
) -> bool;

/// Whether `out` is a result of resampling `source` with the Lanczos filter. The filter takes the
/// sine of single-precision numbers, whose last digit the machine decides, so this is a relation
/// and not a function.
pub uninterp spec fn is_resampling(source: Raster, out: Raster) -> bool;

/// The bytes of the PNG file that holds `picture`, or why there is none.
pub uninterp spec fn png_file(picture: Raster) -> Result<Seq<u8>, Seq<char>>;

/// `image::ImageReader` with `with_guessed_format`, `decode` and `to_rgb8`: the picture in the
/// bytes, or the text of the error. The format is the one that the first bytes tell, and where they
/// tell none, the one that `kind` stands for. The picture has as many samples as its size asks for.
#[verifier::external_body]
pub(crate) fn decode_rgb(kind: Kind, bytes: &Vec<u8>) -> (picture: Result<Canvas, String>)
    ensures
        is_decoding(kind, bytes@, decode_outcome(picture)),
        picture matches Ok(canvas) ==> canvas.wf(),
{
    let format = match kind {
        Kind::Jpeg => ImageFormat::Jpeg,
        Kind::Png => ImageFormat::Png,
    };
    let reader = ImageReader::with_format(Cursor::new(bytes), format);
    let decoded = reader.with_guessed_format().map_err(|e| e.to_string())?.decode();
    let rgb = decoded.map_err(|e| e.to_string())?.to_rgb8();
    Ok(Canvas { width: rgb.width(), height: rgb.height(), pixels: rgb.into_raw() })
}

/// `image::imageops::resize` with `FilterType::Lanczos3`: a picture of the size asked for. One that
/// has that size already is copied, and one without pixels gives black.
#[verifier::external_body]
pub(crate) fn resize(source: &Canvas, width: u32, height: u32) -> (out: Canvas)
    requires
        source.wf(),
        source.width * height * 16 <= isize::MAX,
        width * height * 3 <= isize::MAX,
    ensures
        out.wf(),
        out.width == width,
        out.height == height,
        is_resampling(source@, out@),
        source.width == width && source.height == height ==> out@ == source@,
        source.width == 0 || source.height == 0 ==> forall|i: int|
            0 <= i < out.pixels@.len() ==> #[trigger] out.pixels@[i] == 0,
{
    let rgb = RgbImage::from_raw(source.width, source.height, source.pixels.clone()).unwrap();
    let out = image::imageops::resize(&rgb, width, height, ResizeFilter::Lanczos3);
    Canvas { width: out.width(), height: out.height(), pixels: out.into_raw() }
}

/// `image::codecs::png::PngEncoder::write_image`, with fast compression and adaptive filters, into
/// memory: the bytes of the file, or the text of the error, are a function of the picture.
#[verifier::external_body]
pub(crate) fn encode_png(picture: &Canvas) -> (file: Result<Vec<u8>, String>)
    requires
        picture.wf(),
    ensures
        bytes_outcome(file) == png_file(picture@),
{
    let mut bytes = Vec::new();
    PngEncoder::new_with_quality(&mut bytes, CompressionType::Fast, FilterType::Adaptive)
        .write_image(&picture.pixels, picture.width, picture.height, ExtendedColorType::Rgb8)
        .map_err(|e| e.to_string())?;
    Ok(bytes)
}

} // verus!
