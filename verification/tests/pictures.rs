//! Crops, overlays, canvases and picture files.
use batcher::canvas::{
    center_crop_to_aspect, crop, encode_output, finish_canvas, output_picture, png_output,
    prepare_canvas, prepare_decoded, Encoded, PreparedCanvas, SourceError,
};
use batcher::compositor::{
    anchor_x, center_crop_rect, overlay_rgba, resolve_layout, Anchor, Format, Kind, Layout,
    LayoutSpec, Rect, COMP_H, COMP_W, LINE_HEIGHT_FACTOR, TEXT_FONT_PX,
};
use ab_glyph::{Font, FontRef, PxScale, ScaleFont};
use batcher::lettering::{aeonik, compose_text, FontChoice, Typeface};
use batcher::raster::{Canvas, Overlay};
use image::codecs::jpeg::JpegEncoder;
use image::codecs::png::PngEncoder;
use image::{ExtendedColorType, ImageEncoder, Rgb, RgbImage};
use imageproc::drawing::draw_text_mut;

/// The canvas with a text on it, drawn with the brand font.
fn composed(stage: &PreparedCanvas, text: &str, brand: &Typeface, layout: &Layout) -> Canvas {
    let font = FontRef::try_from_slice(brand.bytes()).unwrap();
    let scale = PxScale::from(f32::from_bits(layout.font_px));
    let scaled = font.as_scaled(scale);
    let spacing = f32::from_bits(layout.letter_spacing_px);
    let fits = |_: FontChoice, s: &str| {
        let width: f32 = s.chars().map(|c| scaled.h_advance(font.glyph_id(c)) + spacing).sum();
        width <= layout.text_max_width as f32
    };
    let plan = compose_text(
        text,
        brand,
        &None,
        layout.text_origin,
        layout.text_max_width,
        layout.font_px,
        layout.line_height,
        layout.letter_spacing_px,
        &fits,
    )
    .expect("rows of text");
    assert!(plan.font == FontChoice::Brand);
    assert_eq!((plan.x, plan.rows[0].y), layout.text_origin);
    let words: Vec<&str> = plan.rows.iter().flat_map(|r| r.text.split_whitespace()).collect();
    assert_eq!(words, text.split_whitespace().collect::<Vec<_>>());
    let source = &stage.canvas;
    let mut picture =
        RgbImage::from_raw(source.width, source.height, source.pixels.clone()).unwrap();
    for row in &plan.rows {
        draw_text_mut(&mut picture, Rgb([255, 255, 255]), plan.x, row.y, scale, &font, &row.text);
    }
    Canvas { width: source.width, height: source.height, pixels: picture.into_raw() }
}

fn put16(out: &mut Vec<u8>, n: u16) {
    out.extend_from_slice(&n.to_be_bytes());
}

fn put32(out: &mut Vec<u8>, n: u32) {
    out.extend_from_slice(&n.to_be_bytes());
}

/// A font file with glyphs for the characters from `first` to `last`.
fn font(first: char, last: char) -> Vec<u8> {
    let mut cmap = Vec::new();
    for n in [0, 1, 3, 10] {
        put16(&mut cmap, n);
    }
    put32(&mut cmap, 12);
    put16(&mut cmap, 12);
    put16(&mut cmap, 0);
    for n in [28, 0, 1, first as u32, last as u32, 1] {
        put32(&mut cmap, n);
    }
    let mut head = Vec::new();
    for n in [0x0001_0000, 0x0001_0000, 0, 0x5f0f_3cf5] {
        put32(&mut head, n);
    }
    put16(&mut head, 0);
    put16(&mut head, 1000);
    head.extend_from_slice(&[0; 16]);
    head.extend_from_slice(&[0; 8]);
    for n in [0, 8, 2, 0, 0] {
        put16(&mut head, n);
    }
    let mut hhea = Vec::new();
    put32(&mut hhea, 0x0001_0000);
    put16(&mut hhea, 800);
    hhea.extend_from_slice(&[0; 28]);
    put16(&mut hhea, 1);
    let mut maxp = Vec::new();
    put32(&mut maxp, 0x0000_5000);
    put16(&mut maxp, 300);
    let tables = [(b"cmap", cmap), (b"head", head), (b"hhea", hhea), (b"maxp", maxp)];
    let mut out = Vec::new();
    put32(&mut out, 0x0001_0000);
    for n in [tables.len() as u16, 64, 2, 0] {
        put16(&mut out, n);
    }
    let mut offset = 12 + 16 * tables.len();
    for (tag, data) in &tables {
        out.extend_from_slice(*tag);
        put32(&mut out, 0);
        put32(&mut out, offset as u32);
        put32(&mut out, data.len() as u32);
        offset += (data.len() + 3) / 4 * 4;
    }
    for (_, data) in &tables {
        out.extend_from_slice(data);
        while out.len() % 4 != 0 {
            out.push(0);
        }
    }
    out
}

fn pattern(width: u32, height: u32) -> Canvas {
    let mut pixels = Vec::new();
    for y in 0..height {
        for x in 0..width {
            pixels.push((x * 7 + y) as u8);
            pixels.push((x + y * 5) as u8);
            pixels.push((x * y) as u8);
        }
    }
    Canvas { width, height, pixels }
}

fn pixel(canvas: &Canvas, x: u32, y: u32) -> [u8; 3] {
    let at = ((y * canvas.width + x) * 3) as usize;
    [canvas.pixels[at], canvas.pixels[at + 1], canvas.pixels[at + 2]]
}

fn no_logo() -> Overlay {
    Overlay { width: 0, height: 0, pixels: vec![] }
}

fn png_bytes(canvas: &Canvas) -> Vec<u8> {
    let mut out = Vec::new();
    PngEncoder::new(&mut out)
        .write_image(&canvas.pixels, canvas.width, canvas.height, ExtendedColorType::Rgb8)
        .unwrap();
    out
}

fn jpeg_bytes(canvas: &Canvas) -> Vec<u8> {
    let mut out = Vec::new();
    JpegEncoder::new_with_quality(&mut out, 92)
        .write_image(&canvas.pixels, canvas.width, canvas.height, ExtendedColorType::Rgb8)
        .unwrap();
    out
}

fn prepared(result: Result<PreparedCanvas, String>) -> PreparedCanvas {
    match result {
        Ok(p) => p,
        Err(e) => panic!("{e}"),
    }
}

fn refusal(result: Result<PreparedCanvas, String>) -> String {
    match result {
        Ok(_) => panic!("expected an error"),
        Err(e) => e,
    }
}

fn decoded(bytes: &[u8]) -> (u32, u32, Vec<u8>) {
    let rgb = image::load_from_memory(bytes).unwrap().to_rgb8();
    (rgb.width(), rgb.height(), rgb.into_raw())
}

#[test]
fn suffixes() {
    assert_eq!(Format::Portrait916.suffix(), "9x16");
    assert_eq!(Format::Square1x1.suffix(), "1x1");
}

#[test]
fn kinds_by_extension() {
    let expected = |path: &str| -> Option<bool> {
        let ext = std::path::Path::new(path).extension()?.to_str()?.to_ascii_lowercase();
        match ext.as_str() {
            "jpg" | "jpeg" => Some(true),
            "png" => Some(false),
            _ => None,
        }
    };
    for path in [
        "a.jpg", "a.JPEG", "b/c.Png", "a.gif", "a", ".png", "a.png/", "a.png/.", "a.png/..", "..png",
        "/", "", "x.y.jpg", "x.jpg.bak", "dir.png/file", "a.", "a.pn\u{e9}g",
    ] {
        let kind = Kind::from_path(path);
        assert_eq!(kind.map(|k| k == Kind::Jpeg), expected(path), "{path}");
    }
}

#[test]
fn crops_to_the_largest_centred_rectangle() {
    let rect = |w, h| {
        let r = center_crop_rect(w, h, 9, 16);
        (r.x, r.y, r.w, r.h)
    };
    assert_eq!(rect(1080, 1920), (0, 0, 1080, 1920));
    assert_eq!(rect(1920, 1080), (656, 0, 607, 1080));
    assert_eq!(rect(900, 2000), (0, 200, 900, 1600));
    assert_eq!(rect(1, 1), (0, 0, 0, 1));
    assert_eq!(rect(0, 10), (0, 5, 0, 0));
    for w in 0..60u32 {
        for h in 0..60u32 {
            let from_h = (h as u64 * 9 / 16) as u32;
            let from_w = (w as u64 * 16 / 9) as u32;
            let expected = if from_h <= w {
                ((w - from_h) / 2, 0, from_h, h)
            } else {
                (0, (h - from_w) / 2, w, from_w)
            };
            assert_eq!(rect(w, h), expected);
        }
    }
    let wide = center_crop_rect(u32::MAX, u32::MAX, u32::MAX, 1);
    assert_eq!((wide.x, wide.y, wide.w, wide.h), (u32::MAX / 2, 0, 1, u32::MAX));
}

#[test]
fn crop_copies_the_rectangle() {
    let source = pattern(13, 17);
    let out = crop(&source, Rect { x: 3, y: 5, w: 7, h: 4 });
    assert_eq!((out.width, out.height, out.pixels.len()), (7, 4, 84));
    for y in 0..4 {
        for x in 0..7 {
            assert_eq!(pixel(&out, x, y), pixel(&source, x + 3, y + 5));
        }
    }
    let tall = center_crop_to_aspect(&source, 9, 16);
    assert_eq!((tall.width, tall.height), (9, 17));
    assert_eq!(pixel(&tall, 0, 0), pixel(&source, 2, 0));
}

#[test]
fn overlay_is_cut_off_at_the_edges() {
    let logo = Overlay { width: 2, height: 2, pixels: vec![10, 20, 30, 255].repeat(4) };
    for (x, y) in [(-1, -1), (0, 0), (3, 2), (4, 4), (-2, 0), (i32::MAX, i32::MIN)] {
        let mut canvas = Canvas { width: 4, height: 3, pixels: vec![200; 36] };
        overlay_rgba(&mut canvas, &logo, x, y);
        for py in 0..3i32 {
            for px in 0..4i32 {
                let dx = px as i64 - x as i64;
                let dy = py as i64 - y as i64;
                let covered = (0..2).contains(&dx) && (0..2).contains(&dy);
                let expected = if covered { [10, 20, 30] } else { [200, 200, 200] };
                assert_eq!(pixel(&canvas, px as u32, py as u32), expected);
            }
        }
    }
}

#[test]
fn transparent_overlay_changes_nothing() {
    let mut canvas = pattern(5, 5);
    let before = canvas.pixels.clone();
    overlay_rgba(&mut canvas, &Overlay { width: 3, height: 3, pixels: vec![9, 9, 9, 0].repeat(9) }, 1, 1);
    assert_eq!(canvas.pixels, before);
    overlay_rgba(&mut canvas, &Overlay { width: 1, height: 1, pixels: vec![255, 0, 100, 128] }, 0, 0);
    assert_eq!(pixel(&canvas, 0, 0), [128, 0, 50]);
}

#[test]
fn anchors() {
    assert_eq!(anchor_x(Anchor::Left, 1080, 368), 104);
    assert_eq!(anchor_x(Anchor::Center, 1080, 368), 356);
    assert_eq!(anchor_x(Anchor::Center, 1080, 1081), 0);
    assert_eq!(anchor_x(Anchor::Center, 1080, 1083), -1);
    assert_eq!(anchor_x(Anchor::Right, 1080, 368), 608);
}

#[test]
fn first_template_has_fixed_positions() {
    let layout = resolve_layout(&LayoutSpec::Template1, 368, 198);
    assert_eq!(layout.text_origin, (104, 350));
    assert_eq!(layout.text_max_width, 872);
    assert_eq!(layout.logo_pos, (357, 1297));
    assert_eq!(f32::from_bits(layout.font_px), 84.0);
    assert_eq!(f32::from_bits(layout.line_height), 1.18);
    assert_eq!(f32::from_bits(layout.letter_spacing_px), 0.0);
    assert_eq!(TEXT_FONT_PX, 84.0f32.to_bits());
    assert_eq!(LINE_HEIGHT_FACTOR, 1.18f32.to_bits());
}

#[test]
fn custom_layouts_follow_their_fractions() {
    let spec = LayoutSpec::Custom {
        logo_x: Anchor::Right,
        logo_y: 0.5f32.to_bits(),
        text_x: Anchor::Center,
        text_y: 0.3f32.to_bits(),
        text_w: 0.6f32.to_bits(),
        font_px: 96.0f32.to_bits(),
        line_height: 1.3f32.to_bits(),
        letter_spacing: 5.0f32.to_bits(),
    };
    let layout = resolve_layout(&spec, 368, 198);
    assert_eq!(layout.text_origin, (216, 576));
    assert_eq!(layout.text_max_width, 648);
    assert_eq!(layout.logo_pos, (608, 960));
    assert_eq!(f32::from_bits(layout.font_px), 96.0);
    assert_eq!(f32::from_bits(layout.line_height), 1.3);
    assert_eq!(f32::from_bits(layout.letter_spacing_px), 5.0f32 / 100.0 * 96.0);
}

#[test]
fn custom_layouts_fall_back_where_a_size_is_not_positive() {
    for bad in [0.0f32, -1.0, f32::NAN, f32::NEG_INFINITY] {
        let spec = LayoutSpec::Custom {
            logo_x: Anchor::Left,
            logo_y: 7.0f32.to_bits(),
            text_x: Anchor::Right,
            text_y: (-3.0f32).to_bits(),
            text_w: f32::INFINITY.to_bits(),
            font_px: bad.to_bits(),
            line_height: bad.to_bits(),
            letter_spacing: (-2.5f32).to_bits(),
        };
        let layout = resolve_layout(&spec, 11, 7);
        assert_eq!(layout.text_origin, (-104, 0));
        assert_eq!(layout.text_max_width, 1080);
        assert_eq!(layout.logo_pos, (104, 1920));
        assert_eq!(layout.font_px, TEXT_FONT_PX);
        assert_eq!(layout.line_height, LINE_HEIGHT_FACTOR);
        assert_eq!(f32::from_bits(layout.letter_spacing_px), -2.5f32 / 100.0 * 84.0);
    }
}

#[test]
fn canvas_of_the_right_size_is_only_shaded() {
    let source = pattern(COMP_W, COMP_H);
    let out = prepared(prepare_canvas("a/b.png", &Ok(png_bytes(&source)), &no_logo(), (0, 0)));
    assert!(out.kind == Kind::Png);
    let expected = finish_canvas(source, Kind::Png, &no_logo(), (0, 0));
    assert_eq!((out.canvas.width, out.canvas.height), (1080, 1920));
    assert!(out.canvas.pixels == expected.canvas.pixels);
    let plain = pattern(COMP_W, COMP_H);
    assert!(out.canvas.pixels[900 * 1080 * 3..] == plain.pixels[900 * 1080 * 3..]);
    assert!(out.canvas.pixels[..1080 * 3] != plain.pixels[..1080 * 3]);
}

#[test]
fn canvas_carries_the_logo_over_the_gradient() {
    let source = pattern(COMP_W, COMP_H);
    let logo = Overlay { width: 2, height: 1, pixels: vec![1, 2, 3, 255, 4, 5, 6, 0] };
    let out = prepared(prepare_canvas("b.PNG", &Ok(png_bytes(&source)), &logo, (10, 0)));
    let bare = prepared(prepare_canvas("b.PNG", &Ok(png_bytes(&source)), &no_logo(), (0, 0)));
    assert_eq!(pixel(&out.canvas, 10, 0), [1, 2, 3]);
    assert_eq!(pixel(&out.canvas, 11, 0), pixel(&bare.canvas, 11, 0));
    assert_eq!(pixel(&out.canvas, 9, 0), pixel(&bare.canvas, 9, 0));
}

#[test]
fn pictures_of_any_size_become_the_composition() {
    // One colour stays that colour when it is resampled.
    let source = Canvas { width: 37, height: 23, pixels: vec![90, 160, 40].repeat(37 * 23) };
    let out = prepared(prepare_canvas("x.png", &Ok(png_bytes(&source)), &no_logo(), (0, 0)));
    assert_eq!((out.canvas.width, out.canvas.height), (1080, 1920));
    assert_eq!(out.canvas.pixels.len(), 1080 * 1920 * 3);
    assert_eq!(pixel(&out.canvas, 500, 1800), [90, 160, 40]);
}

#[test]
fn pictures_too_flat_to_crop_become_black() {
    let source = Canvas { width: 5, height: 1, pixels: vec![255; 15] };
    let out = prepared(prepare_canvas("x.png", &Ok(png_bytes(&source)), &no_logo(), (0, 0)));
    assert_eq!((out.canvas.width, out.canvas.height), (1080, 1920));
    assert_eq!(pixel(&out.canvas, 3, 1000), [0, 0, 0]);
    let black = Canvas { width: COMP_W, height: COMP_H, pixels: vec![0; 1080 * 1920 * 3] };
    let expected = finish_canvas(black, Kind::Png, &no_logo(), (0, 0));
    assert!(out.canvas.pixels == expected.canvas.pixels);
}

#[test]
fn refused_sources() {
    let bytes = png_bytes(&pattern(4, 4));
    let at = (0, 0);
    assert_eq!(refusal(prepare_canvas("a.gif", &Ok(bytes.clone()), &no_logo(), at)), "unsupported format");
    let missing = |e: SourceError| prepare_canvas("a.jpg", &Err(e), &no_logo(), at);
    assert_eq!(refusal(missing(SourceError::Open("gone".to_string()))), "open: gone");
    assert_eq!(refusal(missing(SourceError::Header("torn".to_string()))), "read header: torn");
    assert_eq!(refusal(missing(SourceError::Rest("short".to_string()))), "decode: short");
    // Where the first bytes tell no format, the extension does.
    let png = refusal(prepare_canvas("a.png", &Ok(b"not a picture".to_vec()), &no_logo(), at));
    assert_eq!(png, "decode: Format error decoding Png: Invalid PNG signature.");
    let jpeg = refusal(prepare_canvas("a.jpg", &Ok(b"not a picture".to_vec()), &no_logo(), at));
    assert!(jpeg.starts_with("decode: Format error decoding Jpeg"), "{jpeg}");
    let cut = refusal(prepare_canvas("a.png", &Ok(bytes[..40].to_vec()), &no_logo(), at));
    assert!(cut.starts_with("decode: "), "{cut}");
}

#[test]
fn square_output_is_the_centre_of_the_canvas() {
    let canvas = pattern(COMP_W, COMP_H);
    let square = output_picture(&canvas, Format::Square1x1);
    assert_eq!((square.width, square.height), (1080, 1080));
    for (x, y) in [(0, 0), (1079, 0), (17, 500), (1079, 1079)] {
        assert_eq!(pixel(&square, x, y), pixel(&canvas, x, y + 420));
    }
    let portrait = output_picture(&canvas, Format::Portrait916);
    assert_eq!((portrait.width, portrait.height), (1080, 1920));
    assert!(portrait.pixels == canvas.pixels);
    // A canvas that is too small is cut off where it ends.
    let small = output_picture(&pattern(10, 500), Format::Square1x1);
    assert_eq!((small.width, small.height), (10, 80));
    let flat = output_picture(&pattern(10, 20), Format::Square1x1);
    assert_eq!((flat.width, flat.height, flat.pixels.len()), (10, 0, 0));
}

#[test]
fn png_outputs_hold_the_picture() {
    let canvas = pattern(COMP_W, COMP_H);
    match encode_output(&canvas, Format::Square1x1, Kind::Png) {
        Ok(Encoded::Png(bytes)) => {
            let (w, h, pixels) = decoded(&bytes);
            assert_eq!((w, h), (1080, 1080));
            assert!(pixels == output_picture(&canvas, Format::Square1x1).pixels);
        }
        _ => panic!("no PNG"),
    }
    let empty = Canvas { width: 0, height: 3, pixels: vec![] };
    match encode_output(&empty, Format::Portrait916, Kind::Png) {
        Err(e) => assert!(e.starts_with("PNG encode: "), "{e}"),
        Ok(_) => panic!("a picture without pixels"),
    }
}

#[test]
fn failures_to_decode_and_encode_are_reported() {
    let failed = Err("bad data".to_string());
    assert_eq!(refusal(prepare_decoded(failed, Kind::Png, &no_logo(), (0, 0))), "decode: bad data");
    let stage = prepared(prepare_decoded(Ok(pattern(COMP_W, COMP_H)), Kind::Jpeg, &no_logo(), (0, 0)));
    assert!(stage.kind == Kind::Jpeg);
    match png_output(Err("no room".to_string())) {
        Err(e) => assert_eq!(e, "PNG encode: no room"),
        Ok(_) => panic!("a file"),
    }
    match png_output(Ok(vec![1, 2])) {
        Ok(Encoded::Png(bytes)) => assert_eq!(bytes, [1, 2]),
        _ => panic!("no file"),
    }
}

#[test]
fn jpeg_outputs_are_handed_on_with_their_quality() {
    let canvas = pattern(COMP_W, COMP_H);
    for format in [Format::Portrait916, Format::Square1x1] {
        match encode_output(&canvas, format, Kind::Jpeg) {
            Ok(Encoded::Jpeg { picture, quality }) => {
                assert_eq!(quality, 92);
                assert!(picture.pixels == output_picture(&canvas, format).pixels);
            }
            _ => panic!("no JPEG"),
        }
    }
}

#[test]
fn renders_one_real_image_both_templates() {
    let source = pattern(700, 900);
    let logo = Overlay { width: 368, height: 198, pixels: vec![255; 368 * 198 * 4] };
    let brand = aeonik(font(' ', 'é')).unwrap_or_else(|e| panic!("{e}"));
    for spec in [
        LayoutSpec::Template1,
        LayoutSpec::Custom {
            logo_x: Anchor::Right,
            logo_y: 0.5f32.to_bits(),
            text_x: Anchor::Center,
            text_y: 0.3f32.to_bits(),
            text_w: 0.6f32.to_bits(),
            font_px: 96.0f32.to_bits(),
            line_height: 1.3f32.to_bits(),
            letter_spacing: 5.0f32.to_bits(),
        },
    ] {
        let layout = resolve_layout(&spec, logo.width, logo.height);
        let stage = prepared(prepare_canvas("img.png", &Ok(png_bytes(&source)), &logo, layout.logo_pos));
        let (x, y) = layout.logo_pos;
        assert_eq!(pixel(&stage.canvas, x as u32, y as u32), [255, 255, 255]);
        let picture = composed(&stage, "Réinventez votre espace de travail", &brand, &layout);
        for format in [Format::Portrait916, Format::Square1x1] {
            match encode_output(&picture, format, stage.kind) {
                Ok(Encoded::Png(bytes)) => {
                    assert!(!bytes.is_empty());
                    // The 1:1 must be square (centered crop), the 9:16 the full canvas.
                    let (w, h, _) = decoded(&bytes);
                    match format {
                        Format::Square1x1 => assert_eq!((w, h), (1080, 1080)),
                        Format::Portrait916 => assert_eq!((w, h), (1080, 1920)),
                    }
                }
                _ => panic!("no PNG"),
            }
        }
    }
}

// Some inputs carry the wrong extension. Decoding must sniff content, not trust the extension.
#[test]
fn renders_image_with_mismatched_extension() {
    let source = Canvas { width: 90, height: 160, pixels: vec![120; 90 * 160 * 3] };
    let stage = prepared(prepare_canvas("photo.png", &Ok(jpeg_bytes(&source)), &no_logo(), (0, 0)));
    assert!(stage.kind == Kind::Png);
    assert_eq!(pixel(&stage.canvas, 5, 1500), [120, 120, 120]);
    let brand = aeonik(font(' ', 'é')).unwrap_or_else(|e| panic!("{e}"));
    let layout = resolve_layout(&LayoutSpec::Template1, 368, 198);
    let picture = composed(&stage, "Test", &brand, &layout);
    match encode_output(&picture, Format::Portrait916, stage.kind) {
        Ok(Encoded::Png(bytes)) => assert!(!bytes.is_empty()),
        _ => panic!("no PNG"),
    }
    let stage = prepared(prepare_canvas("photo.jpg", &Ok(png_bytes(&source)), &no_logo(), (0, 0)));
    assert!(stage.kind == Kind::Jpeg);
}
