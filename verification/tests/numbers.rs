//! Single-precision arithmetic in integers agrees with the machine's.
use batcher::canvas::logo_overlay;
use batcher::compositor::blend;
use batcher::gradient::apply_gradient;
use batcher::raster::Canvas;
use batcher::single::{fraction, positive, rounded_product, to_single};
use batcher::single_bits::{product, quotient};

/// A spread of bit patterns: all edge exponents, and a pseudo-random walk.
fn patterns() -> Vec<u32> {
    let mut out = vec![
        0,
        0x8000_0000,
        1,
        0x8000_0001,
        0x007f_ffff,
        0x0080_0000,
        0x3f80_0000,
        0x3f7f_ffff,
        0x3f00_0000,
        0x3eff_ffff,
        0x7f7f_ffff,
        0xff7f_ffff,
        0x7f80_0000,
        0xff80_0000,
        0x7fc0_0000,
        0xffc0_0001,
        0x42a8_0000,
        0x3f97_0a3d,
        0x42c8_0000,
        0x40a0_0000,
    ];
    let mut x = 0x1234_5678u32;
    for _ in 0..400 {
        x ^= x << 13;
        x ^= x >> 17;
        x ^= x << 5;
        out.push(x);
        out.push((x & 0x007f_ffff) | 0x3f00_0000);
        out.push((x & 0x01ff_ffff) | 0x4000_0000);
    }
    out
}

#[test]
fn fractions_agree_with_single_precision() {
    for bits in patterns() {
        for extent in [1080u32, 1920] {
            let x = f32::from_bits(bits);
            let expected = (x.clamp(0.0, 1.0) * extent as f32).round() as i32;
            assert_eq!(fraction(bits, extent) as i32, expected, "{x:e} of {extent}");
        }
    }
    for i in 0..=3000u32 {
        let x = i as f32 / 3000.0;
        assert_eq!(fraction(x.to_bits(), 1920), (x * 1920.0).round() as u32);
    }
}

#[test]
fn positive_agrees_with_single_precision() {
    for bits in patterns() {
        assert_eq!(positive(bits), f32::from_bits(bits) > 0.0);
    }
}

#[test]
fn whole_products_agree_with_single_precision() {
    let all = patterns();
    for (i, a) in all.iter().enumerate() {
        for b in all.iter().skip(i % 7).step_by(7) {
            let x = f32::from_bits(*a);
            let y = f32::from_bits(*b);
            assert_eq!(rounded_product(*a, *b), (x * y).round() as i32, "{x:e} * {y:e}");
        }
    }
    assert_eq!(rounded_product(84f32.to_bits(), 1.18f32.to_bits()), 99);
    assert_eq!(rounded_product(96f32.to_bits(), 1.3f32.to_bits()), 125);
}

#[test]
fn products_and_quotients_agree_with_single_precision() {
    let all = patterns();
    for (i, a) in all.iter().enumerate() {
        let x = f32::from_bits(*a);
        let q = f32::from_bits(quotient(*a, 100));
        let expected = x / 100.0;
        assert!(q.to_bits() == expected.to_bits() || (q.is_nan() && expected.is_nan()), "{x:e}");
        for b in all.iter().skip(i % 5).step_by(5) {
            let y = f32::from_bits(*b);
            let p = f32::from_bits(product(*a, *b));
            let expected = x * y;
            assert!(
                p.to_bits() == expected.to_bits() || (p.is_nan() && expected.is_nan()),
                "{x:e} * {y:e}: {p:e}, not {expected:e}"
            );
        }
    }
}

#[test]
fn rounding_to_single_precision() {
    for n in [0u128, 1, 0xff_ffff, 0x100_0000, 0x100_0001, 0x100_0003, 0x1ff_ffff, u32::MAX as u128] {
        assert_eq!(to_single(n, 1), (n as u64 as f32) as u128, "{n}");
    }
    assert_eq!(to_single(7, 2), 4);
    assert_eq!(to_single(5, 2), 2);
}

#[test]
fn blending_agrees_with_single_precision_for_every_pixel() {
    for alpha in 0..=255u8 {
        let a = alpha as f32 / 255.0;
        let inv = 1.0 - a;
        for over in 0..=255u8 {
            for under in 0..=255u8 {
                let expected = if a <= 0.0 {
                    under
                } else {
                    (under as f32 * inv + over as f32 * a).round().clamp(0.0, 255.0) as u8
                };
                if blend(under, over, alpha) != expected {
                    panic!("{under} under {over} at {alpha}");
                }
            }
        }
    }
}

fn shaded(value: u8, shade: f32, height: u32, y: u32) -> u8 {
    let cutoff_y = height as f32 * 0.40183_f32;
    let yf = y as f32;
    if yf >= cutoff_y {
        return value;
    }
    let alpha = 0.9_f32 * (1.0 - yf / cutoff_y);
    let inv = 1.0 - alpha;
    (value as f32 * inv + shade * alpha).round().clamp(0.0, 255.0) as u8
}

#[test]
fn gradient_agrees_with_single_precision() {
    for height in [1u32, 2, 3, 7, 100, 421, 1080, 1920, 2000] {
        let mut pixels = Vec::new();
        for _ in 0..height {
            for v in 0..=255u8 {
                pixels.extend_from_slice(&[v, v, v]);
            }
        }
        let mut canvas = Canvas { width: 256, height, pixels };
        apply_gradient(&mut canvas);
        assert_eq!((canvas.width, canvas.height), (256, height));
        for y in 0..height {
            for v in 0..=255u8 {
                let at = ((y * 256 + v as u32) * 3) as usize;
                let expected =
                    [shaded(v, 14.0, height, y), shaded(v, 14.0, height, y), shaded(v, 12.0, height, y)];
                assert_eq!(&canvas.pixels[at..at + 3], &expected, "{v} in row {y} of {height}");
            }
        }
    }
}

#[test]
fn gradient_of_the_composition() {
    let mut canvas = Canvas { width: 1, height: 1920, pixels: vec![200; 1920 * 3] };
    apply_gradient(&mut canvas);
    // The top row has nine tenths of the colour, and rows from 772 on are left alone.
    assert_eq!(&canvas.pixels[0..3], &[33, 33, 31]);
    assert_eq!(&canvas.pixels[771 * 3..771 * 3 + 3], &[200, 200, 200]);
    assert!(canvas.pixels[772 * 3..].iter().all(|v| *v == 200));
    assert!(canvas.pixels[600 * 3] < 200);
    // It falls from the top down.
    assert!((1..1920).all(|y| canvas.pixels[(y - 1) * 3] <= canvas.pixels[y * 3]));
}

#[test]
fn premultiplied_pixels_become_straight() {
    let mut pixels = Vec::new();
    for a in 0..=255u8 {
        for v in 0..=a {
            pixels.extend_from_slice(&[v, a, 0, a]);
        }
    }
    let n = (pixels.len() / 4) as u32;
    let logo = logo_overlay(&pixels, n, 1).unwrap_or_else(|e| panic!("{e}"));
    assert_eq!((logo.width, logo.height), (n, 1));
    for (from, to) in pixels.chunks(4).zip(logo.pixels.chunks(4)) {
        let a = from[3];
        let straight = |v: u8| {
            if a == 0 {
                0
            } else {
                ((v as u16 * 255 + (a as u16) / 2) / a as u16) as u8
            }
        };
        assert_eq!(to, &[straight(from[0]), straight(from[1]), straight(from[2]), a]);
    }
}

#[test]
fn premultiplied_pixels_of_another_size_are_refused() {
    for (len, w, h) in [(15usize, 2u32, 2u32), (12, 2, 2), (20, 2, 2), (4, 0, 0)] {
        match logo_overlay(&vec![0; len], w, h) {
            Ok(_) => panic!("{len} bytes for {w} by {h}"),
            Err(e) => assert_eq!(e, "logo image alloc failed"),
        }
    }
    assert!(logo_overlay(&vec![], 0, 5).is_ok());
    // A colour above its alpha wraps round.
    let logo = logo_overlay(&vec![255, 0, 0, 1], 1, 1).unwrap_or_else(|e| panic!("{e}"));
    assert_eq!(logo.pixels, vec![1, 0, 0, 1]);
}
