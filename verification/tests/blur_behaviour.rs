//! Behavioural checks of the blur engine on concrete images.
use hero::blur::blur;
use hero::image::{Image, CHANNELS};

const STEPS: usize = 4;

fn solid(width: usize, height: usize, value: u8) -> Image {
    Image { width, height, data: vec![value; width * height * CHANNELS] }
}

fn pixel(img: &Image, x: usize, y: usize, c: usize) -> u8 {
    img.data[(y * img.width + x) * CHANNELS + c]
}

fn set_pixel(img: &mut Image, x: usize, y: usize, value: u8) {
    for c in 0..CHANNELS {
        img.data[(y * img.width + x) * CHANNELS + c] = value;
    }
}

fn sigma(f: f64) -> u64 {
    (f * 4294967296.0) as u64
}

#[test]
fn identity_when_both_spreads_are_zero() {
    let mut img = solid(5, 3, 0);
    for (i, b) in img.data.iter_mut().enumerate() {
        *b = (i * 37 % 256) as u8;
    }
    let before = img.data.clone();
    let out = blur(0, 0, STEPS, img).unwrap();
    assert_eq!(out.width, 5);
    assert_eq!(out.height, 3);
    assert_eq!(out.data, before);
}

#[test]
fn dimensions_are_preserved() {
    for (w, h, sx, sy) in [(1, 1, 1.0, 1.0), (7, 2, 0.5, 3.0), (16, 16, 8.0, 8.0), (3, 9, 0.0, 2.5)] {
        let img = solid(w, h, 140);
        let out = blur(sigma(sx), sigma(sy), STEPS, img).unwrap();
        assert_eq!(out.width, w);
        assert_eq!(out.height, h);
        assert_eq!(out.data.len(), w * h * CHANNELS);
    }
}

#[test]
fn empty_image_is_rejected() {
    for (w, h) in [(0, 0), (0, 4), (4, 0)] {
        let img = solid(w, h, 0);
        let r = blur(sigma(1.0), sigma(1.0), STEPS, img);
        assert!(r.is_err());
    }
}

#[test]
fn horizontal_only_blur_is_row_local() {
    // Two images agreeing on row 1 only; with the vertical axis disabled,
    // row 1 of the outputs must agree byte for byte.
    let mut a = solid(8, 3, 0);
    let mut b = solid(8, 3, 255);
    for x in 0..8 {
        set_pixel(&mut a, x, 1, (40 * x) as u8);
        set_pixel(&mut b, x, 1, (40 * x) as u8);
    }
    let oa = blur(sigma(1.5), 0, STEPS, a).unwrap();
    let ob = blur(sigma(1.5), 0, STEPS, b).unwrap();
    for x in 0..8 {
        for c in 0..CHANNELS {
            assert_eq!(pixel(&oa, x, 1, c), pixel(&ob, x, 1, c));
        }
    }
    // The other rows differ: the all-zero rows stay zero, the bright ones do not.
    assert_eq!(pixel(&oa, 4, 0, 0), 0);
    assert!(pixel(&ob, 4, 0, 0) > 0);
}

#[test]
fn vertical_only_blur_is_column_local() {
    let mut a = solid(3, 8, 0);
    let mut b = solid(3, 8, 255);
    for y in 0..8 {
        set_pixel(&mut a, 1, y, (40 * y) as u8);
        set_pixel(&mut b, 1, y, (40 * y) as u8);
    }
    let oa = blur(0, sigma(1.5), STEPS, a).unwrap();
    let ob = blur(0, sigma(1.5), STEPS, b).unwrap();
    for y in 0..8 {
        for c in 0..CHANNELS {
            assert_eq!(pixel(&oa, 1, y, c), pixel(&ob, 1, y, c));
        }
    }
}

#[test]
fn single_row_matches_transposed_single_column() {
    // The two axes run the same sweeps, so a row blurred horizontally
    // equals the same data as a column blurred vertically.
    let mut row = solid(9, 1, 0);
    let mut col = solid(1, 9, 0);
    for i in 0..9 {
        set_pixel(&mut row, i, 0, (i * 25) as u8);
        set_pixel(&mut col, 0, i, (i * 25) as u8);
    }
    let orow = blur(sigma(2.0), 0, STEPS, row).unwrap();
    let ocol = blur(0, sigma(2.0), STEPS, col).unwrap();
    for i in 0..9 {
        for c in 0..CHANNELS {
            assert_eq!(pixel(&orow, i, 0, c), pixel(&ocol, 0, i, c));
        }
    }
}

#[test]
fn uniform_image_interior_is_stable() {
    for value in [1u8, 128, 200, 255] {
        let img = solid(32, 32, value);
        let out = blur(sigma(2.0), sigma(2.0), STEPS, img).unwrap();
        for c in 0..CHANNELS {
            let got = pixel(&out, 16, 16, c);
            assert!(
                got as i32 >= value as i32 - 1 && got as i32 <= value as i32,
                "interior pixel {} drifted to {}",
                value,
                got
            );
        }
    }
}

fn nonzero_region(img: &Image) -> Vec<(usize, usize)> {
    let mut region = Vec::new();
    for y in 0..img.height {
        for x in 0..img.width {
            if pixel(img, x, y, 0) > 0 {
                region.push((x, y));
            }
        }
    }
    region
}

#[test]
fn widening_spread_widens_the_lit_region() {
    let spreads = [0.5, 1.0, 2.0, 4.0];
    let mut previous: Option<Vec<(usize, usize)>> = None;
    for s in spreads {
        let mut img = solid(33, 33, 0);
        set_pixel(&mut img, 16, 16, 255);
        let out = blur(sigma(s), sigma(s), STEPS, img).unwrap();
        let region = nonzero_region(&out);
        assert!(region.contains(&(16, 16)));
        if let Some(prev) = &previous {
            for p in prev {
                assert!(region.contains(p), "region shrank at {:?} for spread {}", p, s);
            }
            assert!(region.len() >= prev.len());
        }
        previous = Some(region);
    }
}

#[test]
fn repeated_calls_are_byte_identical() {
    let mut img = solid(11, 7, 0);
    for (i, b) in img.data.iter_mut().enumerate() {
        *b = (i * 131 % 256) as u8;
    }
    let twin = Image { width: img.width, height: img.height, data: img.data.clone() };
    let a = blur(sigma(1.25), sigma(0.75), STEPS, img).unwrap();
    let b = blur(sigma(1.25), sigma(0.75), STEPS, twin).unwrap();
    assert_eq!(a.data, b.data);
}

#[test]
fn single_bright_pixel_falls_off_symmetrically() {
    let mut img = solid(4, 4, 0);
    set_pixel(&mut img, 2, 2, 255);
    let out = blur(sigma(1.0), sigma(1.0), STEPS, img).unwrap();
    for c in 0..CHANNELS {
        // Symmetric falloff around (2, 2), within integer rounding.
        let left = pixel(&out, 1, 2, c) as i32;
        let right = pixel(&out, 3, 2, c) as i32;
        assert!((left - right).abs() <= 1, "left {} right {}", left, right);
        let up = pixel(&out, 2, 1, c) as i32;
        let down = pixel(&out, 2, 3, c) as i32;
        assert!((up - down).abs() <= 1, "up {} down {}", up, down);
        // The peak stays the brightest sample.
        for y in 0..4 {
            for x in 0..4 {
                assert!(pixel(&out, x, y, c) <= pixel(&out, 2, 2, c));
            }
        }
        // Zero at the far corner, and no energy gained overall.
        assert_eq!(pixel(&out, 0, 0, c), 0);
        let total: u32 = (0..4)
            .flat_map(|y| (0..4).map(move |x| (x, y)))
            .map(|(x, y)| pixel(&out, x, y, c) as u32)
            .sum();
        assert!(total <= 255, "channel {} holds {} units", c, total);
    }
}

/// The closed-form recursive Gaussian evaluated in double precision: raw
/// sweeps followed by the global gain correction. The engine's fixed-point
/// output must stay within a few 8-bit levels of it.
fn reference_blur(sigma_x: f64, sigma_y: f64, steps: usize, img: &Image) -> Vec<u8> {
    let w = img.width;
    let h = img.height;
    let mut data = img.data.clone();
    let mut buf = vec![0.0f64; w * h];
    for c in 0..CHANNELS {
        for i in 0..w * h {
            buf[i] = data[i * CHANNELS + c] as f64 / 255.0;
        }
        let coeff = |s: f64| {
            let lambda = (s * s) / (2.0 * steps as f64);
            let dnu = (1.0 + 2.0 * lambda - (1.0 + 4.0 * lambda).sqrt()) / (2.0 * lambda);
            (lambda, dnu)
        };
        let (lambda_x, dnu_x) = if sigma_x > 0.0 {
            let (lambda, dnu) = coeff(sigma_x);
            for y in 0..h {
                for _ in 0..steps {
                    let idx = w * y;
                    for x in 1..w {
                        buf[idx + x] += dnu * buf[idx + x - 1];
                    }
                    let mut x = w - 1;
                    while x > 0 {
                        buf[idx + x - 1] += dnu * buf[idx + x];
                        x -= 1;
                    }
                }
            }
            (lambda, dnu)
        } else {
            (1.0, 1.0)
        };
        let (lambda_y, dnu_y) = if sigma_y > 0.0 {
            let (lambda, dnu) = coeff(sigma_y);
            for x in 0..w {
                for _ in 0..steps {
                    let mut y = w;
                    while y < buf.len() {
                        buf[x + y] += dnu * buf[x + y - w];
                        y += w;
                    }
                    y = buf.len() - w;
                    while y > 0 {
                        buf[x + y - w] += dnu * buf[x + y];
                        y -= w;
                    }
                }
            }
            (lambda, dnu)
        } else {
            (1.0, 1.0)
        };
        let post_scale =
            ((dnu_x * dnu_y).sqrt() / (lambda_x * lambda_y).sqrt()).powi(2 * steps as i32);
        for i in 0..w * h {
            data[i * CHANNELS + c] = (buf[i] * post_scale * 255.0) as u8;
        }
    }
    data
}

#[test]
fn fixed_point_engine_tracks_double_precision() {
    let mut img = solid(12, 9, 0);
    for (i, b) in img.data.iter_mut().enumerate() {
        *b = (i * 53 % 256) as u8;
    }
    for (sx, sy) in [(1.0, 1.0), (2.5, 0.0), (0.0, 3.0), (8.0, 8.0)] {
        let twin = Image { width: img.width, height: img.height, data: img.data.clone() };
        let expected = reference_blur(sx, sy, STEPS, &twin);
        let out = blur(sigma(sx), sigma(sy), STEPS, twin).unwrap();
        for (i, (&got, &want)) in out.data.iter().zip(expected.iter()).enumerate() {
            let diff = (got as i32 - want as i32).abs();
            assert!(diff <= 2, "byte {} differs: engine {} reference {}", i, got, want);
        }
    }
}

#[test]
fn output_never_exceeds_the_brightest_input() {
    let mut img = solid(10, 10, 0);
    for (i, b) in img.data.iter_mut().enumerate() {
        *b = (i % 101) as u8;
    }
    let out = blur(sigma(3.0), sigma(1.0), STEPS, img).unwrap();
    assert!(out.data.iter().all(|&b| b <= 100));
}

#[test]
fn step_count_shapes_the_approximation() {
    let mut img = solid(9, 9, 0);
    set_pixel(&mut img, 4, 4, 255);
    let twin = Image { width: img.width, height: img.height, data: img.data.clone() };
    let rough = blur(sigma(2.0), sigma(2.0), 1, img).unwrap();
    let fine = blur(sigma(2.0), sigma(2.0), STEPS, twin).unwrap();
    assert_eq!(rough.width, 9);
    assert_eq!(fine.width, 9);
    // More sweep pairs give a different (closer-to-Gaussian) falloff.
    assert_ne!(rough.data, fine.data);
}
