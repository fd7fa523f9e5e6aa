use sdfgen::bitmap::generate_bitmap;
use sdfgen::bitmap::is_on;
use sdfgen::bitmap::ColorSample;
use sdfgen::field::generate_distance_field;
use sdfgen::field::generate_sdf;
use sdfgen::field::pixel_value;
use sdfgen::field::sqdist;
use sdfgen::math::isqrt;
use sdfgen::math::normalized_value;

fn white() -> ColorSample {
    ColorSample { r: 255, g: 255, b: 255, a: 255 }
}

fn black() -> ColorSample {
    ColorSample { r: 0, g: 0, b: 0, a: 255 }
}

#[test]
fn threshold_cutoff() {
    assert!(!is_on(0));
    assert!(!is_on(250));
    assert!(is_on(251));
    assert!(is_on(255));
}

#[test]
fn sqdist_values() {
    assert_eq!(sqdist(0, 0, 3, 4), 25);
    assert_eq!(sqdist(2, 2, 2, 2), 0);
    assert_eq!(sqdist(5, 1, 2, 3), 13);
    assert_eq!(sqdist(-3, 0, 0, -4), 25);
}

#[test]
fn isqrt_values() {
    assert_eq!(isqrt(0), 0);
    assert_eq!(isqrt(1), 1);
    assert_eq!(isqrt(3), 1);
    assert_eq!(isqrt(4), 2);
    assert_eq!(isqrt(65536), 256);
    assert_eq!(isqrt(0xFFFF_FFFF), 65535);
}

#[test]
fn bitmap_thresholds_luma() {
    // Luma is (2126*r + 7152*g + 722*b) / 10000: only near-white passes.
    let pixels = vec![
        white(),
        black(),
        ColorSample { r: 200, g: 200, b: 200, a: 255 },
        ColorSample { r: 252, g: 252, b: 252, a: 255 },
        // A strong red alone has low luma; if the conversion handed the red
        // channel through unchanged this sample would wrongly count as "on".
        ColorSample { r: 252, g: 0, b: 0, a: 255 },
        ColorSample { r: 0, g: 255, b: 0, a: 255 },
        // Alpha plays no part in the luma.
        ColorSample { r: 255, g: 255, b: 255, a: 0 },
    ];
    let bm = generate_bitmap(&pixels);
    assert_eq!(bm, vec![true, false, false, true, false, false, true]);
}

#[test]
fn uniform_shape_spread_16() {
    // All pixels "on": every window keeps the sentinel, and
    // (15.5 / 16) * 128 + 127.5 = 251.5, truncated to 251.
    let pixels = vec![white(); 25];
    let out = generate_sdf(&pixels, 5, 5, 16);
    assert_eq!(out, vec![251u8; 25]);
}

#[test]
fn uniform_shape_spread_2() {
    // (1.5 / 2) * 128 + 127.5 = 223.5, truncated to 223.
    let bitmap = vec![true; 25];
    let out = generate_distance_field(&bitmap, 5, 5, 2);
    assert_eq!(out, vec![223u8; 25]);
}

#[test]
fn center_off_scenario() {
    // 5x5 bitmap, all "on" except the center (2, 2), spread 2. The center
    // finds an "on" neighbor at squared distance 1: (-0.5 / 2) * 128 + 127.5
    // = 95.5, truncated to 95. The corner's window [0,2)x[0,2) misses the
    // center, so the sentinel applies: (1.5 / 2) * 128 + 127.5 = 223.5 -> 223.
    let mut bitmap = vec![true; 25];
    bitmap[2 * 5 + 2] = false;
    let out = generate_distance_field(&bitmap, 5, 5, 2);
    assert_eq!(out[2 * 5 + 2], 95);
    assert_eq!(out[0], 223);
    // The pixels bordering the center see the "off" cell at distance 1.
    // (0.5 / 2) * 128 + 127.5 = 159.5 -> 159.
    assert_eq!(out[2 * 5 + 1], 159);
    assert_eq!(out[1 * 5 + 2], 159);
}

#[test]
fn center_off_scenario_from_samples() {
    let mut pixels = vec![white(); 25];
    pixels[2 * 5 + 2] = black();
    let out = generate_sdf(&pixels, 5, 5, 2);
    assert_eq!(out[2 * 5 + 2], 95);
    assert_eq!(out[0], 223);
}

#[test]
fn corner_with_oversized_spread() {
    // Spread far larger than the 3x3 image: the window is clamped to the
    // image, no index goes out of bounds, and the sentinel applies
    // everywhere: (254.5 / 255) * 128 + 127.5 = 255.24... -> 255.
    let bitmap = vec![true; 9];
    let out = generate_distance_field(&bitmap, 3, 3, 255);
    assert_eq!(out, vec![255u8; 9]);
    assert_eq!(pixel_value(&bitmap, 3, 3, 0, 0, 255), 255);
}

#[test]
fn output_always_in_byte_range() {
    // Exhaustive over the squared distances of a small spread: every
    // normalized value fits the 8-bit range by construction.
    for spread in 0u8..=16 {
        let cap = spread as u32 * spread as u32;
        for d in 0..=cap {
            let inside = normalized_value(d, true, spread);
            let outside = normalized_value(d, false, spread);
            assert!(u32::from(inside) <= 255);
            assert!(u32::from(outside) <= 255);
        }
    }
}

#[test]
fn sign_symmetry_about_midpoint() {
    // One row, left half "on", right half "off": pixels mirrored about the
    // boundary carry values symmetric about 127.5 up to the floor.
    let bitmap = vec![true, true, false, false];
    let out = generate_distance_field(&bitmap, 4, 1, 4);
    assert_eq!(out, vec![175, 143, 111, 79]);
    assert_eq!(out[1] as u32 + out[2] as u32, 254);
    assert_eq!(out[0] as u32 + out[3] as u32, 254);
}

#[test]
fn normalized_pairs_sum_to_quantized_255() {
    for spread in 1u8..=8 {
        let cap = spread as u32 * spread as u32;
        for d in 0..=cap {
            let sum = normalized_value(d, true, spread) as u32 + normalized_value(
                d,
                false,
                spread,
            ) as u32;
            assert!(sum == 254 || sum == 255);
        }
    }
}

#[test]
fn determinism_same_input_same_output() {
    let mut pixels = vec![white(); 16];
    pixels[5] = black();
    pixels[10] = black();
    let first = generate_sdf(&pixels, 4, 4, 3);
    let second = generate_sdf(&pixels, 4, 4, 3);
    assert_eq!(first, second);
}

#[test]
fn generator_idempotent_on_same_bitmap() {
    let bitmap = vec![true, false, true, false, true, false];
    let first = generate_distance_field(&bitmap, 3, 2, 2);
    let second = generate_distance_field(&bitmap, 3, 2, 2);
    assert_eq!(first, second);
}

#[test]
fn spread_zero_degenerates_to_extremes() {
    // An empty window leaves the sentinel 0, distance -0.5; dividing by the
    // zero spread saturates: 0 inside the shape, 255 outside.
    let bitmap = vec![true, false];
    let out = generate_distance_field(&bitmap, 2, 1, 0);
    assert_eq!(out, vec![0, 255]);
}

#[test]
fn spread_one_uniform() {
    // Sentinel 1, distance 0.5: 0.5 * 128 + 127.5 = 191.5 -> 191.
    let bitmap = vec![true; 4];
    let out = generate_distance_field(&bitmap, 2, 2, 1);
    assert_eq!(out, vec![191u8; 4]);
}

#[test]
fn empty_image() {
    let pixels: Vec<ColorSample> = Vec::new();
    let out = generate_sdf(&pixels, 0, 0, 16);
    assert!(out.is_empty());
}

#[test]
fn pixel_value_matches_generator() {
    let bitmap = vec![true, false, false, true, true, false, true, false, true];
    let out = generate_distance_field(&bitmap, 3, 3, 2);
    for y in 0..3u32 {
        for x in 0..3u32 {
            let v = pixel_value(&bitmap, 3, 3, x, y, 2);
            assert_eq!(v, out[(y * 3 + x) as usize]);
        }
    }
}
