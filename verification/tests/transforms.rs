//! End-to-end tests of the resampler and the perceptual hasher.

use pixhash::{phash, resize, ImgError};

/// A deterministic pseudo-random byte stream (linear congruential).
fn noise_bytes(seed: u32, len: usize) -> Vec<u8> {
    let mut state: u32 = seed;
    let mut out: Vec<u8> = Vec::with_capacity(len);
    for _ in 0..len {
        state = state.wrapping_mul(1664525).wrapping_add(1013904223);
        out.push((state >> 24) as u8);
    }
    out
}

/// A smooth two-axis gradient image.
fn gradient_rgba(w: u32, h: u32) -> Vec<u8> {
    let mut out: Vec<u8> = Vec::new();
    for y in 0..h {
        for x in 0..w {
            let r = (255 * x / w.max(1)) as u8;
            let g = (255 * y / h.max(1)) as u8;
            let b = (255 * (x + y) / (w + h).max(1)) as u8;
            out.push(r);
            out.push(g);
            out.push(b);
            out.push(255);
        }
    }
    out
}

fn hamming_hex(a: &str, b: &str) -> u32 {
    assert_eq!(a.len(), b.len());
    let mut d: u32 = 0;
    for (ca, cb) in a.chars().zip(b.chars()) {
        let na = ca.to_digit(16).expect("hex digit");
        let nb = cb.to_digit(16).expect("hex digit");
        d += (na ^ nb).count_ones();
    }
    d
}

#[test]
fn resize_dimension_invariant() {
    let img = noise_bytes(7, 8 * 6 * 4);
    let out = resize(img, 8, 6, 5, 9).expect("valid resize");
    assert_eq!(out.len(), 5 * 9 * 4);
}

#[test]
fn resize_identity_returns_input() {
    let img = noise_bytes(42, 7 * 5 * 4);
    let out = resize(img.clone(), 7, 5, 7, 5).expect("valid resize");
    assert_eq!(out, img);
}

#[test]
fn resize_identity_on_gradient() {
    let img = gradient_rgba(9, 4);
    let out = resize(img.clone(), 9, 4, 9, 4).expect("valid resize");
    assert_eq!(out, img);
}

#[test]
fn resize_constant_image_stays_constant() {
    let img = vec![200u8; 8 * 8 * 4];
    let out = resize(img, 8, 8, 4, 4).expect("valid resize");
    assert_eq!(out, vec![200u8; 4 * 4 * 4]);
}

#[test]
fn resize_boundary_rejection() {
    let img = vec![0u8; 10 * 10 * 4];
    assert_eq!(resize(img, 10, 10, 0, 5), Err(ImgError::InvalidDimensions));
    let short = vec![0u8; 99];
    assert_eq!(resize(short, 5, 5, 8, 8), Err(ImgError::DimensionMismatch));
}

#[test]
fn resize_zero_source_dimension() {
    assert_eq!(resize(Vec::new(), 0, 4, 2, 2), Err(ImgError::InvalidDimensions));
    assert_eq!(resize(Vec::new(), 4, 0, 2, 2), Err(ImgError::InvalidDimensions));
}

#[test]
fn phash_deterministic() {
    let img = noise_bytes(5, 16 * 16 * 4);
    let a = phash(img.clone(), 16, 16, None).expect("valid hash");
    let b = phash(img, 16, 16, None).expect("valid hash");
    assert_eq!(a, b);
}

#[test]
fn phash_default_hash_size_is_sixteen() {
    let img = gradient_rgba(12, 12);
    let a = phash(img.clone(), 12, 12, None).expect("valid hash");
    let b = phash(img, 12, 12, Some(16)).expect("valid hash");
    assert_eq!(a, b);
}

#[test]
fn phash_hex_format() {
    let img = gradient_rgba(16, 16);
    let hash = phash(img, 16, 16, None).expect("valid hash");
    // 16 * 16 - 1 = 255 bits -> 32 bytes -> 64 hex characters
    assert_eq!(hash.len(), 64);
    assert!(hash.chars().all(|c| c.is_ascii_hexdigit() && !c.is_ascii_uppercase()));
}

#[test]
fn phash_hex_format_small_grid() {
    let img = gradient_rgba(10, 10);
    let hash = phash(img, 10, 10, Some(4)).expect("valid hash");
    // 4 * 4 - 1 = 15 bits -> 2 bytes -> 4 hex characters
    assert_eq!(hash.len(), 4);
    assert!(hash.chars().all(|c| c.is_ascii_hexdigit() && !c.is_ascii_uppercase()));
}

/// A smooth "photographic" test image: two soft blobs of brightness.
fn blobs_rgba(w: u32, h: u32) -> Vec<u8> {
    let mut out: Vec<u8> = Vec::new();
    for y in 0..h {
        for x in 0..w {
            let b1 = (x * (w - 1 - x) * y * (h - 1 - y) * 255) / (((w * w / 4) * (h * h / 4)).max(1));
            let b2 = if x + y < w { 80 } else { 20 };
            let v = (b1 + b2).min(255) as u8;
            out.push(v);
            out.push((v / 2) + 30);
            out.push(255 - v);
            out.push(255);
        }
    }
    out
}

#[test]
fn phash_stable_under_upscale() {
    let img = blobs_rgba(32, 32);
    let big = resize(img.clone(), 32, 32, 64, 64).expect("valid resize");
    let a = phash(img, 32, 32, None).expect("valid hash");
    let b = phash(big, 64, 64, None).expect("valid hash");
    // at most 10% of the 255 hash bits may flip on a doubled image
    assert!(hamming_hex(&a, &b) <= 25, "distance {}", hamming_hex(&a, &b));
}

#[test]
fn phash_stable_under_small_change() {
    let img = blobs_rgba(32, 32);
    let a = phash(img.clone(), 32, 32, None).expect("valid hash");
    let mut tweaked = img;
    tweaked[0] = tweaked[0].wrapping_add(10);
    let b = phash(tweaked, 32, 32, None).expect("valid hash");
    assert!(hamming_hex(&a, &b) <= 25, "distance {}", hamming_hex(&a, &b));
}

#[test]
fn phash_separates_unrelated_noise() {
    let img1 = noise_bytes(1, 16 * 16 * 4);
    let img2 = noise_bytes(999, 16 * 16 * 4);
    let a = phash(img1, 16, 16, None).expect("valid hash");
    let b = phash(img2, 16, 16, None).expect("valid hash");
    let d = hamming_hex(&a, &b);
    // two unrelated noise images should differ in roughly half of 255 bits
    assert!(d >= 64 && d <= 192, "distance {}", d);
}

#[test]
fn phash_not_constant() {
    let img1 = gradient_rgba(16, 16);
    let mut img2 = vec![0u8; 16 * 16 * 4];
    for (i, b) in img2.iter_mut().enumerate() {
        if i % 4 == 3 {
            *b = 255;
        }
    }
    let a = phash(img1, 16, 16, None).expect("valid hash");
    let b = phash(img2, 16, 16, None).expect("valid hash");
    assert_ne!(a, b);
}

#[test]
fn phash_error_cases() {
    assert_eq!(phash(Vec::new(), 0, 4, None), Err(ImgError::InvalidDimensions));
    assert_eq!(phash(Vec::new(), 4, 0, None), Err(ImgError::InvalidDimensions));
    let short = vec![0u8; 10];
    assert_eq!(phash(short, 4, 4, None), Err(ImgError::DimensionMismatch));
    let ok = vec![0u8; 4 * 4 * 4];
    assert_eq!(phash(ok.clone(), 4, 4, Some(0)), Err(ImgError::InvalidHashSize));
    assert_eq!(phash(ok, 4, 4, Some(1)), Err(ImgError::InvalidHashSize));
}

#[test]
fn phash_error_priority_dimensions_first() {
    // a zero dimension is reported even when the hash size is also bad
    assert_eq!(phash(Vec::new(), 0, 0, Some(0)), Err(ImgError::InvalidDimensions));
}
