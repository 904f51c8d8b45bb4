//! Exact-value tests of the fixed-point building blocks.

use pixhash::bits::{hex_exec, pack_exec};
use pixhash::kernel::lanczos_exec;
use pixhash::median::median;
use pixhash::trig::{cos_fp, sin_fp};

#[test]
fn sine_exact_at_cardinal_angles() {
    assert_eq!(sin_fp(0), 0);
    assert_eq!(sin_fp(16384), 65536); // quarter turn: sin(pi/2) = 1
    assert_eq!(sin_fp(32768), 0); // half turn: sin(pi) = 0
    assert_eq!(sin_fp(49152), -65536); // three quarters: sin(3 pi / 2) = -1
}

#[test]
fn sine_accuracy_midway() {
    // sin(pi/4) = 0.7071..., scaled: 46341; Bhaskara is within ~0.2%
    let v = sin_fp(8192);
    assert!((46341 - v).abs() < 150, "sin_fp(8192) = {}", v);
}

#[test]
fn cosine_is_shifted_sine() {
    assert_eq!(cos_fp(0), 65536);
    assert_eq!(cos_fp(16384), 0);
    assert_eq!(cos_fp(32768), -65536);
}

#[test]
fn kernel_exact_at_whole_offsets() {
    assert_eq!(lanczos_exec(0), 65536); // L(0) = 1
    assert_eq!(lanczos_exec(256), 0); // L(1) = 0
    assert_eq!(lanczos_exec(512), 0); // L(2) = 0
    assert_eq!(lanczos_exec(768), 0); // L(3) = 0 (window edge)
    assert_eq!(lanczos_exec(10000), 0); // far outside the window
}

#[test]
fn kernel_shape() {
    // L(1/2) = 0.6079...: scaled about 39843
    let v = lanczos_exec(128);
    assert!((39843 - v).abs() < 300, "lanczos_exec(128) = {}", v);
    // the first side lobe is negative: L(3/2) = -0.1351...
    let w = lanczos_exec(384);
    assert!(w < -7000 && w > -11000, "lanczos_exec(384) = {}", w);
}

#[test]
fn median_picks_middle_of_sorted_order() {
    assert_eq!(median(&vec![5, 1, 3]), 3);
    assert_eq!(median(&vec![9]), 9);
    assert_eq!(median(&vec![-7, 100, -7]), -7);
}

#[test]
fn median_even_length_takes_lower_middle() {
    assert_eq!(median(&vec![4, 1, 3, 2]), 2);
}

#[test]
fn pack_bits_msb_first() {
    let bits = vec![true, false, false, false, false, false, false, true, true];
    // first byte 1000_0001, second byte 1000_0000 (zero-padded)
    assert_eq!(pack_exec(&bits), vec![0x81, 0x80]);
}

#[test]
fn hex_lowercase_two_digits_per_byte() {
    assert_eq!(hex_exec(&vec![0x0f, 0xa0, 0x00, 0xff]), "0fa000ff");
    assert_eq!(hex_exec(&Vec::new()), "");
}
