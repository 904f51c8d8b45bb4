//! The perceptual hash pipeline.
//!
//! The image is resampled to a working grid of `4 * hash_size` samples per
//! side, converted to luminance, transformed with the 2-D DCT, and the
//! top-left `hash_size x hash_size` low-frequency coefficients are kept.
//! The DC coefficient (position `[0][0]`) is dropped; each remaining
//! coefficient contributes one bit — `1` when strictly greater than the
//! median of the retained coefficients — giving `hash_size^2 - 1` bits,
//! packed and rendered as lowercase hexadecimal.

use vstd::prelude::*;
use crate::resample::resize_spec;
use crate::dct::{gray_of, dct2d};
use crate::median::median_spec;
use crate::bits::{pack_bits, hex_of, is_hex_char, hex_digit};

verus! {

/// The hash grid size actually used: the default `16` when none is given.
pub open spec fn eff_hash_size(o: Option<u32>) -> int {
    match o {
        Some(v) => v as int,
        None => 16,
    }
}

/// The retained low-frequency coefficients in row-major order, with the DC
/// coefficient dropped: entry `i` is coefficient `[ (i+1) / s ][ (i+1) % s ]`
/// of the `4s x 4s` coefficient grid.
pub open spec fn coef_grid(p: Seq<u8>, w: int, h: int, s: int) -> Seq<i128> {
    let n = 4 * s;
    let c = dct2d(gray_of(resize_spec(p, w, h, n, n), n), n);
    Seq::new((s * s - 1) as nat, |i: int| c[((i + 1) / s) * n + (i + 1) % s])
}

/// The fingerprint bits: one per retained coefficient, set when the
/// coefficient is strictly greater than the median of all retained ones.
pub open spec fn hash_bits(p: Seq<u8>, w: int, h: int, s: int) -> Seq<bool> {
    let c = coef_grid(p, w, h, s);
    Seq::new((s * s - 1) as nat, |i: int| c[i] > median_spec(c))
}

/// The full hash: the bits packed most-significant-first into bytes and
/// rendered as lowercase hexadecimal.
pub open spec fn phash_spec(p: Seq<u8>, w: int, h: int, s: int) -> Seq<char> {
    hex_of(pack_bits(hash_bits(p, w, h, s)))
}

/// The hash string has exactly `2 * ceil((s^2 - 1) / 8)` characters, all of
/// them lowercase hexadecimal digits.
pub proof fn lemma_phash_format(p: Seq<u8>, w: int, h: int, s: int)
    requires
        2 <= s,
    ensures
        phash_spec(p, w, h, s).len() == 2 * ((s * s - 1 + 7) / 8),
        forall|k: int| 0 <= k < phash_spec(p, w, h, s).len() ==> is_hex_char(
            #[trigger] phash_spec(p, w, h, s)[k],
        ),
{
    assert(s * s - 1 >= 3) by (nonlinear_arith)
        requires s >= 2;
    assert forall|k: int| 0 <= k < phash_spec(p, w, h, s).len() implies is_hex_char(
        #[trigger] phash_spec(p, w, h, s)[k],
    ) by {
        crate::bits::lemma_hex_digit_is_hex(0);
    }
}

/// The hash is a function of the pixel buffer and the parameters alone: any
/// two results computed from the same input are equal.
pub proof fn lemma_phash_deterministic(
    r1: Seq<char>, r2: Seq<char>, p: Seq<u8>, w: int, h: int, s: int,
)
    requires
        r1 == phash_spec(p, w, h, s),
        r2 == phash_spec(p, w, h, s),
    ensures
        r1 == r2,
{
}

/// Keep the `s x s` low-frequency corner of the `n x n` coefficient grid,
/// row-major, dropping the DC coefficient.
pub fn crop_exec(cc: &Vec<i128>, s: u32, n: u32) -> (r: Vec<i128>)
    requires
        2 <= s,
        n == 4 * (s as int),
        cc@.len() == (n as int) * (n as int),
        (s as int) * (s as int) <= usize::MAX as int,
    ensures
        r@.len() == (s as int) * (s as int) - 1,
        forall|i: int| 0 <= i < r@.len() ==> r@[i] == cc@[((i + 1) / (s as int)) * (n as int) + (i
            + 1) % (s as int)],
{
    let cclen: usize = cc.len();
    proof {
        assert((s as int) * (s as int) >= 4) by (nonlinear_arith)
            requires s >= 2;
    }
    let total: usize = (s as usize) * (s as usize) - 1;
    let mut out: Vec<i128> = Vec::new();
    let mut i: usize = 0;
    while i < total
        invariant
            2 <= s,
            n == 4 * (s as int),
            cc@.len() == (n as int) * (n as int),
            cclen == cc@.len(),
            total == (s as int) * (s as int) - 1,
            i <= total,
            out@.len() == i,
            forall|t: int| 0 <= t < i ==> out@[t] == cc@[((t + 1) / (s as int)) * (n as int) + (t
                + 1) % (s as int)],
        decreases total - i,
    {
        let row: usize = (i + 1) / (s as usize);
        let col: usize = (i + 1) % (s as usize);
        proof {
            let si = s as int;
            let ni = n as int;
            assert(si * si - 1 == si * (si - 1) + (si - 1)) by (nonlinear_arith);
            vstd::arithmetic::div_mod::lemma_div_is_ordered(
                i as int + 1, si * (si - 1) + (si - 1), si,
            );
            vstd::arithmetic::div_mod::lemma_fundamental_div_mod_converse(
                si * (si - 1) + (si - 1), si, si - 1, si - 1,
            );
            vstd::arithmetic::div_mod::lemma_div_pos_is_pos(i as int + 1, si);
            vstd::arithmetic::div_mod::lemma_mod_division_less_than_divisor(i as int + 1, si);
            assert(row <= si - 1);
            assert(0 <= (row as int) * ni && (row as int) * ni + (col as int) < ni * ni)
                by (nonlinear_arith)
                requires 0 <= row < si, 0 <= col < si, ni == 4 * si, si >= 2;
        }
        let idx: usize = row * (n as usize) + col;
        out.push(cc[idx]);
        i = i + 1;
    }
    out
}

/// One bit per coefficient: `1` when strictly greater than the median.
pub fn bits_exec(c: &Vec<i128>, med: i128) -> (r: Vec<bool>)
    ensures
        r@.len() == c@.len(),
        forall|i: int| 0 <= i < r@.len() ==> r@[i] == (c@[i] > med),
{
    let mut out: Vec<bool> = Vec::new();
    let mut i: usize = 0;
    while i < c.len()
        invariant
            i <= c@.len(),
            out@.len() == i,
            forall|t: int| 0 <= t < i ==> out@[t] == (c@[t] > med),
        decreases c@.len() - i,
    {
        out.push(c[i] > med);
        i = i + 1;
    }
    out
}

} // verus!
