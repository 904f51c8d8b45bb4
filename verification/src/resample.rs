//! Separable Lanczos resampling of RGBA pixel buffers.
//!
//! Every output sample is a weighted sum of source samples along each axis.
//! The weight of source index `t` for output index `o` is the kernel value at
//! the distance between `t` and the center of `o` mapped into the source,
//! scaled down by the kernel stretch (the kernel widens when shrinking).
//! Samples outside the source are clamped to the nearest edge.  The weighted
//! sum is divided by the sum of the weights, rounded to nearest and clamped
//! to `[0, 255]`.  All four channels are treated as independent scalar
//! fields; positions are in 1/256ths of a pixel and weights are scaled by
//! `65536`.

use vstd::prelude::*;
use vstd::arithmetic::div_mod::{
    lemma_div_is_ordered, lemma_div_pos_is_pos, lemma_div_multiples_vanish,
    lemma_hoist_over_denominator, lemma_fundamental_div_mod,
};
use crate::kernel::{lanczos_fp, lanczos_exec};

verus! {

/// Center of output sample `o` on the source axis, in 1/256ths of a source
/// pixel: `(o + 1/2) * src / dst - 1/2`.
pub open spec fn axis_center(src: int, dst: int, o: int) -> int {
    ((2 * o + 1) * src * 128) / dst - 128
}

/// How far the kernel is stretched on this axis, in 1/256ths (`256` means no
/// stretch).  Shrinking stretches the kernel by `src / dst`; enlarging does
/// not shrink it.
pub open spec fn axis_stretch(src: int, dst: int) -> int {
    let r = (src * 256) / dst;
    if r < 256 { 256 } else { r }
}

/// First tap considered for output sample `o`: the floor of the left end of
/// the kernel window.
pub open spec fn axis_lo(src: int, dst: int, o: int) -> int {
    (axis_center(src, dst, o) - 3 * axis_stretch(src, dst)) / 256
}

/// Last tap considered for output sample `o`: one past the floor of the right
/// end of the kernel window.  Taps at or beyond the window edge get weight
/// exactly `0`, so widening the range never changes a sum.
pub open spec fn axis_hi(src: int, dst: int, o: int) -> int {
    (axis_center(src, dst, o) + 3 * axis_stretch(src, dst)) / 256 + 1
}

/// Number of taps considered for output sample `o`.
pub open spec fn axis_taps(src: int, dst: int, o: int) -> nat {
    (axis_hi(src, dst, o) + 1 - axis_lo(src, dst, o)) as nat
}

/// Clamp-to-edge: the source index actually sampled for tap `t`.
pub open spec fn clamp_idx(t: int, n: int) -> int {
    if t < 0 {
        0
    } else if t >= n {
        n - 1
    } else {
        t
    }
}

/// Weight of tap `t` for output sample `o`, scaled by `65536`.
pub open spec fn axis_weight(src: int, dst: int, o: int, t: int) -> int {
    let c = axis_center(src, dst, o);
    let sr = axis_stretch(src, dst);
    let d = if t * 256 >= c { t * 256 - c } else { c - t * 256 };
    lanczos_fp((d * 256) / sr)
}

/// Sum of the first `n` tap weights for output sample `o`.
pub open spec fn sum_weights(src: int, dst: int, o: int, n: nat) -> int
    decreases n,
{
    if n == 0 {
        0
    } else {
        sum_weights(src, dst, o, (n - 1) as nat)
            + axis_weight(src, dst, o, axis_lo(src, dst, o) + n - 1)
    }
}

/// Weighted sum of the first `n` horizontal taps of channel `ch`, on source
/// row `yy` (already clamped), for output column `ox`.
pub open spec fn row_num(p: Seq<u8>, w: int, nw: int, ox: int, yy: int, ch: int, n: nat) -> int
    decreases n,
{
    if n == 0 {
        0
    } else {
        let t = axis_lo(w, nw, ox) + n - 1;
        row_num(p, w, nw, ox, yy, ch, (n - 1) as nat)
            + axis_weight(w, nw, ox, t) * (p[(yy * w + clamp_idx(t, w)) * 4 + ch] as int)
    }
}

/// Weighted sum of the first `n` vertical taps, each a full horizontal
/// weighted sum, for output pixel `(ox, oy)`, channel `ch`.
pub open spec fn col_num(
    p: Seq<u8>, w: int, h: int, nw: int, nh: int, ox: int, oy: int, ch: int, n: nat,
) -> int
    decreases n,
{
    if n == 0 {
        0
    } else {
        let t = axis_lo(h, nh, oy) + n - 1;
        col_num(p, w, h, nw, nh, ox, oy, ch, (n - 1) as nat)
            + axis_weight(h, nh, oy, t)
                * row_num(p, w, nw, ox, clamp_idx(t, h), ch, axis_taps(w, nw, ox))
    }
}

/// One resampled channel value: the normalized, rounded and clamped weighted
/// sum.  If the weight sum degenerates to zero or below (it cannot for this
/// kernel at sane scales, but the arithmetic does not prove that), the
/// nearest source sample is used unchanged.
pub open spec fn out_pixel(
    p: Seq<u8>, w: int, h: int, nw: int, nh: int, ox: int, oy: int, ch: int,
) -> int {
    let num = col_num(p, w, h, nw, nh, ox, oy, ch, axis_taps(h, nh, oy));
    let den = sum_weights(w, nw, ox, axis_taps(w, nw, ox))
        * sum_weights(h, nh, oy, axis_taps(h, nh, oy));
    if den <= 0 {
        let cx = clamp_idx((axis_center(w, nw, ox) + 128) / 256, w);
        let cy = clamp_idx((axis_center(h, nh, oy) + 128) / 256, h);
        p[(cy * w + cx) * 4 + ch] as int
    } else if num <= 0 {
        0
    } else {
        let v = (num + den / 2) / den;
        if v > 255 {
            255
        } else {
            v
        }
    }
}

/// Byte `i` of the resized buffer, decoding `i` into pixel and channel.
pub open spec fn out_byte(p: Seq<u8>, w: int, h: int, nw: int, nh: int, i: int) -> int {
    let px = i / 4;
    out_pixel(p, w, h, nw, nh, px % nw, px / nw, i % 4)
}

/// The resized buffer: `nw x nh` RGBA bytes, row-major.
pub open spec fn resize_spec(p: Seq<u8>, w: int, h: int, nw: int, nh: int) -> Seq<u8> {
    Seq::new((nw * nh * 4) as nat, |i: int| out_byte(p, w, h, nw, nh, i) as u8)
}

/// Every resampled channel value is a byte.
pub proof fn lemma_out_pixel_range(
    p: Seq<u8>, w: int, h: int, nw: int, nh: int, ox: int, oy: int, ch: int,
)
    ensures
        0 <= out_pixel(p, w, h, nw, nh, ox, oy, ch) <= 255,
{
    let num = col_num(p, w, h, nw, nh, ox, oy, ch, axis_taps(h, nh, oy));
    let den = sum_weights(w, nw, ox, axis_taps(w, nw, ox))
        * sum_weights(h, nh, oy, axis_taps(h, nh, oy));
    if den > 0 && num > 0 {
        lemma_div_pos_is_pos(num + den / 2, den);
    }
}

/// With equal source and destination sizes, output centers sit exactly on
/// the source samples and the kernel is not stretched.
proof fn lemma_axis_identity(s: int, o: int)
    requires
        1 <= s,
        0 <= o < s,
    ensures
        axis_center(s, s, o) == 256 * o,
        axis_stretch(s, s) == 256,
        axis_lo(s, s, o) == o - 3,
        axis_hi(s, s, o) == o + 4,
        axis_taps(s, s, o) == 8,
{
    assert((2 * o + 1) * s * 128 == s * ((2 * o + 1) * 128)) by (nonlinear_arith);
    lemma_div_multiples_vanish((2 * o + 1) * 128, s);
    assert(s * 256 == s * 256);
    lemma_div_multiples_vanish(256, s);
    assert(axis_center(s, s, o) == 256 * o);
    assert(axis_stretch(s, s) == 256);
    assert(256 * o - 768 == 256 * (o - 3));
    lemma_div_multiples_vanish(o - 3, 256);
    assert(256 * o + 768 == 256 * (o + 3));
    lemma_div_multiples_vanish(o + 3, 256);
}

/// With equal sizes, the only tap with nonzero weight is the source sample
/// itself, whose weight is exactly `65536`.
proof fn lemma_weight_identity(s: int, o: int, t: int)
    requires
        1 <= s,
        0 <= o < s,
        o - 3 <= t <= o + 4,
    ensures
        axis_weight(s, s, o, t) == if t == o { 65536int } else { 0int },
{
    lemma_axis_identity(s, o);
    let c = axis_center(s, s, o);
    let d = if t * 256 >= c { t * 256 - c } else { c - t * 256 };
    let k = if t >= o { t - o } else { o - t };
    assert(d == 256 * k);
    lemma_div_multiples_vanish(d, 256);
    assert((d * 256) / 256 == d);
    if t == o {
        assert(lanczos_fp(0) == 65536);
    } else {
        crate::kernel::lemma_lanczos_zero_at_whole_offsets(k);
    }
}

/// With equal sizes the tap weights of one output sample add up to exactly
/// one kernel unit.
proof fn lemma_sum_identity(s: int, o: int)
    requires
        1 <= s,
        0 <= o < s,
    ensures
        sum_weights(s, s, o, 8) == 65536,
{
    lemma_axis_identity(s, o);
    let lo = o - 3;
    lemma_weight_identity(s, o, lo + 0);
    lemma_weight_identity(s, o, lo + 1);
    lemma_weight_identity(s, o, lo + 2);
    lemma_weight_identity(s, o, lo + 3);
    lemma_weight_identity(s, o, lo + 4);
    lemma_weight_identity(s, o, lo + 5);
    lemma_weight_identity(s, o, lo + 6);
    lemma_weight_identity(s, o, lo + 7);
    assert(sum_weights(s, s, o, 0) == 0);
    assert(sum_weights(s, s, o, 1) == 0);
    assert(sum_weights(s, s, o, 2) == 0);
    assert(sum_weights(s, s, o, 3) == 0);
    assert(sum_weights(s, s, o, 4) == 65536);
    assert(sum_weights(s, s, o, 5) == 65536);
    assert(sum_weights(s, s, o, 6) == 65536);
    assert(sum_weights(s, s, o, 7) == 65536);
    assert(sum_weights(s, s, o, 8) == 65536);
}

/// With equal sizes a horizontal pass returns the source sample, scaled by
/// one kernel unit.
proof fn lemma_row_identity(p: Seq<u8>, w: int, ox: int, yy: int, ch: int)
    requires
        1 <= w,
        0 <= ox < w,
    ensures
        row_num(p, w, w, ox, yy, ch, 8) == 65536 * (p[(yy * w + ox) * 4 + ch] as int),
{
    lemma_axis_identity(w, ox);
    let lo = ox - 3;
    lemma_weight_identity(w, ox, lo + 0);
    lemma_weight_identity(w, ox, lo + 1);
    lemma_weight_identity(w, ox, lo + 2);
    lemma_weight_identity(w, ox, lo + 3);
    lemma_weight_identity(w, ox, lo + 4);
    lemma_weight_identity(w, ox, lo + 5);
    lemma_weight_identity(w, ox, lo + 6);
    lemma_weight_identity(w, ox, lo + 7);
    assert(clamp_idx(ox, w) == ox);
    assert(row_num(p, w, w, ox, yy, ch, 0) == 0);
    assert(row_num(p, w, w, ox, yy, ch, 1) == 0);
    assert(row_num(p, w, w, ox, yy, ch, 2) == 0);
    assert(row_num(p, w, w, ox, yy, ch, 3) == 0);
    assert(row_num(p, w, w, ox, yy, ch, 4) == 65536 * (p[(yy * w + ox) * 4 + ch] as int));
    assert(row_num(p, w, w, ox, yy, ch, 5) == row_num(p, w, w, ox, yy, ch, 4));
    assert(row_num(p, w, w, ox, yy, ch, 6) == row_num(p, w, w, ox, yy, ch, 5));
    assert(row_num(p, w, w, ox, yy, ch, 7) == row_num(p, w, w, ox, yy, ch, 6));
    assert(row_num(p, w, w, ox, yy, ch, 8) == row_num(p, w, w, ox, yy, ch, 7));
}

/// With equal sizes the full two-axis weighted sum is the source sample,
/// scaled by one kernel unit per axis.
proof fn lemma_col_identity(p: Seq<u8>, w: int, h: int, ox: int, oy: int, ch: int)
    requires
        1 <= w,
        1 <= h,
        0 <= ox < w,
        0 <= oy < h,
    ensures
        col_num(p, w, h, w, h, ox, oy, ch, 8) == 4294967296 * (p[(oy * w + ox) * 4 + ch] as int),
{
    lemma_axis_identity(h, oy);
    lemma_axis_identity(w, ox);
    let lo = oy - 3;
    lemma_weight_identity(h, oy, lo + 0);
    lemma_weight_identity(h, oy, lo + 1);
    lemma_weight_identity(h, oy, lo + 2);
    lemma_weight_identity(h, oy, lo + 3);
    lemma_weight_identity(h, oy, lo + 4);
    lemma_weight_identity(h, oy, lo + 5);
    lemma_weight_identity(h, oy, lo + 6);
    lemma_weight_identity(h, oy, lo + 7);
    assert(clamp_idx(oy, h) == oy);
    lemma_row_identity(p, w, ox, oy, ch);
    let pv = p[(oy * w + ox) * 4 + ch] as int;
    assert(col_num(p, w, h, w, h, ox, oy, ch, 0) == 0);
    assert(col_num(p, w, h, w, h, ox, oy, ch, 1) == 0);
    assert(col_num(p, w, h, w, h, ox, oy, ch, 2) == 0);
    assert(col_num(p, w, h, w, h, ox, oy, ch, 3) == 0);
    assert(col_num(p, w, h, w, h, ox, oy, ch, 4) == 65536 * (65536 * pv)) by {
        assert(col_num(p, w, h, w, h, ox, oy, ch, 4) == col_num(p, w, h, w, h, ox, oy, ch, 3)
            + axis_weight(h, h, oy, oy) * row_num(p, w, w, ox, clamp_idx(oy, h), ch, axis_taps(w, w, ox)));
    }
    assert(col_num(p, w, h, w, h, ox, oy, ch, 5) == col_num(p, w, h, w, h, ox, oy, ch, 4));
    assert(col_num(p, w, h, w, h, ox, oy, ch, 6) == col_num(p, w, h, w, h, ox, oy, ch, 5));
    assert(col_num(p, w, h, w, h, ox, oy, ch, 7) == col_num(p, w, h, w, h, ox, oy, ch, 6));
    assert(col_num(p, w, h, w, h, ox, oy, ch, 8) == col_num(p, w, h, w, h, ox, oy, ch, 7));
    assert(65536 * (65536 * pv) == 4294967296 * pv) by (nonlinear_arith);
}

/// With equal sizes each resampled channel value is exactly the source
/// sample.
proof fn lemma_pixel_identity(p: Seq<u8>, w: int, h: int, ox: int, oy: int, ch: int)
    requires
        1 <= w,
        1 <= h,
        0 <= ox < w,
        0 <= oy < h,
        0 <= ch < 4,
    ensures
        out_pixel(p, w, h, w, h, ox, oy, ch) == p[(oy * w + ox) * 4 + ch] as int,
{
    lemma_sum_identity(w, ox);
    lemma_sum_identity(h, oy);
    lemma_axis_identity(w, ox);
    lemma_axis_identity(h, oy);
    lemma_col_identity(p, w, h, ox, oy, ch);
    let pv = p[(oy * w + ox) * 4 + ch] as int;
    let num = col_num(p, w, h, w, h, ox, oy, ch, 8);
    let den = 65536int * 65536int;
    assert(den == 4294967296);
    if pv == 0 {
        assert(num == 0);
    } else {
        assert(num == 4294967296 * pv);
        assert(num > 0);
        vstd::arithmetic::div_mod::lemma_fundamental_div_mod_converse(
            num + den / 2, 4294967296, pv, 2147483648,
        );
        assert((num + den / 2) / den == pv);
    }
}

/// Resizing to the same dimensions returns the buffer unchanged: with the
/// kernel exactly `65536` at offset `0` and exactly `0` at whole nonzero
/// offsets, each output sample normalizes and rounds back to its source
/// sample.
pub proof fn lemma_resize_identity(p: Seq<u8>, w: int, h: int)
    requires
        1 <= w,
        1 <= h,
        p.len() == w * h * 4,
    ensures
        resize_spec(p, w, h, w, h) == p,
{
    assert forall|i: int| 0 <= i < p.len() implies resize_spec(p, w, h, w, h)[i] == p[i] by {
        let px = i / 4;
        let ch = i % 4;
        let ox = px % w;
        let oy = px / w;
        lemma_fundamental_div_mod(i, 4);
        vstd::arithmetic::div_mod::lemma_mod_division_less_than_divisor(i, 4);
        lemma_fundamental_div_mod(px, w);
        vstd::arithmetic::div_mod::lemma_mod_division_less_than_divisor(px, w);
        lemma_div_pos_is_pos(i, 4);
        lemma_div_pos_is_pos(px, w);
        assert(w * h * 4 - 1 == 4 * (w * h - 1) + 3) by (nonlinear_arith);
        lemma_div_is_ordered(i, 4 * (w * h - 1) + 3, 4);
        vstd::arithmetic::div_mod::lemma_fundamental_div_mod_converse(
            4 * (w * h - 1) + 3, 4, w * h - 1, 3,
        );
        assert(px <= w * h - 1);
        assert(w * h - 1 == w * (h - 1) + (w - 1)) by (nonlinear_arith);
        lemma_div_is_ordered(px, w * (h - 1) + (w - 1), w);
        vstd::arithmetic::div_mod::lemma_fundamental_div_mod_converse(
            w * (h - 1) + (w - 1), w, h - 1, w - 1,
        );
        assert(0 <= oy < h);
        lemma_pixel_identity(p, w, h, ox, oy, ch);
        assert((oy * w + ox) * 4 + ch == i) by (nonlinear_arith)
            requires i == 4 * px + ch, px == w * oy + ox;
    }
    assert(resize_spec(p, w, h, w, h) =~= p);
}

/// Center, stretch and tap range of one axis, as exec values:
/// `(center, stretch, lo, hi)`.
fn axis_params(src: u32, dst: u32, o: u32) -> (r: (i64, i64, i64, i64))
    requires
        1 <= src,
        1 <= dst,
        o < dst,
    ensures
        r.0 == axis_center(src as int, dst as int, o as int),
        r.1 == axis_stretch(src as int, dst as int),
        r.2 == axis_lo(src as int, dst as int, o as int),
        r.3 == axis_hi(src as int, dst as int, o as int),
        -128 <= r.0 <= 256 * (src as int),
        256 <= r.1 <= 256 * (src as int),
        r.2 <= r.3,
        r.3 + 1 - r.2 <= 6 * (src as int) + 3,
        -2 - 3 * (src as int) <= r.2,
        r.3 <= 4 * (src as int) + 1,
{
    let si = src as u128;
    proof {
        let oi = o as int;
        let si2 = src as int;
        assert(0 <= (2 * oi + 1) * si2 && (2 * oi + 1) * si2 * 128 < 0x10000000000000000000)
            by (nonlinear_arith)
            requires 0 <= oi < 4294967296, 0 < si2 < 4294967296;
    }
    let num: u128 = (2 * (o as u128) + 1) * si * 128;
    proof {
        let oi = o as int;
        let di = dst as int;
        assert((2 * oi + 1) * (src as int) * 128 <= di * (256 * (src as int))) by (nonlinear_arith)
            requires 0 <= oi < di, src >= 1;
        lemma_div_is_ordered((2 * oi + 1) * (src as int) * 128, di * (256 * (src as int)), di);
        lemma_div_multiples_vanish(256 * (src as int), di);
        lemma_div_pos_is_pos((2 * oi + 1) * (src as int) * 128, di);
    }
    let cpos: u128 = num / (dst as u128);
    let c: i64 = (cpos as i64) - 128;
    let sr0: u64 = ((src as u64) * 256) / (dst as u64);
    proof {
        lemma_div_is_ordered((src as int) * 256, (dst as int) * (256 * (src as int)), dst as int);
        assert((src as int) * 256 <= (dst as int) * (256 * (src as int))) by (nonlinear_arith)
            requires src >= 1, dst >= 1;
        lemma_div_multiples_vanish(256 * (src as int), dst as int);
    }
    let sr: i64 = if sr0 < 256 {
        256
    } else {
        sr0 as i64
    };
    let k: i64 = (3 * sr) / 256 + 2;
    proof {
        lemma_fundamental_div_mod(3 * (sr as int), 256);
        lemma_hoist_over_denominator(
            (c as int) - 3 * (sr as int),
            k as int,
            256nat,
        );
    }
    let lo: i64 = (((c - 3 * sr + k * 256) as u64) / 256) as i64 - k;
    proof {
        lemma_div_pos_is_pos((c as int) + 3 * (sr as int), 256);
    }
    let hi: i64 = (((c + 3 * sr) as u64) / 256) as i64 + 1;
    proof {
        let ci = c as int;
        let sri = sr as int;
        // hi - lo is at most the window width in whole pixels plus slack
        lemma_div_is_ordered(ci - 3 * sri, ci + 3 * sri, 256);
        lemma_fundamental_div_mod(ci - 3 * sri, 256);
        let q = (ci - 3 * sri) / 256;
        let rm = (ci - 3 * sri) % 256;
        lemma_hoist_over_denominator(rm + 6 * sri, q, 256nat);
        assert(ci + 3 * sri == (rm + 6 * sri) + q * 256);
        assert((ci + 3 * sri) / 256 == (rm + 6 * sri) / 256 + q);
        lemma_div_is_ordered(rm + 6 * sri, 255 + 6 * sri, 256);
        lemma_hoist_over_denominator(255, 6 * (sri / 256), 256nat);
        lemma_fundamental_div_mod(sri, 256);
        // 6*sri <= 256*(6*(sri/256)) + 6*255, so (255 + 6*sri)/256 <= 6*(sri/256) + 6
        lemma_div_is_ordered(255 + 6 * sri, 255 + 6 * 255 + (6 * (sri / 256)) * 256, 256);
        assert(255 + 6 * sri <= 255 + 6 * 255 + (6 * (sri / 256)) * 256) by (nonlinear_arith)
            requires sri == 256 * (sri / 256) + sri % 256, 0 <= sri % 256 < 256;
        lemma_hoist_over_denominator(255int + 6 * 255, 6 * (sri / 256), 256nat);
        // stretch in whole pixels is at most src
        lemma_div_is_ordered(sri, 256 * (src as int), 256);
        lemma_div_multiples_vanish(src as int, 256);
        // absolute bounds of the tap range
        let s = src as int;
        lemma_div_is_ordered(-128 - 768 * s, ci - 3 * sri, 256);
        vstd::arithmetic::div_mod::lemma_fundamental_div_mod_converse(
            -128 - 768 * s, 256, -3 * s - 1, 128,
        );
        lemma_div_is_ordered(ci + 3 * sri, 1024 * s, 256);
        assert(1024 * s == 256 * (4 * s)) by (nonlinear_arith);
        lemma_div_multiples_vanish(4 * s, 256);
    }
    (c, sr, lo, hi)
}

/// All tap weights of one axis for output sample `o`:
/// `(weights, lo, sum)`, where `weights[j]` belongs to tap `lo + j`.
fn axis_weights(src: u32, dst: u32, o: u32) -> (r: (Vec<i64>, i64, i128, i64))
    requires
        1 <= src,
        1 <= dst,
        o < dst,
    ensures
        r.1 == axis_lo(src as int, dst as int, o as int),
        r.0@.len() == axis_taps(src as int, dst as int, o as int),
        r.0@.len() <= 6 * (src as int) + 3,
        forall|j: int|
            0 <= j < r.0@.len() ==> r.0@[j] == axis_weight(
                src as int, dst as int, o as int, r.1 + j,
            ) && -110000 <= r.0@[j] <= 110000,
        r.2 == sum_weights(src as int, dst as int, o as int, axis_taps(src as int, dst as int, o as int)),
        -110000 * (6 * (src as int) + 3) <= r.2 <= 110000 * (6 * (src as int) + 3),
        r.3 == axis_center(src as int, dst as int, o as int),
        -128 <= r.3 <= 256 * (src as int),
        -2 - 3 * (src as int) <= r.1,
        r.1 + r.0@.len() <= 4 * (src as int) + 2,
{
    let (c, sr, lo, hi) = axis_params(src, dst, o);
    let n: u64 = (hi + 1 - lo) as u64;
    let mut wts: Vec<i64> = Vec::new();
    let mut sum: i128 = 0;
    let mut k: u64 = 0;
    while k < n
        invariant
            1 <= src,
            1 <= dst,
            o < dst,
            c == axis_center(src as int, dst as int, o as int),
            sr == axis_stretch(src as int, dst as int),
            lo == axis_lo(src as int, dst as int, o as int),
            n == axis_taps(src as int, dst as int, o as int),
            n <= 6 * (src as int) + 3,
            -128 <= c <= 256 * (src as int),
            256 <= sr <= 256 * (src as int),
            -2 - 3 * (src as int) <= lo,
            lo + n <= 4 * (src as int) + 2,
            k <= n,
            wts@.len() == k,
            forall|j: int|
                0 <= j < k ==> wts@[j] == axis_weight(src as int, dst as int, o as int, lo + j)
                    && -110000 <= wts@[j] <= 110000,
            sum == sum_weights(src as int, dst as int, o as int, k as nat),
            -110000 * (k as int) <= sum <= 110000 * (k as int),
        decreases n - k,
    {
        let t: i64 = lo + (k as i64);
        let tp: i64 = t * 256;
        let d: i64 = if tp >= c {
            tp - c
        } else {
            c - tp
        };
        let a: u64 = ((d as u64) * 256) / (sr as u64);
        let wv: i64 = lanczos_exec(a);
        proof {
            assert(wv == axis_weight(src as int, dst as int, o as int, lo + k));
            assert(sum_weights(src as int, dst as int, o as int, (k + 1) as nat)
                == sum_weights(src as int, dst as int, o as int, k as nat)
                    + axis_weight(src as int, dst as int, o as int, lo + k));
        }
        sum = sum + (wv as i128);
        wts.push(wv);
        k = k + 1;
    }
    (wts, lo, sum, c)
}

/// One output channel value from precomputed axis weights.
#[verifier::rlimit(30)]
fn sample_channel(
    p: &Vec<u8>, w: u32, h: u32, nw: u32, nh: u32, ox: u32, oy: u32, ch: u32,
    xw: &Vec<i64>, xlo: i64, xsum: i128, cxv: i64,
    yw: &Vec<i64>, ylo: i64, ysum: i128, cyv: i64,
) -> (r: u8)
    requires
        p@.len() == (w as int) * (h as int) * 4,
        1 <= w,
        1 <= h,
        1 <= nw,
        1 <= nh,
        ox < nw,
        oy < nh,
        ch < 4,
        xlo == axis_lo(w as int, nw as int, ox as int),
        xw@.len() == axis_taps(w as int, nw as int, ox as int),
        xw@.len() <= 6 * (w as int) + 3,
        forall|j: int|
            0 <= j < xw@.len() ==> xw@[j] == axis_weight(w as int, nw as int, ox as int, xlo + j)
                && -110000 <= xw@[j] <= 110000,
        xsum == sum_weights(w as int, nw as int, ox as int, axis_taps(w as int, nw as int, ox as int)),
        -110000 * (6 * (w as int) + 3) <= xsum <= 110000 * (6 * (w as int) + 3),
        cxv == axis_center(w as int, nw as int, ox as int),
        -128 <= cxv <= 256 * (w as int),
        ylo == axis_lo(h as int, nh as int, oy as int),
        yw@.len() == axis_taps(h as int, nh as int, oy as int),
        yw@.len() <= 6 * (h as int) + 3,
        forall|j: int|
            0 <= j < yw@.len() ==> yw@[j] == axis_weight(h as int, nh as int, oy as int, ylo + j)
                && -110000 <= yw@[j] <= 110000,
        ysum == sum_weights(h as int, nh as int, oy as int, axis_taps(h as int, nh as int, oy as int)),
        -110000 * (6 * (h as int) + 3) <= ysum <= 110000 * (6 * (h as int) + 3),
        cyv == axis_center(h as int, nh as int, oy as int),
        -128 <= cyv <= 256 * (h as int),
        -2 - 3 * (w as int) <= xlo,
        xlo + xw@.len() <= 4 * (w as int) + 2,
        -2 - 3 * (h as int) <= ylo,
        ylo + yw@.len() <= 4 * (h as int) + 2,
    ensures
        r == out_pixel(p@, w as int, h as int, nw as int, nh as int, ox as int, oy as int, ch as int),
{
    let plen: usize = p.len();
    let mut num: i128 = 0;
    let mut j: usize = 0;
    while j < yw.len()
        invariant
            p@.len() == (w as int) * (h as int) * 4,
            1 <= w, 1 <= h, 1 <= nw, 1 <= nh, ox < nw, oy < nh, ch < 4,
            xlo == axis_lo(w as int, nw as int, ox as int),
            xw@.len() == axis_taps(w as int, nw as int, ox as int),
            xw@.len() <= 6 * (w as int) + 3,
            forall|i: int|
                0 <= i < xw@.len() ==> xw@[i] == axis_weight(w as int, nw as int, ox as int, xlo + i)
                    && -110000 <= xw@[i] <= 110000,
            ylo == axis_lo(h as int, nh as int, oy as int),
            yw@.len() == axis_taps(h as int, nh as int, oy as int),
            yw@.len() <= 6 * (h as int) + 3,
            forall|i: int|
                0 <= i < yw@.len() ==> yw@[i] == axis_weight(h as int, nh as int, oy as int, ylo + i)
                    && -110000 <= yw@[i] <= 110000,
            -2 - 3 * (w as int) <= xlo,
            xlo + xw@.len() <= 4 * (w as int) + 2,
            -2 - 3 * (h as int) <= ylo,
            ylo + yw@.len() <= 4 * (h as int) + 2,
            plen == (w as int) * (h as int) * 4,
            j <= yw@.len(),
            num == col_num(
                p@, w as int, h as int, nw as int, nh as int, ox as int, oy as int, ch as int,
                j as nat,
            ),
            -110000000000000000000000 * (j as int) <= num
                <= 110000000000000000000000 * (j as int),
        decreases yw@.len() - j,
    {
        let t: i64 = ylo + (j as i64);
        let yy: u32 = if t < 0 {
            0
        } else if t >= h as i64 {
            h - 1
        } else {
            t as u32
        };
        let mut rnum: i128 = 0;
        let mut i: usize = 0;
        while i < xw.len()
            invariant
                p@.len() == (w as int) * (h as int) * 4,
                1 <= w, 1 <= h, 1 <= nw, 1 <= nh, ox < nw, ch < 4,
                xlo == axis_lo(w as int, nw as int, ox as int),
                xw@.len() == axis_taps(w as int, nw as int, ox as int),
                xw@.len() <= 6 * (w as int) + 3,
                forall|i2: int|
                    0 <= i2 < xw@.len() ==> xw@[i2] == axis_weight(
                        w as int, nw as int, ox as int, xlo + i2,
                    ) && -110000 <= xw@[i2] <= 110000,
                -2 - 3 * (w as int) <= xlo,
                xlo + xw@.len() <= 4 * (w as int) + 2,
                plen == (w as int) * (h as int) * 4,
                yy < h,
                yy == clamp_idx(ylo + j, h as int),
                i <= xw@.len(),
                rnum == row_num(p@, w as int, nw as int, ox as int, yy as int, ch as int, i as nat),
                -28050000 * (i as int) <= rnum <= 28050000 * (i as int),
            decreases xw@.len() - i,
        {
            let t2: i64 = xlo + (i as i64);
            let xx: u32 = if t2 < 0 {
                0
            } else if t2 >= w as i64 {
                w - 1
            } else {
                t2 as u32
            };
            proof {
                assert(0 <= (yy as int) * (w as int)
                    && (yy as int) * (w as int) <= (yy as int) * (w as int) + (xx as int)
                    && (yy as int) * (w as int) + (xx as int) < (h as int) * (w as int)
                    && (h as int) * (w as int) * 4 == (w as int) * (h as int) * 4
                    && ((yy as int) * (w as int) + (xx as int)) * 4 + (ch as int)
                        < (w as int) * (h as int) * 4) by (nonlinear_arith)
                    requires yy < h, xx < w, ch < 4, 1 <= w, 1 <= h;
                assert((w as int) * (h as int) * 4 == plen);
            }
            let idx: usize = ((yy as usize) * (w as usize) + (xx as usize)) * 4 + (ch as usize);
            let s: u8 = p[idx];
            let wgt: i64 = xw[i];
            proof {
                assert(-28050000 <= (wgt as int) * (s as int) <= 28050000) by (nonlinear_arith)
                    requires -110000 <= wgt <= 110000, 0 <= s <= 255;
                assert(xx == clamp_idx(xlo + i, w as int));
                assert(row_num(p@, w as int, nw as int, ox as int, yy as int, ch as int, (i + 1) as nat)
                    == row_num(p@, w as int, nw as int, ox as int, yy as int, ch as int, i as nat)
                        + axis_weight(w as int, nw as int, ox as int, xlo + i)
                            * (p@[((yy as int) * (w as int) + clamp_idx(xlo + i, w as int)) * 4 + ch] as int));
            }
            rnum = rnum + (wgt as i128) * (s as i128);
            i = i + 1;
        }
        let ywgt: i64 = yw[j];
        proof {
            assert(-28050000 * (xw@.len() as int) <= rnum <= 28050000 * (xw@.len() as int));
            assert(-1000000000000000000 <= rnum <= 1000000000000000000);
            assert(-110000000000000000000000 <= (ywgt as int) * (rnum as int)
                <= 110000000000000000000000) by (nonlinear_arith)
                requires -110000 <= ywgt <= 110000, -1000000000000000000 <= rnum <= 1000000000000000000;
            assert(col_num(
                p@, w as int, h as int, nw as int, nh as int, ox as int, oy as int, ch as int,
                (j + 1) as nat,
            ) == col_num(
                p@, w as int, h as int, nw as int, nh as int, ox as int, oy as int, ch as int,
                j as nat,
            ) + axis_weight(h as int, nh as int, oy as int, ylo + j)
                * row_num(p@, w as int, nw as int, ox as int, clamp_idx(ylo + j, h as int), ch as int,
                    axis_taps(w as int, nw as int, ox as int)));
        }
        num = num + (ywgt as i128) * rnum;
        j = j + 1;
    }
    proof {
        assert(-2835000000000000 <= xsum <= 2835000000000000);
        assert(-2835000000000000 <= ysum <= 2835000000000000);
        assert(-8037225000000000000000000000000 <= xsum * ysum
            <= 8037225000000000000000000000000) by (nonlinear_arith)
            requires
                -2835000000000000 <= xsum <= 2835000000000000,
                -2835000000000000 <= ysum <= 2835000000000000;
    }
    let den: i128 = xsum * ysum;
    if den <= 0 {
        let cxu: u64 = ((cxv + 128) as u64) / 256;
        let cyu: u64 = ((cyv + 128) as u64) / 256;
        proof {
            lemma_div_pos_is_pos(cxv as int + 128, 256);
            lemma_div_pos_is_pos(cyv as int + 128, 256);
        }
        let cx: u32 = if cxu >= w as u64 {
            w - 1
        } else {
            cxu as u32
        };
        let cy: u32 = if cyu >= h as u64 {
            h - 1
        } else {
            cyu as u32
        };
        proof {
            assert(0 <= (cy as int) * (w as int)
                && (cy as int) * (w as int) <= (cy as int) * (w as int) + (cx as int)
                && (cy as int) * (w as int) + (cx as int) < (h as int) * (w as int)
                && (h as int) * (w as int) * 4 == (w as int) * (h as int) * 4
                && ((cy as int) * (w as int) + (cx as int)) * 4 + (ch as int)
                    < (w as int) * (h as int) * 4) by (nonlinear_arith)
                requires cy < h, cx < w, ch < 4, 1 <= w, 1 <= h;
            assert((w as int) * (h as int) * 4 == plen);
            assert(cx == clamp_idx((axis_center(w as int, nw as int, ox as int) + 128) / 256, w as int));
            assert(cy == clamp_idx((axis_center(h as int, nh as int, oy as int) + 128) / 256, h as int));
        }
        let idx: usize = ((cy as usize) * (w as usize) + (cx as usize)) * 4 + (ch as usize);
        p[idx]
    } else if num <= 0 {
        0
    } else {
        let q: u128 = ((num as u128) + (den as u128) / 2) / (den as u128);
        proof {
            lemma_div_pos_is_pos(num as int + (den as int) / 2, den as int);
        }
        if q > 255 {
            255
        } else {
            q as u8
        }
    }
}

/// The facts the sampling loops need about one precomputed axis table.
pub open spec fn axis_table_ok(
    ws: Seq<Seq<i64>>, los: Seq<i64>, sums: Seq<i128>, cs: Seq<i64>, src: int, dst: int, m: int,
) -> bool {
    &&& ws.len() == m
    &&& los.len() == m
    &&& sums.len() == m
    &&& cs.len() == m
    &&& forall|q: int| 0 <= q < m ==> {
        &&& #[trigger] los[q] == axis_lo(src, dst, q)
        &&& ws[q].len() == axis_taps(src, dst, q)
        &&& ws[q].len() <= 6 * src + 3
        &&& forall|j: int|
            0 <= j < ws[q].len() ==> #[trigger] ws[q][j] == axis_weight(src, dst, q, los[q] + j)
                && -110000 <= ws[q][j] <= 110000
        &&& sums[q] == sum_weights(src, dst, q, axis_taps(src, dst, q))
        &&& -110000 * (6 * src + 3) <= sums[q] <= 110000 * (6 * src + 3)
        &&& cs[q] == axis_center(src, dst, q)
        &&& -128 <= cs[q] <= 256 * src
        &&& -2 - 3 * src <= los[q]
        &&& los[q] + ws[q].len() <= 4 * src + 2
    }
}

/// Precompute the weight tables of one axis for every output sample.
fn axis_tables(src: u32, dst: u32) -> (r: (Vec<Vec<i64>>, Vec<i64>, Vec<i128>, Vec<i64>))
    requires
        1 <= src,
        1 <= dst,
    ensures
        axis_table_ok(
            r.0@.map_values(|v: Vec<i64>| v@), r.1@, r.2@, r.3@, src as int, dst as int, dst as int,
        ),
{
    let mut ws: Vec<Vec<i64>> = Vec::new();
    let mut los: Vec<i64> = Vec::new();
    let mut sums: Vec<i128> = Vec::new();
    let mut cs: Vec<i64> = Vec::new();
    let mut o: u32 = 0;
    while o < dst
        invariant
            1 <= src,
            1 <= dst,
            o <= dst,
            axis_table_ok(
                ws@.map_values(|v: Vec<i64>| v@), los@, sums@, cs@, src as int, dst as int, o as int,
            ),
        decreases dst - o,
    {
        let (wv, lo, sum, c) = axis_weights(src, dst, o);
        ws.push(wv);
        los.push(lo);
        sums.push(sum);
        cs.push(c);
        o = o + 1;
        proof {
            assert(ws@.map_values(|v: Vec<i64>| v@).len() == o);
            assert forall|q: int| 0 <= q < o implies {
                let m = ws@.map_values(|v: Vec<i64>| v@);
                #[trigger] los@[q] == axis_lo(src as int, dst as int, q) && m[q].len() == axis_taps(
                    src as int, dst as int, q,
                )
            } by {
                assert(ws@.map_values(|v: Vec<i64>| v@)[q] == ws@[q]@);
            }
        }
    }
    (ws, los, sums, cs)
}

/// Resample a `w x h` RGBA buffer to `nw x nh`.
pub fn resample(p: &Vec<u8>, w: u32, h: u32, nw: u32, nh: u32) -> (r: Vec<u8>)
    requires
        p@.len() == (w as int) * (h as int) * 4,
        1 <= w,
        1 <= h,
        1 <= nw,
        1 <= nh,
        (nw as int) * (nh as int) * 4 <= usize::MAX as int,
    ensures
        r@ == resize_spec(p@, w as int, h as int, nw as int, nh as int),
        r@.len() == (nw as int) * (nh as int) * 4,
{
    let (xws, xlos, xsums, xcs) = axis_tables(w, nw);
    let (yws, ylos, ysums, ycs) = axis_tables(h, nh);
    let ghost xm = xws@.map_values(|v: Vec<i64>| v@);
    let ghost ym = yws@.map_values(|v: Vec<i64>| v@);
    let mut out: Vec<u8> = Vec::new();
    let mut oy: u32 = 0;
    while oy < nh
        invariant
            p@.len() == (w as int) * (h as int) * 4,
            1 <= w, 1 <= h, 1 <= nw, 1 <= nh,
            oy <= nh,
            xm == xws@.map_values(|v: Vec<i64>| v@),
            ym == yws@.map_values(|v: Vec<i64>| v@),
            axis_table_ok(xm, xlos@, xsums@, xcs@, w as int, nw as int, nw as int),
            axis_table_ok(ym, ylos@, ysums@, ycs@, h as int, nh as int, nh as int),
            out@.len() == (oy as int) * (nw as int) * 4,
            forall|ii: int|
                0 <= ii < out@.len() ==> out@[ii] == out_byte(
                    p@, w as int, h as int, nw as int, nh as int, ii,
                ),
        decreases nh - oy,
    {
        let mut ox: u32 = 0;
        while ox < nw
            invariant
                p@.len() == (w as int) * (h as int) * 4,
                1 <= w, 1 <= h, 1 <= nw, 1 <= nh,
                oy < nh,
                ox <= nw,
                xm == xws@.map_values(|v: Vec<i64>| v@),
                ym == yws@.map_values(|v: Vec<i64>| v@),
                axis_table_ok(xm, xlos@, xsums@, xcs@, w as int, nw as int, nw as int),
                axis_table_ok(ym, ylos@, ysums@, ycs@, h as int, nh as int, nh as int),
                out@.len() == ((oy as int) * (nw as int) + ox as int) * 4,
                forall|ii: int|
                    0 <= ii < out@.len() ==> out@[ii] == out_byte(
                        p@, w as int, h as int, nw as int, nh as int, ii,
                    ),
            decreases nw - ox,
        {
            let mut ch: u32 = 0;
            while ch < 4
                invariant
                    p@.len() == (w as int) * (h as int) * 4,
                    1 <= w, 1 <= h, 1 <= nw, 1 <= nh,
                    oy < nh,
                    ox < nw,
                    ch <= 4,
                    xm == xws@.map_values(|v: Vec<i64>| v@),
                    ym == yws@.map_values(|v: Vec<i64>| v@),
                    axis_table_ok(xm, xlos@, xsums@, xcs@, w as int, nw as int, nw as int),
                    axis_table_ok(ym, ylos@, ysums@, ycs@, h as int, nh as int, nh as int),
                    out@.len() == ((oy as int) * (nw as int) + ox as int) * 4 + ch as int,
                    forall|ii: int|
                        0 <= ii < out@.len() ==> out@[ii] == out_byte(
                            p@, w as int, h as int, nw as int, nh as int, ii,
                        ),
                decreases 4 - ch,
            {
                proof {
                    assert(xm[ox as int] == xws@[ox as int]@);
                    assert(ym[oy as int] == yws@[oy as int]@);
                }
                let v: u8 = sample_channel(
                    p, w, h, nw, nh, ox, oy, ch,
                    &xws[ox as usize], xlos[ox as usize], xsums[ox as usize], xcs[ox as usize],
                    &yws[oy as usize], ylos[oy as usize], ysums[oy as usize], ycs[oy as usize],
                );
                proof {
                    let ll = out@.len() as int;
                    let px = (oy as int) * (nw as int) + ox as int;
                    vstd::arithmetic::div_mod::lemma_fundamental_div_mod_converse(
                        ll, 4, px, ch as int,
                    );
                    vstd::arithmetic::div_mod::lemma_fundamental_div_mod_converse(
                        px, nw as int, oy as int, ox as int,
                    );
                    assert(out_byte(p@, w as int, h as int, nw as int, nh as int, ll)
                        == out_pixel(
                        p@, w as int, h as int, nw as int, nh as int, ox as int, oy as int,
                        ch as int,
                    ));
                }
                out.push(v);
                ch = ch + 1;
            }
            ox = ox + 1;
            proof {
                assert(((oy as int) * (nw as int) + (ox - 1) as int) * 4 + 4
                    == ((oy as int) * (nw as int) + ox as int) * 4) by (nonlinear_arith);
            }
        }
        oy = oy + 1;
        proof {
            assert(((oy - 1) as int * (nw as int) + nw as int) * 4
                == (oy as int) * (nw as int) * 4) by (nonlinear_arith);
        }
    }
    proof {
        assert(out@.len() == (nh as int) * (nw as int) * 4);
        assert((nh as int) * (nw as int) * 4 == (nw as int) * (nh as int) * 4) by (nonlinear_arith);
        assert forall|ii: int| 0 <= ii < out@.len() implies out@[ii] == resize_spec(
            p@, w as int, h as int, nw as int, nh as int,
        )[ii] by {
            let px = ii / 4;
            lemma_out_pixel_range(
                p@, w as int, h as int, nw as int, nh as int, px % (nw as int), px / (nw as int),
                ii % 4,
            );
        }
        assert(out@ =~= resize_spec(p@, w as int, h as int, nw as int, nh as int));
    }
    out
}

} // verus!
