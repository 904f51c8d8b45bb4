//! The Lanczos (a = 3) resampling kernel in fixed point.
//!
//! The kernel is `L(d) = 3 sin(pi d) sin(pi d / 3) / (pi^2 d^2)` for
//! `0 < |d| < 3` and `0` beyond, with `L(0) = 1`.  Distances are measured in
//! 1/256ths of a pixel and values are scaled by `65536`.  Because the
//! fixed-point sine vanishes exactly at whole half-turns, the kernel is
//! exactly `0` at whole nonzero pixel offsets and exactly `65536` at `0`,
//! which makes resampling to the same size the identity.

use vstd::prelude::*;
use vstd::arithmetic::div_mod::{
    lemma_div_is_ordered, lemma_div_multiples_vanish, lemma_div_pos_is_pos, lemma_div_of0,
    lemma_mod_division_less_than_divisor, lemma_small_mod, lemma_fundamental_div_mod,
};
use crate::trig::{sin_half_fp, sin_fp_spec, sin_fp, lemma_sin_half_bounds};

verus! {

/// Kernel value at distance `x` (in 1/256ths of a pixel, nonnegative),
/// scaled by `65536`.  The quotient is taken on magnitudes, so it rounds
/// toward zero.
pub open spec fn lanczos_fp(x: int) -> int {
    if x <= 0 {
        65536
    } else if x >= 768 {
        0
    } else {
        let s1 = sin_fp_spec((x * 128) % 65536);
        let s2 = sin_half_fp((x * 128) / 3);
        let s1m = if s1 < 0 { -s1 } else { s1 };
        let mag = (3 * s1m * s2 * 65536) / (646860 * x * x);
        if s1 < 0 { -mag } else { mag }
    }
}

/// The fixed-point sine is within `[-65536, 65536]` on a full turn.
pub proof fn lemma_sin_bounds(a: int)
    requires
        0 <= a < 65536,
    ensures
        -65536 <= sin_fp_spec(a) <= 65536,
{
    if a < 32768 {
        lemma_sin_half_bounds(a);
    } else {
        lemma_sin_half_bounds(a - 32768);
    }
}

/// The kernel never exceeds `110000` in magnitude (about 1.68 in real terms;
/// the true kernel peaks at 1, the slack covers the fixed-point rounding
/// bounds).
pub proof fn lemma_lanczos_bound(x: int)
    ensures
        -110000 <= lanczos_fp(x) <= 110000,
{
    if 0 < x < 768 {
        let q1 = (x * 128) % 65536;
        let q2 = (x * 128) / 3;
        let s1 = sin_fp_spec(q1);
        let s2 = sin_half_fp(q2);
        let s1m = if s1 < 0 { -s1 } else { s1 };
        let num = 3 * s1m * s2 * 65536;
        let den = 646860 * x * x;
        lemma_mod_division_less_than_divisor(x * 128, 65536);
        lemma_sin_bounds(q1);
        // s1m <= 1024 * x
        if x < 256 {
            lemma_small_mod((x * 128) as nat, 65536nat);
            assert(q1 == x * 128);
            lemma_sin_half_bounds(q1);
            assert(s1m <= 8 * (x * 128));
            assert(8 * (x * 128) == 1024 * x) by (nonlinear_arith);
        } else {
            assert(s1m <= 65536);
            assert(65536 <= 1024 * x) by (nonlinear_arith)
                requires x >= 256;
        }
        // s2 <= 344 * x and s2 >= 0
        lemma_fundamental_div_mod(x * 128, 3);
        lemma_mod_division_less_than_divisor(x * 128, 3);
        assert(3 * q2 <= x * 128);
        assert(0 <= q2 < 32768) by (nonlinear_arith)
            requires 0 < x < 768, 3 * q2 <= x * 128, x * 128 < 3 * q2 + 3;
        lemma_sin_half_bounds(q2);
        assert(s2 <= 344 * x) by (nonlinear_arith)
            requires s2 <= 8 * q2, 3 * q2 <= x * 128, x >= 1;
        // num <= 107065 * den, so the quotient is at most 107065
        assert(num <= 107500 * den) by (nonlinear_arith)
            requires
                num == 3 * s1m * s2 * 65536,
                den == 646860 * x * x,
                0 <= s1m <= 1024 * x,
                0 <= s2 <= 344 * x,
                x >= 1;
        assert(den > 0) by (nonlinear_arith)
            requires x >= 1, den == 646860 * x * x;
        lemma_div_pos_is_pos(num, den);
        lemma_div_is_ordered(num, 107500 * den, den);
        lemma_div_multiples_vanish(107500, den);
    }
}

/// At whole pixel offsets `1` and `2` the first sine factor is an exact
/// half-turn, so the kernel is exactly `0` there (offsets `3` and beyond are
/// outside the window).
pub proof fn lemma_lanczos_zero_at_whole_offsets(k: int)
    requires
        1 <= k,
    ensures
        lanczos_fp(256 * k) == 0,
{
    if k == 1 {
        assert((256int * 128) % 65536 == 32768);
        crate::trig::lemma_sin_zero_at_half_turns(32768);
        lemma_div_of0(646860int * 256 * 256);
        assert(lanczos_fp(256) == 0) by {
            assert(3 * 0 * sin_half_fp((256int * 128) / 3) * 65536 == 0) by (nonlinear_arith);
        }
    } else if k == 2 {
        assert((512int * 128) % 65536 == 0);
        crate::trig::lemma_sin_zero_at_half_turns(0);
        lemma_div_of0(646860int * 512 * 512);
        assert(lanczos_fp(512) == 0) by {
            assert(3 * 0 * sin_half_fp((512int * 128) / 3) * 65536 == 0) by (nonlinear_arith);
        }
    } else {
        assert(256 * k >= 768) by (nonlinear_arith)
            requires k >= 3;
    }
}

/// Kernel value at distance `x`, in 1/256ths of a pixel.
pub fn lanczos_exec(x: u64) -> (r: i64)
    ensures
        r == lanczos_fp(x as int),
        -110000 <= r <= 110000,
{
    proof {
        lemma_lanczos_bound(x as int);
    }
    if x == 0 {
        65536
    } else if x >= 768 {
        0
    } else {
        let a1: u32 = ((x * 128) % 65536) as u32;
        let s1: i64 = sin_fp(a1);
        let a2: u32 = ((x * 128) / 3) as u32;
        proof {
            lemma_mod_division_less_than_divisor(x as int * 128, 65536);
            assert(a2 < 32768);
            lemma_sin_half_bounds(a2 as int);
        }
        let s2: i64 = sin_fp(a2);
        let s1m: u64 = if s1 < 0 {
            (-s1) as u64
        } else {
            s1 as u64
        };
        proof {
            assert(0 <= s2 <= 65536);
            let m1 = s1m as int;
            let m2 = s2 as int;
            let xi = x as int;
            assert(3 * m1 * m2 <= 12884901888
                && 3 * m1 * m2 * 65536 <= 844424930131968) by (nonlinear_arith)
                requires 0 <= m1 <= 65536, 0 <= m2 <= 65536;
            assert(0 < 646860 * xi * xi && 646860 * xi * xi <= 380600000000) by (nonlinear_arith)
                requires 0 < xi < 768;
        }
        let num: u64 = 3 * s1m * (s2 as u64) * 65536;
        let den: u64 = 646860 * x * x;
        let mag: i64 = (num / den) as i64;
        if s1 < 0 {
            -mag
        } else {
            mag
        }
    }
}

} // verus!
