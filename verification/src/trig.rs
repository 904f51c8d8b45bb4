//! Fixed-point sine and cosine.
//!
//! Angles are measured in units of `pi / 32768`, so `32768` units are half a
//! turn and `65536` units are a full turn.  Values are scaled by `65536`
//! (`65536` stands for `1.0`).  The approximation is Bhaskara I's rational
//! formula, which is exact at `0`, at a quarter turn and at half a turn; the
//! exact zeros at whole half-turns are what later makes the resampling kernel
//! vanish exactly at whole pixel offsets.

use vstd::prelude::*;
use vstd::arithmetic::div_mod::{
    lemma_div_is_ordered, lemma_div_is_ordered_by_denominator, lemma_div_multiples_vanish,
    lemma_div_pos_is_pos, lemma_div_denominator,
};

verus! {

/// `sin(q * pi / 32768) * 65536` for `q` in `[0, 32768]`, by Bhaskara I's
/// formula `sin(x) ~= 16 x (pi - x) / (5 pi^2 - 4 x (pi - x))`.
pub open spec fn sin_half_fp(q: int) -> int {
    (16 * (q * (32768 - q)) * 65536) / (5368709120 - 4 * (q * (32768 - q)))
}

/// `sin(a * pi / 32768) * 65536` for `a` in `[0, 65536)`.
pub open spec fn sin_fp_spec(a: int) -> int {
    if a < 32768 {
        sin_half_fp(a)
    } else {
        -sin_half_fp(a - 32768)
    }
}

/// `cos(a * pi / 32768) * 65536` for `a` in `[0, 65536)`: the sine a quarter
/// turn further along.
pub open spec fn cos_fp_spec(a: int) -> int {
    sin_fp_spec((a + 16384) % 65536)
}

/// On `[0, 32768]` the half-turn sine is between `0` and `65536`, and grows
/// no faster than `8` per angle unit.
pub proof fn lemma_sin_half_bounds(q: int)
    requires
        0 <= q <= 32768,
    ensures
        0 <= sin_half_fp(q) <= 65536,
        sin_half_fp(q) <= 8 * q,
{
    let u = q * (32768 - q);
    let num = 16 * u * 65536;
    let den = 5368709120 - 4 * u;
    assert(0 <= u <= 268435456 && u <= 32768 * q) by (nonlinear_arith)
        requires 0 <= q <= 32768, u == q * (32768 - q);
    assert(den >= 4294967296);
    lemma_div_pos_is_pos(num, den);
    assert(num <= 65536 * den) by (nonlinear_arith)
        requires u <= 268435456, num == 16 * u * 65536, den == 5368709120 - 4 * u;
    lemma_div_is_ordered(num, 65536 * den, den);
    lemma_div_multiples_vanish(65536, den);
    assert(sin_half_fp(q) <= 65536);
    // num / den <= num / 2^32 = u / 4096 <= 32768 * q / 4096 = 8 * q
    lemma_div_is_ordered_by_denominator(num, 4294967296, den);
    assert(num == u * 1048576 && 4294967296 == 1048576 * 4096) by (nonlinear_arith)
        requires num == 16 * u * 65536;
    lemma_div_denominator(u * 1048576, 1048576, 4096);
    lemma_div_multiples_vanish(u, 1048576);
    assert(num / 4294967296 == u / 4096);
    lemma_div_is_ordered(u, 32768 * q, 4096);
    assert(32768 * q == 4096 * (8 * q)) by (nonlinear_arith);
    lemma_div_multiples_vanish(8 * q, 4096);
    assert(sin_half_fp(q) <= 8 * q);
}

/// The fixed-point sine vanishes exactly at whole half-turns.
pub proof fn lemma_sin_zero_at_half_turns(a: int)
    requires
        a == 0 || a == 32768,
    ensures
        sin_fp_spec(a) == 0,
{
    assert(0int * (32768int - 0int) == 0int);
    assert((16int * 0int * 65536int) / (5368709120int - 4int * 0int) == 0int);
}

/// Fixed-point sine of an angle in `[0, 65536)` units of `pi / 32768`.
pub fn sin_fp(a: u32) -> (r: i64)
    requires
        a < 65536,
    ensures
        r == sin_fp_spec(a as int),
        -65536 <= r <= 65536,
{
    let neg: bool = a >= 32768;
    let q: u64 = if neg {
        (a - 32768) as u64
    } else {
        a as u64
    };
    proof {
        assert(q * (32768 - q) <= 268435456) by (nonlinear_arith)
            requires q <= 32767;
    }
    let u: u64 = q * (32768 - q);
    let num: u64 = 16 * u * 65536;
    let den: u64 = 5368709120 - 4 * u;
    let v: u64 = num / den;
    proof {
        lemma_sin_half_bounds(q as int);
    }
    if neg {
        -(v as i64)
    } else {
        v as i64
    }
}

/// Fixed-point cosine of an angle in `[0, 65536)` units of `pi / 32768`.
pub fn cos_fp(a: u32) -> (r: i64)
    requires
        a < 65536,
    ensures
        r == cos_fp_spec(a as int),
        -65536 <= r <= 65536,
{
    sin_fp((a + 16384) % 65536)
}

} // verus!
