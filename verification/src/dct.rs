//! Luminance conversion and the 2-D discrete cosine transform (DCT-II),
//! in fixed point.
//!
//! The transform is separable: a pass over rows, then a pass over columns.
//! `C[v][u] = sum_y sum_x g[y][x] cos((2x+1) u pi / (2n)) cos((2y+1) v pi / (2n))`,
//! with each cosine scaled by `65536`, so a coefficient carries a scale of
//! `65536 * 65536` relative to the gray values.  The scale is uniform and the
//! hash only compares coefficients with their median, so it is never divided
//! out.

use vstd::prelude::*;
use crate::trig::{cos_fp_spec, cos_fp};

verus! {

/// Perceptual luminance of one RGBA sample, alpha ignored: the classic
/// 0.299 / 0.587 / 0.114 weighting as 77 / 150 / 29 over 256, rounded.
pub open spec fn luma_fp(r: int, g: int, b: int) -> int {
    (77 * r + 150 * g + 29 * b + 128) / 256
}

/// The angle `(2x+1) u pi / (2n)` in units of `pi / 32768`, folded into one
/// turn.
pub open spec fn dct_angle(x: int, u: int, n: int) -> int {
    (((2 * x + 1) * u * 16384) / n) % 65536
}

/// The DCT-II basis factor `cos((2x+1) u pi / (2n))`, scaled by `65536`.
pub open spec fn dct_cos(x: int, u: int, n: int) -> int {
    cos_fp_spec(dct_angle(x, u, n))
}

/// Row pass, first `m` terms: `sum_x g[y][x] cos((2x+1) u pi / (2n))`.
pub open spec fn dct_row_sum(g: Seq<i64>, n: int, y: int, u: int, m: nat) -> int
    decreases m,
{
    if m == 0 {
        0
    } else {
        dct_row_sum(g, n, y, u, (m - 1) as nat) + (g[y * n + (m - 1)] as int) * dct_cos(
            (m - 1) as int, u, n,
        )
    }
}

/// Column pass over the row-pass grid, first `m` terms:
/// `sum_y rr[y][u] cos((2y+1) v pi / (2n))`.
pub open spec fn dct_col_sum(rr: Seq<i128>, n: int, u: int, v: int, m: nat) -> int
    decreases m,
{
    if m == 0 {
        0
    } else {
        dct_col_sum(rr, n, u, v, (m - 1) as nat) + (rr[(m - 1) * n + u] as int) * dct_cos(
            (m - 1) as int, v, n,
        )
    }
}

/// The luminance grid of an `n x n` RGBA buffer, row-major.
pub open spec fn gray_of(q: Seq<u8>, n: int) -> Seq<i64> {
    Seq::new((n * n) as nat, |i: int| luma_fp(q[4 * i] as int, q[4 * i + 1] as int, q[4 * i + 2] as int) as i64)
}

/// The row-pass grid: entry `y * n + u` holds the row sum of row `y` at
/// frequency `u`.
pub open spec fn dct_rows(g: Seq<i64>, n: int) -> Seq<i128> {
    Seq::new((n * n) as nat, |i: int| dct_row_sum(g, n, i / n, i % n, n as nat) as i128)
}

/// The full 2-D DCT: entry `v * n + u` holds the coefficient at horizontal
/// frequency `u` and vertical frequency `v`.
pub open spec fn dct2d(g: Seq<i64>, n: int) -> Seq<i128> {
    Seq::new((n * n) as nat, |i: int| dct_col_sum(dct_rows(g, n), n, i % n, i / n, n as nat) as i128)
}

/// Luminance is a byte value.
pub proof fn lemma_luma_range(r: int, g: int, b: int)
    requires
        0 <= r <= 255,
        0 <= g <= 255,
        0 <= b <= 255,
    ensures
        0 <= luma_fp(r, g, b) <= 255,
{
    let num = 77 * r + 150 * g + 29 * b + 128;
    vstd::arithmetic::div_mod::lemma_div_pos_is_pos(num, 256);
    vstd::arithmetic::div_mod::lemma_div_is_ordered(num, 65408, 256);
    vstd::arithmetic::div_mod::lemma_fundamental_div_mod_converse(65408, 256, 255, 128);
}

/// The DCT basis factor, as an exec value.
fn dct_cos_exec(x: u32, u: u32, n: u32) -> (r: i64)
    requires
        1 <= n,
        x < n,
        u < n,
    ensures
        r == dct_cos(x as int, u as int, n as int),
        -65536 <= r <= 65536,
{
    proof {
        let xi = x as int;
        let ui = u as int;
        let ni = n as int;
        assert(0 <= (2 * xi + 1) * ui && (2 * xi + 1) * ui * 16384 < 0x100000000000000000000)
            by (nonlinear_arith)
            requires 0 <= xi < ni, 0 <= ui < ni, ni < 0x100000000;
        vstd::arithmetic::div_mod::lemma_div_pos_is_pos((2 * xi + 1) * ui * 16384, ni);
        vstd::arithmetic::div_mod::lemma_mod_division_less_than_divisor(
            ((2 * xi + 1) * ui * 16384) / ni, 65536,
        );
    }
    let a: u128 = (((2 * (x as u128) + 1) * (u as u128) * 16384) / (n as u128)) % 65536;
    cos_fp(a as u32)
}

/// The luminance grid of an `n x n` RGBA buffer.
pub fn gray_exec(q: &Vec<u8>, n: u32) -> (r: Vec<i64>)
    requires
        1 <= n,
        q@.len() == (n as int) * (n as int) * 4,
    ensures
        r@.len() == (n as int) * (n as int),
        forall|i: int| 0 <= i < r@.len() ==> r@[i] == gray_of(q@, n as int)[i]
            && 0 <= r@[i] <= 255,
{
    let mut g: Vec<i64> = Vec::new();
    let qlen: usize = q.len();
    let total: usize = q.len() / 4;
    proof {
        assert((n as int) * (n as int) * 4 == ((n as int) * (n as int)) * 4) by (nonlinear_arith);
        vstd::arithmetic::div_mod::lemma_div_multiples_vanish((n as int) * (n as int), 4);
        assert(qlen == 4 * total);
    }
    let mut i: usize = 0;
    while i < total
        invariant
            q@.len() == (n as int) * (n as int) * 4,
            qlen == (n as int) * (n as int) * 4,
            total == (n as int) * (n as int),
            qlen == 4 * total,
            i <= total,
            g@.len() == i,
            forall|k: int| 0 <= k < i ==> g@[k] == gray_of(q@, n as int)[k] && 0 <= g@[k] <= 255,
        decreases total - i,
    {
        let rv: u32 = q[4 * i] as u32;
        let gv: u32 = q[4 * i + 1] as u32;
        let bv: u32 = q[4 * i + 2] as u32;
        let lum: u32 = (77 * rv + 150 * gv + 29 * bv + 128) / 256;
        proof {
            lemma_luma_range(rv as int, gv as int, bv as int);
        }
        g.push(lum as i64);
        i = i + 1;
    }
    g
}

/// The row pass of the DCT.
pub fn dct_rows_exec(g: &Vec<i64>, n: u32) -> (r: Vec<i128>)
    requires
        1 <= n,
        g@.len() == (n as int) * (n as int),
        forall|i: int| 0 <= i < g@.len() ==> 0 <= #[trigger] g@[i] <= 255,
    ensures
        r@.len() == (n as int) * (n as int),
        forall|i: int| 0 <= i < r@.len() ==> r@[i] == dct_rows(g@, n as int)[i]
            && -16711680 * (n as int) <= r@[i] <= 16711680 * (n as int),
{
    let glen: usize = g.len();
    let mut rr: Vec<i128> = Vec::new();
    let mut y: u32 = 0;
    while y < n
        invariant
            1 <= n,
            g@.len() == (n as int) * (n as int),
            forall|i: int| 0 <= i < g@.len() ==> 0 <= #[trigger] g@[i] <= 255,
            glen == (n as int) * (n as int),
            y <= n,
            rr@.len() == (y as int) * (n as int),
            forall|i: int| 0 <= i < rr@.len() ==> rr@[i] == dct_rows(g@, n as int)[i]
                && -16711680 * (n as int) <= rr@[i] <= 16711680 * (n as int),
        decreases n - y,
    {
        let mut u: u32 = 0;
        while u < n
            invariant
                1 <= n,
                g@.len() == (n as int) * (n as int),
                forall|i: int| 0 <= i < g@.len() ==> 0 <= #[trigger] g@[i] <= 255,
                glen == (n as int) * (n as int),
                y < n,
                u <= n,
                rr@.len() == (y as int) * (n as int) + u as int,
                forall|i: int| 0 <= i < rr@.len() ==> rr@[i] == dct_rows(g@, n as int)[i]
                    && -16711680 * (n as int) <= rr@[i] <= 16711680 * (n as int),
            decreases n - u,
        {
            let mut acc: i128 = 0;
            let mut x: u32 = 0;
            while x < n
                invariant
                    1 <= n,
                    g@.len() == (n as int) * (n as int),
                    forall|i: int| 0 <= i < g@.len() ==> 0 <= #[trigger] g@[i] <= 255,
                    glen == (n as int) * (n as int),
                    y < n,
                    u < n,
                    x <= n,
                    acc == dct_row_sum(g@, n as int, y as int, u as int, x as nat),
                    -16711680 * (x as int) <= acc <= 16711680 * (x as int),
                decreases n - x,
            {
                proof {
                    assert(0 <= (y as int) * (n as int) + (x as int)
                        && (y as int) * (n as int) <= (y as int) * (n as int) + (x as int)
                        && (y as int) * (n as int) + (x as int) < (n as int) * (n as int))
                        by (nonlinear_arith)
                        requires y < n, x < n, 1 <= n;
                    assert((n as int) * (n as int) == glen);
                }
                let gv: i64 = g[(y as usize) * (n as usize) + (x as usize)];
                let cv: i64 = dct_cos_exec(x, u, n);
                proof {
                    assert(-16711680 <= (gv as int) * (cv as int) <= 16711680) by (nonlinear_arith)
                        requires 0 <= gv <= 255, -65536 <= cv <= 65536;
                }
                acc = acc + (gv as i128) * (cv as i128);
                x = x + 1;
            }
            rr.push(acc);
            u = u + 1;
            proof {
                assert(rr@.len() == (y as int) * (n as int) + u as int);
                let ii = (y as int) * (n as int) + (u - 1) as int;
                assert(0 <= ii && ii < (n as int) * (n as int)) by (nonlinear_arith)
                    requires ii == (y as int) * (n as int) + (u - 1) as int, y < n, 0 < u <= n;
                vstd::arithmetic::div_mod::lemma_fundamental_div_mod_converse(
                    ii, n as int, y as int, (u - 1) as int,
                );
                assert(dct_rows(g@, n as int)[ii] == dct_row_sum(
                    g@, n as int, y as int, (u - 1) as int, n as nat,
                ) as i128);
            }
        }
        y = y + 1;
        proof {
            assert(((y - 1) as int) * (n as int) + n as int == (y as int) * (n as int))
                by (nonlinear_arith);
        }
    }
    rr
}

/// The column pass of the DCT, producing the coefficient grid.
pub fn dct_cols_exec(rr: &Vec<i128>, n: u32) -> (r: Vec<i128>)
    requires
        1 <= n,
        rr@.len() == (n as int) * (n as int),
        forall|i: int| 0 <= i < rr@.len() ==> -16711680 * (n as int) <= #[trigger] rr@[i] <= 16711680 * (n as int),
    ensures
        r@.len() == (n as int) * (n as int),
        forall|i: int| 0 <= i < r@.len() ==> r@[i] == dct_col_sum(
            rr@, n as int, i % (n as int), i / (n as int), n as nat,
        ) as i128,
{
    let rlen: usize = rr.len();
    let mut cc: Vec<i128> = Vec::new();
    let mut v: u32 = 0;
    while v < n
        invariant
            1 <= n,
            rr@.len() == (n as int) * (n as int),
            forall|i: int| 0 <= i < rr@.len() ==> -16711680 * (n as int) <= #[trigger] rr@[i]
                <= 16711680 * (n as int),
            rlen == (n as int) * (n as int),
            v <= n,
            cc@.len() == (v as int) * (n as int),
            forall|i: int| 0 <= i < cc@.len() ==> cc@[i] == dct_col_sum(
                rr@, n as int, i % (n as int), i / (n as int), n as nat,
            ) as i128,
        decreases n - v,
    {
        let mut u: u32 = 0;
        while u < n
            invariant
                1 <= n,
                rr@.len() == (n as int) * (n as int),
                forall|i: int| 0 <= i < rr@.len() ==> -16711680 * (n as int) <= #[trigger] rr@[i]
                    <= 16711680 * (n as int),
                rlen == (n as int) * (n as int),
                v < n,
                u <= n,
                cc@.len() == (v as int) * (n as int) + u as int,
                forall|i: int| 0 <= i < cc@.len() ==> cc@[i] == dct_col_sum(
                    rr@, n as int, i % (n as int), i / (n as int), n as nat,
                ) as i128,
            decreases n - u,
        {
            let mut acc: i128 = 0;
            let mut y: u32 = 0;
            while y < n
                invariant
                    1 <= n,
                    rr@.len() == (n as int) * (n as int),
                    forall|i: int| 0 <= i < rr@.len() ==> -16711680 * (n as int) <= #[trigger] rr@[i]
                        <= 16711680 * (n as int),
                    rlen == (n as int) * (n as int),
                    v < n,
                    u < n,
                    y <= n,
                    acc == dct_col_sum(rr@, n as int, u as int, v as int, y as nat),
                    -1095216660480 * ((y as int) * (n as int)) <= acc
                        <= 1095216660480 * ((y as int) * (n as int)),
                decreases n - y,
            {
                proof {
                    assert(0 <= (y as int) * (n as int) + (u as int)
                        && (y as int) * (n as int) <= (y as int) * (n as int) + (u as int)
                        && (y as int) * (n as int) + (u as int) < (n as int) * (n as int))
                        by (nonlinear_arith)
                        requires y < n, u < n, 1 <= n;
                    assert((n as int) * (n as int) == rlen);
                }
                let rv: i128 = rr[(y as usize) * (n as usize) + (u as usize)];
                let cv: i64 = dct_cos_exec(y, v, n);
                proof {
                    let b = 16711680 * (n as int);
                    assert(-65536 * b <= (rv as int) * (cv as int) <= 65536 * b)
                        by (nonlinear_arith)
                        requires -b <= rv <= b, -65536 <= cv <= 65536, b >= 0;
                    assert(65536 * b == 1095216660480 * (n as int));
                    assert(-1095216660480 * (((y + 1) as int) * (n as int)) <= acc + (rv as int) * (cv as int)
                        <= 1095216660480 * (((y + 1) as int) * (n as int))
                        && 1095216660480 * (((y + 1) as int) * (n as int))
                            < 0x10000000000000000000000000000000) by (nonlinear_arith)
                        requires
                            -1095216660480 * ((y as int) * (n as int)) <= acc
                                <= 1095216660480 * ((y as int) * (n as int)),
                            -1095216660480 * (n as int) <= (rv as int) * (cv as int)
                                <= 1095216660480 * (n as int),
                            y < n,
                            1 <= n < 0x100000000;
                }
                acc = acc + (rv as i128) * (cv as i128);
                y = y + 1;
            }
            cc.push(acc);
            u = u + 1;
            proof {
                let ii = (v as int) * (n as int) + (u - 1) as int;
                assert(0 <= ii && ii < (n as int) * (n as int)) by (nonlinear_arith)
                    requires ii == (v as int) * (n as int) + (u - 1) as int, v < n, 0 < u <= n;
                vstd::arithmetic::div_mod::lemma_fundamental_div_mod_converse(
                    ii, n as int, v as int, (u - 1) as int,
                );
            }
        }
        v = v + 1;
        proof {
            assert(((v - 1) as int) * (n as int) + n as int == (v as int) * (n as int))
                by (nonlinear_arith);
        }
    }
    cc
}

} // verus!
