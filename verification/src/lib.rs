//! Verified image fingerprinting and resampling.
//!
//! Two stateless transforms over raw RGBA pixel buffers:
//!
//! - [`resize`]: high-quality rescaling with a windowed-sinc (Lanczos, a = 3)
//!   filter, computed in fixed-point integer arithmetic.
//! - [`phash`]: a perceptual hash — the image is shrunk to a small grayscale
//!   grid, transformed with a 2-D discrete cosine transform, and the
//!   low-frequency coefficients are binarized against their median and
//!   rendered as lowercase hexadecimal.
//!
//! Every function is a pure function of its inputs; malformed inputs are
//! rejected with a typed [`ImgError`] before any work is done.

use vstd::prelude::*;

pub mod trig;
pub mod kernel;
pub mod resample;
pub mod median;
pub mod dct;
pub mod bits;
pub mod hash;

verus! {

/// The ways an input can be rejected.  All checks run before any transform
/// work begins; a function either fails fast with one of these or returns a
/// fully computed result.
#[derive(Clone, Copy, Debug, PartialEq, Eq, Structural)]
pub enum ImgError {
    /// A width or height (source or destination) is zero.
    InvalidDimensions,
    /// The pixel buffer length disagrees with `width * height * 4`.
    DimensionMismatch,
    /// The requested hash grid is zero or degenerate (smaller than 2 x 2).
    InvalidHashSize,
}

/// The buffer length a `width x height` RGBA image must have.
pub open spec fn rgba_len(w: int, h: int) -> int {
    w * h * 4
}

/// Rescale a `width x height` RGBA buffer to `new_width x new_height` with
/// the Lanczos (a = 3) filter.
///
/// Returns `Err(InvalidDimensions)` when any dimension is zero and
/// `Err(DimensionMismatch)` when the buffer length is not
/// `width * height * 4` (zero dimensions are reported first).  Otherwise the
/// result is exactly [`resample::resize_spec`] of the inputs — in particular
/// its length is exactly `new_width * new_height * 4`.
pub fn resize(rgba: Vec<u8>, width: u32, height: u32, new_width: u32, new_height: u32) -> (r:
    Result<Vec<u8>, ImgError>)
    requires
        rgba_len(new_width as int, new_height as int) <= usize::MAX as int,
    ensures
        r is Ok <==> (width > 0 && height > 0 && new_width > 0 && new_height > 0
            && rgba@.len() == rgba_len(width as int, height as int)),
        (width == 0 || height == 0 || new_width == 0 || new_height == 0) ==> r == Err::<
            Vec<u8>, ImgError,
        >(ImgError::InvalidDimensions),
        (width > 0 && height > 0 && new_width > 0 && new_height > 0 && rgba@.len() != rgba_len(
            width as int, height as int,
        )) ==> r == Err::<Vec<u8>, ImgError>(ImgError::DimensionMismatch),
        r matches Ok(out) ==> out@ == resample::resize_spec(
            rgba@, width as int, height as int, new_width as int, new_height as int,
        ) && out@.len() == rgba_len(new_width as int, new_height as int),
{
    if width == 0 || height == 0 || new_width == 0 || new_height == 0 {
        return Err(ImgError::InvalidDimensions);
    }
    proof {
        assert(0 <= (width as int) * (height as int) * 4 < 0x100000000000000000)
            by (nonlinear_arith)
            requires width < 0x100000000, height < 0x100000000;
    }
    let need: u128 = (width as u128) * (height as u128) * 4;
    if (rgba.len() as u128) != need {
        return Err(ImgError::DimensionMismatch);
    }
    Ok(resample::resample(&rgba, width, height, new_width, new_height))
}

/// Perceptual hash of a `width x height` RGBA buffer: a lowercase
/// hexadecimal fingerprint of `hash_size^2 - 1` bits (default `hash_size`
/// 16, giving 64 hex characters).
///
/// Returns `Err(InvalidDimensions)` when a dimension is zero,
/// `Err(DimensionMismatch)` when the buffer length is not
/// `width * height * 4`, and `Err(InvalidHashSize)` when the requested grid
/// is smaller than 2 x 2, in that order of checks.  Otherwise the result is
/// exactly [`hash::phash_spec`] of the inputs.
pub fn phash(rgba: Vec<u8>, width: u32, height: u32, hash_size: Option<u32>) -> (r: Result<
    String, ImgError,
>)
    requires
        rgba_len(4 * hash::eff_hash_size(hash_size), 4 * hash::eff_hash_size(hash_size))
            <= usize::MAX as int,
    ensures
        r is Ok <==> (width > 0 && height > 0 && rgba@.len() == rgba_len(
            width as int, height as int,
        ) && hash::eff_hash_size(hash_size) >= 2),
        (width == 0 || height == 0) ==> r == Err::<String, ImgError>(ImgError::InvalidDimensions),
        (width > 0 && height > 0 && rgba@.len() != rgba_len(width as int, height as int)) ==> r
            == Err::<String, ImgError>(ImgError::DimensionMismatch),
        (width > 0 && height > 0 && rgba@.len() == rgba_len(width as int, height as int)
            && hash::eff_hash_size(hash_size) < 2) ==> r == Err::<String, ImgError>(
            ImgError::InvalidHashSize,
        ),
        r matches Ok(out) ==> out@ == hash::phash_spec(
            rgba@, width as int, height as int, hash::eff_hash_size(hash_size),
        ),
{
    let s: u32 = match hash_size {
        Some(v) => v,
        None => 16,
    };
    if width == 0 || height == 0 {
        return Err(ImgError::InvalidDimensions);
    }
    proof {
        assert(0 <= (width as int) * (height as int) * 4 < 0x100000000000000000)
            by (nonlinear_arith)
            requires width < 0x100000000, height < 0x100000000;
    }
    let need: u128 = (width as u128) * (height as u128) * 4;
    if (rgba.len() as u128) != need {
        return Err(ImgError::DimensionMismatch);
    }
    if s < 2 {
        return Err(ImgError::InvalidHashSize);
    }
    let ghost si = s as int;
    proof {
        assert(rgba_len(4 * si, 4 * si) == 64 * si * si) by (nonlinear_arith);
        assert(si < 0x40000000) by (nonlinear_arith)
            requires 64 * si * si <= 0xffffffffffffffff, si >= 2;
        assert((4 * si) * (4 * si) * 4 == 64 * si * si) by (nonlinear_arith);
        assert(si * si <= 64 * si * si) by (nonlinear_arith)
            requires si >= 2;
    }
    let n: u32 = 4 * s;
    let q: Vec<u8> = resample::resample(&rgba, width, height, n, n);
    let g: Vec<i64> = dct::gray_exec(&q, n);
    proof {
        assert(g@ =~= dct::gray_of(q@, n as int));
    }
    let rr: Vec<i128> = dct::dct_rows_exec(&g, n);
    proof {
        assert(rr@ =~= dct::dct_rows(g@, n as int));
    }
    let cc: Vec<i128> = dct::dct_cols_exec(&rr, n);
    proof {
        assert(cc@ =~= dct::dct2d(g@, n as int));
    }
    let coefs: Vec<i128> = hash::crop_exec(&cc, s, n);
    proof {
        assert(coefs@ =~= hash::coef_grid(rgba@, width as int, height as int, si));
        assert(coefs@.len() >= 3) by (nonlinear_arith)
            requires coefs@.len() == si * si - 1, si >= 2;
    }
    let med: i128 = median::median(&coefs);
    let bitsv: Vec<bool> = hash::bits_exec(&coefs, med);
    proof {
        assert(bitsv@ =~= hash::hash_bits(rgba@, width as int, height as int, si));
        assert(bitsv@.len() + 7 <= usize::MAX as int) by (nonlinear_arith)
            requires bitsv@.len() == si * si - 1, si * si <= 64 * si * si,
                64 * si * si <= usize::MAX as int, si >= 2;
    }
    let bytes: Vec<u8> = bits::pack_exec(&bitsv);
    let hx: String = bits::hex_exec(&bytes);
    proof {
        assert(hx@ == hash::phash_spec(rgba@, width as int, height as int, si));
    }
    Ok(hx)
}

} // verus!
