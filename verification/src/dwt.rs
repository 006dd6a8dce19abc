//! Sub-band lengths of the Discrete Wavelet Transform (DWT).
//!
//! For a non-periodic transform the output length depends on the filter width via
//! [`get_outlen`].  For the periodic transform the two sub-bands together equal the
//! input length.
//!
//! The submodules hold the one-level 1-D kernels on integer samples ([`kernels`]), the
//! multi-level N-D drivers ([`driver`]), the lane passes they run
//! ([`lanes`]), the proof that every pass of a decomposition fits its lanes ([`fits`]), the
//! proof of non-periodic reconstruction along one axis ([`reconstruct`]) and of periodic
//! reconstruction along several axes ([`round_trip`]).
use vstd::prelude::*;

pub mod driver;
pub mod fits;
pub mod kernels;
pub mod lanes;
pub mod reconstruct;
pub mod round_trip;

verus! {

/// Sub-band length of a non-periodic DWT of `n` samples with a filter of width `width`.
pub open spec fn outlen_spec(width: int, n: int) -> int {
    let offset = (width - 2) / 2;
    let n_ds = (n + 1) / 2 + 2 * (width / 4);
    if offset % 2 == 1 && n % 2 == 1 {
        n_ds - 1
    } else {
        n_ds
    }
}

/// `ceil(n / 2)` without overflow.
pub fn half_up(n: usize) -> (r: usize)
    ensures
        r == (n + 1) / 2,
{
    n / 2 + n % 2
}

/// Compute the sub-band length for a non-periodic DWT of a signal with `n` samples
/// using a filter of the given `width`.
///
/// Both the approximation and detail arrays must have this length.
pub fn get_outlen(width: usize, n: usize) -> (r: usize)
    requires
        width >= 2,
        (n + 1) / 2 + 2 * (width / 4) <= usize::MAX,
    ensures
        r == outlen_spec(width as int, n as int),
{
    let offset = (width - 2) / 2;
    let n_ds = half_up(n) + 2 * (width / 4);
    if (offset % 2 == 1) && (n % 2 == 1) {
        n_ds - 1
    } else {
        n_ds
    }
}

/// Filter offset used to centre the convolution window for a filter of width `n`.
pub fn get_offset(n: usize) -> (r: usize)
    requires
        n >= 2,
    ensures
        r == (n - 2) / 2,
{
    (n - 2) / 2
}

} // verus!
