//! Lifting Wavelet Transform (LWT) building blocks.
//!
//! The LWT factorises a wavelet transform into a sequence of *predict* and *update*
//! steps operating in place on the even (`s`) and odd (`d`) sub-bands of a signal.
//! Each step adds a filtered, boundary-extended copy of one sub-band to the other, so
//! it is undone exactly by the same step with negated coefficients.
pub mod driver;
pub mod round_trip;
pub mod steps;
