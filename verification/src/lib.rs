//! Index, shape and layout logic of N-dimensional wavelet transforms.
//!
//! The crate provides the parts of a wavelet transform library that decide *where*
//! values go: boundary extension rules, sub-band lengths and shapes, decomposition
//! levels, even/odd (de)interleaving, strided lane views of flat row-major arrays, the
//! one-level DWT kernels (analysis, synthesis, adjoint and their periodic forms) and the
//! lifting update step on integer signals, and the multi-level N-D drivers of the
//! discrete (DWT) and lifting (LWT) transforms, which run caller-supplied 1-D kernels over
//! the lanes of shrinking regions of an array.
//!
//! The drivers are proved to reconstruct what they decompose.  Along a single axis this
//! holds in every mode for any pair of kernels that invert each other; along several axes
//! the lifting drivers and the periodic DWT drivers reconstruct when, moreover, the
//! kernels' passes along different axes commute, which is proved for lifting kernels that
//! hand their bands back unchanged.  The adjoint DWT kernel is proved to be the transpose
//! of the forward kernel.
pub mod boundarys;
pub mod dwt;
pub mod iter;
pub mod lwt;
pub mod utils;
pub mod vector;
pub mod wavelets;

pub use wavelets::{max_level, Wavelets};

use vstd::prelude::*;

verus! {

/// Multiply-add `self * a + b`.
pub trait MulScalarAdd<A, B>: Sized {
    /// The result type of `self * a + b`.
    type Output;

    /// Whether `self * a + b` is representable in the result type.
    spec fn mul_add_defined(&self, a: &A, b: &B) -> bool;

    /// Compute `self * a + b`.
    fn mul_add(self, a: A, b: B) -> (r: Self::Output)
        requires
            self.mul_add_defined(&a, &b),
    ;
}

impl MulScalarAdd<i64, i64> for i64 {
    type Output = i64;

    open spec fn mul_add_defined(&self, a: &i64, b: &i64) -> bool {
        &&& i64::MIN <= *self * *a <= i64::MAX
        &&& i64::MIN <= *self * *a + *b <= i64::MAX
    }

    fn mul_add(self, a: i64, b: i64) -> (r: i64)
        ensures
            r == self * a + b,
    {
        crate::lwt::steps::fused_mul_add(self, a, b)
    }
}

/// Width of the SIMD register the lane chunks are sized for, in bits.
pub const N_BITS: usize = 512;

/// Chunk width for `i8` samples.
pub const N_I8: usize = N_BITS / 8;

/// Chunk width for `i16` samples.
pub const N_I16: usize = N_BITS / 16;

/// Chunk width for `i32` samples.
pub const N_I32: usize = N_BITS / 32;

/// Chunk width for `i64` samples.
pub const N_I64: usize = N_BITS / 64;

/// Chunk width for `i128` samples.
pub const N_I128: usize = N_BITS / 128;

/// Marker asserting that `N` is the chunk width for samples of type `T`, tying the const
/// generic of a driver to the lane count of its sample type.
pub trait ChunkWidth<T, const N: usize> {}

impl ChunkWidth<i8, N_I8> for i8 {}

impl ChunkWidth<i16, N_I16> for i16 {}

impl ChunkWidth<i32, N_I32> for i32 {}

impl ChunkWidth<i64, N_I64> for i64 {}

impl ChunkWidth<i128, N_I128> for i128 {}

} // verus!
