//! N-dimensional lane iteration over flat row-major arrays.
//!
//! A *lane* is a 1-D slice through an N-dimensional array along a single axis —
//! equivalent to a row, column, or fibre depending on which axis is chosen.  The views
//! here describe lanes by index arithmetic (start, length, stride) over a flat buffer
//! that is passed to each operation.
pub mod chunk_strided_slice;
pub mod slice;
pub mod strided_slice;
