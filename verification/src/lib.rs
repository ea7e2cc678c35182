//! Exact dense linear algebra over rational scalars.
//!
//! The kernels in this crate work on vectors and matrices of [`frac::Frac`],
//! an exact fraction of two machine integers. Every kernel carries a contract
//! that relates its result to the mathematical value it computes, stated over
//! the unbounded model in [`rat`].
//!
//! The heavy kernels run in parallel: matrix multiplication over independent
//! output rows, each elimination pivot step over the rows it updates, and
//! matrix exponentiation as a fork-join pair of half powers. Each parallel
//! step partitions its work so that no two tasks touch one row, and the
//! sequential dependencies — pivot after pivot, halves before their product —
//! stay explicit in the verified code.

pub mod error;
pub mod frac;
pub mod linear_eqn_ops;
pub mod matrix_mult;
pub mod matrix_ops;
pub mod my_util;
pub mod rat;
pub mod vector_ops;
