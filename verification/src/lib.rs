//! Sparse systems of linear equations over GF(2) and their solvers.
//!
//! An equation states that the XOR of a subset of variables must equal a
//! scalar constant. Systems of such equations are solved either by dense
//! Gaussian elimination or by a lazy peeling solver that defers a small
//! residual to the dense solver.

pub mod bits;
pub mod solvers;
