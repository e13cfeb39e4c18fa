//! Equation-system solvers.

pub mod modulo2system;
