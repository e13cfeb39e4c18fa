//! Bit-packed containers.

pub mod bit_vec;
