//! A lattice-style accumulator over fixed-length binary vectors.

pub mod limbs;
pub mod field;
pub mod sampling;
pub mod bits;
pub mod params;
pub mod accumulator;
pub mod laws;

pub use accumulator::BinarySISAccumulator;
pub use params::BinarySISParams;
