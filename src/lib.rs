//! Bit, byte and coefficient-sampling primitives of a lattice-based
//! signature scheme: integers to little-endian bits and bytes and back,
//! and the rejection samplers that turn random bytes into coefficients.
pub mod constants;
pub mod encoding;
pub mod sampling;

pub use constants::Q;
pub use encoding::{bits_to_bytes, bits_to_integer, bytes_to_bits, integer_to_bits, integer_to_bytes};
pub use sampling::{coeff_from_half_byte, coeff_from_three_bytes};
