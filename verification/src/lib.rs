//! Erasure coding over exact integer arithmetic.
//!
//! A message of `m` bytes is read as the coefficients of a polynomial, which is
//! sampled at the positions `1, 2, ..` to give a codeword of `m + k` points.
//! Any `m` of them with distinct positions determine the polynomial, so the
//! message survives the loss of up to `k` points. All arithmetic is on
//! integers: a result is either exact or reported as out of range.

pub mod basis;
pub mod decoder;
pub mod divisors;
pub mod encoder;
pub mod error;
pub mod interpolant;
pub mod laws;
pub mod polynomial;

pub use decoder::lagrange_interpolation;
pub use encoder::{encode, erasure_coding, eval};
pub use error::CodingError;
pub use polynomial::{poly_eval, recover};
