//! Polynomials over a prime field, in one variable and in several.
pub mod algebra;
pub mod colinearity;
pub mod multi;
pub mod multi_laws;
pub mod ops;
pub mod uni;
pub mod uniqueness;
