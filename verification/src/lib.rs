//! Binary tower fields: GF(2^N) with a fixed reduction polynomial, the tower
//! of quadratic extensions built on it, and multilinear evaluation over the
//! tower.
pub mod bits;
pub mod sums;
pub mod binary_field;
pub mod field_laws;
pub mod aes_laws;
pub mod tower_model;
pub mod tower_laws;
pub mod ring_laws;
pub mod tower;
pub mod polynomial;
pub mod polynomial_laws;
pub mod extension_laws;
