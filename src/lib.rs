//! Sum-check and GKR building blocks over the BN254 scalar field.

pub mod field;
pub mod multilinear;
pub mod transcript;
pub mod sumcheck;
pub mod circuit;
pub mod univariate;
pub mod shamir;
