//! Threshold secret sharing over a prime field.
//!
//! A secret is split into `N` shares so that any `threshold` of them
//! reconstruct it by Lagrange interpolation at zero, while the scheme also
//! offers a checksum-style commitment per polynomial coefficient against
//! which a single share can be checked.

pub mod error;
pub mod field;
pub mod poly;
mod rng;
pub mod shamir;
pub mod vss;

pub use error::ShamirError;
pub use field::mod_exp;
pub use field::mod_inverse;
pub use poly::evaluate_polynomial;
pub use shamir::Shamir;
pub use vss::generate_commitments;
pub use vss::generate_shares;
pub use vss::verify_share;
