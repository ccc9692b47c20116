use vstd::prelude::*;

verus! {

/// The ways a scheme operation can fail.
#[derive(Clone, Copy, Debug, PartialEq, Eq, Structural)]
pub enum ShamirError {
    /// The requested threshold exceeds the total number of shares.
    InvalidConfig,
    /// Fewer shares were presented for reconstruction than the threshold.
    InsufficientShares,
    /// A Lagrange denominator has no inverse modulo the modulus: two shares
    /// carry the same x-coordinate, or the modulus is not prime.
    NoModularInverse,
    /// A commitment set of impossible shape was presented for verification.
    MalformedCommitmentSet,
}

} // verus!
