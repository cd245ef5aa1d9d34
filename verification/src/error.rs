//! What setup and sampling report when they cannot go on.

use vstd::prelude::*;

verus! {

/// A failure of group setup or of prime sampling.
#[derive(Clone, Copy, Debug, PartialEq, Eq, Structural)]
pub enum Error {
    /// The modulus asked for is shorter than 64 bits.
    TooFewBits,
    /// The random source gave no usable prime within the attempts allowed.
    PrimeNotFound,
    /// The generator that setup returned does not fit the modulus.
    InvalidGroup,
    /// The number of bits for each element of a vector is zero or more than
    /// the 512 bits of the digest.
    InvalidLambda,
    /// The operating system gave no randomness.
    NoEntropy,
}

} // verus!
