//! Universal accumulators and vector commitments over groups of unknown
//! order, with the arithmetic they rest on.
//!
//! An accumulator commits to a set of primes in one group element, with
//! witnesses of constant size for membership and for non-membership. A
//! binary vector commitment commits to a vector of bits by accumulating
//! the primes of the positions that are set; a general vector commitment
//! commits to a vector of numbers by hashing each to a string of bits.

pub mod accumulator;
pub mod bigint;
pub mod bignat;
pub mod encoding;
pub mod error;
pub mod group;
pub mod hash;
pub mod map;
pub mod math;
pub mod proofs;
pub mod traits;
pub mod vc;

pub use self::accumulator::Accumulator;
pub use self::traits::{
    BatchedAccumulator,
    DynamicAccumulator,
    DynamicVectorCommitment,
    PrimeGroup,
    StaticAccumulator,
    StaticVectorCommitment,
    UniversalAccumulator,
};
pub use self::vc::{
    create_vector_commitment,
    BatchCommitment,
    BinaryVectorCommitment,
    Commitment,
    VectorCommitment,
};
