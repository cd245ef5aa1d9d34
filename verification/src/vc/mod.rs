//! Vector commitments built on an accumulator.

pub mod binary;
pub mod general;

pub use self::binary::{BatchCommitment, BinaryVectorCommitment, Commitment};
pub use self::general::{create_vector_commitment, VectorCommitment};
