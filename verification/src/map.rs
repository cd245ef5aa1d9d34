//! A key-value map on top of a vector commitment.
//!
//! An accumulator commits to a set, a vector commitment to a vector by
//! position. A commitment to a map takes the keys for positions: the value
//! of a key is what the vector holds there, and a key that is not in the
//! map holds zero. The map is set up here; values are committed and opened
//! through the vector commitment underneath.

use vstd::prelude::*;
use rand_chacha::ChaCha20Rng;
use crate::error::Error;
use crate::group::PrimeGroup;
use crate::traits::{
    AccumulatorState,
    BatchedAccumulator,
    StaticVectorCommitment,
    UniversalAccumulator,
};
use crate::vc::general::{lambda_fits, VectorCommitment};

verus! {

/// A map based on a vector commitment.
#[derive(Debug)]
pub struct KeyValueMap<A: UniversalAccumulator + BatchedAccumulator> {
    vc: VectorCommitment<A>,
}

impl<A: UniversalAccumulator + BatchedAccumulator> KeyValueMap<A> {
    /// The accumulator underneath.
    pub closed spec fn accumulator(&self) -> AccumulatorState {
        self.vc.accumulator()
    }

    /// The vector commitment underneath is well formed.
    pub closed spec fn valid(&self) -> bool {
        self.vc.valid()
    }

    /// The number of bit positions committed so far.
    pub closed spec fn length(&self) -> nat {
        self.vc.length()
    }

    /// The number of bits that stand for one value.
    pub closed spec fn element_len(&self) -> nat {
        self.vc.element_len()
    }

    /// The number of keys that the map is meant for.
    pub closed spec fn planned_keys(&self) -> nat {
        self.vc.planned_length()
    }

    /// Sets up a group of `lambda` bits and a commitment to the empty map;
    /// `n` is the number of keys that the map is meant for.
    pub fn setup<G: PrimeGroup>(rng: &mut ChaCha20Rng, lambda: usize, n: usize) -> (r: Result<
        Self,
        Error,
    >)
        ensures
            !lambda_fits(lambda as nat) ==> r == Err::<Self, Error>(Error::InvalidLambda),
            match r {
                Ok(m) => lambda_fits(lambda as nat) && m.valid() && m.accumulator().fresh()
                    && m.accumulator().consistent() && m.length() == 0 && m.element_len() == lambda
                    && m.planned_keys() == n && G::promises(
                    lambda,
                    m.accumulator().n,
                    m.accumulator().g,
                ),
                Err(_) => true,
            },
    {
        KeyValueMap::from_commitment(VectorCommitment::<A>::setup::<G>(rng, lambda, n))
    }

    /// The empty map over a vector commitment that a setup has made. A
    /// failure of the setup is handed on as it is.
    pub fn from_commitment(made: Result<VectorCommitment<A>, Error>) -> (r: Result<Self, Error>)
        ensures
            match made {
                Err(e) => r == Err::<Self, Error>(e),
                Ok(vc) => r.is_ok() && r.unwrap().accumulator() == vc.accumulator()
                    && r.unwrap().valid() == vc.valid() && r.unwrap().length() == vc.length()
                    && r.unwrap().element_len() == vc.element_len() && r.unwrap().planned_keys()
                    == vc.planned_length(),
            },
    {
        match made {
            Ok(vc) => Ok(KeyValueMap { vc }),
            Err(e) => Err(e),
        }
    }

    /// The vector commitment underneath.
    pub fn commitment(&self) -> (r: &VectorCommitment<A>)
        ensures
            r.accumulator() == self.accumulator(),
            r.length() == self.length(),
            r.element_len() == self.element_len(),
            r.planned_length() == self.planned_keys(),
    {
        &self.vc
    }
}

} // verus!
