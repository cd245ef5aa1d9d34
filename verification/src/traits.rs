//! The interfaces of accumulators and vector commitments, and the model
//! that their contracts speak of.

use vstd::prelude::*;
use rand_chacha::ChaCha20Rng;
use crate::bigint::BigInt;
use crate::bignat::BigNat;
use crate::error::Error;
pub use crate::group::PrimeGroup;
use crate::math::gcd::gcd;
use crate::math::power::{pow_mod, signed_pow_mod};
use crate::math::roots::{product, root_of, shamir, values};
use crate::proofs::{poe_accepts, poe_proof, poke2_accepts, poke2_proof};

verus! {

/// What an accumulator is, as numbers: the modulus `n` and the generator
/// `g` of its group, the accumulated element `root`, and the product `set`
/// of the members.
pub struct AccumulatorState {
    pub n: nat,
    pub g: nat,
    pub root: nat,
    pub set: nat,
}

impl AccumulatorState {
    /// The state is well formed: generator and root are elements of the
    /// group, and the product of the members is not zero.
    pub open spec fn valid(self) -> bool {
        self.n >= 2 && 0 < self.g < self.n && self.root < self.n && self.set >= 1
    }

    /// The root commits to the members: it is the generator raised to their
    /// product.
    pub open spec fn consistent(self) -> bool {
        self.root == pow_mod(self.g, self.set, self.n)
    }

    /// The state of an accumulator that holds nothing yet.
    pub open spec fn fresh(self) -> bool {
        self.root == self.g && self.set == 1
    }

    /// The state of an accumulator that holds nothing yet, in the group with
    /// the modulus `n` and the generator `g`.
    pub open spec fn empty(n: nat, g: nat) -> AccumulatorState {
        AccumulatorState { n, g, root: g, set: 1 }
    }

    /// The state with another root and another product of members.
    pub open spec fn with(self, root: nat, set: nat) -> AccumulatorState {
        AccumulatorState { n: self.n, g: self.g, root, set }
    }

    /// The state after `x` is added: the root is raised to `x`.
    pub open spec fn added(self, x: nat) -> AccumulatorState {
        self.with(pow_mod(self.root, x, self.n), self.set * x)
    }

    /// The membership witness of `x`: the generator raised to the product
    /// of the members without `x`. There is none where `x` does not divide
    /// the product of the members.
    pub open spec fn mem_witness(self, x: nat) -> Option<nat> {
        if x != 0 && self.set % x == 0 {
            Some(pow_mod(self.g, self.set / x, self.n))
        } else {
            None
        }
    }

    /// Whether `w` is accepted as a membership witness of `x`:
    /// `w^x == root`.
    pub open spec fn mem_accepts(self, w: nat, x: nat) -> bool {
        pow_mod(w, x, self.n) == self.root
    }

    /// The state after `x` is deleted with the witness `w`: the witness is
    /// the new root. There is none where the witness is no element of the
    /// group or is not accepted, or where `x` does not divide the product
    /// of the members.
    pub open spec fn deleted_with(self, w: nat, x: nat) -> Option<AccumulatorState> {
        if x != 0 && self.set % x == 0 && w < self.n && self.mem_accepts(w, x) {
            Some(self.with(w, self.set / x))
        } else {
            None
        }
    }

    /// The state after `x` is deleted, with the witness that the
    /// accumulator makes itself.
    pub open spec fn deleted(self, x: nat) -> Option<AccumulatorState> {
        match self.mem_witness(x) {
            Some(w) => self.deleted_with(w, x),
            None => None,
        }
    }

    /// The non-membership witness of `x`: the pair `(u, v)` of the
    /// generator raised to the quotient of the product of the members by
    /// `x`, and the remainder of that division, so that
    /// `u^x * g^v == root`. There is none where `x` and the product of the
    /// members are not coprime.
    pub open spec fn non_mem_witness(self, x: nat) -> Option<(nat, int)> {
        if x != 0 && gcd(x, self.set) == 1 {
            Some((pow_mod(self.g, self.set / x, self.n), (self.set % x) as int))
        } else {
            None
        }
    }

    /// Whether `(u, v)` is accepted as a non-membership witness of `x`:
    /// `u^x * g^v == root`.
    pub open spec fn non_mem_accepts(self, u: nat, v: int, x: nat) -> bool {
        match signed_pow_mod(self.g, v, self.n) {
            Some(gv) => (pow_mod(u, x, self.n) * gv) % self.n == self.root,
            None => false,
        }
    }
}

/// The numbers that a sequence of pairs of big integers stands for.
pub open spec fn pair_values(pairs: Seq<(BigNat, BigNat)>) -> Seq<(nat, nat)> {
    pairs.map_values(|p: (BigNat, BigNat)| (p.0@, p.1@))
}

/// The witnesses `(w, x)` of a list folded into one by Shamir's trick, from
/// the left: the aggregated witness and the product of the elements. There
/// is none for the empty list, nor where the trick fails at some step.
pub open spec fn aggregate(pairs: Seq<(nat, nat)>, n: nat) -> Option<(nat, nat)>
    decreases pairs.len(),
{
    if pairs.len() == 0 {
        None
    } else if pairs.len() == 1 {
        Some(pairs[0])
    } else {
        match aggregate(pairs.drop_last(), n) {
            Some(so_far) => match shamir(so_far.0, pairs.last().0, so_far.1, pairs.last().1, n) {
                Some(w) => Some((w, so_far.1 * pairs.last().1)),
                None => None,
            },
            None => None,
        }
    }
}

/// A non-membership witness with its two proofs: the witness element `u`,
/// the element `gv == g^v`, the proof of knowledge of the exponent of `u`,
/// and the proof of exponentiation for `u^x == root / gv`.
pub struct NonMemStar {
    pub u: nat,
    pub gv: nat,
    pub poke: (nat, nat, int),
    pub poe: nat,
}

impl AccumulatorState {
    /// Whether every pair `(w, x)` of the list is an accepted membership
    /// witness.
    pub open spec fn all_accepted(self, pairs: Seq<(nat, nat)>) -> bool {
        forall|i: int| 0 <= i < pairs.len() ==> self.mem_accepts((#[trigger] pairs[i]).0, pairs[i].1)
    }

    /// The state after the elements of the pairs `(w, x)` are deleted, with
    /// the product of those elements: the witnesses are aggregated, and the
    /// aggregated witness becomes the root. There is none where a witness
    /// is not accepted, the aggregation fails, or the aggregated witness
    /// cannot be deleted with.
    pub open spec fn batch_deleted(self, pairs: Seq<(nat, nat)>) -> Option<(AccumulatorState, nat)> {
        if !self.all_accepted(pairs) {
            None
        } else {
            match aggregate(pairs, self.n) {
                Some(agg) => match self.deleted_with(agg.0, agg.1) {
                    Some(after) => Some((after, agg.1)),
                    None => None,
                },
                None => None,
            }
        }
    }

    /// The aggregated witness for `x * y` with its proof of exponentiation.
    pub open spec fn agg_witness(self, w_x: nat, w_y: nat, x: nat, y: nat) -> Option<(nat, nat)> {
        match shamir(w_x, w_y, x, y, self.n) {
            Some(w) => match poe_proof(x * y, w, self.root, self.n) {
                Some(pi) => Some((w, pi)),
                None => None,
            },
            None => None,
        }
    }

    /// The membership witness of `x` with its proof of exponentiation.
    pub open spec fn mem_star(self, x: nat) -> Option<(nat, nat)> {
        match self.mem_witness(x) {
            Some(w) => match poe_proof(x, w, self.root, self.n) {
                Some(pi) => Some((w, pi)),
                None => None,
            },
            None => None,
        }
    }

    /// Whether a witness of membership in two accumulators is accepted:
    /// for coprime `x` and `y`, whether `pi^(x * y) == root^y * other^x`.
    pub open spec fn mem_x_accepts(self, other: nat, pi: nat, x: nat, y: nat) -> bool {
        gcd(x, y) == 1 && pow_mod(pi, x * y, self.n) == (pow_mod(self.root, y, self.n) * pow_mod(
            other,
            x,
            self.n,
        )) % self.n
    }

    /// The element that a witness `u` of non-membership must lead to when
    /// raised to `x`: the root divided by `gv`. There is none where `gv`
    /// has no inverse.
    pub open spec fn residual(self, gv: nat) -> Option<nat> {
        match crate::math::gcd::inverse_mod(gv as int, self.n as int) {
            Some(inv) => Some((self.root * inv) % self.n),
            None => None,
        }
    }

    /// The non-membership witness of `x` with its two proofs.
    pub open spec fn non_mem_star(self, x: nat) -> Option<NonMemStar> {
        match self.non_mem_witness(x) {
            Some(w) => match poke2_proof((self.set / x) as int, self.g, w.0, self.n) {
                Some(poke) => match signed_pow_mod(self.g, w.1, self.n) {
                    Some(gv) => match self.residual(gv) {
                        Some(k) => match poe_proof(x, w.0, k, self.n) {
                            Some(poe) => Some(NonMemStar { u: w.0, gv, poke, poe }),
                            None => None,
                        },
                        None => None,
                    },
                    None => None,
                },
                None => None,
            },
            None => None,
        }
    }

    /// Whether a non-membership witness with its two proofs is accepted.
    pub open spec fn non_mem_star_accepts(self, x: nat, pi: NonMemStar) -> bool {
        poke2_accepts(self.g, pi.u, pi.poke.0, pi.poke.1, pi.poke.2, self.n) && match self.residual(
            pi.gv,
        ) {
            Some(k) => poe_accepts(x, pi.u, k, pi.poe, self.n),
            None => false,
        }
    }
}

/// An accumulator that elements can be added to.
pub trait StaticAccumulator: Sized {
    /// The accumulator as numbers.
    spec fn state(&self) -> AccumulatorState;

    /// Sets up a group of unknown order of `lambda` bits and an accumulator
    /// in it that holds nothing yet. The modulus and the generator are what
    /// the group `G` draws, and meet what `G` promises of them; whether
    /// there is a result is for that draw to decide.
    fn setup<G: PrimeGroup>(rng: &mut ChaCha20Rng, lambda: usize) -> (r: Result<Self, Error>)
        ensures
            match r {
                Ok(acc) => acc.state().valid() && acc.state().fresh() && acc.state().consistent()
                    && G::promises(lambda, acc.state().n, acc.state().g),
                Err(_) => true,
            },
    ;

    /// Adds the element `x`, which should be a prime.
    fn add(&mut self, x: &BigNat)
        requires
            old(self).state().valid(),
            x@ != 0,
        ensures
            final(self).state() == old(self).state().added(x@),
            final(self).state().valid(),
            old(self).state().consistent() ==> final(self).state().consistent(),
    ;

    /// Makes the membership witness of `x`; there is none where `x` is not
    /// a member.
    fn mem_wit_create(&self, x: &BigNat) -> (r: Option<BigNat>)
        requires
            self.state().valid(),
        ensures
            match r {
                Some(w) => self.state().mem_witness(x@) == Some(w@),
                None => self.state().mem_witness(x@).is_none(),
            },
            r.is_some() && self.state().consistent() ==> self.state().mem_accepts(r.unwrap()@, x@),
    ;

    /// Checks the membership witness `w` of `x`.
    fn ver_mem(&self, w: &BigNat, x: &BigNat) -> (r: bool)
        requires
            self.state().valid(),
        ensures
            r == self.state().mem_accepts(w@, x@),
    ;
}

/// An accumulator that elements can be deleted from.
pub trait DynamicAccumulator: StaticAccumulator {
    /// Deletes the member `x`. Nothing is changed, and nothing returned,
    /// where `x` is not a member.
    fn del(&mut self, x: &BigNat) -> (r: Option<()>)
        requires
            old(self).state().valid(),
        ensures
            match r {
                Some(_) => old(self).state().deleted(x@) == Some(final(self).state()),
                None => old(self).state().deleted(x@).is_none() && final(self).state() == old(self).state(),
            },
            final(self).state().valid(),
            r.is_some() ==> final(self).state().consistent(),
    ;
}

/// An accumulator that can show that an element is not a member.
pub trait UniversalAccumulator: DynamicAccumulator {
    /// Makes the non-membership witness of `x`; there is none where `x` is
    /// a member.
    fn non_mem_wit_create(&self, x: &BigNat) -> (r: Option<(BigNat, BigInt)>)
        requires
            self.state().valid(),
        ensures
            match r {
                Some(w) => self.state().non_mem_witness(x@) == Some((w.0@, w.1@)),
                None => self.state().non_mem_witness(x@).is_none(),
            },
            r.is_some() && self.state().consistent() ==> self.state().non_mem_accepts(
                r.unwrap().0@,
                r.unwrap().1@,
                x@,
            ),
    ;

    /// Checks the non-membership witness `w` of `x`.
    fn ver_non_mem(&self, w: &(BigNat, BigInt), x: &BigNat) -> (r: bool)
        requires
            self.state().valid(),
        ensures
            r == self.state().non_mem_accepts(w.0@, w.1@, x@),
    ;
}

/// An accumulator with batched updates and aggregated witnesses.
pub trait BatchedAccumulator: StaticAccumulator {
    /// Adds all the elements of `xs` and returns the proof of
    /// exponentiation that leads from the old root to the new one. Nothing
    /// is changed where no proof can be made.
    fn batch_add(&mut self, xs: &[BigNat]) -> (r: Option<BigNat>)
        requires
            old(self).state().valid(),
            product(values(xs@)) != 0,
        ensures
            match r {
                Some(w) => final(self).state() == old(self).state().added(product(values(xs@)))
                    && poe_proof(
                    product(values(xs@)),
                    old(self).state().root,
                    final(self).state().root,
                    old(self).state().n,
                ) == Some(w@),
                None => final(self).state() == old(self).state() && poe_proof(
                    product(values(xs@)),
                    old(self).state().root,
                    old(self).state().added(product(values(xs@))).root,
                    old(self).state().n,
                ).is_none(),
            },
            final(self).state().valid(),
            old(self).state().consistent() ==> final(self).state().consistent(),
            r.is_some() ==> poe_accepts(
                product(values(xs@)),
                old(self).state().root,
                final(self).state().root,
                r.unwrap()@,
                old(self).state().n,
            ),
    ;

    /// Deletes all the elements of the pairs `(w, x)` of a witness and a
    /// member, and returns the proof of exponentiation that leads from the
    /// new root to the old one. Nothing is changed where the elements
    /// cannot be deleted or no proof can be made.
    fn batch_del(&mut self, pairs: &[(BigNat, BigNat)]) -> (r: Option<BigNat>)
        requires
            old(self).state().valid(),
        ensures
            match r {
                Some(w) => match old(self).state().batch_deleted(pair_values(pairs@)) {
                    Some(after) => final(self).state() == after.0 && poe_proof(
                        after.1,
                        after.0.root,
                        old(self).state().root,
                        old(self).state().n,
                    ) == Some(w@),
                    None => false,
                },
                None => final(self).state() == old(self).state() && match old(self).state().batch_deleted(pair_values(pairs@)) {
                    Some(after) => poe_proof(
                        after.1,
                        after.0.root,
                        old(self).state().root,
                        old(self).state().n,
                    ).is_none(),
                    None => true,
                },
            },
            final(self).state().valid(),
            r.is_some() ==> poe_accepts(
                old(self).state().batch_deleted(pair_values(pairs@)).unwrap().1,
                final(self).state().root,
                old(self).state().root,
                r.unwrap()@,
                old(self).state().n,
            ),
    ;

    /// Deletes the element `x` with its membership witness `w`. Nothing is
    /// changed, and nothing returned, where the witness is not accepted.
    fn del_w_mem(&mut self, w: &BigNat, x: &BigNat) -> (r: Option<()>)
        requires
            old(self).state().valid(),
        ensures
            match r {
                Some(_) => old(self).state().deleted_with(w@, x@) == Some(final(self).state()),
                None => old(self).state().deleted_with(w@, x@).is_none() && final(self).state()
                    == old(self).state(),
            },
            final(self).state().valid(),
    ;

    /// Makes the membership witnesses of all the elements of `s` at once,
    /// by root factoring. Where `s` lists all the members, these are the
    /// witnesses that [`StaticAccumulator::mem_wit_create`] makes.
    fn create_all_mem_wit(&self, s: &[BigNat]) -> (r: Vec<BigNat>)
        requires
            self.state().valid(),
        ensures
            r@.len() == s@.len(),
            forall|i: int|
                0 <= i < r@.len() ==> (#[trigger] r@[i])@ == root_of(
                    self.state().g,
                    values(s@),
                    i,
                    self.state().n,
                ),
            product(values(s@)) == self.state().set ==> forall|i: int|
                0 <= i < r@.len() ==> self.state().mem_witness(s@[i]@) == Some(
                    (#[trigger] r@[i])@,
                ),
    ;

    /// Checks the proof `w` that [`BatchedAccumulator::batch_add`] made
    /// when it added `xs` to the accumulator with the root `a_t`.
    fn ver_batch_add(&self, w: &BigNat, a_t: &BigNat, xs: &[BigNat]) -> (r: bool)
        requires
            self.state().valid(),
        ensures
            r == poe_accepts(product(values(xs@)), a_t@, self.state().root, w@, self.state().n),
    ;

    /// Checks the proof `w` that [`BatchedAccumulator::batch_del`] made
    /// when it deleted `xs` from the accumulator with the root `a_t`.
    fn ver_batch_del(&self, w: &BigNat, a_t: &BigNat, xs: &[BigNat]) -> (r: bool)
        requires
            self.state().valid(),
        ensures
            r == poe_accepts(product(values(xs@)), self.state().root, a_t@, w@, self.state().n),
    ;

    /// Aggregates two membership witnesses of one accumulator into a
    /// witness for `x * y`, with its proof of exponentiation.
    fn agg_mem_wit(&self, w_x: &BigNat, w_y: &BigNat, x: &BigNat, y: &BigNat) -> (r: Option<
        (BigNat, BigNat),
    >)
        requires
            self.state().valid(),
        ensures
            match r {
                Some(agg) => self.state().agg_witness(w_x@, w_y@, x@, y@) == Some((agg.0@, agg.1@)),
                None => self.state().agg_witness(w_x@, w_y@, x@, y@).is_none(),
            },
            r.is_some() && gcd(x@, y@) == 1 && self.state().mem_accepts(w_x@, x@)
                && self.state().mem_accepts(w_y@, y@) ==> self.state().mem_accepts(
                r.unwrap().0@,
                x@ * y@,
            ) && poe_accepts(x@ * y@, r.unwrap().0@, self.state().root, r.unwrap().1@, self.state().n),
    ;

    /// Checks an aggregated membership witness with its proof.
    fn ver_agg_mem_wit(&self, w_xy: &BigNat, pi: &BigNat, x: &BigNat, y: &BigNat) -> (r: bool)
        requires
            self.state().valid(),
        ensures
            r == poe_accepts(x@ * y@, w_xy@, self.state().root, pi@, self.state().n),
    ;

    /// Makes the membership witness of `x` with a proof of exponentiation
    /// for it.
    fn mem_wit_create_star(&self, x: &BigNat) -> (r: Option<(BigNat, BigNat)>)
        requires
            self.state().valid(),
        ensures
            match r {
                Some(star) => self.state().mem_star(x@) == Some((star.0@, star.1@)),
                None => self.state().mem_star(x@).is_none(),
            },
            r.is_some() && self.state().consistent() ==> poe_accepts(
                x@,
                r.unwrap().0@,
                self.state().root,
                r.unwrap().1@,
                self.state().n,
            ),
    ;

    /// Checks a membership witness with its proof of exponentiation.
    fn ver_mem_star(&self, x: &BigNat, pi: &(BigNat, BigNat)) -> (r: bool)
        requires
            self.state().valid(),
        ensures
            r == poe_accepts(x@, pi.0@, self.state().root, pi.1@, self.state().n),
    ;

    /// Aggregates two membership witnesses of different accumulators over
    /// one group: `w_x` for `x` in this one and `w_y` for `y` in the one
    /// with the root `other`.
    fn mem_wit_x(&self, other: &BigNat, w_x: &BigNat, w_y: &BigNat, x: &BigNat, y: &BigNat) -> (r:
        BigNat)
        requires
            self.state().valid(),
        ensures
            r@ == (w_x@ * w_y@) % self.state().n,
    ;

    /// Checks a witness of membership in two accumulators.
    fn ver_mem_x(&self, other: &BigNat, pi: &BigNat, x: &BigNat, y: &BigNat) -> (r: bool)
        requires
            self.state().valid(),
        ensures
            r == self.state().mem_x_accepts(other@, pi@, x@, y@),
    ;

    /// Makes the non-membership witness of `x` with its two proofs.
    fn non_mem_wit_create_star(&self, x: &BigNat) -> (r: Option<
        (BigNat, BigNat, (BigNat, BigNat, BigInt), BigNat),
    >)
        requires
            self.state().valid(),
        ensures
            match r {
                Some(pi) => self.state().non_mem_star(x@) == Some(
                    NonMemStar {
                        u: pi.0@,
                        gv: pi.1@,
                        poke: (pi.2.0@, pi.2.1@, pi.2.2@),
                        poe: pi.3@,
                    },
                ),
                None => self.state().non_mem_star(x@).is_none(),
            },
            r.is_some() && self.state().consistent() ==> self.state().non_mem_star_accepts(
                x@,
                self.state().non_mem_star(x@).unwrap(),
            ),
    ;

    /// Checks a non-membership witness with its two proofs.
    fn ver_non_mem_star(
        &self,
        x: &BigNat,
        pi: &(BigNat, BigNat, (BigNat, BigNat, BigInt), BigNat),
    ) -> (r: bool)
        requires
            self.state().valid(),
        ensures
            r == self.state().non_mem_star_accepts(
                x@,
                NonMemStar { u: pi.0@, gv: pi.1@, poke: (pi.2.0@, pi.2.1@, pi.2.2@), poe: pi.3@ },
            ),
    ;
}

/// A commitment to a vector that can be opened position by position.
pub trait StaticVectorCommitment: Sized {
    /// What the vector holds at each position.
    type Domain;

    /// The proof for one position.
    type Commitment;

    /// The proof for several positions at once.
    type BatchCommitment;

    /// The commitment is well formed.
    spec fn valid(&self) -> bool;

    /// Sets up a group of `lambda` bits and a commitment to the empty
    /// vector; `n` is the length that the vector is meant to reach.
    fn setup<G: PrimeGroup>(rng: &mut ChaCha20Rng, lambda: usize, n: usize) -> (r: Result<
        Self,
        Error,
    >)
        ensures
            match r {
                Ok(vc) => vc.valid(),
                Err(_) => true,
            },
    ;

    /// Appends the values of `m` to the vector. Nothing is changed, and
    /// nothing returned, where that cannot be done.
    fn commit(&mut self, m: &[Self::Domain]) -> (r: Option<()>)
        requires
            old(self).valid(),
        ensures
            final(self).valid(),
    ;

    /// Makes the proof that the vector holds `b` at position `i`.
    fn open(&self, b: &Self::Domain, i: usize) -> (r: Option<Self::Commitment>)
        requires
            self.valid(),
    ;

    /// Checks the proof that the vector holds `b` at position `i`.
    fn verify(&self, b: &Self::Domain, i: usize, pi: &Self::Commitment) -> (r: bool)
        requires
            self.valid(),
    ;

    /// Makes the proof that the vector holds the values `b` at the
    /// positions `i`.
    fn batch_open(&self, b: &[Self::Domain], i: &[usize]) -> (r: Option<Self::BatchCommitment>)
        requires
            self.valid(),
    ;

    /// Checks the proof that the vector holds the values `b` at the
    /// positions `i`.
    fn batch_verify(&self, b: &[Self::Domain], i: &[usize], pi: &Self::BatchCommitment) -> (r:
        bool)
        requires
            self.valid(),
    ;
}

/// A commitment to a vector whose values can be changed.
pub trait DynamicVectorCommitment: StaticVectorCommitment {
    /// Changes the value at position `i` from `b_prime` to `b`. Nothing is
    /// changed, and nothing returned, where that cannot be done.
    fn update(&mut self, b: &Self::Domain, b_prime: &Self::Domain, i: usize) -> (r: Option<()>)
        requires
            old(self).valid(),
        ensures
            final(self).valid(),
    ;
}

} // verus!
