//! The accumulator over the numbers modulo `n`, and the laws of its
//! witnesses.

use vstd::prelude::*;
use rand_chacha::ChaCha20Rng;
use crate::bigint::{BigInt, Sign};
use crate::bignat::BigNat;
use crate::error::Error;
use crate::group::PrimeGroup;
use crate::math::gcd::{extended_gcd, gcd, lemma_gcd_divides, lemma_gcd_greatest, divides};
use crate::math::power::{
    lemma_pow_mod_add_exp,
    lemma_pow_mod_bound,
    lemma_pow_mod_mul_exp,
    lemma_pow_mod_one_exp,
    modpow_uint_int,
    pow_mod,
};
use crate::math::prime::is_prime;
use crate::math::gcd::mod_inverse;
use crate::math::roots::{
    lemma_product_remove,
    lemma_shamir_is_root,
    product,
    product_of,
    root_factor,
    root_of,
    shamir,
    shamir_trick,
    values,
};
use crate::math::gcd::{inverse_mod, lemma_inverse_mod};
use crate::math::power::{lemma_signed_pow_of_nat, signed_pow_mod};
use crate::proofs::{
    lemma_poe_complete,
    lemma_poke2_complete,
    ni_poe_prove,
    ni_poe_verify,
    ni_poke2_prove,
    ni_poke2_verify,
    poe_accepts,
    poe_proof,
};
use crate::traits::{
    aggregate,
    pair_values,
    AccumulatorState,
    BatchedAccumulator,
    DynamicAccumulator,
    StaticAccumulator,
    UniversalAccumulator,
};

verus! {

/// An accumulator over the numbers modulo `n`. It keeps the product of its
/// members beside the accumulated element, so that it can make witnesses
/// without a trapdoor.
#[derive(Debug)]
pub struct Accumulator {
    lambda: usize,
    /// The generator.
    g: BigNat,
    /// The modulus.
    n: BigNat,
    /// The accumulated element.
    root: BigNat,
    /// The product of the members.
    set: BigNat,
}

impl Clone for Accumulator {
    fn clone(&self) -> (r: Self)
        ensures
            r.state() == self.state(),
            r.group_bits() == self.group_bits(),
    {
        Accumulator {
            lambda: self.lambda,
            g: self.g.clone(),
            n: self.n.clone(),
            root: self.root.clone(),
            set: self.set.clone(),
        }
    }
}

/// Adding keeps a state valid, and keeps it consistent.
pub proof fn lemma_added(s: AccumulatorState, x: nat)
    requires
        s.valid(),
        x != 0,
    ensures
        s.added(x).valid(),
        s.consistent() ==> s.added(x).consistent(),
{
    lemma_pow_mod_bound(s.root, x, s.n);
    assert(s.set * x >= 1) by (nonlinear_arith)
        requires
            s.set >= 1,
            x >= 1,
    ;
    if s.consistent() {
        lemma_pow_mod_mul_exp(s.g, s.set, x, s.n);
    }
}

/// A fresh state is consistent.
pub proof fn lemma_fresh_consistent(s: AccumulatorState)
    requires
        s.valid(),
        s.fresh(),
    ensures
        s.consistent(),
{
    lemma_pow_mod_one_exp(s.g, s.n);
    vstd::arithmetic::div_mod::lemma_small_mod(s.g, s.n);
}

/// The witness that a consistent accumulator makes for a member is
/// accepted.
pub proof fn lemma_mem_witness_accepted(s: AccumulatorState, x: nat)
    requires
        s.valid(),
        s.consistent(),
        s.mem_witness(x).is_some(),
    ensures
        s.mem_accepts(s.mem_witness(x).unwrap(), x),
{
    let q = s.set / x;
    vstd::arithmetic::div_mod::lemma_fundamental_div_mod(s.set as int, x as int);
    lemma_pow_mod_mul_exp(s.g, q, x, s.n);
    assert(q * x == s.set) by (nonlinear_arith)
        requires
            s.set == x * q + 0,
    ;
}

/// After an element is added, its membership witness exists and is
/// accepted.
pub proof fn lemma_member_after_add(s: AccumulatorState, x: nat)
    requires
        s.valid(),
        s.consistent(),
        x != 0,
    ensures
        s.added(x).mem_witness(x).is_some(),
        s.added(x).mem_accepts(s.added(x).mem_witness(x).unwrap(), x),
{
    lemma_added(s, x);
    vstd::arithmetic::div_mod::lemma_fundamental_div_mod_converse(
        (s.set * x) as int,
        x as int,
        s.set as int,
        0,
    );
    lemma_mem_witness_accepted(s.added(x), x);
}

/// Deleting an element that was just added leads back to the state before.
pub proof fn lemma_add_then_delete(s: AccumulatorState, x: nat)
    requires
        s.valid(),
        s.consistent(),
        x != 0,
    ensures
        s.added(x).deleted(x) == Some(s),
{
    lemma_member_after_add(s, x);
    vstd::arithmetic::div_mod::lemma_fundamental_div_mod_converse(
        (s.set * x) as int,
        x as int,
        s.set as int,
        0,
    );
    lemma_pow_mod_bound(s.g, s.set, s.n);
}

/// A consistent accumulator has a non-membership witness for `x` exactly
/// when `x` is coprime to the product of the members, and that witness is
/// accepted.
pub proof fn lemma_non_mem_witness_accepted(s: AccumulatorState, x: nat)
    requires
        s.valid(),
        s.consistent(),
    ensures
        s.non_mem_witness(x).is_some() == (x != 0 && gcd(x, s.set) == 1),
        s.non_mem_witness(x).is_some() ==> s.non_mem_accepts(
            s.non_mem_witness(x).unwrap().0,
            s.non_mem_witness(x).unwrap().1,
            x,
        ),
{
    if s.non_mem_witness(x).is_some() {
        let q = s.set / x;
        let v = s.set % x;
        let u = pow_mod(s.g, q, s.n);
        vstd::arithmetic::div_mod::lemma_fundamental_div_mod(s.set as int, x as int);
        assert(q * x + v == s.set) by (nonlinear_arith)
            requires
                s.set == x * q + v,
        ;
        lemma_pow_mod_mul_exp(s.g, q, x, s.n);
        lemma_pow_mod_bound(s.g, q * x, s.n);
        if v == 0 {
            assert(pow_mod(u, x, s.n) * 1 == pow_mod(u, x, s.n)) by (nonlinear_arith);
            vstd::arithmetic::div_mod::lemma_small_mod(pow_mod(u, x, s.n), s.n);
        } else {
            lemma_pow_mod_add_exp(s.g, q * x, v, s.n);
        }
    }
}

/// For a prime `x`, being coprime to the product of the members is not
/// dividing it: a prime has a non-membership witness exactly when it is no
/// member.
pub proof fn lemma_prime_non_member(s: AccumulatorState, x: nat)
    requires
        s.valid(),
        is_prime(x),
    ensures
        s.non_mem_witness(x).is_some() == (s.set % x != 0),
{
    let d = gcd(x, s.set);
    lemma_gcd_divides(x, s.set);
    let k = choose|k: nat| x == #[trigger] (k * d);
    let j = choose|j: nat| s.set == #[trigger] (j * d);
    if s.set % x == 0 {
        // x divides both, so it divides their greatest common divisor
        let m = s.set / x;
        vstd::arithmetic::div_mod::lemma_fundamental_div_mod(s.set as int, x as int);
        assert(s.set == m * x) by (nonlinear_arith)
            requires
                s.set == x * m + 0,
        ;
        assert(x == 1nat * x) by (nonlinear_arith);
        lemma_gcd_greatest(x, s.set, x);
        let c = choose|c: nat| d == #[trigger] (c * x);
        if d == 1 {
            assert(false) by (nonlinear_arith)
                requires
                    1 == c * x,
                    x >= 2,
            ;
        }
    } else {
        // the greatest common divisor divides the prime x: it is 1 or x
        assert(d != 0 && k != 0) by (nonlinear_arith)
            requires
                x == k * d,
                x >= 2,
        ;
        assert(d <= x) by (nonlinear_arith)
            requires
                x == k * d,
                k >= 1,
                d >= 1,
        ;
        vstd::arithmetic::div_mod::lemma_fundamental_div_mod_converse(
            x as int,
            d as int,
            k as int,
            0,
        );
        assert(x % d == 0);
        if d == x {
            vstd::arithmetic::div_mod::lemma_fundamental_div_mod_converse(
                s.set as int,
                x as int,
                j as int,
                0,
            );
            assert(false);
        }
        if d >= 2 {
            assert(2 <= d < x);
            assert(false);
        }
    }
}

impl StaticAccumulator for Accumulator {
    closed spec fn state(&self) -> AccumulatorState {
        AccumulatorState { n: self.n@, g: self.g@, root: self.root@, set: self.set@ }
    }

    fn setup<G: PrimeGroup>(rng: &mut ChaCha20Rng, lambda: usize) -> (r: Result<Self, Error>)
        ensures
            match r {
                Ok(acc) => acc.group_bits() == lambda && acc.state() == AccumulatorState::empty(
                    acc.state().n,
                    acc.state().g,
                ),
                Err(_) => true,
            },
    {
        Accumulator::from_group(lambda, G::generate_primes(rng, lambda))
    }

    fn add(&mut self, x: &BigNat)
        ensures
            final(self).group_bits() == old(self).group_bits(),
    {
        proof {
            lemma_added(old(self).state(), x@);
        }
        self.set = self.set.mul(x);
        self.root = self.root.modpow(x, &self.n);
    }

    fn mem_wit_create(&self, x: &BigNat) -> (r: Option<BigNat>) {
        proof {
            if self.state().consistent() && self.state().mem_witness(x@).is_some() {
                lemma_mem_witness_accepted(self.state(), x@);
            }
        }
        if x.is_zero() {
            return None;
        }
        let (s, rest) = self.set.div_rem(x);
        if !rest.is_zero() {
            return None;
        }
        Some(self.g.modpow(&s, &self.n))
    }

    fn ver_mem(&self, w: &BigNat, x: &BigNat) -> (r: bool) {
        w.modpow(x, &self.n).equals(&self.root)
    }
}

impl Accumulator {
    /// The accumulator that holds nothing yet, in the group that a setup
    /// has drawn. A failure of the setup is handed on as it is. A modulus
    /// below two, or a generator that is zero or no element of the group, is
    /// refused as an invalid group. Else the accumulator starts at the
    /// generator.
    pub fn from_group(lambda: usize, generated: Result<(BigNat, BigNat), Error>) -> (r: Result<
        Accumulator,
        Error,
    >)
        ensures
            match generated {
                Err(e) => r == Err::<Accumulator, Error>(e),
                Ok(group) => if AccumulatorState::empty(group.0@, group.1@).valid() {
                    r.is_ok() && r.unwrap().state() == AccumulatorState::empty(group.0@, group.1@)
                        && r.unwrap().group_bits() == lambda
                } else {
                    r == Err::<Accumulator, Error>(Error::InvalidGroup)
                },
            },
            r.is_ok() ==> r.unwrap().state().valid() && r.unwrap().state().fresh() && r.unwrap().state().consistent(),
    {
        let (n, g) = match generated {
            Ok(group) => group,
            Err(e) => {
                return Err(e);
            },
        };
        if n.le(&BigNat::one()) || g.is_zero() || !g.lt(&n) {
            return Err(Error::InvalidGroup);
        }
        let acc = Accumulator { lambda, root: g.clone(), g, n, set: BigNat::one() };
        proof {
            lemma_fresh_consistent(acc.state());
        }
        Ok(acc)
    }

    /// The accumulated element.
    pub fn root(&self) -> (r: &BigNat)
        ensures
            r@ == self.state().root,
    {
        &self.root
    }

    /// The modulus of the group.
    pub fn modulus(&self) -> (r: &BigNat)
        ensures
            r@ == self.state().n,
    {
        &self.n
    }

    /// The generator of the group.
    pub fn generator(&self) -> (r: &BigNat)
        ensures
            r@ == self.state().g,
    {
        &self.g
    }

    /// The product of the members.
    pub fn members(&self) -> (r: &BigNat)
        ensures
            r@ == self.state().set,
    {
        &self.set
    }

    /// The bit length that the group was set up with.
    pub closed spec fn group_bits(&self) -> nat {
        self.lambda as nat
    }

    /// The bit length that the group was set up with.
    pub fn lambda(&self) -> (r: usize)
        ensures
            r == self.group_bits(),
    {
        self.lambda
    }

    /// Deletes the element `x` with its membership witness `w`: where the
    /// witness is accepted and `x` divides the product of the members, the
    /// witness becomes the root.
    fn delete_with(&mut self, w: &BigNat, x: &BigNat) -> (r: Option<()>)
        requires
            old(self).state().valid(),
        ensures
            match r {
                Some(_) => old(self).state().deleted_with(w@, x@) == Some(final(self).state()),
                None => old(self).state().deleted_with(w@, x@).is_none() && final(self).state()
                    == old(self).state(),
            },
            final(self).state().valid(),
            final(self).group_bits() == old(self).group_bits(),
    {
        if x.is_zero() {
            return None;
        }
        let (s, rest) = self.set.div_rem(x);
        if !rest.is_zero() {
            return None;
        }
        if !self.ver_mem(w, x) {
            return None;
        }
        proof {
            // the witness is below the modulus, as the root it leads to is
            // a power of it
            vstd::arithmetic::div_mod::lemma_fundamental_div_mod(self.set@ as int, x@ as int);
            assert(s@ >= 1) by (nonlinear_arith)
                requires
                    self.set@ == x@ * s@ + 0,
                    self.set@ >= 1,
            ;
        }
        if !w.lt(&self.n) {
            return None;
        }
        self.set = s;
        self.root = w.clone();
        Some(())
    }
}

impl DynamicAccumulator for Accumulator {
    fn del(&mut self, x: &BigNat) -> (r: Option<()>)
        ensures
            final(self).group_bits() == old(self).group_bits(),
    {
        match self.mem_wit_create(x) {
            Some(w) => {
                proof {
                    lemma_pow_mod_bound(self.g@, self.set@ / x@, self.n@);
                    if self.state().deleted(x@).is_some() {
                        lemma_deleted_consistent(self.state(), x@);
                    }
                }
                self.delete_with(&w, x)
            },
            None => None,
        }
    }
}

/// Deleting with the witness that the accumulator makes itself leaves a
/// consistent state.
pub proof fn lemma_deleted_consistent(s: AccumulatorState, x: nat)
    requires
        s.valid(),
        s.deleted(x).is_some(),
    ensures
        s.deleted(x).unwrap().consistent(),
        s.deleted(x).unwrap().valid(),
{
    vstd::arithmetic::div_mod::lemma_fundamental_div_mod(s.set as int, x as int);
    assert(s.set / x >= 1) by (nonlinear_arith)
        requires
            s.set == x * (s.set / x) + 0,
            s.set >= 1,
            x >= 1,
    ;
}

impl UniversalAccumulator for Accumulator {
    fn non_mem_wit_create(&self, x: &BigNat) -> (r: Option<(BigNat, BigInt)>) {
        proof {
            if self.state().consistent() {
                lemma_non_mem_witness_accepted(self.state(), x@);
            }
        }
        if x.is_zero() {
            return None;
        }
        // x is no member exactly when it is coprime to the product of the
        // members
        let (d, _, _) = extended_gcd(x, &self.set);
        if !d.is_one() {
            return None;
        }
        let (q, v) = self.set.div_rem(x);
        let u = self.g.modpow(&q, &self.n);
        Some((u, BigInt::from_biguint(Sign::Plus, v)))
    }

    fn ver_non_mem(&self, w: &(BigNat, BigInt), x: &BigNat) -> (r: bool) {
        let u = &w.0;
        let v = &w.1;
        match modpow_uint_int(&self.g, v, &self.n) {
            Some(gv) => u.modpow(x, &self.n).mul(&gv).mod_floor(&self.n).equals(&self.root),
            None => false,
        }
    }
}

/// The proof that a batch addition makes is accepted against the root
/// before and the root after.
pub proof fn lemma_batch_add_accepted(s: AccumulatorState, xs: Seq<nat>)
    requires
        s.valid(),
        poe_proof(product(xs), s.root, s.added(product(xs)).root, s.n).is_some(),
    ensures
        poe_accepts(
            product(xs),
            s.root,
            s.added(product(xs)).root,
            poe_proof(product(xs), s.root, s.added(product(xs)).root, s.n).unwrap(),
            s.n,
        ),
{
    lemma_poe_complete(product(xs), s.root, s.added(product(xs)).root, s.n);
}

/// The proof that a batch deletion makes is accepted against the root
/// after and the root before.
pub proof fn lemma_batch_del_accepted(s: AccumulatorState, pairs: Seq<(nat, nat)>)
    requires
        s.valid(),
        s.batch_deleted(pairs).is_some(),
        poe_proof(
            s.batch_deleted(pairs).unwrap().1,
            s.batch_deleted(pairs).unwrap().0.root,
            s.root,
            s.n,
        ).is_some(),
    ensures
        poe_accepts(
            s.batch_deleted(pairs).unwrap().1,
            s.batch_deleted(pairs).unwrap().0.root,
            s.root,
            poe_proof(
                s.batch_deleted(pairs).unwrap().1,
                s.batch_deleted(pairs).unwrap().0.root,
                s.root,
                s.n,
            ).unwrap(),
            s.n,
        ),
{
    let after = s.batch_deleted(pairs).unwrap();
    lemma_poe_complete(after.1, after.0.root, s.root, s.n);
}

/// The membership witness that a consistent accumulator makes with a proof
/// of exponentiation is accepted with that proof.
pub proof fn lemma_mem_star_accepted(s: AccumulatorState, x: nat)
    requires
        s.valid(),
        s.consistent(),
        s.mem_star(x).is_some(),
    ensures
        poe_accepts(x, s.mem_star(x).unwrap().0, s.root, s.mem_star(x).unwrap().1, s.n),
{
    lemma_mem_witness_accepted(s, x);
    lemma_poe_complete(x, s.mem_witness(x).unwrap(), s.root, s.n);
}

/// The non-membership witness that a consistent accumulator makes with its
/// two proofs is accepted with them.
pub proof fn lemma_non_mem_star_accepted(s: AccumulatorState, x: nat)
    requires
        s.valid(),
        s.consistent(),
        s.non_mem_star(x).is_some(),
    ensures
        s.non_mem_star_accepts(x, s.non_mem_star(x).unwrap()),
{
    let n = s.n;
    let q = s.set / x;
    let r = s.set % x;
    let u = pow_mod(s.g, q, n);
    let pi = s.non_mem_star(x).unwrap();
    assert(pi.u == u);
    // the proof of knowledge of the exponent of u
    lemma_poke2_complete(q, s.g, u, n);
    // the proof of exponentiation for the residual
    let gv = pi.gv;
    assert(signed_pow_mod(s.g, r as int, n) == Some(gv));
    let inv = inverse_mod(gv as int, n as int).unwrap();
    let k = s.residual(gv).unwrap();
    lemma_inverse_mod(gv as int, n as int);
    lemma_signed_pow_of_nat(s.g, r, 1, n);
    let big_u = pow_mod(s.g, q * x, n);
    let big_v = pow_mod(s.g, r, n);
    vstd::arithmetic::div_mod::lemma_fundamental_div_mod(s.set as int, x as int);
    assert(q * x + r == s.set) by (nonlinear_arith)
        requires
            s.set == x * q + r,
    ;
    lemma_pow_mod_add_exp(s.g, q * x, r, n);
    lemma_pow_mod_mul_exp(s.g, q, x, n);
    lemma_pow_mod_bound(s.g, q * x, n);
    assert(s.root == (big_u * big_v) % n);
    // root * inv == big_u * (big_v * inv) == big_u  (mod n)
    vstd::arithmetic::div_mod::lemma_mul_mod_noop_general(
        (big_u * big_v) as int,
        inv as int,
        n as int,
    );
    assert((big_u * big_v) * inv == big_u * (big_v * inv)) by (nonlinear_arith);
    vstd::arithmetic::div_mod::lemma_mul_mod_noop_general(
        big_u as int,
        (big_v * inv) as int,
        n as int,
    );
    vstd::arithmetic::div_mod::lemma_mul_mod_noop_general(gv as int, inv as int, n as int);
    assert(gv * inv == inv * gv && big_v * inv == inv * big_v) by (nonlinear_arith);
    assert((big_v * inv) % n == 1nat % n);
    vstd::arithmetic::div_mod::lemma_mul_mod_noop_general(big_u as int, 1, n as int);
    assert(big_u * 1 == big_u) by (nonlinear_arith);
    vstd::arithmetic::div_mod::lemma_small_mod(big_u, n);
    assert(k == pow_mod(u, x, n));
    lemma_poe_complete(x, u, k, n);
}

/// Two accepted membership witnesses for coprime elements aggregate into
/// an accepted witness for their product, and its proof is accepted.
pub proof fn lemma_agg_witness_accepted(s: AccumulatorState, w_x: nat, w_y: nat, x: nat, y: nat)
    requires
        s.valid(),
        s.mem_accepts(w_x, x),
        s.mem_accepts(w_y, y),
        gcd(x, y) == 1,
        s.agg_witness(w_x, w_y, x, y).is_some(),
    ensures
        s.mem_accepts(s.agg_witness(w_x, w_y, x, y).unwrap().0, x * y),
        poe_accepts(
            x * y,
            s.agg_witness(w_x, w_y, x, y).unwrap().0,
            s.root,
            s.agg_witness(w_x, w_y, x, y).unwrap().1,
            s.n,
        ),
{
    lemma_shamir_is_root(w_x, w_y, x, y, s.n);
    lemma_poe_complete(x * y, shamir(w_x, w_y, x, y, s.n).unwrap(), s.root, s.n);
}

/// The product of a membership witness in this accumulator and one in
/// another over the same group is accepted as a witness for both.
pub proof fn lemma_mem_x_accepted(s: AccumulatorState, other: nat, w_x: nat, w_y: nat, x: nat, y: nat)
    requires
        s.valid(),
        gcd(x, y) == 1,
        pow_mod(w_x, x, s.n) == s.root,
        pow_mod(w_y, y, s.n) == other,
    ensures
        s.mem_x_accepts(other, (w_x * w_y) % s.n, x, y),
{
    let n = s.n;
    crate::math::power::lemma_pow_mod_mul_base(w_x, w_y, x * y, n);
    lemma_pow_mod_mul_exp(w_x, x, y, n);
    lemma_pow_mod_mul_exp(w_y, y, x, n);
    assert(y * x == x * y) by (nonlinear_arith);
}

/// Where the list holds all the members, the roots that root factoring
/// yields are the membership witnesses.
proof fn lemma_all_witnesses(s: AccumulatorState, xs: Seq<nat>, i: int)
    requires
        s.valid(),
        product(xs) == s.set,
        0 <= i < xs.len(),
    ensures
        s.mem_witness(xs[i]) == Some(root_of(s.g, xs, i, s.n)),
{
    lemma_product_remove(xs, i);
    let rest = product(xs.remove(i));
    let x = xs[i];
    assert(x != 0 && rest != 0) by (nonlinear_arith)
        requires
            rest * x == s.set,
            s.set >= 1,
    ;
    vstd::arithmetic::div_mod::lemma_fundamental_div_mod_converse(
        s.set as int,
        x as int,
        rest as int,
        0,
    );
    if xs.len() == 1 {
        assert(xs.remove(i) =~= Seq::<nat>::empty());
        lemma_pow_mod_one_exp(s.g, s.n);
        vstd::arithmetic::div_mod::lemma_small_mod(s.g, s.n);
    }
}

impl Accumulator {
    /// Whether every pair `(w, x)` is an accepted membership witness.
    fn all_accepted(&self, pairs: &[(BigNat, BigNat)]) -> (r: bool)
        requires
            self.state().valid(),
        ensures
            r == self.state().all_accepted(pair_values(pairs@)),
    {
        let mut i: usize = 0;
        while i < pairs.len()
            invariant
                i <= pairs@.len(),
                self.state().valid(),
                forall|k: int|
                    0 <= k < i ==> self.state().mem_accepts(
                        (#[trigger] pair_values(pairs@)[k]).0,
                        pair_values(pairs@)[k].1,
                    ),
            decreases pairs@.len() - i,
        {
            if !self.ver_mem(&pairs[i].0, &pairs[i].1) {
                assert(!self.state().mem_accepts(
                    pair_values(pairs@)[i as int].0,
                    pair_values(pairs@)[i as int].1,
                ));
                return false;
            }
            i += 1;
        }
        true
    }

    /// The witnesses folded into one by Shamir's trick, with the product of
    /// the elements.
    fn aggregate_pairs(&self, pairs: &[(BigNat, BigNat)]) -> (r: Option<(BigNat, BigNat)>)
        requires
            self.state().valid(),
        ensures
            match r {
                Some(agg) => aggregate(pair_values(pairs@), self.state().n) == Some(
                    (agg.0@, agg.1@),
                ),
                None => aggregate(pair_values(pairs@), self.state().n).is_none(),
            },
    {
        if pairs.len() == 0 {
            return None;
        }
        let ghost all = pair_values(pairs@);
        let mut a_n = pairs[0].0.clone();
        let mut x_star = pairs[0].1.clone();
        let mut i: usize = 1;
        assert(all.take(1).len() == 1 && all.take(1)[0] == all[0]);
        while i < pairs.len()
            invariant
                1 <= i <= pairs@.len(),
                all == pair_values(pairs@),
                self.state().valid(),
                aggregate(all.take(i as int), self.state().n) == Some((a_n@, x_star@)),
            decreases pairs@.len() - i,
        {
            proof {
                assert(all.take(i + 1).drop_last() =~= all.take(i as int));
                assert(all.take(i + 1).last() == all[i as int]);
            }
            match shamir_trick(&a_n, &pairs[i].0, &x_star, &pairs[i].1, &self.n) {
                Some(w) => {
                    a_n = w;
                    x_star = x_star.mul(&pairs[i].1);
                },
                None => {
                    proof {
                        lemma_aggregate_fails_on(all, i + 1, self.state().n);
                    }
                    return None;
                },
            }
            i += 1;
        }
        assert(all.take(pairs@.len() as int) =~= all);
        Some((a_n, x_star))
    }
}

/// Once the aggregation of a prefix fails, the aggregation of the whole
/// list fails.
proof fn lemma_aggregate_fails_on(pairs: Seq<(nat, nat)>, k: int, n: nat)
    requires
        1 <= k <= pairs.len(),
        aggregate(pairs.take(k), n).is_none(),
    ensures
        aggregate(pairs, n).is_none(),
    decreases pairs.len() - k,
{
    if k == pairs.len() {
        assert(pairs.take(k) =~= pairs);
    } else {
        assert(pairs.take(k + 1).drop_last() =~= pairs.take(k));
        lemma_aggregate_fails_on(pairs, k + 1, n);
    }
}

impl BatchedAccumulator for Accumulator {
    fn batch_add(&mut self, xs: &[BigNat]) -> (r: Option<BigNat>)
        ensures
            final(self).group_bits() == old(self).group_bits(),
    {
        let x_star = product_of(xs);
        let a_t = self.root.clone();
        let next = self.root.modpow(&x_star, &self.n);
        proof {
            lemma_added(self.state(), x_star@);
        }
        match ni_poe_prove(&x_star, &a_t, &next, &self.n) {
            Some(w) => {
                proof {
                    lemma_batch_add_accepted(self.state(), values(xs@));
                }
                self.set = self.set.mul(&x_star);
                self.root = next;
                Some(w)
            },
            None => None,
        }
    }

    fn batch_del(&mut self, pairs: &[(BigNat, BigNat)]) -> (r: Option<BigNat>)
        ensures
            final(self).group_bits() == old(self).group_bits(),
    {
        if !self.all_accepted(pairs) {
            return None;
        }
        let (a_n, x_star) = match self.aggregate_pairs(pairs) {
            Some(agg) => agg,
            None => {
                return None;
            },
        };
        let a_t = self.root.clone();
        // the proof is made first: nothing is changed where there is none
        let mut after = self.clone();
        match after.delete_with(&a_n, &x_star) {
            Some(_) => {},
            None => {
                return None;
            },
        }
        match ni_poe_prove(&x_star, &after.root, &a_t, &self.n) {
            Some(w) => {
                proof {
                    lemma_batch_del_accepted(self.state(), pair_values(pairs@));
                }
                *self = after;
                Some(w)
            },
            None => None,
        }
    }

    fn del_w_mem(&mut self, w: &BigNat, x: &BigNat) -> (r: Option<()>)
        ensures
            final(self).group_bits() == old(self).group_bits(),
    {
        self.delete_with(w, x)
    }

    fn create_all_mem_wit(&self, s: &[BigNat]) -> (r: Vec<BigNat>) {
        if s.len() == 0 {
            return Vec::new();
        }
        let roots = root_factor(&self.g, s, &self.n);
        proof {
            if product(values(s@)) == self.state().set {
                assert forall|i: int| 0 <= i < roots@.len() implies self.state().mem_witness(
                    s@[i]@,
                ) == Some((#[trigger] roots@[i])@) by {
                    lemma_all_witnesses(self.state(), values(s@), i);
                }
            }
        }
        roots
    }

    fn ver_batch_add(&self, w: &BigNat, a_t: &BigNat, xs: &[BigNat]) -> (r: bool) {
        let x_star = product_of(xs);
        ni_poe_verify(&x_star, a_t, &self.root, w, &self.n)
    }

    fn ver_batch_del(&self, w: &BigNat, a_t: &BigNat, xs: &[BigNat]) -> (r: bool) {
        let x_star = product_of(xs);
        ni_poe_verify(&x_star, &self.root, a_t, w, &self.n)
    }

    fn agg_mem_wit(&self, w_x: &BigNat, w_y: &BigNat, x: &BigNat, y: &BigNat) -> (r: Option<
        (BigNat, BigNat),
    >) {
        proof {
            if gcd(x@, y@) == 1 && self.state().mem_accepts(w_x@, x@) && self.state().mem_accepts(
                w_y@,
                y@,
            ) && self.state().agg_witness(w_x@, w_y@, x@, y@).is_some() {
                lemma_agg_witness_accepted(self.state(), w_x@, w_y@, x@, y@);
            }
        }
        let w_xy = match shamir_trick(w_x, w_y, x, y, &self.n) {
            Some(w) => w,
            None => {
                return None;
            },
        };
        match ni_poe_prove(&x.mul(y), &w_xy, &self.root, &self.n) {
            Some(pi) => Some((w_xy, pi)),
            None => None,
        }
    }

    fn ver_agg_mem_wit(&self, w_xy: &BigNat, pi: &BigNat, x: &BigNat, y: &BigNat) -> (r: bool) {
        ni_poe_verify(&x.mul(y), w_xy, &self.root, pi, &self.n)
    }

    fn mem_wit_create_star(&self, x: &BigNat) -> (r: Option<(BigNat, BigNat)>) {
        proof {
            if self.state().consistent() && self.state().mem_star(x@).is_some() {
                lemma_mem_star_accepted(self.state(), x@);
            }
        }
        let w = match self.mem_wit_create(x) {
            Some(w) => w,
            None => {
                return None;
            },
        };
        match ni_poe_prove(x, &w, &self.root, &self.n) {
            Some(pi) => Some((w, pi)),
            None => None,
        }
    }

    fn ver_mem_star(&self, x: &BigNat, pi: &(BigNat, BigNat)) -> (r: bool) {
        ni_poe_verify(x, &pi.0, &self.root, &pi.1, &self.n)
    }

    fn mem_wit_x(&self, other: &BigNat, w_x: &BigNat, w_y: &BigNat, x: &BigNat, y: &BigNat) -> (r:
        BigNat) {
        w_x.mul(w_y).mod_floor(&self.n)
    }

    fn ver_mem_x(&self, other: &BigNat, pi: &BigNat, x: &BigNat, y: &BigNat) -> (r: bool) {
        let (d, _, _) = extended_gcd(x, y);
        if !d.is_one() {
            return false;
        }
        let rhs = self.root.modpow(y, &self.n).mul(&other.modpow(x, &self.n)).mod_floor(&self.n);
        pi.modpow(&x.mul(y), &self.n).equals(&rhs)
    }

    fn non_mem_wit_create_star(&self, x: &BigNat) -> (r: Option<
        (BigNat, BigNat, (BigNat, BigNat, BigInt), BigNat),
    >) {
        proof {
            if self.state().consistent() && self.state().non_mem_star(x@).is_some() {
                lemma_non_mem_star_accepted(self.state(), x@);
            }
        }
        let (u, v) = match self.non_mem_wit_create(x) {
            Some(w) => w,
            None => {
                return None;
            },
        };
        let b = BigInt::from_biguint(Sign::Plus, self.set.div_floor(x));
        let poke = match ni_poke2_prove(&b, &self.g, &u, &self.n) {
            Some(pi) => pi,
            None => {
                return None;
            },
        };
        let gv = match modpow_uint_int(&self.g, &v, &self.n) {
            Some(gv) => gv,
            None => {
                return None;
            },
        };
        let k = match self.residual(&gv) {
            Some(k) => k,
            None => {
                return None;
            },
        };
        match ni_poe_prove(x, &u, &k, &self.n) {
            Some(poe) => Some((u, gv, poke, poe)),
            None => None,
        }
    }

    fn ver_non_mem_star(
        &self,
        x: &BigNat,
        pi: &(BigNat, BigNat, (BigNat, BigNat, BigInt), BigNat),
    ) -> (r: bool) {
        if !ni_poke2_verify(&self.g, &pi.0, &pi.2, &self.n) {
            return false;
        }
        match self.residual(&pi.1) {
            Some(k) => ni_poe_verify(x, &pi.0, &k, &pi.3, &self.n),
            None => false,
        }
    }
}

impl Accumulator {
    /// The root divided by `gv`, where `gv` has an inverse.
    fn residual(&self, gv: &BigNat) -> (r: Option<BigNat>)
        requires
            self.state().valid(),
        ensures
            match r {
                Some(k) => self.state().residual(gv@) == Some(k@),
                None => self.state().residual(gv@).is_none(),
            },
    {
        let a = BigInt::from_biguint(Sign::Plus, gv.clone());
        let m = BigInt::from_biguint(Sign::Plus, self.n.clone());
        match mod_inverse(&a, &m) {
            Some(inv) => Some(self.root.mul(&inv.magnitude()).mod_floor(&self.n)),
            None => None,
        }
    }
}

} // verus!
