//! The binary vector commitment: a vector of bits, where position `i` is
//! set exactly when the prime of `i` is a member of the accumulator.

use vstd::prelude::*;
use rand_chacha::ChaCha20Rng;
use crate::accumulator::{
    lemma_mem_star_accepted,
    lemma_mem_witness_accepted,
    lemma_non_mem_star_accepted,
    lemma_non_mem_witness_accepted,
};
use crate::bigint::BigInt;
use crate::bignat::BigNat;
use crate::encoding::{be64, be_fixed};
use crate::error::Error;
use crate::group::PrimeGroup;
use crate::hash::{hash_prime, hash_to_prime};
use crate::math::roots::{product, product_of, values};
use crate::proofs::{poe_accepts, poe_proof};
use crate::traits::{
    AccumulatorState,
    BatchedAccumulator,
    DynamicVectorCommitment,
    NonMemStar,
    StaticVectorCommitment,
    UniversalAccumulator,
};

verus! {

/// The prime that stands for position `i`: the eight big-endian bytes of
/// `i`, hashed to a prime.
pub open spec fn index_prime(i: nat) -> Option<nat> {
    hash_to_prime(be_fixed(i, 8))
}

/// The positions of a list as numbers.
pub open spec fn positions(i: Seq<usize>) -> Seq<nat> {
    i.map_values(|k: usize| k as nat)
}

/// The `len` positions that follow `start`.
pub open spec fn positions_from(start: nat, len: nat) -> Seq<nat> {
    Seq::new(len, |j: int| (start + j) as nat)
}

/// The primes of the positions of `i` at which `b` holds the bit `want`,
/// in their order. There are none where one of these positions has no
/// prime.
pub open spec fn selected_primes(b: Seq<bool>, i: Seq<nat>, want: bool) -> Option<Seq<nat>>
    recommends
        b.len() == i.len(),
    decreases b.len(),
{
    if b.len() == 0 || i.len() == 0 {
        Some(Seq::<nat>::empty())
    } else {
        match selected_primes(b.drop_last(), i.drop_last(), want) {
            Some(ps) => if b.last() == want {
                match index_prime(i.last()) {
                    Some(q) => Some(ps.push(q)),
                    None => None,
                }
            } else {
                Some(ps)
            },
            None => None,
        }
    }
}

/// The product of the selected primes.
pub open spec fn selected_product(b: Seq<bool>, i: Seq<nat>, want: bool) -> Option<nat> {
    match selected_primes(b, i, want) {
        Some(ps) => Some(product(ps)),
        None => None,
    }
}

/// The proof for one position of a binary vector commitment.
#[derive(Debug, PartialEq, Eq)]
pub enum Commitment {
    /// The bit is set: a membership witness.
    Mem(BigNat),
    /// The bit is not set: a non-membership witness.
    NonMem((BigNat, BigInt)),
}

/// What a [`Commitment`] holds, as numbers.
pub enum CommitmentValue {
    Mem(nat),
    NonMem(nat, int),
}

impl View for Commitment {
    type V = CommitmentValue;

    open spec fn view(&self) -> CommitmentValue {
        match self {
            Commitment::Mem(w) => CommitmentValue::Mem(w@),
            Commitment::NonMem(w) => CommitmentValue::NonMem(w.0@, w.1@),
        }
    }
}

impl Clone for Commitment {
    fn clone(&self) -> (r: Self)
        ensures
            r@ == self@,
    {
        match self {
            Commitment::Mem(w) => Commitment::Mem(w.clone()),
            Commitment::NonMem(w) => Commitment::NonMem((w.0.clone(), w.1.clone())),
        }
    }
}

/// The proof for several positions of a binary vector commitment: a
/// membership part for the bits that are set, and a non-membership part for
/// those that are not. A part that stands for no position holds zeros.
#[derive(Debug, PartialEq, Eq)]
pub struct BatchCommitment(
    pub (BigNat, BigNat),
    pub (BigNat, BigNat, (BigNat, BigNat, BigInt), BigNat),
);

/// What a [`BatchCommitment`] holds, as numbers.
pub struct BatchCommitmentValue {
    pub mem: (nat, nat),
    pub non_mem: NonMemStar,
}

impl View for BatchCommitment {
    type V = BatchCommitmentValue;

    open spec fn view(&self) -> BatchCommitmentValue {
        BatchCommitmentValue {
            mem: (self.0.0@, self.0.1@),
            non_mem: NonMemStar {
                u: self.1.0@,
                gv: self.1.1@,
                poke: (self.1.2.0@, self.1.2.1@, self.1.2.2@),
                poe: self.1.3@,
            },
        }
    }
}

impl Clone for BatchCommitment {
    fn clone(&self) -> (r: Self)
        ensures
            r@ == self@,
    {
        BatchCommitment(
            (self.0.0.clone(), self.0.1.clone()),
            (
                self.1.0.clone(),
                self.1.1.clone(),
                (self.1.2.0.clone(), self.1.2.1.clone(), self.1.2.2.clone()),
                self.1.3.clone(),
            ),
        )
    }
}

/// The part of a batch proof that stands for no position.
pub open spec fn empty_non_mem_star() -> NonMemStar {
    NonMemStar { u: 0, gv: 0, poke: (0, 0, 0), poe: 0 }
}

/// The proof that a commitment over the accumulator `acc` holds the bit `b`
/// at position `i`.
pub open spec fn opening(acc: AccumulatorState, b: bool, i: nat) -> Option<CommitmentValue> {
    match index_prime(i) {
        Some(p) => if b {
            match acc.mem_witness(p) {
                Some(w) => Some(CommitmentValue::Mem(w)),
                None => None,
            }
        } else {
            match acc.non_mem_witness(p) {
                Some(w) => Some(CommitmentValue::NonMem(w.0, w.1)),
                None => None,
            }
        },
        None => None,
    }
}

/// Whether `pi` is accepted as a proof that the commitment holds the bit
/// `b` at position `i`.
pub open spec fn opening_accepted(acc: AccumulatorState, b: bool, i: nat, pi: CommitmentValue) -> bool {
    match index_prime(i) {
        Some(p) => match pi {
            CommitmentValue::Mem(w) => b && acc.mem_accepts(w, p),
            CommitmentValue::NonMem(u, v) => !b && acc.non_mem_accepts(u, v, p),
        },
        None => false,
    }
}

/// The proof that a commitment over the accumulator `acc` holds the bits
/// `b` at the positions `i`.
pub open spec fn batch_opening(acc: AccumulatorState, b: Seq<bool>, i: Seq<nat>) -> Option<
    BatchCommitmentValue,
> {
    if b.len() != i.len() {
        None
    } else {
        match (selected_product(b, i, true), selected_product(b, i, false)) {
            (Some(p_ones), Some(p_zeros)) => {
                let mem = if p_ones == 1 {
                    Some((0nat, 0nat))
                } else {
                    acc.mem_star(p_ones)
                };
                let non_mem = if p_zeros == 1 {
                    Some(empty_non_mem_star())
                } else {
                    acc.non_mem_star(p_zeros)
                };
                match (mem, non_mem) {
                    (Some(m), Some(e)) => Some(BatchCommitmentValue { mem: m, non_mem: e }),
                    _ => None,
                }
            },
            _ => None,
        }
    }
}

/// Whether `pi` is accepted as a proof that the commitment holds the bits
/// `b` at the positions `i`.
pub open spec fn batch_opening_accepted(
    acc: AccumulatorState,
    b: Seq<bool>,
    i: Seq<nat>,
    pi: BatchCommitmentValue,
) -> bool {
    b.len() == i.len() && match (selected_product(b, i, true), selected_product(b, i, false)) {
        (Some(p_ones), Some(p_zeros)) => (p_ones == 1 || poe_accepts(
            p_ones,
            pi.mem.0,
            acc.root,
            pi.mem.1,
            acc.n,
        )) && (p_zeros == 1 || acc.non_mem_star_accepts(p_zeros, pi.non_mem)),
        _ => false,
    }
}

/// The accumulator after the bit at position `i` is changed from
/// `b_prime` to `b`.
pub open spec fn updated(acc: AccumulatorState, b: bool, b_prime: bool, i: nat) -> Option<
    AccumulatorState,
> {
    if b == b_prime {
        Some(acc)
    } else {
        match index_prime(i) {
            Some(p) => if b {
                Some(acc.added(p))
            } else {
                acc.deleted(p)
            },
            None => None,
        }
    }
}

/// The proof that a consistent commitment makes for one position is
/// accepted.
pub proof fn lemma_opening_accepted(acc: AccumulatorState, b: bool, i: nat)
    requires
        acc.valid(),
        acc.consistent(),
        opening(acc, b, i).is_some(),
    ensures
        opening_accepted(acc, b, i, opening(acc, b, i).unwrap()),
{
    let p = index_prime(i).unwrap();
    if b {
        lemma_mem_witness_accepted(acc, p);
    } else {
        lemma_non_mem_witness_accepted(acc, p);
    }
}

/// The proof that a consistent commitment makes for several positions is
/// accepted.
pub proof fn lemma_batch_opening_accepted(acc: AccumulatorState, b: Seq<bool>, i: Seq<nat>)
    requires
        acc.valid(),
        acc.consistent(),
        batch_opening(acc, b, i).is_some(),
    ensures
        batch_opening_accepted(acc, b, i, batch_opening(acc, b, i).unwrap()),
{
    let p_ones = selected_product(b, i, true).unwrap();
    let p_zeros = selected_product(b, i, false).unwrap();
    if p_ones != 1 {
        lemma_mem_star_accepted(acc, p_ones);
    }
    if p_zeros != 1 {
        lemma_non_mem_star_accepted(acc, p_zeros);
    }
}

/// A product of positive numbers is positive.
pub proof fn lemma_product_positive(xs: Seq<nat>)
    requires
        forall|k: int| 0 <= k < xs.len() ==> xs[k] > 0,
    ensures
        product(xs) > 0,
    decreases xs.len(),
{
    if xs.len() > 0 {
        lemma_product_positive(xs.drop_last());
        assert(product(xs.drop_last()) * xs.last() > 0) by (nonlinear_arith)
            requires
                product(xs.drop_last()) > 0,
                xs.last() > 0,
        ;
    }
}

/// The prime of position `i`.
pub fn map_i_to_p_i(i: usize) -> (r: Option<BigNat>)
    ensures
        match r {
            Some(p) => index_prime(i as nat) == Some(p@) && p@ >= 2,
            None => index_prime(i as nat).is_none(),
        },
{
    let to_hash = be64(i as u64);
    hash_prime(to_hash.as_slice())
}

/// Once the selection fails on a prefix, it fails on the whole list.
proof fn lemma_selection_fails_on(b: Seq<bool>, i: Seq<nat>, want: bool, k: int)
    requires
        b.len() == i.len(),
        0 <= k <= b.len(),
        selected_primes(b.take(k), i.take(k), want).is_none(),
    ensures
        selected_primes(b, i, want).is_none(),
    decreases b.len() - k,
{
    if k == b.len() {
        assert(b.take(k) =~= b);
        assert(i.take(k) =~= i);
    } else {
        assert(b.take(k + 1).drop_last() =~= b.take(k));
        assert(i.take(k + 1).drop_last() =~= i.take(k));
        lemma_selection_fails_on(b, i, want, k + 1);
    }
}

/// A commitment to a vector of bits, over an accumulator. It keeps the
/// primes of the positions committed, so that they are hashed only once.
#[derive(Debug)]
pub struct BinaryVectorCommitment<A: UniversalAccumulator + BatchedAccumulator> {
    lambda: usize,
    n: usize,
    acc: A,
    pos: usize,
    primes: Vec<BigNat>,
}

impl<A: UniversalAccumulator + BatchedAccumulator + Clone> Clone for BinaryVectorCommitment<A> {
    /// A copy over a copy of the accumulator: of the same length, and with
    /// the same primes kept. What the copy of the accumulator is, is for the
    /// accumulator to say.
    fn clone(&self) -> (r: Self)
        ensures
            r.length() == self.length(),
            r.group_bits() == self.group_bits(),
            r.planned_length() == self.planned_length(),
            self.primes_kept() ==> r.primes_kept(),
    {
        let mut primes: Vec<BigNat> = Vec::new();
        let mut i: usize = 0;
        while i < self.primes.len()
            invariant
                i <= self.primes@.len(),
                primes@.len() == i,
                forall|k: int| 0 <= k < i ==> (#[trigger] primes@[k])@ == self.primes@[k]@,
            decreases self.primes@.len() - i,
        {
            primes.push(self.primes[i].clone());
            i += 1;
        }
        BinaryVectorCommitment {
            lambda: self.lambda,
            n: self.n,
            acc: self.acc.clone(),
            pos: self.pos,
            primes,
        }
    }
}

/// Whether every position from `start` on, `len` positions in all, has a
/// prime.
pub open spec fn all_primes_exist(start: nat, len: nat) -> bool {
    forall|k: nat| start <= k < start + len ==> (#[trigger] index_prime(k)).is_some()
}

impl<A: UniversalAccumulator + BatchedAccumulator> BinaryVectorCommitment<A> {
    /// The accumulator that holds the primes of the bits that are set.
    pub closed spec fn accumulator(&self) -> AccumulatorState {
        self.acc.state()
    }

    /// The length of the vector: one more than the last position
    /// committed.
    pub closed spec fn length(&self) -> nat {
        self.pos as nat
    }

    /// The primes kept are those of the positions committed.
    pub closed spec fn primes_kept(&self) -> bool {
        self.primes@.len() == self.pos && forall|k: int|
            0 <= k < self.primes@.len() ==> index_prime(k as nat) == Some(
                (#[trigger] self.primes@[k])@,
            )
    }

    /// The prime of position `i`: the one kept, or else hashed anew.
    fn prime_at(&self, i: usize) -> (r: Option<BigNat>)
        requires
            self.primes_kept(),
        ensures
            match r {
                Some(p) => index_prime(i as nat) == Some(p@) && p@ >= 2,
                None => index_prime(i as nat).is_none(),
            },
    {
        if i < self.primes.len() {
            proof {
                assert(index_prime(i as nat) == Some(self.primes@[i as int]@));
                crate::hash::lemma_prime_search_finds_prime(
                    crate::hash::prime_candidate(be_fixed(i as nat, 8)),
                    crate::hash::MAX_HASH_ROUNDS as nat,
                );
            }
            Some(self.primes[i].clone())
        } else {
            map_i_to_p_i(i)
        }
    }

    /// The primes of the positions of `i` at which `b` holds the bit
    /// `want`.
    fn primes_of_selected(&self, b: &[bool], i: &[usize], want: bool) -> (r: Option<Vec<BigNat>>)
        requires
            self.primes_kept(),
            b@.len() == i@.len(),
        ensures
            match r {
                Some(ps) => selected_primes(b@, positions(i@), want) == Some(values(ps@))
                    && product(values(ps@)) > 0,
                None => selected_primes(b@, positions(i@), want).is_none(),
            },
    {
        let mut primes: Vec<BigNat> = Vec::new();
        let ghost pos = positions(i@);
        let mut j: usize = 0;
        assert(values(primes@) =~= Seq::<nat>::empty());
        while j < b.len()
            invariant
                j <= b@.len(),
                b@.len() == i@.len(),
                self.primes_kept(),
                pos == positions(i@),
                selected_primes(b@.take(j as int), pos.take(j as int), want) == Some(
                    values(primes@),
                ),
                forall|k: int| 0 <= k < primes@.len() ==> values(primes@)[k] > 0,
            decreases b@.len() - j,
        {
            proof {
                assert(b@.take(j + 1).drop_last() =~= b@.take(j as int));
                assert(pos.take(j + 1).drop_last() =~= pos.take(j as int));
                assert(b@.take(j + 1).last() == b@[j as int]);
                assert(pos.take(j + 1).last() == i@[j as int] as nat);
            }
            if b[j] == want {
                match self.prime_at(i[j]) {
                    Some(p) => {
                        let ghost before = values(primes@);
                        primes.push(p);
                        assert(values(primes@) =~= before.push(p@));
                    },
                    None => {
                        proof {
                            lemma_selection_fails_on(b@, pos, want, j + 1);
                        }
                        return None;
                    },
                }
            }
            j += 1;
        }
        proof {
            assert(b@.take(b@.len() as int) =~= b@);
            assert(pos.take(b@.len() as int) =~= pos);
            lemma_product_positive(values(primes@));
        }
        Some(primes)
    }

    /// The commitment to the empty vector over an accumulator that a setup
    /// has made. A failure of the setup is handed on as it is.
    pub fn from_accumulator(lambda: usize, n: usize, made: Result<A, Error>) -> (r: Result<
        Self,
        Error,
    >)
        ensures
            match made {
                Err(e) => r == Err::<Self, Error>(e),
                Ok(acc) => r.is_ok() && r.unwrap().accumulator() == acc.state() && r.unwrap().length()
                    == 0 && r.unwrap().group_bits() == lambda && r.unwrap().planned_length() == n
                    && r.unwrap().primes_kept(),
            },
    {
        match made {
            Ok(acc) => Ok(BinaryVectorCommitment { lambda, n, acc, pos: 0, primes: Vec::new() }),
            Err(e) => Err(e),
        }
    }

    /// The accumulator that holds the primes of the bits that are set.
    pub fn state(&self) -> (r: &A)
        ensures
            r.state() == self.accumulator(),
    {
        &self.acc
    }

    /// The length of the vector.
    pub fn pos(&self) -> (r: usize)
        ensures
            r == self.length(),
    {
        self.pos
    }

    /// The bit length that the group was set up with.
    pub closed spec fn group_bits(&self) -> nat {
        self.lambda as nat
    }

    /// The length that the vector is meant to reach.
    pub closed spec fn planned_length(&self) -> nat {
        self.n as nat
    }

    /// The bit length that the group was set up with.
    pub fn lambda(&self) -> (r: usize)
        ensures
            r == self.group_bits(),
    {
        self.lambda
    }

    /// The length that the vector is meant to reach.
    pub fn capacity(&self) -> (r: usize)
        ensures
            r == self.planned_length(),
    {
        self.n
    }
}

impl<A: UniversalAccumulator + BatchedAccumulator> StaticVectorCommitment for BinaryVectorCommitment<
    A,
> {
    type Domain = bool;

    type Commitment = Commitment;

    type BatchCommitment = BatchCommitment;

    open spec fn valid(&self) -> bool {
        self.accumulator().valid() && self.primes_kept()
    }

    fn setup<G: PrimeGroup>(rng: &mut ChaCha20Rng, lambda: usize, n: usize) -> (r: Result<
        Self,
        Error,
    >)
        ensures
            match r {
                Ok(vc) => vc.accumulator().fresh() && vc.accumulator().consistent() && vc.length()
                    == 0 && vc.group_bits() == lambda && vc.planned_length() == n && G::promises(
                    lambda,
                    vc.accumulator().n,
                    vc.accumulator().g,
                ),
                Err(_) => true,
            },
    {
        BinaryVectorCommitment::from_accumulator(lambda, n, A::setup::<G>(rng, lambda))
    }

    fn commit(&mut self, m: &[bool]) -> (r: Option<()>)
        ensures
            match r {
                Some(_) => final(self).length() == old(self).length() + m@.len() && (
                match selected_product(m@, positions_from(old(self).length(), m@.len()), true) {
                    Some(p) => final(self).accumulator() == old(self).accumulator().added(p),
                    None => false,
                }),
                None => final(self).accumulator() == old(self).accumulator() && final(self).length()
                    == old(self).length(),
            },
            r.is_some() == (old(self).length() + m@.len() <= usize::MAX && all_primes_exist(
                old(self).length(),
                m@.len(),
            ) && (match selected_product(m@, positions_from(old(self).length(), m@.len()), true) {
                Some(p) => poe_proof(
                    p,
                    old(self).accumulator().root,
                    old(self).accumulator().added(p).root,
                    old(self).accumulator().n,
                ).is_some(),
                None => false,
            })),
            final(self).group_bits() == old(self).group_bits(),
            final(self).planned_length() == old(self).planned_length(),
    {
        if m.len() > usize::MAX - self.pos {
            return None;
        }
        let ghost idx = positions_from(self.pos as nat, m@.len());
        let mut fresh: Vec<BigNat> = Vec::new();
        let mut selected: Vec<BigNat> = Vec::new();
        let mut j: usize = 0;
        assert(values(selected@) =~= Seq::<nat>::empty());
        while j < m.len()
            invariant
                j <= m@.len(),
                *self == *old(self),
                self.valid(),
                self.pos + m@.len() <= usize::MAX,
                idx == positions_from(self.pos as nat, m@.len()),
                fresh@.len() == j,
                forall|k: int|
                    0 <= k < j ==> index_prime((self.pos + k) as nat) == Some(
                        (#[trigger] fresh@[k])@,
                    ),
                selected_primes(m@.take(j as int), idx.take(j as int), true) == Some(
                    values(selected@),
                ),
                forall|k: int| 0 <= k < selected@.len() ==> values(selected@)[k] > 0,
            decreases m@.len() - j,
        {
            proof {
                assert(m@.take(j + 1).drop_last() =~= m@.take(j as int));
                assert(idx.take(j + 1).drop_last() =~= idx.take(j as int));
                assert(m@.take(j + 1).last() == m@[j as int]);
                assert(idx.take(j + 1).last() == (self.pos + j) as nat);
            }
            match map_i_to_p_i(self.pos + j) {
                Some(p) => {
                    if m[j] {
                        let ghost before = values(selected@);
                        selected.push(p.clone());
                        assert(values(selected@) =~= before.push(p@));
                    }
                    fresh.push(p);
                },
                None => {
                    assert(!all_primes_exist(self.pos as nat, m@.len())) by {
                        assert(index_prime((self.pos + j) as nat).is_none());
                    }
                    return None;
                },
            }
            j += 1;
        }
        proof {
            assert(m@.take(m@.len() as int) =~= m@);
            assert(idx.take(m@.len() as int) =~= idx);
            lemma_product_positive(values(selected@));
            assert(all_primes_exist(self.pos as nat, m@.len())) by {
                assert forall|k: nat| self.pos <= k < self.pos + m@.len() implies (
                #[trigger] index_prime(k)).is_some() by {
                    assert(index_prime((self.pos + (k - self.pos)) as nat) == Some(
                        fresh@[k - self.pos]@,
                    ));
                }
            }
        }
        match self.acc.batch_add(selected.as_slice()) {
            Some(_) => {
                let ghost kept = self.primes@;
                let ghost added = fresh@;
                self.primes.append(&mut fresh);
                self.pos = self.pos + m.len();
                proof {
                    assert forall|k: int| 0 <= k < self.primes@.len() implies index_prime(
                        k as nat,
                    ) == Some((#[trigger] self.primes@[k])@) by {
                        if k < kept.len() {
                            assert(self.primes@[k] == kept[k]);
                        } else {
                            assert(self.primes@[k] == added[k - kept.len()]);
                            assert(index_prime((old(self).pos + (k - kept.len())) as nat) == Some(
                                added[k - kept.len()]@,
                            ));
                        }
                    }
                }
                Some(())
            },
            None => None,
        }
    }

    fn open(&self, b: &bool, i: usize) -> (r: Option<Commitment>)
        ensures
            match r {
                Some(pi) => opening(self.accumulator(), *b, i as nat) == Some(pi@),
                None => opening(self.accumulator(), *b, i as nat).is_none(),
            },
            r.is_some() && self.accumulator().consistent() ==> opening_accepted(
                self.accumulator(),
                *b,
                i as nat,
                r.unwrap()@,
            ),
    {
        let p_i = match self.prime_at(i) {
            Some(p) => p,
            None => {
                return None;
            },
        };
        proof {
            if self.accumulator().consistent() && opening(self.accumulator(), *b, i as nat).is_some() {
                lemma_opening_accepted(self.accumulator(), *b, i as nat);
            }
        }
        if *b {
            match self.acc.mem_wit_create(&p_i) {
                Some(w) => Some(Commitment::Mem(w)),
                None => None,
            }
        } else {
            match self.acc.non_mem_wit_create(&p_i) {
                Some(w) => Some(Commitment::NonMem(w)),
                None => None,
            }
        }
    }

    fn verify(&self, b: &bool, i: usize, pi: &Commitment) -> (r: bool)
        ensures
            r == opening_accepted(self.accumulator(), *b, i as nat, pi@),
    {
        let p_i = match self.prime_at(i) {
            Some(p) => p,
            None => {
                return false;
            },
        };
        if *b {
            match pi {
                Commitment::Mem(v) => self.acc.ver_mem(v, &p_i),
                Commitment::NonMem(_) => false,
            }
        } else {
            match pi {
                Commitment::Mem(_) => false,
                Commitment::NonMem(v) => self.acc.ver_non_mem(v, &p_i),
            }
        }
    }

    fn batch_open(&self, b: &[bool], i: &[usize]) -> (r: Option<BatchCommitment>)
        ensures
            match r {
                Some(pi) => batch_opening(self.accumulator(), b@, positions(i@)) == Some(pi@),
                None => batch_opening(self.accumulator(), b@, positions(i@)).is_none(),
            },
            r.is_some() && self.accumulator().consistent() ==> batch_opening_accepted(
                self.accumulator(),
                b@,
                positions(i@),
                r.unwrap()@,
            ),
    {
        proof {
            if self.accumulator().consistent() && batch_opening(
                self.accumulator(),
                b@,
                positions(i@),
            ).is_some() {
                lemma_batch_opening_accepted(self.accumulator(), b@, positions(i@));
            }
        }
        if b.len() != i.len() {
            return None;
        }
        let ones = match self.primes_of_selected(b, i, true) {
            Some(ps) => ps,
            None => {
                return None;
            },
        };
        let zeros = match self.primes_of_selected(b, i, false) {
            Some(ps) => ps,
            None => {
                return None;
            },
        };
        let p_ones = product_of(ones.as_slice());
        let pi_i = if p_ones.is_one() {
            (BigNat::zero(), BigNat::zero())
        } else {
            match self.acc.mem_wit_create_star(&p_ones) {
                Some(star) => star,
                None => {
                    return None;
                },
            }
        };
        let p_zeros = product_of(zeros.as_slice());
        let pi_e = if p_zeros.is_one() {
            (
                BigNat::zero(),
                BigNat::zero(),
                (BigNat::zero(), BigNat::zero(), BigInt::zero()),
                BigNat::zero(),
            )
        } else {
            match self.acc.non_mem_wit_create_star(&p_zeros) {
                Some(star) => star,
                None => {
                    return None;
                },
            }
        };
        Some(BatchCommitment(pi_i, pi_e))
    }

    fn batch_verify(&self, b: &[bool], i: &[usize], pi: &BatchCommitment) -> (r: bool)
        ensures
            r == batch_opening_accepted(self.accumulator(), b@, positions(i@), pi@),
    {
        if b.len() != i.len() {
            return false;
        }
        let ones = match self.primes_of_selected(b, i, true) {
            Some(ps) => ps,
            None => {
                return false;
            },
        };
        let zeros = match self.primes_of_selected(b, i, false) {
            Some(ps) => ps,
            None => {
                return false;
            },
        };
        let p_ones = product_of(ones.as_slice());
        if !p_ones.is_one() && !self.acc.ver_mem_star(&p_ones, &pi.0) {
            return false;
        }
        let p_zeros = product_of(zeros.as_slice());
        if !p_zeros.is_one() && !self.acc.ver_non_mem_star(&p_zeros, &pi.1) {
            return false;
        }
        true
    }
}

impl<A: UniversalAccumulator + BatchedAccumulator> DynamicVectorCommitment for BinaryVectorCommitment<
    A,
> {
    fn update(&mut self, b: &bool, b_prime: &bool, i: usize) -> (r: Option<()>)
        ensures
            match r {
                Some(_) => updated(old(self).accumulator(), *b, *b_prime, i as nat) == Some(
                    final(self).accumulator(),
                ),
                None => updated(old(self).accumulator(), *b, *b_prime, i as nat).is_none() && final(self).accumulator() == old(self).accumulator(),
            },
            final(self).group_bits() == old(self).group_bits(),
            final(self).planned_length() == old(self).planned_length(),
            final(self).length() == old(self).length(),
    {
        if *b == *b_prime {
            return Some(());
        }
        let p_i = match self.prime_at(i) {
            Some(p) => p,
            None => {
                return None;
            },
        };
        if *b {
            self.acc.add(&p_i);
            Some(())
        } else {
            self.acc.del(&p_i)
        }
    }
}

} // verus!
