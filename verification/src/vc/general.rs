//! The general vector commitment: a vector of numbers, each hashed to a
//! string of `lambda` bits that is committed in a binary vector
//! commitment. The element at position `i` takes the bit positions from
//! `i * lambda` up to `(i + 1) * lambda`.

use vstd::prelude::*;
use rand_chacha::ChaCha20Rng;
use crate::bignat::BigNat;
use crate::encoding::be_bytes;
use crate::error::Error;
use crate::group::PrimeGroup;
use crate::hash::{blake2b_512, digest};
use crate::traits::{
    AccumulatorState,
    BatchedAccumulator,
    DynamicVectorCommitment,
    StaticVectorCommitment,
    UniversalAccumulator,
};
use crate::proofs::poe_proof;
use crate::vc::binary::{
    all_primes_exist,
    batch_opening,
    batch_opening_accepted,
    positions,
    positions_from,
    selected_product,
    updated,
    BatchCommitment,
    BinaryVectorCommitment,
};

verus! {

/// The bits of a byte string, the most significant bit of each byte first.
pub open spec fn msb_bits(bytes: Seq<u8>) -> Seq<bool> {
    Seq::new(8 * bytes.len(), |k: int| (bytes[k / 8] as nat / vstd::arithmetic::power2::pow2((7 - k % 8) as nat)) % 2 == 1)
}

/// The number of bits that the digest holds.
pub const DIGEST_BITS: usize = 512;

/// How many bits stand for an element where `lambda` are asked for:
/// `lambda`, and no more than the digest holds.
pub open spec fn digest_bits(lambda: nat) -> nat {
    if lambda < DIGEST_BITS {
        lambda
    } else {
        DIGEST_BITS as nat
    }
}

/// The bits that stand for the element `m`: the first `lambda` bits of the
/// digest of its minimal big-endian bytes, the most significant bit of each
/// byte first.
pub open spec fn element_bits(m: nat, lambda: nat) -> Seq<bool> {
    msb_bits(blake2b_512(be_bytes(m))).take(digest_bits(lambda) as int)
}

/// Whether `lambda` can be the number of bits of an element: one bit at
/// least, and no more than the digest holds.
pub open spec fn lambda_fits(lambda: nat) -> bool {
    0 < lambda <= DIGEST_BITS
}

/// The bits that stand for all the elements of a list, one after the
/// other.
pub open spec fn all_element_bits(ms: Seq<nat>, lambda: nat) -> Seq<bool>
    decreases ms.len(),
{
    if ms.len() == 0 {
        Seq::<bool>::empty()
    } else {
        all_element_bits(ms.drop_last(), lambda) + element_bits(ms.last(), lambda)
    }
}

/// The bit positions of the elements at the positions `is`, one element
/// after the other.
pub open spec fn all_element_positions(is: Seq<nat>, lambda: nat) -> Seq<nat>
    decreases is.len(),
{
    if is.len() == 0 {
        Seq::<nat>::empty()
    } else {
        all_element_positions(is.drop_last(), lambda) + positions_from(is.last() * lambda, lambda)
    }
}

/// The accumulator after the first `k` bits of the element at bit position
/// `offset` are changed from `old_bits` to `new_bits`, one after the other.
/// There is none where one of these changes cannot be made.
pub open spec fn updated_bits(
    acc: AccumulatorState,
    new_bits: Seq<bool>,
    old_bits: Seq<bool>,
    offset: nat,
    k: nat,
) -> Option<AccumulatorState>
    decreases k,
{
    if k == 0 {
        Some(acc)
    } else {
        match updated_bits(acc, new_bits, old_bits, offset, (k - 1) as nat) {
            Some(a) => updated(a, new_bits[k - 1], old_bits[k - 1], (offset + k - 1) as nat),
            None => None,
        }
    }
}

/// The numbers that a sequence of big integers stands for.
pub open spec fn element_values(ms: Seq<BigNat>) -> Seq<nat> {
    ms.map_values(|m: BigNat| m@)
}

/// The bits that stand for the element `m`: the first `lambda` bits of the
/// digest of its bytes, or all its 512 bits where more are asked for. See
/// [`element_bits`].
pub fn hash_binary(m: &BigNat, lambda: usize) -> (r: Vec<bool>)
    ensures
        r@ == element_bits(m@, lambda as nat),
        r@.len() == digest_bits(lambda as nat),
        lambda_fits(lambda as nat) ==> r@.len() == lambda,
{
    let m_bytes = m.to_bytes_be();
    let bytes = digest(m_bytes.as_slice());
    let want = if lambda < DIGEST_BITS {
        lambda
    } else {
        DIGEST_BITS
    };
    // the bytes that hold the bits wanted
    let len = want / 8 + (if want % 8 == 0 {
        0usize
    } else {
        1usize
    });
    let head = vstd::slice::slice_subrange(bytes.as_slice(), 0, len);
    let mut bits = bits_msb0(head);
    bits.truncate(want);
    proof {
        let all = msb_bits(bytes@);
        assert(bits@.len() == want);
        assert forall|k: int| 0 <= k < want implies bits@[k] == all[k] by {
            assert(k / 8 < len);
            assert(head@[k / 8] == bytes@[k / 8]);
        }
        assert(bits@ =~= all.take(want as int));
    }
    bits
}

/// Appends the bits of `src` to `dst`.
fn append_bits(dst: &mut Vec<bool>, src: &Vec<bool>)
    ensures
        final(dst)@ == old(dst)@ + src@,
{
    let mut i: usize = 0;
    while i < src.len()
        invariant
            i <= src@.len(),
            dst@ == old(dst)@ + src@.take(i as int),
        decreases src@.len() - i,
    {
        dst.push(src[i]);
        i += 1;
        assert(dst@ =~= old(dst)@ + src@.take(i as int));
    }
    assert(src@.take(src@.len() as int) =~= src@);
}

/// The first bit position of the element at position `i`. There is none
/// where the bit positions of that element do not fit the machine's
/// integers.
fn element_offset(i: usize, lambda: usize) -> (r: Option<usize>)
    requires
        lambda > 0,
    ensures
        r.is_some() == ((i + 1) * lambda <= usize::MAX),
        r.is_some() ==> r.unwrap() == i * lambda && r.unwrap() + lambda <= usize::MAX,
{
    let q = usize::MAX / lambda;
    proof {
        vstd::arithmetic::div_mod::lemma_fundamental_div_mod(usize::MAX as int, lambda as int);
        vstd::arithmetic::div_mod::lemma_mod_bound(usize::MAX as int, lambda as int);
    }
    if i >= q {
        assert((i + 1) * lambda > usize::MAX) by (nonlinear_arith)
            requires
                i >= q,
                usize::MAX == lambda * q + (usize::MAX as int) % (lambda as int),
                (usize::MAX as int) % (lambda as int) < lambda,
                lambda > 0,
        ;
        return None;
    }
    assert((i + 1) * lambda <= usize::MAX && i * lambda >= 0 && (i + 1) * lambda == i * lambda
        + lambda) by (nonlinear_arith)
        requires
            0 <= i < q,
            usize::MAX == lambda * q + (usize::MAX as int) % (lambda as int),
            0 <= (usize::MAX as int) % (lambda as int),
            lambda > 0,
    ;
    Some(i * lambda)
}

/// Appends the `lambda` bit positions of the element at position `i`.
/// Nothing is appended, and `false` returned, where they do not fit the
/// machine's integers.
fn append_positions(dst: &mut Vec<usize>, i: usize, lambda: usize) -> (r: bool)
    requires
        lambda > 0,
    ensures
        r == ((i + 1) * lambda <= usize::MAX),
        r ==> positions(final(dst)@) == positions(old(dst)@) + positions_from(
            (i * lambda) as nat,
            lambda as nat,
        ),
        !r ==> final(dst)@ == old(dst)@,
{
    let offset = match element_offset(i, lambda) {
        Some(offset) => offset,
        None => {
            return false;
        },
    };
    let mut j: usize = 0;
    while j < lambda
        invariant
            j <= lambda,
            offset == i * lambda,
            offset + lambda <= usize::MAX,
            positions(dst@) == positions(old(dst)@) + positions_from(offset as nat, j as nat),
        decreases lambda - j,
    {
        let ghost before = dst@;
        dst.push(offset + j);
        j += 1;
        proof {
            assert(positions(dst@) =~= positions(before).push((offset + j - 1) as nat));
            assert(positions_from(offset as nat, j as nat) =~= positions_from(
                offset as nat,
                (j - 1) as nat,
            ).push((offset + j - 1) as nat));
            assert(positions(dst@) =~= positions(old(dst)@) + positions_from(
                offset as nat,
                j as nat,
            ));
        }
    }
    true
}

/// A commitment to a vector of numbers, over an accumulator.
#[derive(Debug)]
pub struct VectorCommitment<A: UniversalAccumulator + BatchedAccumulator> {
    lambda: usize,
    n: usize,
    vc: BinaryVectorCommitment<A>,
}

impl<A: UniversalAccumulator + BatchedAccumulator + Clone> Clone for VectorCommitment<A> {
    /// A copy over a copy of the binary commitment: of the same length and
    /// with the same number of bits for an element.
    fn clone(&self) -> (r: Self)
        ensures
            r.length() == self.length(),
            r.element_len() == self.element_len(),
            r.planned_length() == self.planned_length(),
    {
        VectorCommitment { lambda: self.lambda, n: self.n, vc: self.vc.clone() }
    }
}

impl<A: UniversalAccumulator + BatchedAccumulator> VectorCommitment<A> {
    /// The accumulator that holds the primes of the bits that are set.
    pub closed spec fn accumulator(&self) -> AccumulatorState {
        self.vc.accumulator()
    }

    /// The number of bits committed.
    pub closed spec fn length(&self) -> nat {
        self.vc.length()
    }

    /// The number of bits that stand for one element.
    pub closed spec fn element_len(&self) -> nat {
        self.lambda as nat
    }

    /// The binary commitment underneath is well formed.
    pub closed spec fn binary_valid(&self) -> bool {
        self.vc.valid()
    }

    /// The commitment to the empty vector of numbers over a binary
    /// commitment that a setup has made. A `lambda` that the digest cannot
    /// fill is refused whatever the setup gave; else a failure of the setup
    /// is handed on as it is.
    pub fn from_binary(lambda: usize, n: usize, made: Result<BinaryVectorCommitment<A>, Error>) -> (r:
        Result<Self, Error>)
        ensures
            !lambda_fits(lambda as nat) ==> r == Err::<Self, Error>(Error::InvalidLambda),
            lambda_fits(lambda as nat) ==> (match made {
                Err(e) => r == Err::<Self, Error>(e),
                Ok(vc) => r.is_ok() && r.unwrap().accumulator() == vc.accumulator()
                    && r.unwrap().length() == vc.length() && r.unwrap().element_len() == lambda
                    && r.unwrap().planned_length() == n && r.unwrap().binary_valid() == vc.valid(),
            }),
    {
        if lambda == 0 || lambda > DIGEST_BITS {
            return Err(Error::InvalidLambda);
        }
        match made {
            Ok(vc) => Ok(VectorCommitment { lambda, n, vc }),
            Err(e) => Err(e),
        }
    }

    /// The accumulator that holds the primes of the bits that are set.
    pub fn state(&self) -> (r: &A)
        ensures
            r.state() == self.accumulator(),
    {
        self.vc.state()
    }

    /// The number of bits that stand for one element.
    pub fn lambda(&self) -> (r: usize)
        ensures
            r == self.element_len(),
    {
        self.lambda
    }

    /// The length that the vector is meant to reach.
    pub closed spec fn planned_length(&self) -> nat {
        self.n as nat
    }

    /// The length that the vector is meant to reach.
    pub fn capacity(&self) -> (r: usize)
        ensures
            r == self.planned_length(),
    {
        self.n
    }

    /// The bits of all the elements of `b` and the bit positions of the
    /// elements at the positions `is`.
    fn expand(&self, b: &[BigNat], is: &[usize]) -> (r: Option<(Vec<bool>, Vec<usize>)>)
        requires
            lambda_fits(self.element_len()),
        ensures
            r.is_some() == (b@.len() == is@.len() && forall|k: int|
                0 <= k < is@.len() ==> (#[trigger] is@[k] + 1) * self.element_len() <= usize::MAX),
            match r {
                Some(e) => e.0@ == all_element_bits(element_values(b@), self.element_len())
                    && positions(e.1@) == all_element_positions(positions(is@), self.element_len()),
                None => true,
            },
    {
        if b.len() != is.len() {
            return None;
        }
        let mut comm: Vec<bool> = Vec::new();
        let mut comm_is: Vec<usize> = Vec::new();
        let ghost ms = element_values(b@);
        let ghost ps = positions(is@);
        let mut k: usize = 0;
        assert(positions(comm_is@) =~= Seq::<nat>::empty());
        while k < b.len()
            invariant
                k <= b@.len(),
                b@.len() == is@.len(),
                ms == element_values(b@),
                ps == positions(is@),
                lambda_fits(self.element_len()),
                comm@ == all_element_bits(ms.take(k as int), self.element_len()),
                positions(comm_is@) == all_element_positions(ps.take(k as int), self.element_len()),
                forall|j: int|
                    0 <= j < k ==> (#[trigger] is@[j] + 1) * self.element_len() <= usize::MAX,
            decreases b@.len() - k,
        {
            proof {
                assert(ms.take(k + 1).drop_last() =~= ms.take(k as int));
                assert(ms.take(k + 1).last() == b@[k as int]@);
                assert(ps.take(k + 1).drop_last() =~= ps.take(k as int));
                assert(ps.take(k + 1).last() == is@[k as int] as nat);
            }
            let c = hash_binary(&b[k], self.lambda);
            if !append_positions(&mut comm_is, is[k], self.lambda) {
                return None;
            }
            append_bits(&mut comm, &c);
            k += 1;
        }
        proof {
            assert(ms.take(b@.len() as int) =~= ms);
            assert(ps.take(b@.len() as int) =~= ps);
        }
        Some((comm, comm_is))
    }
}

impl<A: UniversalAccumulator + BatchedAccumulator> StaticVectorCommitment for VectorCommitment<A> {
    type Domain = BigNat;

    type Commitment = BatchCommitment;

    type BatchCommitment = BatchCommitment;

    open spec fn valid(&self) -> bool {
        self.accumulator().valid() && self.binary_valid() && lambda_fits(self.element_len())
    }

    fn setup<G: PrimeGroup>(rng: &mut ChaCha20Rng, lambda: usize, n: usize) -> (r: Result<
        Self,
        Error,
    >)
        ensures
            !lambda_fits(lambda as nat) ==> r == Err::<Self, Error>(Error::InvalidLambda),
            match r {
                Ok(vc) => lambda_fits(lambda as nat) && vc.accumulator().fresh()
                    && vc.accumulator().consistent() && vc.length() == 0 && vc.element_len()
                    == lambda && vc.planned_length() == n && G::promises(
                    lambda,
                    vc.accumulator().n,
                    vc.accumulator().g,
                ),
                Err(_) => true,
            },
    {
        if lambda == 0 || lambda > DIGEST_BITS {
            return Err(Error::InvalidLambda);
        }
        VectorCommitment::from_binary(
            lambda,
            n,
            BinaryVectorCommitment::<A>::setup::<G>(rng, lambda, n),
        )
    }

    // The elements are mapped onto the binary commitment one after the
    // other: for the elements a, b, c the bits of a, then those of b, then
    // those of c.
    fn commit(&mut self, ms: &[BigNat]) -> (r: Option<()>)
        ensures
            match r {
                Some(_) => final(self).length() == old(self).length() + all_element_bits(
                    element_values(ms@),
                    old(self).element_len(),
                ).len() && (match selected_product(
                    all_element_bits(element_values(ms@), old(self).element_len()),
                    positions_from(
                        old(self).length(),
                        all_element_bits(element_values(ms@), old(self).element_len()).len(),
                    ),
                    true,
                ) {
                    Some(p) => final(self).accumulator() == old(self).accumulator().added(p),
                    None => false,
                }),
                None => final(self).accumulator() == old(self).accumulator() && final(self).length()
                    == old(self).length(),
            },
            r.is_some() == (old(self).length() + all_element_bits(
                element_values(ms@),
                old(self).element_len(),
            ).len() <= usize::MAX && all_primes_exist(
                old(self).length(),
                all_element_bits(element_values(ms@), old(self).element_len()).len(),
            ) && (match selected_product(
                all_element_bits(element_values(ms@), old(self).element_len()),
                positions_from(
                    old(self).length(),
                    all_element_bits(element_values(ms@), old(self).element_len()).len(),
                ),
                true,
            ) {
                Some(p) => poe_proof(
                    p,
                    old(self).accumulator().root,
                    old(self).accumulator().added(p).root,
                    old(self).accumulator().n,
                ).is_some(),
                None => false,
            })),
            final(self).planned_length() == old(self).planned_length(),
            final(self).element_len() == old(self).element_len(),
    {
        let mut comm: Vec<bool> = Vec::new();
        let ghost vs = element_values(ms@);
        let mut k: usize = 0;
        while k < ms.len()
            invariant
                k <= ms@.len(),
                vs == element_values(ms@),
                comm@ == all_element_bits(vs.take(k as int), self.element_len()),
                *self == *old(self),
            decreases ms@.len() - k,
        {
            proof {
                assert(vs.take(k + 1).drop_last() =~= vs.take(k as int));
                assert(vs.take(k + 1).last() == ms@[k as int]@);
            }
            let c = hash_binary(&ms[k], self.lambda);
            append_bits(&mut comm, &c);
            k += 1;
        }
        assert(vs.take(ms@.len() as int) =~= vs);
        self.vc.commit(comm.as_slice())
    }

    fn open(&self, b: &BigNat, i: usize) -> (r: Option<BatchCommitment>)
        ensures
            match r {
                Some(pi) => (i + 1) * self.element_len() <= usize::MAX && batch_opening(
                    self.accumulator(),
                    element_bits(b@, self.element_len()),
                    positions_from((i * self.element_len()) as nat, self.element_len()),
                ) == Some(pi@),
                None => (i + 1) * self.element_len() > usize::MAX || batch_opening(
                    self.accumulator(),
                    element_bits(b@, self.element_len()),
                    positions_from((i * self.element_len()) as nat, self.element_len()),
                ).is_none(),
            },
    {
        let comm = hash_binary(b, self.lambda);
        let mut is: Vec<usize> = Vec::new();
        assert(positions(is@) =~= Seq::<nat>::empty());
        if !append_positions(&mut is, i, self.lambda) {
            return None;
        }
        assert(positions(is@) =~= positions_from((i * self.lambda) as nat, self.lambda as nat));
        self.vc.batch_open(comm.as_slice(), is.as_slice())
    }

    fn verify(&self, b: &BigNat, i: usize, pi: &BatchCommitment) -> (r: bool)
        ensures
            r == ((i + 1) * self.element_len() <= usize::MAX && batch_opening_accepted(
                self.accumulator(),
                element_bits(b@, self.element_len()),
                positions_from((i * self.element_len()) as nat, self.element_len()),
                pi@,
            )),
    {
        let comm = hash_binary(b, self.lambda);
        let mut is: Vec<usize> = Vec::new();
        assert(positions(is@) =~= Seq::<nat>::empty());
        if !append_positions(&mut is, i, self.lambda) {
            return false;
        }
        assert(positions(is@) =~= positions_from((i * self.lambda) as nat, self.lambda as nat));
        self.vc.batch_verify(comm.as_slice(), is.as_slice(), pi)
    }

    fn batch_open(&self, b: &[BigNat], is: &[usize]) -> (r: Option<BatchCommitment>)
        ensures
            match r {
                Some(pi) => b@.len() == is@.len() && batch_opening(
                    self.accumulator(),
                    all_element_bits(element_values(b@), self.element_len()),
                    all_element_positions(positions(is@), self.element_len()),
                ) == Some(pi@),
                None => true,
            },
            r.is_some() == (b@.len() == is@.len() && (forall|k: int|
                0 <= k < is@.len() ==> (#[trigger] is@[k] + 1) * self.element_len() <= usize::MAX)
                && batch_opening(
                self.accumulator(),
                all_element_bits(element_values(b@), self.element_len()),
                all_element_positions(positions(is@), self.element_len()),
            ).is_some()),
    {
        match self.expand(b, is) {
            Some(e) => self.vc.batch_open(e.0.as_slice(), e.1.as_slice()),
            None => None,
        }
    }

    fn batch_verify(&self, b: &[BigNat], is: &[usize], pi: &BatchCommitment) -> (r: bool)
        ensures
            r == (b@.len() == is@.len() && (forall|k: int|
                0 <= k < is@.len() ==> (#[trigger] is@[k] + 1) * self.element_len() <= usize::MAX)
                && batch_opening_accepted(
                self.accumulator(),
                all_element_bits(element_values(b@), self.element_len()),
                all_element_positions(positions(is@), self.element_len()),
                pi@,
            )),
    {
        match self.expand(b, is) {
            Some(e) => self.vc.batch_verify(e.0.as_slice(), e.1.as_slice(), pi),
            None => false,
        }
    }
}

impl<A: UniversalAccumulator + BatchedAccumulator> DynamicVectorCommitment for VectorCommitment<A> {
    /// The bits of the element are changed one after the other, and only
    /// those that differ need any work. Where one of them cannot be
    /// changed, those before it stay changed.
    fn update(&mut self, b: &BigNat, b_prime: &BigNat, i: usize) -> (r: Option<()>)
        ensures
            final(self).length() == old(self).length(),
            final(self).planned_length() == old(self).planned_length(),
            final(self).element_len() == old(self).element_len(),
            b@ == b_prime@ ==> r.is_some() && final(self).accumulator() == old(self).accumulator(),
            b@ != b_prime@ && (i + 1) * old(self).element_len() > usize::MAX ==> r.is_none()
                && final(self).accumulator() == old(self).accumulator(),
            b@ != b_prime@ && (i + 1) * old(self).element_len() <= usize::MAX ==> (match r {
                Some(_) => updated_bits(
                    old(self).accumulator(),
                    element_bits(b@, old(self).element_len()),
                    element_bits(b_prime@, old(self).element_len()),
                    (i * old(self).element_len()) as nat,
                    old(self).element_len(),
                ) == Some(final(self).accumulator()),
                None => exists|k: nat|
                    k < old(self).element_len() && #[trigger] updated_bits(
                        old(self).accumulator(),
                        element_bits(b@, old(self).element_len()),
                        element_bits(b_prime@, old(self).element_len()),
                        (i * old(self).element_len()) as nat,
                        k,
                    ) == Some(final(self).accumulator()) && updated_bits(
                        old(self).accumulator(),
                        element_bits(b@, old(self).element_len()),
                        element_bits(b_prime@, old(self).element_len()),
                        (i * old(self).element_len()) as nat,
                        k + 1,
                    ).is_none(),
            }),
    {
        if b.equals(b_prime) {
            return Some(());
        }
        let lambda = self.lambda;
        let offset = match element_offset(i, lambda) {
            Some(offset) => offset,
            None => {
                return None;
            },
        };
        let comm = hash_binary(b, lambda);
        let comm_prime = hash_binary(b_prime, lambda);
        let ghost start = old(self).accumulator();
        let mut j: usize = 0;
        while j < lambda
            invariant
                j <= lambda,
                lambda == self.lambda,
                lambda_fits(lambda as nat),
                self.valid(),
                offset == i * lambda,
                offset + lambda <= usize::MAX,
                (i + 1) * lambda <= usize::MAX,
                b@ != b_prime@,
                comm@ == element_bits(b@, lambda as nat),
                comm_prime@ == element_bits(b_prime@, lambda as nat),
                comm@.len() == lambda,
                comm_prime@.len() == lambda,
                self.length() == old(self).length(),
                self.element_len() == old(self).element_len(),
                self.planned_length() == old(self).planned_length(),
                start == old(self).accumulator(),
                updated_bits(start, comm@, comm_prime@, offset as nat, j as nat) == Some(
                    self.accumulator(),
                ),
            decreases lambda - j,
        {
            match self.vc.update(&comm[j], &comm_prime[j], offset + j) {
                Some(_) => {},
                None => {
                    assert(updated_bits(start, comm@, comm_prime@, offset as nat, (j + 1) as nat).is_none());
                    return None;
                },
            }
            j += 1;
        }
        Some(())
    }
}

/// Sets up a vector commitment with randomness from the operating system.
/// A `lambda` that the digest cannot fill is refused before any randomness
/// is asked for; what follows is [`create_vector_commitment_with`].
pub fn create_vector_commitment<A: UniversalAccumulator + BatchedAccumulator, G: PrimeGroup>(
    lambda: usize,
    n: usize,
) -> (r: Result<VectorCommitment<A>, Error>)
    ensures
        !lambda_fits(lambda as nat) ==> r == Err::<VectorCommitment<A>, Error>(Error::InvalidLambda),
        match r {
            Ok(vc) => lambda_fits(lambda as nat) && vc.valid() && vc.accumulator().fresh()
                && vc.accumulator().consistent() && vc.length() == 0 && vc.element_len() == lambda
                && vc.planned_length() == n && G::promises(
                lambda,
                vc.accumulator().n,
                vc.accumulator().g,
            ),
            Err(_) => true,
        },
{
    if lambda == 0 || lambda > DIGEST_BITS {
        return Err(Error::InvalidLambda);
    }
    create_vector_commitment_with::<A, G>(os_rng(), lambda, n)
}

/// Sets up a vector commitment with the generator that the operating
/// system has seeded, where it has. A `lambda` that the digest cannot fill
/// is refused; else a missing generator is reported as missing entropy;
/// else the commitment is set up with the generator.
pub fn create_vector_commitment_with<A: UniversalAccumulator + BatchedAccumulator, G: PrimeGroup>(
    seeded: Option<ChaCha20Rng>,
    lambda: usize,
    n: usize,
) -> (r: Result<VectorCommitment<A>, Error>)
    ensures
        !lambda_fits(lambda as nat) ==> r == Err::<VectorCommitment<A>, Error>(Error::InvalidLambda),
        lambda_fits(lambda as nat) && seeded.is_none() ==> r == Err::<VectorCommitment<A>, Error>(
            Error::NoEntropy,
        ),
        match r {
            Ok(vc) => lambda_fits(lambda as nat) && seeded.is_some() && vc.valid()
                && vc.accumulator().fresh() && vc.accumulator().consistent() && vc.length() == 0
                && vc.element_len() == lambda && vc.planned_length() == n && G::promises(
                lambda,
                vc.accumulator().n,
                vc.accumulator().g,
            ),
            Err(_) => true,
        },
{
    if lambda == 0 || lambda > DIGEST_BITS {
        return Err(Error::InvalidLambda);
    }
    let mut rng = match seeded {
        Some(rng) => rng,
        None => {
            return Err(Error::NoEntropy);
        },
    };
    VectorCommitment::<A>::setup::<G>(&mut rng, lambda, n)
}

/// The bits of a byte string as `bitvec`'s `BitVec<u8, Msb0>` lists them:
/// byte after byte, the most significant bit of each byte first. The crate
/// panics on a slice beyond its capacity; a digest is far below it.
#[verifier::external_body]
fn bits_msb0(bytes: &[u8]) -> (r: Vec<bool>)
    requires
        bytes@.len() <= 64,
    ensures
        r@ == msb_bits(bytes@),
{
    bitvec::vec::BitVec::<u8, bitvec::order::Msb0>::from_slice(bytes).into_iter().collect()
}

/// A ChaCha generator seeded by `rand::SeedableRng::from_rng` from
/// `rand::rngs::OsRng`, the randomness of the operating system; none where
/// the operating system fails to give any.
#[verifier::external_body]
fn os_rng() -> (r: Option<ChaCha20Rng>) {
    <ChaCha20Rng as rand::SeedableRng>::from_rng(rand::rngs::OsRng).ok()
}

} // verus!
