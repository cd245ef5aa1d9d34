//! Hashing to primes and into a group.
//!
//! When a proof is made non-interactive the challenge is the hash of the
//! transcript so far. The digest is BLAKE2b with 512 bits of output.

use vstd::prelude::*;
use vstd::arithmetic::power::pow;
use crate::bignat::BigNat;
use crate::encoding::{be16, be_bytes, be_fixed, be_value, lemma_be_value_bound};
use crate::math::prime::{probable_prime, probably_prime};

verus! {

/// The number of Miller and Rabin's rounds to random bases in every
/// primality test of this module.
pub const PRIME_ROUNDS: usize = 20;

/// How many times hashing to a prime hashes again before it gives up.
pub const MAX_HASH_ROUNDS: u32 = 0x10_0000;

/// The BLAKE2b-512 digest of a byte string.
pub uninterp spec fn blake2b_512(data: Seq<u8>) -> Seq<u8>;

/// The number that the first 128 bits of the digest of `data` stand for.
pub open spec fn prime_candidate(data: Seq<u8>) -> nat {
    be_value(blake2b_512(data).take(16))
}

/// The first probable prime on the chain that starts at `y` and goes on
/// from each number to the candidate of its minimal big-endian bytes, as
/// far as `fuel` further steps reach.
pub open spec fn prime_search(y: nat, fuel: nat) -> Option<nat>
    decreases fuel,
{
    if probable_prime(y, PRIME_ROUNDS as nat) {
        Some(y)
    } else if fuel == 0 {
        None
    } else {
        prime_search(prime_candidate(be_bytes(y)), (fuel - 1) as nat)
    }
}

/// The prime that `input` hashes to: the first probable prime on the chain
/// that starts at the candidate of `input`. There is none where the chain
/// yields no probable prime within the rounds allowed.
pub open spec fn hash_to_prime(input: Seq<u8>) -> Option<nat> {
    prime_search(prime_candidate(input), MAX_HASH_ROUNDS as nat)
}

/// The element of the group modulo `n` that `input` hashes to: the digest
/// as a number, reduced.
pub open spec fn hash_to_group(input: Seq<u8>, n: nat) -> nat
    recommends
        n != 0,
{
    be_value(blake2b_512(input)) % n
}

/// The bytes that a nonce hash digests: the two big-endian bytes of the
/// nonce, the input, and the minimal big-endian bytes of the root where
/// there is one.
pub open spec fn nonce_preimage(nonce: u16, input: Seq<u8>, root: Option<nat>) -> Seq<u8> {
    be_fixed(nonce as nat, 2) + input + match root {
        Some(a) => be_bytes(a),
        None => Seq::<u8>::empty(),
    }
}

/// The prime that a nonce hashes the input to: the digest as a number,
/// where that number is a probable prime.
pub open spec fn nonce_hash_to_prime(nonce: u16, input: Seq<u8>, root: Option<nat>) -> Option<nat> {
    let p = be_value(blake2b_512(nonce_preimage(nonce, input, root)));
    if probable_prime(p, PRIME_ROUNDS as nat) {
        Some(p)
    } else {
        None
    }
}

/// Whether `p` passes the check that goes with a nonce hash: whether it is
/// a probable prime.
pub open spec fn nonce_hash_accepted(p: nat) -> bool {
    probable_prime(p, PRIME_ROUNDS as nat)
}

/// What a prime search finds is a probable prime.
pub proof fn lemma_prime_search_finds_prime(y: nat, fuel: nat)
    requires
        prime_search(y, fuel).is_some(),
    ensures
        probable_prime(prime_search(y, fuel).unwrap(), PRIME_ROUNDS as nat),
        prime_search(y, fuel).unwrap() >= 2,
    decreases fuel,
{
    if !probable_prime(y, PRIME_ROUNDS as nat) {
        lemma_prime_search_finds_prime(prime_candidate(be_bytes(y)), (fuel - 1) as nat);
    }
}

/// A prime that a nonce hash yields passes the check of
/// [`verify_nonce_hash`].
pub proof fn lemma_nonce_hash_verifies(nonce: u16, input: Seq<u8>, root: Option<nat>)
    requires
        nonce_hash_to_prime(nonce, input, root).is_some(),
    ensures
        nonce_hash_accepted(nonce_hash_to_prime(nonce, input, root).unwrap()),
{
}

/// Appends the bytes of `src` to `dst`.
pub fn append_bytes(dst: &mut Vec<u8>, src: &[u8])
    ensures
        final(dst)@ == old(dst)@ + src@,
{
    let mut i: usize = 0;
    while i < src.len()
        invariant
            i <= src@.len(),
            dst@ == old(dst)@ + src@.take(i as int),
        decreases src@.len() - i,
    {
        dst.push(src[i]);
        i += 1;
        assert(dst@ =~= old(dst)@ + src@.take(i as int));
    }
    assert(src@.take(src@.len() as int) =~= src@);
}

/// The first `len` bytes of `src`, as a number.
fn leading_number(src: &[u8], len: usize) -> (r: BigNat)
    requires
        len <= src@.len(),
    ensures
        r@ == be_value(src@.take(len as int)),
        r@ < pow(256, len as nat),
{
    let head = vstd::slice::slice_subrange(src, 0, len);
    proof {
        lemma_be_value_bound(head@);
    }
    BigNat::from_bytes_be(head)
}

/// Hashes the input to a prime number of 128 bits at most: the first 128
/// bits of its digest are taken as a number, and while that number is not a
/// probable prime, the same is done with its own bytes. See
/// [`hash_to_prime`].
pub fn hash_prime(input: &[u8]) -> (r: Option<BigNat>)
    ensures
        match r {
            Some(p) => hash_to_prime(input@) == Some(p@),
            None => hash_to_prime(input@).is_none(),
        },
        r.is_some() ==> probable_prime(r.unwrap()@, PRIME_ROUNDS as nat) && 2 <= r.unwrap()@ < pow(
            256,
            16,
        ),
{
    let first = digest(input);
    let mut y = leading_number(first.as_slice(), 16);
    let mut fuel: u32 = MAX_HASH_ROUNDS;
    loop
        invariant
            hash_to_prime(input@) == prime_search(y@, fuel as nat),
            y@ < pow(256, 16),
        decreases fuel,
    {
        if probably_prime(&y, PRIME_ROUNDS) {
            proof {
                lemma_prime_search_finds_prime(y@, fuel as nat);
            }
            return Some(y);
        }
        if fuel == 0 {
            return None;
        }
        let bytes = y.to_bytes_be();
        let next = digest(bytes.as_slice());
        y = leading_number(next.as_slice(), 16);
        fuel = fuel - 1;
    }
}

/// Hashes the input into the group of the numbers modulo `n`. The digest
/// should be as long as `n` at least.
pub fn hash_group(input: &[u8], n: &BigNat) -> (r: BigNat)
    requires
        n@ != 0,
    ensures
        r@ == hash_to_group(input@, n@),
        r@ < n@,
{
    let d = digest(input);
    let y = BigNat::from_bytes_be(d.as_slice());
    proof {
        vstd::arithmetic::div_mod::lemma_mod_bound(y@ as int, n@ as int);
    }
    y.mod_floor(n)
}

/// Hashes a nonce and the input, and the root where one is given, to a
/// prime: the digest of their concatenation, as a number, where that number
/// is a probable prime. The caller tries one nonce after the other until a
/// prime comes out. See [`nonce_hash_to_prime`].
pub fn nonce_hash(nonce: u16, input: &[u8], root: Option<&BigNat>) -> (r: Option<BigNat>)
    ensures
        match r {
            Some(p) => nonce_hash_to_prime(
                nonce,
                input@,
                match root {
                    Some(a) => Some(a@),
                    None => None,
                },
            ) == Some(p@),
            None => nonce_hash_to_prime(
                nonce,
                input@,
                match root {
                    Some(a) => Some(a@),
                    None => None,
                },
            ).is_none(),
        },
        r.is_some() ==> nonce_hash_accepted(r.unwrap()@),
{
    let mut bytes = be16(nonce);
    append_bytes(&mut bytes, input);
    match root {
        Some(a) => {
            let root_bytes = a.to_bytes_be();
            append_bytes(&mut bytes, root_bytes.as_slice());
        },
        None => {
            assert(bytes@ + Seq::<u8>::empty() =~= bytes@);
        },
    }
    let d = digest(bytes.as_slice());
    let p = BigNat::from_bytes_be(d.as_slice());
    if probably_prime(&p, PRIME_ROUNDS) {
        Some(p)
    } else {
        None
    }
}

/// Whether `p` is a probable prime: the check that goes with
/// [`nonce_hash`].
pub fn verify_nonce_hash(p: &BigNat) -> (r: bool)
    ensures
        r == nonce_hash_accepted(p@),
{
    probably_prime(p, PRIME_ROUNDS)
}

/// The BLAKE2b-512 digest of `data`, as `blake2::Blake2b512` computes it
/// through `Digest::digest`: 64 bytes.
#[verifier::external_body]
pub(crate) fn digest(data: &[u8]) -> (r: Vec<u8>)
    ensures
        r@ == blake2b_512(data@),
        r@.len() == 64,
{
    <blake2::Blake2b512 as blake2::Digest>::digest(data).to_vec()
}

} // verus!
