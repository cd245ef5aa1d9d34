//! Non-interactive proofs of exponentiation (NI-PoE) and of knowledge of an
//! exponent (NI-PoKE2), for the relation `u^x == w` modulo `n`.
//!
//! The challenges are hashes of the transcript: the minimal big-endian bytes
//! of the operands, one after the other and without any framing.

use vstd::prelude::*;
use crate::bigint::{trunc_div, trunc_rem, BigInt, Sign};
use crate::bignat::BigNat;
use crate::encoding::{be_bytes, be_value};
use crate::hash::{
    append_bytes,
    blake2b_512,
    digest,
    hash_group,
    hash_prime,
    hash_to_group,
    hash_to_prime,
    lemma_prime_search_finds_prime,
    MAX_HASH_ROUNDS,
    prime_candidate,
};
use crate::math::power::{
    lemma_pow_mod_add_exp,
    lemma_pow_mod_bound,
    lemma_pow_mod_mul_base,
    lemma_pow_mod_mul_exp,
    lemma_signed_pow_of_nat,
    modpow_uint_int,
    pow_mod,
    signed_pow_mod,
};

verus! {

/// The transcript of a proof of exponentiation: `x`, `u` and `w`.
pub open spec fn poe_transcript(x: nat, u: nat, w: nat) -> Seq<u8> {
    be_bytes(x) + be_bytes(u) + be_bytes(w)
}

/// The prime challenge of a proof of exponentiation.
pub open spec fn poe_challenge(x: nat, u: nat, w: nat) -> Option<nat> {
    hash_to_prime(poe_transcript(x, u, w))
}

/// The proof of exponentiation for `u^x == w`: `u^(x / l)` for the
/// challenge `l`. There is none where no challenge is found.
pub open spec fn poe_proof(x: nat, u: nat, w: nat, n: nat) -> Option<nat> {
    match poe_challenge(x, u, w) {
        Some(l) => Some(pow_mod(u, x / l, n)),
        None => None,
    }
}

/// Whether `q` is accepted as a proof of exponentiation for `u^x == w`:
/// with the challenge `l`, whether `q^l * u^(x mod l) == w` modulo `n`.
pub open spec fn poe_accepts(x: nat, u: nat, w: nat, q: nat, n: nat) -> bool {
    match poe_challenge(x, u, w) {
        Some(l) => (pow_mod(q, l, n) * pow_mod(u, x % l, n)) % n == w,
        None => false,
    }
}

/// Proofs of exponentiation are complete: the proof made for a true
/// statement `u^x == w` is accepted.
pub proof fn lemma_poe_complete(x: nat, u: nat, w: nat, n: nat)
    requires
        n != 0,
        w == pow_mod(u, x, n),
        poe_proof(x, u, w, n).is_some(),
    ensures
        poe_accepts(x, u, w, poe_proof(x, u, w, n).unwrap(), n),
{
    let l = poe_challenge(x, u, w).unwrap();
    lemma_prime_search_finds_prime(prime_candidate(poe_transcript(x, u, w)), MAX_HASH_ROUNDS as nat);
    let q = x / l;
    let r = x % l;
    vstd::arithmetic::div_mod::lemma_fundamental_div_mod(x as int, l as int);
    lemma_pow_mod_mul_exp(u, q, l, n);
    lemma_pow_mod_add_exp(u, q * l, r, n);
    assert(q * l + r == x) by (nonlinear_arith)
        requires
            x == l * q + r,
    ;
}

/// The transcript `x`, `u`, `w` as bytes.
fn transcript3(a: &BigNat, b: &BigNat, c: &BigNat) -> (r: Vec<u8>)
    ensures
        r@ == be_bytes(a@) + be_bytes(b@) + be_bytes(c@),
{
    let mut bytes = a.to_bytes_be();
    let second = b.to_bytes_be();
    append_bytes(&mut bytes, second.as_slice());
    let third = c.to_bytes_be();
    append_bytes(&mut bytes, third.as_slice());
    bytes
}

/// Makes the proof of exponentiation for `u^x == w` modulo `n`; see
/// [`poe_proof`]. Where `w` is indeed `u^x`, the proof is one that
/// [`ni_poe_verify`] accepts.
pub fn ni_poe_prove(x: &BigNat, u: &BigNat, w: &BigNat, n: &BigNat) -> (r: Option<BigNat>)
    requires
        n@ != 0,
    ensures
        match r {
            Some(q) => poe_proof(x@, u@, w@, n@) == Some(q@),
            None => poe_proof(x@, u@, w@, n@).is_none(),
        },
        r.is_some() && w@ == pow_mod(u@, x@, n@) ==> poe_accepts(x@, u@, w@, r.unwrap()@, n@),
{
    let to_hash = transcript3(x, u, w);
    match hash_prime(to_hash.as_slice()) {
        Some(l) => {
            let q = x.div_floor(&l);
            proof {
                if w@ == pow_mod(u@, x@, n@) {
                    lemma_poe_complete(x@, u@, w@, n@);
                }
            }
            Some(u.modpow(&q, n))
        },
        None => None,
    }
}

/// Checks the proof of exponentiation `q` for `u^x == w` modulo `n`; see
/// [`poe_accepts`].
pub fn ni_poe_verify(x: &BigNat, u: &BigNat, w: &BigNat, q: &BigNat, n: &BigNat) -> (r: bool)
    requires
        n@ != 0,
    ensures
        r == poe_accepts(x@, u@, w@, q@, n@),
{
    let to_hash = transcript3(x, u, w);
    match hash_prime(to_hash.as_slice()) {
        Some(l) => {
            let r = x.mod_floor(&l);
            let lhs = q.modpow(&l, n).mul(&u.modpow(&r, n)).mod_floor(n);
            lhs.equals(w)
        },
        None => false,
    }
}

/// What goes into a proof of knowledge of an exponent, and into its check:
/// the group element `g` that `u` and `w` hash to, the prime challenge `l`,
/// and the integer challenge `alpha`.
pub struct Poke2Challenges {
    pub g: nat,
    pub l: nat,
    pub alpha: nat,
}

/// The challenges of a proof of knowledge of an exponent for `u`, `w` and
/// the element `z`. There are none where no prime challenge is found.
pub open spec fn poke2_challenges(u: nat, w: nat, z: nat, n: nat) -> Option<Poke2Challenges> {
    let t2 = be_bytes(u) + be_bytes(w);
    let t3 = t2 + be_bytes(z);
    match hash_to_prime(t3) {
        Some(l) => Some(
            Poke2Challenges {
                g: hash_to_group(t2, n),
                l,
                alpha: be_value(blake2b_512(t3 + be_bytes(l))),
            },
        ),
        None => None,
    }
}

/// The base that the proof raises: `u * g^alpha`.
pub open spec fn poke2_base(u: nat, c: Poke2Challenges, n: nat) -> nat {
    u * pow_mod(c.g, c.alpha, n)
}

/// The proof of knowledge of the exponent `x` for `u^x == w`: the triple
/// `(z, q, r)` with `z == g^x`, `q == (u * g^alpha)^(x / l)` and
/// `r == x mod l`, where the division rounds toward zero. There is none
/// where a challenge or an inverse is missing.
pub open spec fn poke2_proof(x: int, u: nat, w: nat, n: nat) -> Option<(nat, nat, int)> {
    match signed_pow_mod(hash_to_group(be_bytes(u) + be_bytes(w), n), x, n) {
        Some(z) => match poke2_challenges(u, w, z, n) {
            Some(c) => match signed_pow_mod(poke2_base(u, c, n), trunc_div(x, c.l as int), n) {
                Some(q) => Some((z, q, trunc_rem(x, c.l as int))),
                None => None,
            },
            None => None,
        },
        None => None,
    }
}

/// Whether the triple `(z, q, r)` is accepted as a proof of knowledge of an
/// exponent for `u` and `w`: whether
/// `q^l * (u * g^alpha)^r == w * z^alpha` modulo `n`.
pub open spec fn poke2_accepts(u: nat, w: nat, z: nat, q: nat, r: int, n: nat) -> bool {
    match poke2_challenges(u, w, z, n) {
        Some(c) => match signed_pow_mod(poke2_base(u, c, n), r, n) {
            Some(p) => (pow_mod(q, c.l, n) * p) % n == (w * pow_mod(z, c.alpha, n)) % n,
            None => false,
        },
        None => false,
    }
}

/// Proofs of knowledge of an exponent are complete for the exponents that
/// are not negative: the proof made for a true statement `u^x == w` is
/// accepted.
pub proof fn lemma_poke2_complete(x: nat, u: nat, w: nat, n: nat)
    requires
        n != 0,
        w == pow_mod(u, x, n),
        poke2_proof(x as int, u, w, n).is_some(),
    ensures
        poke2_accepts(
            u,
            w,
            poke2_proof(x as int, u, w, n).unwrap().0,
            poke2_proof(x as int, u, w, n).unwrap().1,
            poke2_proof(x as int, u, w, n).unwrap().2,
            n,
        ),
{
    let t2 = be_bytes(u) + be_bytes(w);
    let g = hash_to_group(t2, n);
    let z = signed_pow_mod(g, x as int, n).unwrap();
    let c = poke2_challenges(u, w, z, n).unwrap();
    let l = c.l;
    lemma_prime_search_finds_prime(prime_candidate(t2 + be_bytes(z)), MAX_HASH_ROUNDS as nat);
    let big = poke2_base(u, c, n);
    let ga = pow_mod(g, c.alpha, n);
    let q = x / l;
    let r = x % l;
    assert(trunc_div(x as int, l as int) == q);
    assert(trunc_rem(x as int, l as int) == r);
    let qq = signed_pow_mod(big, q as int, n).unwrap();
    let p = signed_pow_mod(big, r as int, n).unwrap();
    vstd::arithmetic::div_mod::lemma_fundamental_div_mod(x as int, l as int);
    assert(q * l + r == x) by (nonlinear_arith)
        requires
            x == l * q + r,
    ;
    // the left side is big^x
    lemma_signed_pow_of_nat(big, q, l, n);
    lemma_signed_pow_of_nat(big, r, 1, n);
    lemma_pow_mod_bound(big, q * l, n);
    vstd::arithmetic::div_mod::lemma_mul_mod_noop_general(
        pow_mod(qq, l, n) as int,
        p as int,
        n as int,
    );
    lemma_pow_mod_add_exp(big, q * l, r, n);
    assert((pow_mod(qq, l, n) * p) % n == pow_mod(big, x, n));
    // big^x == u^x * g^(alpha * x)
    lemma_pow_mod_mul_base(u, ga, x, n);
    lemma_pow_mod_mul_exp(g, c.alpha, x, n);
    // z^alpha == g^(x * alpha)
    lemma_signed_pow_of_nat(g, x, c.alpha, n);
    assert(c.alpha * x == x * c.alpha) by (nonlinear_arith);
    lemma_pow_mod_bound(u, x, n);
    lemma_pow_mod_bound(g, c.alpha * x, n);
    vstd::arithmetic::div_mod::lemma_mul_mod_noop_general(
        w as int,
        pow_mod(z, c.alpha, n) as int,
        n as int,
    );
}

/// The group element that `u` and `w` hash to.
fn poke2_group(u: &BigNat, w: &BigNat, n: &BigNat) -> (r: BigNat)
    requires
        n@ != 0,
    ensures
        r@ == hash_to_group(be_bytes(u@) + be_bytes(w@), n@),
{
    let mut to_hash = u.to_bytes_be();
    let w_bytes = w.to_bytes_be();
    append_bytes(&mut to_hash, w_bytes.as_slice());
    hash_group(to_hash.as_slice(), n)
}

/// The prime challenge and the integer challenge for `u`, `w` and `z`.
fn poke2_primes(u: &BigNat, w: &BigNat, z: &BigNat, n: &BigNat) -> (r: Option<(BigNat, BigNat)>)
    requires
        n@ != 0,
    ensures
        match r {
            Some(c) => poke2_challenges(u@, w@, z@, n@) == Some(
                Poke2Challenges {
                    g: hash_to_group(be_bytes(u@) + be_bytes(w@), n@),
                    l: c.0@,
                    alpha: c.1@,
                },
            ) && c.0@ >= 2,
            None => poke2_challenges(u@, w@, z@, n@).is_none(),
        },
{
    let mut to_hash = transcript3(u, w, z);
    match hash_prime(to_hash.as_slice()) {
        Some(l) => {
            let l_bytes = l.to_bytes_be();
            append_bytes(&mut to_hash, l_bytes.as_slice());
            let d = digest(to_hash.as_slice());
            let alpha = BigNat::from_bytes_be(d.as_slice());
            Some((l, alpha))
        },
        None => None,
    }
}

/// Makes the proof of knowledge of the exponent `x` for `u^x == w` modulo
/// `n`; see [`poke2_proof`]. Where `x` is not negative and `w` is indeed
/// `u^x`, the proof is one that [`ni_poke2_verify`] accepts.
pub fn ni_poke2_prove(x: &BigInt, u: &BigNat, w: &BigNat, n: &BigNat) -> (r: Option<
    (BigNat, BigNat, BigInt),
>)
    requires
        n@ != 0,
    ensures
        match r {
            Some(pi) => poke2_proof(x@, u@, w@, n@) == Some((pi.0@, pi.1@, pi.2@)),
            None => poke2_proof(x@, u@, w@, n@).is_none(),
        },
        r.is_some() && x@ >= 0 && w@ == pow_mod(u@, x@ as nat, n@) ==> poke2_accepts(
            u@,
            w@,
            r.unwrap().0@,
            r.unwrap().1@,
            r.unwrap().2@,
            n@,
        ),
{
    proof {
        if x@ >= 0 && w@ == pow_mod(u@, x@ as nat, n@) && poke2_proof(x@, u@, w@, n@).is_some() {
            lemma_poke2_complete(x@ as nat, u@, w@, n@);
        }
    }
    let g = poke2_group(u, w, n);
    let z = match modpow_uint_int(&g, x, n) {
        Some(z) => z,
        None => {
            return None;
        },
    };
    let (l, alpha) = match poke2_primes(u, w, &z, n) {
        Some(c) => c,
        None => {
            return None;
        },
    };
    let l_signed = BigInt::from_biguint(Sign::Plus, l);
    let (q, r) = x.div_rem(&l_signed);
    let base = u.mul(&g.modpow(&alpha, n));
    match modpow_uint_int(&base, &q, n) {
        Some(q_big) => Some((z, q_big, r)),
        None => None,
    }
}

/// Checks the proof of knowledge of an exponent `pi` for `u` and `w` modulo
/// `n`; see [`poke2_accepts`].
pub fn ni_poke2_verify(u: &BigNat, w: &BigNat, pi: &(BigNat, BigNat, BigInt), n: &BigNat) -> (r:
    bool)
    requires
        n@ != 0,
    ensures
        r == poke2_accepts(u@, w@, pi.0@, pi.1@, pi.2@, n@),
{
    let z = &pi.0;
    let q_big = &pi.1;
    let r = &pi.2;
    let (l, alpha) = match poke2_primes(u, w, z, n) {
        Some(c) => c,
        None => {
            return false;
        },
    };
    let g = poke2_group(u, w, n);
    let base = u.mul(&g.modpow(&alpha, n));
    let p = match modpow_uint_int(&base, r, n) {
        Some(p) => p,
        None => {
            return false;
        },
    };
    let lhs = q_big.modpow(&l, n).mul(&p).mod_floor(n);
    let rhs = w.mul(&z.modpow(&alpha, n)).mod_floor(n);
    lhs.equals(&rhs)
}

} // verus!
