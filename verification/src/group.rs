//! Groups of unknown order that an accumulator can be set up in.
//!
//! The RSA group is the group of the numbers modulo a product of two secret
//! primes: whoever runs the setup could know the order, so the primes are
//! dropped at once. The class group of an imaginary quadratic order needs no
//! secret: it is given by a negative prime discriminant alone.

use vstd::prelude::*;
use rand_chacha::ChaCha20Rng;
use crate::bigint::{abs, BigInt, Sign};
use crate::bignat::{bit_length, BigNat};
use crate::error::Error;
use crate::encoding::{bytes_rem, wipe};
use crate::hash::PRIME_ROUNDS;
use crate::math::gcd::{extended_gcd, gcd, lemma_gcd_reduce, lemma_gcd_symmetric};
use crate::math::prime::{probable_prime, probably_prime};
use crate::math::prime_rand::{coprime, gen_prime_for_exponent};

verus! {

/// A way to set up a group of unknown order: it yields the modulus and the
/// generator of the group.
pub trait PrimeGroup {
    /// What this setup promises of the modulus and the generator that it
    /// returns for `bit_size` bits. A setup that does not say promises
    /// nothing: an accumulator checks what it is given.
    open spec fn promises(bit_size: usize, modulus: nat, generator: nat) -> bool {
        true
    }

    /// Draws the parameters of a group whose modulus has `bit_size` bits:
    /// the modulus and the generator.
    fn generate_primes(rng: &mut ChaCha20Rng, bit_size: usize) -> (r: Result<
        (BigNat, BigNat),
        Error,
    >)
        ensures
            match r {
                Ok(group) => Self::promises(bit_size, group.0@, group.1@),
                Err(_) => true,
            },
    ;
}

/// The public exponent of the RSA group; it serves as the generator.
pub const RSA_EXPONENT: u64 = 65547;

/// The shortest modulus that RSA setup accepts, in bits.
pub const MIN_MODULUS_BITS: usize = 64;

/// How many pairs of primes RSA setup draws before it gives up.
pub const MAX_SETUP_ATTEMPTS: u32 = 0x1_0000;

/// The RSA group: the numbers modulo `n = p * q` for two secret primes.
pub struct RSAGroup;

/// Whether the primes `p` and `q` make an RSA modulus of `bit_size` bits:
/// they differ, their product has that many bits, and the public exponent
/// is coprime to the totient `(p - 1) * (q - 1)` and to the product, so
/// that it can serve as a generator.
pub open spec fn rsa_primes_fit(p: nat, q: nat, bit_size: nat) -> bool {
    p >= 2 && q >= 2 && p != q && bit_length(p * q) == bit_size && gcd(
        RSA_EXPONENT as nat,
        ((p - 1) * (q - 1)) as nat,
    ) == 1 && gcd(RSA_EXPONENT as nat, p * q) == 1
}

/// The RSA modulus of two primes, where they fit; see [`rsa_primes_fit`].
/// The totient, the two numbers it is the product of, and the bytes that
/// it is read from are wiped before they are dropped.
pub fn rsa_modulus(p: &BigNat, q: &BigNat, bit_size: usize) -> (r: Option<BigNat>)
    ensures
        match r {
            Some(n) => rsa_primes_fit(p@, q@, bit_size as nat) && n@ == p@ * q@,
            None => !rsa_primes_fit(p@, q@, bit_size as nat),
        },
{
    let one = BigNat::one();
    if p.le(&one) || q.le(&one) || p.equals(q) {
        return None;
    }
    let n = p.mul(q);
    if n.bits() != bit_size {
        return None;
    }
    let exponent = BigNat::from_u64(RSA_EXPONENT);
    let (shared, _, _) = extended_gcd(&exponent, &n);
    if !shared.is_one() {
        return None;
    }
    // the remainder of the totient by the exponent decides whether the two
    // are coprime
    let mut p_less = p.sub(&one);
    let mut q_less = q.sub(&one);
    let mut totient = p_less.mul(&q_less);
    p_less.scrub();
    q_less.scrub();
    let mut totient_bytes = totient.to_bytes_be();
    proof {
        crate::encoding::lemma_be_bytes_value(totient@);
    }
    let rest = bytes_rem(totient_bytes.as_slice(), RSA_EXPONENT as u32);
    proof {
        lemma_gcd_reduce(totient@, RSA_EXPONENT as nat);
        lemma_gcd_symmetric(totient@, RSA_EXPONENT as nat);
    }
    wipe(&mut totient_bytes);
    totient.scrub();
    if coprime(rest, RSA_EXPONENT as u32) {
        Some(n)
    } else {
        None
    }
}

/// What RSA setup promises of the modulus and the generator that it
/// returns for `bit_size` bits. The generator is the public exponent and
/// is coprime to the modulus. The modulus is odd, has `bit_size` bits, and
/// is the product of two odd probable primes that fit, the first of half
/// the bits and the second of the bits that are left.
pub open spec fn rsa_group_fits(bit_size: nat, modulus: nat, generator: nat) -> bool {
    generator == RSA_EXPONENT && bit_length(modulus) == bit_size && modulus % 2 == 1 && gcd(
        generator,
        modulus,
    ) == 1 && exists|p: nat, q: nat|
        #[trigger] rsa_primes_fit(p, q, bit_size) && modulus == p * q && probable_prime(
            p,
            PRIME_ROUNDS as nat,
        ) && probable_prime(q, PRIME_ROUNDS as nat) && p % 2 == 1 && q % 2 == 1 && bit_length(p)
            == bit_size / 2 && bit_length(q) == bit_size - bit_size / 2
}

impl PrimeGroup for RSAGroup {
    /// The modulus has `bit_size` bits, 64 at least, and with the public
    /// exponent as generator meets [`rsa_group_fits`].
    open spec fn promises(bit_size: usize, modulus: nat, generator: nat) -> bool {
        bit_size >= MIN_MODULUS_BITS && rsa_group_fits(bit_size as nat, modulus, generator)
    }

    /// Draws an RSA modulus of `bit_size` bits, 64 at least: two random
    /// primes whose lengths add up to `bit_size` are drawn until they fit;
    /// see [`rsa_primes_fit`]. Only primes `p` with `p - 1` coprime to the
    /// public exponent are drawn, as no other can fit. The two primes, and
    /// the bytes that they were shaped from, are wiped before they are
    /// dropped; what the primality test and the big integer arithmetic copy
    /// for their own work is beyond this function's reach. The result is
    /// the modulus with the public exponent as generator.
    fn generate_primes(rng: &mut ChaCha20Rng, bit_size: usize) -> (r: Result<
        (BigNat, BigNat),
        Error,
    >)
        ensures
            bit_size < MIN_MODULUS_BITS ==> r == Err::<(BigNat, BigNat), Error>(Error::TooFewBits),
            match r {
                Ok(group) => bit_size >= MIN_MODULUS_BITS && rsa_group_fits(
                    bit_size as nat,
                    group.0@,
                    group.1@,
                ),
                Err(e) => if bit_size < MIN_MODULUS_BITS {
                    e == Error::TooFewBits
                } else {
                    e == Error::PrimeNotFound
                },
            },
    {
        if bit_size < MIN_MODULUS_BITS {
            return Err(Error::TooFewBits);
        }
        let mut attempts: u32 = 0;
        while attempts < MAX_SETUP_ATTEMPTS
            invariant
                bit_size >= MIN_MODULUS_BITS,
            decreases MAX_SETUP_ATTEMPTS - attempts,
        {
            attempts = attempts + 1;
            let first_bits = bit_size / 2;
            let mut p = match gen_prime_for_exponent(rng, first_bits, RSA_EXPONENT as u32) {
                Ok(p) => p,
                Err(e) => {
                    return Err(e);
                },
            };
            let second_bits = bit_size - first_bits;
            let mut q = match gen_prime_for_exponent(rng, second_bits, RSA_EXPONENT as u32) {
                Ok(q) => q,
                Err(e) => {
                    p.scrub();
                    return Err(e);
                },
            };
            let modulus = rsa_modulus(&p, &q, bit_size);
            let ghost pv = p@;
            let ghost qv = q@;
            // This is a trusted setup: the primes are known here, and are
            // not kept.
            p.scrub();
            q.scrub();
            match modulus {
                Some(n) => {
                    proof {
                        assert(rsa_primes_fit(pv, qv, bit_size as nat) && n@ == pv * qv);
                        vstd::arithmetic::div_mod::lemma_mul_mod_noop(pv as int, qv as int, 2);
                        assert((pv * qv) % 2 == 1);
                    }
                    return Ok((n, BigNat::from_u64(RSA_EXPONENT)));
                },
                None => {},
            }
        }
        Err(Error::PrimeNotFound)
    }
}

/// The class group of the imaginary quadratic order with a given negative
/// discriminant. Its elements are binary quadratic forms `(a, b, c)` with
/// `b^2 - 4ac` equal to the discriminant.
pub struct ClassGroup;

impl ClassGroup {
    /// The generator of the class group with the discriminant `d`: the form
    /// `(2, 1, c)`. There is such a form exactly when `d` is negative and
    /// leaves the remainder one modulo eight; it is reduced when `c` is two
    /// at least.
    pub fn generator(d: &BigInt) -> (r: Option<(BigInt, BigInt, BigInt)>)
        ensures
            r.is_some() == (d@ < 0 && d@ % 8 == 1),
            match r {
                Some(form) => form.0@ == 2 && form.1@ == 1 && form.1@ * form.1@ - 4 * form.0@
                    * form.2@ == d@,
                None => true,
            },
    {
        if !d.is_negative() {
            return None;
        }
        let eight = BigNat::from_u64(8);
        let low = d.mod_floor(&eight);
        if !low.is_one() {
            return None;
        }
        // c == (1 - d) / 8
        let numerator = BigInt::one().sub(d);
        let (c, rest) = numerator.div_rem(&BigInt::from_biguint(Sign::Plus, eight));
        proof {
            crate::bigint::lemma_trunc_div_rem(1 - d@, 8);
            assert((1 - d@) % 8 == 0);
            assert(abs(1 - d@) == 1 - d@);
            assert(rest@ == 0);
            assert(1int * 1int == 1) by (nonlinear_arith);
            assert(4 * 2 * c@ == c@ * 8) by (nonlinear_arith);
        }
        Some((BigInt::from_i64(2), BigInt::one(), c))
    }
}

/// The check of a discriminant that was derived from a seed.
pub struct ClassyGroup;

impl ClassyGroup {
    /// Whether `d` can serve as the discriminant of a class group of
    /// `int_size_bits` bits: a negative number whose absolute value is a
    /// probable prime that fits in that many bits and leaves the remainder
    /// three modulo four.
    pub fn accepts_discriminant(d: &BigInt, int_size_bits: usize) -> (r: bool)
        ensures
            r == (d@ < 0 && abs(d@) % 4 == 3 && bit_length(abs(d@)) <= int_size_bits
                && probable_prime(abs(d@), PRIME_ROUNDS as nat)),
    {
        if !d.is_negative() {
            return false;
        }
        let m = d.magnitude();
        m.rem_u32(4) == 3 && m.bits() <= int_size_bits && probably_prime(&m, PRIME_ROUNDS)
    }
}

} // verus!
