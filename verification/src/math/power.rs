//! Powers modulo a number, with exponents of either sign.

use vstd::prelude::*;
use vstd::arithmetic::power::pow;
use vstd::arithmetic::power::{
    lemma_pow0,
    lemma_pow1,
    lemma_pow_adds,
    lemma_pow_distributes,
    lemma_pow_mod_noop,
    lemma_pow_multiplies,
    lemma1_pow,
};
use vstd::arithmetic::div_mod::{
    lemma_mod_bound,
    lemma_mul_mod_noop,
};
use crate::bigint::{BigInt, Sign};
use crate::bignat::BigNat;
use crate::math::gcd::{inverse_mod, lemma_inverse_mod, mod_inverse};

verus! {

/// `b^e mod n`.
pub open spec fn pow_mod(b: nat, e: nat, n: nat) -> nat
    recommends
        n != 0,
{
    (pow(b as int, e) % (n as int)) as nat
}

/// `a^e mod n` for an exponent of either sign. The power with exponent zero
/// is `1`, whatever the modulus; a negative exponent raises the inverse of
/// `a` modulo `n`, and there is no result where `a` has no inverse.
pub open spec fn signed_pow_mod(a: nat, e: int, n: nat) -> Option<nat>
    recommends
        n != 0,
{
    if e > 0 {
        Some(pow_mod(a, e as nat, n))
    } else if e == 0 {
        Some(1)
    } else {
        match inverse_mod(a as int, n as int) {
            Some(inv) => Some(pow_mod(inv, (-e) as nat, n)),
            None => None,
        }
    }
}

/// A power modulo `n` lies below `n`.
pub proof fn lemma_pow_mod_bound(b: nat, e: nat, n: nat)
    requires
        n != 0,
    ensures
        pow_mod(b, e, n) < n,
        pow_mod(b, e, n) as int == pow(b as int, e) % (n as int),
{
    lemma_mod_bound(pow(b as int, e), n as int);
}

/// Reducing the base first does not change a power modulo `n`.
pub proof fn lemma_pow_mod_reduce_base(b: nat, e: nat, n: nat)
    requires
        n != 0,
    ensures
        pow_mod(b % n, e, n) == pow_mod(b, e, n),
{
    lemma_pow_mod_noop(b as int, e, n as int);
}

/// A power of a power: `(b^e1 mod n)^e2 mod n == b^(e1 * e2) mod n`.
pub proof fn lemma_pow_mod_mul_exp(b: nat, e1: nat, e2: nat, n: nat)
    requires
        n != 0,
    ensures
        pow_mod(pow_mod(b, e1, n), e2, n) == pow_mod(b, e1 * e2, n),
{
    lemma_pow_mod_bound(b, e1, n);
    lemma_pow_mod_noop(pow(b as int, e1), e2, n as int);
    lemma_pow_multiplies(b as int, e1, e2);
}

/// A product of powers of one base:
/// `b^e1 * b^e2 == b^(e1 + e2)` modulo `n`.
pub proof fn lemma_pow_mod_add_exp(b: nat, e1: nat, e2: nat, n: nat)
    requires
        n != 0,
    ensures
        (pow_mod(b, e1, n) * pow_mod(b, e2, n)) % n == pow_mod(b, e1 + e2, n),
{
    lemma_pow_mod_bound(b, e1, n);
    lemma_pow_mod_bound(b, e2, n);
    lemma_pow_mod_bound(b, e1 + e2, n);
    lemma_mul_mod_noop(pow(b as int, e1), pow(b as int, e2), n as int);
    lemma_pow_adds(b as int, e1, e2);
}

/// A product of powers with one exponent:
/// `a^e * b^e == (a * b)^e` modulo `n`.
pub proof fn lemma_pow_mod_mul_base(a: nat, b: nat, e: nat, n: nat)
    requires
        n != 0,
    ensures
        (pow_mod(a, e, n) * pow_mod(b, e, n)) % n == pow_mod(a * b, e, n),
        pow_mod((a * b) % n, e, n) == pow_mod(a * b, e, n),
{
    lemma_pow_mod_bound(a, e, n);
    lemma_pow_mod_bound(b, e, n);
    lemma_pow_mod_bound(a * b, e, n);
    lemma_mul_mod_noop(pow(a as int, e), pow(b as int, e), n as int);
    lemma_pow_distributes(a as int, b as int, e);
    lemma_pow_mod_reduce_base(a * b, e, n);
}

/// Every power of `1 mod n` is `1 mod n`.
pub proof fn lemma_pow_mod_of_one(e: nat, n: nat)
    requires
        n != 0,
    ensures
        pow_mod(1nat % n, e, n) == 1nat % n,
{
    lemma_pow_mod_reduce_base(1, e, n);
    lemma1_pow(e);
}

/// The power with exponent one is the base, reduced.
pub proof fn lemma_pow_mod_one_exp(b: nat, n: nat)
    requires
        n != 0,
    ensures
        pow_mod(b, 1, n) == b % n,
{
    lemma_pow1(b as int);
}

/// The power with exponent zero is `1 mod n`.
pub proof fn lemma_pow_mod_zero_exp(b: nat, n: nat)
    requires
        n != 0,
    ensures
        pow_mod(b, 0, n) == 1nat % n,
{
    lemma_pow0(b as int);
}

/// A power with a negative exponent undoes the power with the opposite
/// exponent: where `a` has an inverse modulo `n`, the product of `a^(-e)`
/// and `a^e` is `1` modulo `n`.
pub proof fn lemma_signed_pow_cancels(a: nat, e: int, n: nat)
    requires
        n != 0,
        inverse_mod(a as int, n as int).is_some(),
    ensures
        signed_pow_mod(a, e, n).is_some(),
        signed_pow_mod(a, -e, n).is_some(),
        (signed_pow_mod(a, -e, n).unwrap() * signed_pow_mod(a, e, n).unwrap()) % n == 1nat % n,
{
    let inv = inverse_mod(a as int, n as int).unwrap();
    lemma_inverse_mod(a as int, n as int);
    if e == 0 {
        assert(1 * 1 == 1) by (nonlinear_arith);
    } else {
        let k: nat = if e > 0 {
            e as nat
        } else {
            (-e) as nat
        };
        // inv^k * a^k == (inv * a)^k == 1 modulo n.
        lemma_pow_mod_mul_base(inv, a, k, n);
        lemma_pow_mod_of_one(k, n);
        assert(pow_mod((inv * a) % n, k, n) == 1nat % n);
        assert((pow_mod(inv, k, n) * pow_mod(a, k, n)) % n == 1nat % n);
        assert(pow_mod(inv, k, n) * pow_mod(a, k, n) == pow_mod(a, k, n) * pow_mod(inv, k, n))
            by (nonlinear_arith);
    }
}

/// A power with an exponent that is not negative, raised to `k`, is the
/// power with the product of the exponents; reduced, it is the plain power.
pub proof fn lemma_signed_pow_of_nat(a: nat, e: nat, k: nat, n: nat)
    requires
        n != 0,
    ensures
        signed_pow_mod(a, e as int, n).is_some(),
        signed_pow_mod(a, e as int, n).unwrap() % n == pow_mod(a, e, n),
        pow_mod(signed_pow_mod(a, e as int, n).unwrap(), k, n) == pow_mod(a, e * k, n),
{
    let s = signed_pow_mod(a, e as int, n).unwrap();
    lemma_pow_mod_bound(a, e, n);
    if e == 0 {
        lemma_pow_mod_zero_exp(a, n);
    } else {
        vstd::arithmetic::div_mod::lemma_small_mod(pow_mod(a, e, n), n);
    }
    lemma_pow_mod_reduce_base(s, k, n);
    lemma_pow_mod_mul_exp(a, e, k, n);
}

/// `a^e mod n` for an exponent of either sign; see [`signed_pow_mod`].
/// There is no result exactly when the exponent is negative and `a` has no
/// inverse modulo `n`.
pub fn modpow_uint_int(a: &BigNat, e: &BigInt, n: &BigNat) -> (r: Option<BigNat>)
    requires
        n@ != 0,
    ensures
        match r {
            Some(v) => signed_pow_mod(a@, e@, n@) == Some(v@),
            None => signed_pow_mod(a@, e@, n@).is_none(),
        },
{
    match e.sign() {
        Sign::Plus => Some(a.modpow(&e.magnitude(), n)),
        Sign::Minus => {
            let a_signed = BigInt::from_biguint(Sign::Plus, a.clone());
            let n_signed = BigInt::from_biguint(Sign::Plus, n.clone());
            match mod_inverse(&a_signed, &n_signed) {
                Some(a_inv) => {
                    let e_abs = e.magnitude();
                    Some(a_inv.magnitude().modpow(&e_abs, n))
                },
                None => None,
            }
        },
        Sign::NoSign => Some(BigNat::one()),
    }
}

/// Replaces `a` by `a^b`, without any modulus.
pub fn pow_assign(a: &mut BigNat, b: &BigNat)
    ensures
        final(a)@ == pow(old(a)@ as int, b@),
    decreases b@,
{
    if b.is_zero() {
        *a = BigNat::one();
        proof {
            lemma_pow0(old(a)@ as int);
        }
    } else if b.is_odd() {
        let a_before = a.clone();
        let b1 = b.sub(&BigNat::one());
        pow_assign(a, &b1);
        *a = a.mul(&a_before);
        proof {
            let x = old(a)@ as int;
            lemma_pow1(x);
            lemma_pow_adds(x, b1@, 1);
        }
    } else {
        let half = b.div_floor(&BigNat::from_u64(2));
        pow_assign(a, &half);
        *a = a.mul(&a.clone());
        proof {
            let x = old(a)@ as int;
            lemma_pow_adds(x, half@, half@);
        }
    }
}

} // verus!
