//! Greatest common divisors, Bézout coefficients and modular inverses.

use vstd::prelude::*;
use crate::bigint::{abs, BigInt, Sign};
use crate::bignat::BigNat;

verus! {

/// The greatest common divisor by Euclid's descent; `gcd(a, 0)` is `a`.
pub open spec fn gcd(a: nat, b: nat) -> nat
    decreases b,
{
    if b == 0 {
        a
    } else {
        gcd(b, a % b)
    }
}

/// The Bézout coefficients `(s, t)` of `a` and `b` that Euclid's descent
/// yields: `a * s + b * t == gcd(a, b)`.
pub open spec fn bezout(a: nat, b: nat) -> (int, int)
    decreases b,
{
    if b == 0 {
        (1, 0)
    } else {
        let (s, t) = bezout(b, a % b);
        (t, s - (a / b) * t)
    }
}

/// Whether `d` divides `a`.
pub open spec fn divides(d: nat, a: nat) -> bool {
    exists|k: nat| a == #[trigger] (k * d)
}

/// The greatest common divisor does not depend on the order of its
/// arguments.
pub proof fn lemma_gcd_symmetric(a: nat, b: nat)
    ensures
        gcd(a, b) == gcd(b, a),
{
    let d = gcd(a, b);
    let e = gcd(b, a);
    lemma_gcd_divides(a, b);
    lemma_gcd_divides(b, a);
    lemma_gcd_greatest(b, a, d);
    lemma_gcd_greatest(a, b, e);
    let k = choose|k: nat| e == #[trigger] (k * d);
    let j = choose|j: nat| d == #[trigger] (j * e);
    if d == 0 {
        assert(k * d == 0) by (nonlinear_arith)
            requires
                d == 0,
        ;
    } else {
        assert(d == e) by (nonlinear_arith)
            requires
                e == k * d,
                d == j * e,
                d > 0,
        ;
    }
}

/// Reducing the first argument by the second does not change the greatest
/// common divisor.
pub proof fn lemma_gcd_reduce(a: nat, b: nat)
    requires
        b != 0,
    ensures
        gcd(a % b, b) == gcd(a, b),
{
    vstd::arithmetic::div_mod::lemma_mod_twice(a as int, b as int);
    assert(gcd(a % b, b) == gcd(b, (a % b) % b));
    assert(gcd(a, b) == gcd(b, a % b));
}

/// Bézout's identity for the coefficients of [`bezout`].
pub proof fn lemma_bezout_identity(a: nat, b: nat)
    ensures
        a * bezout(a, b).0 + b * bezout(a, b).1 == gcd(a, b),
    decreases b,
{
    if b != 0 {
        let r = a % b;
        let q = a / b;
        lemma_bezout_identity(b, r);
        let (s, t) = bezout(b, r);
        vstd::arithmetic::div_mod::lemma_fundamental_div_mod(a as int, b as int);
        assert(a * t + b * (s - q * t) == b * s + r * t) by (nonlinear_arith)
            requires
                a == b * q + r,
        ;
    }
}

/// The greatest common divisor divides both arguments.
pub proof fn lemma_gcd_divides(a: nat, b: nat)
    ensures
        divides(gcd(a, b), a),
        divides(gcd(a, b), b),
    decreases b,
{
    let g = gcd(a, b);
    if b == 0 {
        assert(a == 1 * g);
        assert(b == 0 * g);
    } else {
        let r = a % b;
        let q = a / b;
        lemma_gcd_divides(b, r);
        let kb = choose|k: nat| b == #[trigger] (k * g);
        let kr = choose|k: nat| r == #[trigger] (k * g);
        vstd::arithmetic::div_mod::lemma_fundamental_div_mod(a as int, b as int);
        assert(a == (q * kb + kr) * g) by (nonlinear_arith)
            requires
                a == b * q + r,
                b == kb * g,
                r == kr * g,
        ;
    }
}

/// Every common divisor of `a` and `b` divides their greatest common
/// divisor.
pub proof fn lemma_gcd_greatest(a: nat, b: nat, d: nat)
    requires
        divides(d, a),
        divides(d, b),
    ensures
        divides(d, gcd(a, b)),
{
    lemma_bezout_identity(a, b);
    let (s, t) = bezout(a, b);
    let ka = choose|k: nat| a == #[trigger] (k * d);
    let kb = choose|k: nat| b == #[trigger] (k * d);
    let g = gcd(a, b);
    assert(g == (ka * s + kb * t) * d) by (nonlinear_arith)
        requires
            g == a * s + b * t,
            a == ka * d,
            b == kb * d,
    ;
    let k = ka * s + kb * t;
    if d == 0 {
        assert(k * d == 0) by (nonlinear_arith)
            requires
                d == 0,
        ;
        assert(g == 0nat * d);
    } else {
        assert(k >= 0) by (nonlinear_arith)
            requires
                g == k * d,
                g >= 0,
                d > 0,
        ;
        assert(g == (k as nat) * d);
    }
}

/// The greatest common divisor of `a` and `b` with the Bézout coefficients
/// of [`bezout`]: the result `(d, s, t)` has `a * s + b * t == d`.
pub fn extended_gcd(a: &BigNat, b: &BigNat) -> (r: (BigInt, BigInt, BigInt))
    ensures
        r.0@ == gcd(a@, b@),
        (r.1@, r.2@) == bezout(a@, b@),
        a@ * r.1@ + b@ * r.2@ == r.0@,
{
    let mut ca = a.clone();
    let mut cb = b.clone();
    let mut ua = BigInt::one();
    let mut va = BigInt::zero();
    let mut ub = BigInt::zero();
    let mut vb = BigInt::one();
    proof {
        lemma_bezout_identity(a@, b@);
    }
    while !cb.is_zero()
        invariant
            gcd(ca@, cb@) == gcd(a@, b@),
            bezout(a@, b@).0 == bezout(ca@, cb@).0 * ua@ + bezout(ca@, cb@).1 * ub@,
            bezout(a@, b@).1 == bezout(ca@, cb@).0 * va@ + bezout(ca@, cb@).1 * vb@,
            a@ * bezout(a@, b@).0 + b@ * bezout(a@, b@).1 == gcd(a@, b@),
        decreases cb@,
    {
        let (q, m) = ca.div_rem(&cb);
        let q = BigInt::from_biguint(Sign::Plus, q);
        let next_ub = ua.sub(&q.mul(&ub));
        let next_vb = va.sub(&q.mul(&vb));
        proof {
            let (s, t) = bezout(cb@, ca@ % cb@);
            let k = (ca@ / cb@) as int;
            assert(t * ua@ + (s - k * t) * ub@ == s * ub@ + t * (ua@ - k * ub@))
                by (nonlinear_arith);
            assert(t * va@ + (s - k * t) * vb@ == s * vb@ + t * (va@ - k * vb@))
                by (nonlinear_arith);
        }
        ca = cb;
        cb = m;
        ua = ub;
        ub = next_ub;
        va = vb;
        vb = next_vb;
    }
    (BigInt::from_biguint(Sign::Plus, ca), ua, va)
}

/// The inverse of `g` modulo `|n|`, where there is one: the number below
/// `|n|` whose product with `g` leaves the remainder `1 mod |n|`.
pub open spec fn inverse_mod(g: int, n: int) -> Option<nat>
    recommends
        n != 0,
{
    let m = abs(n);
    let r = (g % (m as int)) as nat;
    if gcd(r, m) == 1 {
        Some((bezout(r, m).0 % (m as int)) as nat)
    } else {
        None
    }
}

/// What [`inverse_mod`] yields is an inverse, and lies below the modulus.
pub proof fn lemma_inverse_mod(g: int, n: int)
    requires
        n != 0,
        inverse_mod(g, n).is_some(),
    ensures
        inverse_mod(g, n).unwrap() < abs(n),
        (inverse_mod(g, n).unwrap() * g) % (abs(n) as int) == 1int % (abs(n) as int),
{
    let m = abs(n) as int;
    let r = g % m;
    vstd::arithmetic::div_mod::lemma_mod_bound(g, m);
    let s = bezout(r as nat, m as nat).0;
    let t = bezout(r as nat, m as nat).1;
    let x = s % m;
    vstd::arithmetic::div_mod::lemma_mod_bound(s, m);
    lemma_bezout_identity(r as nat, m as nat);
    // x * g == s * r  (mod m), and s * r == 1 - m * t.
    vstd::arithmetic::div_mod::lemma_mul_mod_noop_general(s, g, m);
    vstd::arithmetic::div_mod::lemma_mul_mod_noop_general(s, r, m);
    assert((x * g) % m == (s * g) % m);
    assert((s * g) % m == (s * r) % m);
    assert(s * r == m * (-t) + 1) by (nonlinear_arith)
        requires
            r * s + m * t == 1,
    ;
    vstd::arithmetic::div_mod::lemma_mod_multiples_vanish(-t, 1, m);
}

/// Modular inverse of `g` modulo `|n|`. A negative `g` is reduced first.
/// There is an inverse exactly when `g` and `n` are coprime.
pub fn mod_inverse(g: &BigInt, n: &BigInt) -> (r: Option<BigInt>)
    requires
        n@ != 0,
    ensures
        r.is_some() == (gcd((g@ % (abs(n@) as int)) as nat, abs(n@)) == 1),
        r.is_some() ==> 0 <= r.unwrap()@ < abs(n@) && (r.unwrap()@ * g@) % (abs(n@) as int) == 1int
            % (abs(n@) as int),
        match r {
            Some(x) => inverse_mod(g@, n@) == Some(x@ as nat),
            None => inverse_mod(g@, n@).is_none(),
        },
{
    let m = n.magnitude();
    let reduced = g.mod_floor(&m);
    proof {
        vstd::arithmetic::div_mod::lemma_mod_bound(g@, m@ as int);
    }
    let (d, x, _) = extended_gcd(&reduced, &m);
    if !d.is_one() {
        return None;
    }
    let inv = x.mod_floor(&m);
    proof {
        vstd::arithmetic::div_mod::lemma_mod_bound(x@, m@ as int);
        lemma_inverse_mod(g@, n@);
    }
    Some(BigInt::from_biguint(Sign::Plus, inv))
}

/// Integers that can be inverted modulo a modulus of type `R`.
pub trait ModInverse<R: Sized>: Sized {
    /// Whether `m` can serve as a modulus: it must not be zero.
    spec fn valid_modulus(m: R) -> bool;

    /// The modular inverse of `self` modulo `m`, where there is one.
    fn mod_inverse(self, m: R) -> (r: Option<Self>)
        requires
            Self::valid_modulus(m),
    ;
}

impl<'a> ModInverse<&'a BigNat> for BigNat {
    open spec fn valid_modulus(m: &'a BigNat) -> bool {
        m@ != 0
    }

    fn mod_inverse(self, m: &'a BigNat) -> (r: Option<BigNat>)
        ensures
            match r {
                Some(x) => inverse_mod(self@ as int, m@ as int) == Some(x@),
                None => inverse_mod(self@ as int, m@ as int).is_none(),
            },
    {
        let g = BigInt::from_biguint(Sign::Plus, self);
        let n = BigInt::from_biguint(Sign::Plus, m.clone());
        match mod_inverse(&g, &n) {
            Some(x) => x.to_biguint(),
            None => None,
        }
    }
}

impl ModInverse<BigNat> for BigNat {
    open spec fn valid_modulus(m: BigNat) -> bool {
        m@ != 0
    }

    fn mod_inverse(self, m: BigNat) -> (r: Option<BigNat>)
        ensures
            match r {
                Some(x) => inverse_mod(self@ as int, m@ as int) == Some(x@),
                None => inverse_mod(self@ as int, m@ as int).is_none(),
            },
    {
        let g = BigInt::from_biguint(Sign::Plus, self);
        let n = BigInt::from_biguint(Sign::Plus, m);
        match mod_inverse(&g, &n) {
            Some(x) => x.to_biguint(),
            None => None,
        }
    }
}

impl<'a> ModInverse<&'a BigInt> for BigInt {
    open spec fn valid_modulus(m: &'a BigInt) -> bool {
        m@ != 0
    }

    fn mod_inverse(self, m: &'a BigInt) -> (r: Option<BigInt>)
        ensures
            match r {
                Some(x) => inverse_mod(self@, m@) == Some(x@ as nat) && x@ >= 0,
                None => inverse_mod(self@, m@).is_none(),
            },
    {
        mod_inverse(&self, m)
    }
}

impl ModInverse<BigInt> for BigInt {
    open spec fn valid_modulus(m: BigInt) -> bool {
        m@ != 0
    }

    fn mod_inverse(self, m: BigInt) -> (r: Option<BigInt>)
        ensures
            match r {
                Some(x) => inverse_mod(self@, m@) == Some(x@ as nat) && x@ >= 0,
                None => inverse_mod(self@, m@).is_none(),
            },
    {
        mod_inverse(&self, &m)
    }
}

} // verus!
