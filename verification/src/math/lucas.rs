//! Lucas sequences and the strong Lucas probable prime test.

use vstd::prelude::*;
use vstd::arithmetic::power::pow;
use vstd::arithmetic::power2::pow2;
use crate::bigint::{abs, BigInt};
use crate::bignat::BigNat;
use crate::math::jacobi::{jacobi, jacobi_symbol};
use crate::math::prime::{lemma_odd_part_twos, odd_part, twos};

verus! {

/// The Lucas sequence `U_k(1, q)`: `U_0 = 0`, `U_1 = 1` and
/// `U_k = U_(k-1) - q * U_(k-2)`.
pub open spec fn lucas_u(q: int, k: nat) -> int
    decreases k,
{
    if k == 0 {
        0
    } else if k == 1 {
        1
    } else {
        lucas_u(q, (k - 1) as nat) - q * lucas_u(q, (k - 2) as nat)
    }
}

/// The Lucas sequence `V_k(1, q)`: `V_0 = 2`, `V_1 = 1` and
/// `V_k = V_(k-1) - q * V_(k-2)`.
pub open spec fn lucas_v(q: int, k: nat) -> int
    decreases k,
{
    if k == 0 {
        2
    } else if k == 1 {
        1
    } else {
        lucas_v(q, (k - 1) as nat) - q * lucas_v(q, (k - 2) as nat)
    }
}

/// `V_k = 2 * U_(k+1) - U_k`.
pub proof fn lemma_lucas_v_from_u(q: int, k: nat)
    ensures
        lucas_v(q, k) == 2 * lucas_u(q, k + 1) - lucas_u(q, k),
    decreases k,
{
    if k == 0 {
    } else if k == 1 {
        assert(lucas_u(q, 2) == lucas_u(q, 1) - q * lucas_u(q, 0));
        assert(q * 0 == 0);
    } else {
        lemma_lucas_v_from_u(q, (k - 1) as nat);
        lemma_lucas_v_from_u(q, (k - 2) as nat);
        let a = lucas_u(q, k);
        let b = lucas_u(q, (k - 1) as nat);
        let c = lucas_u(q, (k - 2) as nat);
        assert(lucas_u(q, k + 1) == a - q * b);
        assert(a == b - q * c);
        assert(lucas_v(q, k) == (2 * a - b) - q * (2 * b - c));
        assert((2 * a - b) - q * (2 * b - c) == 2 * (a - q * b) - (b - q * c))
            by (nonlinear_arith);
    }
}

/// One step up: `2 * U_(k+1) = U_k + V_k` and
/// `2 * V_(k+1) = d * U_k + V_k` for `d = 1 - 4q`.
pub proof fn lemma_lucas_step(q: int, k: nat)
    ensures
        2 * lucas_u(q, k + 1) == lucas_u(q, k) + lucas_v(q, k),
        2 * lucas_v(q, k + 1) == (1 - 4 * q) * lucas_u(q, k) + lucas_v(q, k),
{
    lemma_lucas_v_from_u(q, k);
    lemma_lucas_v_from_u(q, k + 1);
    let u0 = lucas_u(q, k);
    let u1 = lucas_u(q, k + 1);
    let u2 = lucas_u(q, k + 2);
    assert(u2 == u1 - q * u0);
    assert(2 * (2 * (u1 - q * u0) - u1) == (1 - 4 * q) * u0 + (2 * u1 - u0)) by (nonlinear_arith);
}

/// `V_k^2 - d * U_k^2 = 4 * q^k` for `d = 1 - 4q`.
pub proof fn lemma_lucas_norm(q: int, k: nat)
    ensures
        lucas_v(q, k) * lucas_v(q, k) - (1 - 4 * q) * (lucas_u(q, k) * lucas_u(q, k)) == 4 * pow(
            q,
            k,
        ),
    decreases k,
{
    reveal(pow);
    if k == 0 {
        assert(lucas_v(q, 0) * lucas_v(q, 0) == 4);
        assert(lucas_u(q, 0) * lucas_u(q, 0) == 0);
        assert((1 - 4 * q) * 0 == 0);
    } else {
        let j = (k - 1) as nat;
        lemma_lucas_norm(q, j);
        lemma_lucas_step(q, j);
        let d = 1 - 4 * q;
        let u = lucas_u(q, j);
        let v = lucas_v(q, j);
        let u1 = lucas_u(q, k);
        let v1 = lucas_v(q, k);
        let p = pow(q, j);
        assert(pow(q, k) == q * p);
        let xx = u * u;
        let xy = u * v;
        let yy = v * v;
        let s = d * u + v;
        let t = u + v;
        assert(s * s == d * d * xx + 2 * (d * xy) + yy) by (nonlinear_arith)
            requires
                s == d * u + v,
                xx == u * u,
                xy == u * v,
                yy == v * v,
        ;
        assert(t * t == xx + 2 * xy + yy) by (nonlinear_arith)
            requires
                t == u + v,
                xx == u * u,
                xy == u * v,
                yy == v * v,
        ;
        assert(d * (xx + 2 * xy + yy) == d * xx + 2 * (d * xy) + d * yy) by (nonlinear_arith);
        assert((1 - d) * (yy - d * xx) == yy - d * xx - d * yy + d * d * xx) by (nonlinear_arith);
        assert(s * s - d * (t * t) == (1 - d) * (yy - d * xx));
        assert((4 * q) * (4 * p) == 16 * (q * p)) by (nonlinear_arith);
        assert(s * s == 4 * (v1 * v1)) by (nonlinear_arith)
            requires
                s == 2 * v1,
        ;
        assert(t * t == 4 * (u1 * u1)) by (nonlinear_arith)
            requires
                t == 2 * u1,
        ;
        assert(d * (4 * (u1 * u1)) == 4 * (d * (u1 * u1))) by (nonlinear_arith);
    }
}

/// Doubling the index of `U`: `U_(2k) = U_k * V_k` and
/// `U_(2k+1) = U_(k+1)^2 - q * U_k^2`.
pub proof fn lemma_lucas_u_double(q: int, k: nat)
    ensures
        lucas_u(q, 2 * k) == lucas_u(q, k) * lucas_v(q, k),
        lucas_u(q, 2 * k + 1) == lucas_u(q, k + 1) * lucas_u(q, k + 1) - q * (lucas_u(q, k)
            * lucas_u(q, k)),
    decreases k,
{
    if k == 0 {
        assert(lucas_u(q, 0) * lucas_v(q, 0) == 0) by (nonlinear_arith)
            requires
                lucas_u(q, 0) == 0,
        ;
        assert(lucas_u(q, 1) * lucas_u(q, 1) - q * (lucas_u(q, 0) * lucas_u(q, 0)) == 1)
            by (nonlinear_arith)
            requires
                lucas_u(q, 0) == 0,
                lucas_u(q, 1) == 1,
        ;
    } else {
        let j = (k - 1) as nat;
        lemma_lucas_u_double(q, j);
        lemma_lucas_v_from_u(q, j);
        lemma_lucas_v_from_u(q, k);
        let b = lucas_u(q, j);
        let a = lucas_u(q, k);
        let c = lucas_u(q, k + 1);
        let vj = lucas_v(q, j);
        let vk = lucas_v(q, k);
        assert(c == a - q * b);
        // U_(2k) = U_(2j+2) = U_(2j+1) - q * U_(2j)
        let e0 = lucas_u(q, 2 * j);
        let e1 = lucas_u(q, 2 * j + 1);
        let e2 = lucas_u(q, 2 * k);
        let e3 = lucas_u(q, 2 * k + 1);
        assert(e2 == e1 - q * e0);
        assert(e3 == e2 - q * e1);
        assert(e2 == a * vk) by (nonlinear_arith)
            requires
                e2 == e1 - q * e0,
                e0 == b * vj,
                e1 == a * a - q * (b * b),
                vj == 2 * a - b,
                vk == 2 * c - a,
                c == a - q * b,
        ;
        assert(e3 == c * c - q * (a * a)) by (nonlinear_arith)
            requires
                e3 == e2 - q * e1,
                e2 == a * vk,
                e1 == a * a - q * (b * b),
                vk == 2 * c - a,
                c == a - q * b,
        ;
    }
}

/// Doubling the index of `V`: `V_(2k) = V_k^2 - 2 * q^k`.
pub proof fn lemma_lucas_v_double(q: int, k: nat)
    ensures
        lucas_v(q, 2 * k) == lucas_v(q, k) * lucas_v(q, k) - 2 * pow(q, k),
{
    lemma_lucas_u_double(q, k);
    lemma_lucas_v_from_u(q, 2 * k);
    lemma_lucas_step(q, k);
    lemma_lucas_norm(q, k);
    let u = lucas_u(q, k);
    let v = lucas_v(q, k);
    let u1 = lucas_u(q, k + 1);
    let p = pow(q, k);
    let w = lucas_v(q, 2 * k);
    let d = 1 - 4 * q;
    assert(4 * w == 4 * (v * v - 2 * p)) by (nonlinear_arith)
        requires
            w == 2 * (u1 * u1 - q * (u * u)) - u * v,
            2 * u1 == u + v,
            v * v - d * (u * u) == 4 * p,
            d == 1 - 4 * q,
    ;
}

/// Selfridge's candidates for the discriminant: 5, -7, 9, -11, ...
pub open spec fn selfridge_candidate(k: nat) -> int {
    if k % 2 == 0 {
        (5 + 2 * k) as int
    } else {
        -((5 + 2 * k) as int)
    }
}

/// The candidates for the discriminant stay below this bound.
pub const MAX_SELFRIDGE: u32 = 10_000;

/// The first of Selfridge's candidates from the `k`-th on whose Jacobi
/// symbol over `x` is `-1`. There is none where a candidate below `x`
/// shares a factor with `x`, which shows `x` to be composite, or where the
/// candidates run out.
pub open spec fn selfridge_search(x: nat, k: nat) -> Option<int>
    decreases MAX_SELFRIDGE - k,
{
    if 5 + 2 * k >= MAX_SELFRIDGE {
        None
    } else {
        let d = selfridge_candidate(k);
        let j = jacobi_symbol(d, x as int);
        if j == -1 {
            Some(d)
        } else if j == 0 && abs(d) < x {
            None
        } else {
            selfridge_search(x, k + 1)
        }
    }
}

/// Whether the odd number `x` is a strong Lucas probable prime for the
/// discriminant `d`, with the parameters `p = 1` and `q = (1 - d) / 4`:
/// with `x + 1 == e * 2^s` and `e` odd, either `U_e == 0` or
/// `V_(e * 2^r) == 0` modulo `x` for some `r < s`.
pub open spec fn strong_lucas_probable_prime(x: nat, d: int) -> bool {
    let q = (1 - d) / 4;
    let e = odd_part(x + 1);
    let s = twos(x + 1);
    lucas_u(q, e) % (x as int) == 0 || exists|r: nat|
        r < s && #[trigger] lucas_v(q, e * pow2(r)) % (x as int) == 0
}

/// What the strong Lucas test with Selfridge's parameters says of `x`: two
/// passes, any other even number and the numbers below two fail, and an
/// odd number passes when a discriminant is found and `x` is a strong
/// Lucas probable prime for it.
pub open spec fn lucas_test(x: nat) -> bool {
    if x < 2 {
        false
    } else if x == 2 {
        true
    } else if x % 2 == 0 {
        false
    } else {
        match selfridge_search(x, 0) {
            Some(d) => strong_lucas_probable_prime(x, d),
            None => false,
        }
    }
}

/// Two can be cancelled modulo an odd number.
proof fn lemma_cancel_two(a: int, b: int, x: int)
    requires
        x > 0,
        x % 2 == 1,
        (2 * a) % x == (2 * b) % x,
    ensures
        a % x == b % x,
{
    let c = (x + 1) / 2;
    assert(2 * c == x + 1);
    assert(c * (2 * a) == x * a + a) by (nonlinear_arith)
        requires
            2 * c == x + 1,
    ;
    assert(c * (2 * b) == x * b + b) by (nonlinear_arith)
        requires
            2 * c == x + 1,
    ;
    vstd::arithmetic::div_mod::lemma_mod_multiples_vanish(a, a, x);
    vstd::arithmetic::div_mod::lemma_mod_multiples_vanish(b, b, x);
    vstd::arithmetic::div_mod::lemma_mul_mod_noop_general(c, 2 * a, x);
    vstd::arithmetic::div_mod::lemma_mul_mod_noop_general(c, 2 * b, x);
}

/// `(a + b) mod x` for `a` and `b` below `x`.
fn mod_add(a: &BigNat, b: &BigNat, x: &BigNat) -> (r: BigNat)
    requires
        a@ < x@,
        b@ < x@,
    ensures
        r@ == (a@ + b@) as int % (x@ as int),
        r@ < x@,
{
    let sum = a.add(b);
    if sum.lt(x) {
        proof {
            vstd::arithmetic::div_mod::lemma_small_mod(sum@, x@);
        }
        sum
    } else {
        proof {
            vstd::arithmetic::div_mod::lemma_mod_multiples_vanish(-1, (a@ + b@) as int, x@ as int);
            vstd::arithmetic::div_mod::lemma_small_mod((a@ + b@ - x@) as nat, x@);
        }
        sum.sub(x)
    }
}

/// `(a - b) mod x` for `a` and `b` below `x`.
fn mod_sub(a: &BigNat, b: &BigNat, x: &BigNat) -> (r: BigNat)
    requires
        a@ < x@,
        b@ < x@,
    ensures
        r@ == (a@ - b@) % (x@ as int),
        r@ < x@,
{
    if b.le(a) {
        proof {
            vstd::arithmetic::div_mod::lemma_small_mod((a@ - b@) as nat, x@);
        }
        a.sub(b)
    } else {
        proof {
            vstd::arithmetic::div_mod::lemma_mod_multiples_vanish(1, a@ - b@, x@ as int);
            vstd::arithmetic::div_mod::lemma_small_mod((a@ + x@ - b@) as nat, x@);
        }
        a.add(x).sub(b)
    }
}

/// Half of `t` modulo the odd number `x`: the number below `x` whose
/// double is `t` modulo `x`.
fn mod_half(t: &BigNat, x: &BigNat) -> (r: BigNat)
    requires
        t@ < x@,
        x@ % 2 == 1,
    ensures
        r@ < x@,
        (2 * (r@ as int)) % (x@ as int) == t@,
{
    let two = BigNat::from_u64(2);
    if t.is_even() {
        proof {
            vstd::arithmetic::div_mod::lemma_small_mod(t@, x@);
        }
        t.div_floor(&two)
    } else {
        proof {
            vstd::arithmetic::div_mod::lemma_mod_multiples_vanish(1, t@ as int, x@ as int);
            vstd::arithmetic::div_mod::lemma_small_mod(t@, x@);
        }
        t.add(x).div_floor(&two)
    }
}

/// The terms `U_e`, `V_e` and the power `q^e`, all modulo `x`, for the
/// sequences with the parameter `q`; `qm` and `dm` are `q` and `1 - 4q`
/// modulo `x`. The index is built up from its binary digits: the terms are
/// doubled for every digit, and stepped up by one for a digit one.
fn lucas_terms(e: &BigNat, qm: &BigNat, dm: &BigNat, x: &BigNat, Ghost(q): Ghost<int>) -> (r: (
    BigNat,
    BigNat,
    BigNat,
))
    requires
        x@ > 2,
        x@ % 2 == 1,
        qm@ == q % (x@ as int),
        dm@ == (1 - 4 * q) % (x@ as int),
    ensures
        r.0@ == lucas_u(q, e@) % (x@ as int),
        r.1@ == lucas_v(q, e@) % (x@ as int),
        r.2@ == pow(q, e@) % (x@ as int),
    decreases e@,
{
    let ghost m = x@ as int;
    if e.is_zero() {
        proof {
            vstd::arithmetic::power::lemma_pow0(q);
            vstd::arithmetic::div_mod::lemma_small_mod(0, x@);
            vstd::arithmetic::div_mod::lemma_small_mod(1, x@);
            vstd::arithmetic::div_mod::lemma_small_mod(2, x@);
        }
        return (BigNat::zero(), BigNat::from_u64(2), BigNat::one());
    }
    let two = BigNat::from_u64(2);
    let half = e.div_floor(&two);
    let (u, v, qk) = lucas_terms(&half, qm, dm, x, Ghost(q));
    let ghost k = half@;
    let ghost uu = lucas_u(q, k);
    let ghost vv = lucas_v(q, k);
    let ghost pp = pow(q, k);
    proof {
        vstd::arithmetic::div_mod::lemma_mod_bound(uu, m);
        vstd::arithmetic::div_mod::lemma_mod_bound(vv, m);
        vstd::arithmetic::div_mod::lemma_mod_bound(pp, m);
    }
    // the terms of the doubled index
    let u2 = u.mul(&v).mod_floor(x);
    let v_squared = v.mul(&v).mod_floor(x);
    let q_twice = mod_add(&qk, &qk, x);
    let v2 = mod_sub(&v_squared, &q_twice, x);
    let q2 = qk.mul(&qk).mod_floor(x);
    proof {
        lemma_lucas_u_double(q, k);
        lemma_lucas_v_double(q, k);
        vstd::arithmetic::power::lemma_pow_adds(q, k, k);
        vstd::arithmetic::div_mod::lemma_mul_mod_noop(uu, vv, m);
        vstd::arithmetic::div_mod::lemma_mul_mod_noop(vv, vv, m);
        vstd::arithmetic::div_mod::lemma_mul_mod_noop(pp, pp, m);
        vstd::arithmetic::div_mod::lemma_mul_mod_noop_general(2, pp, m);
        assert(qk@ + qk@ == 2 * (pp % m));
        vstd::arithmetic::div_mod::lemma_sub_mod_noop(vv * vv, 2 * pp, m);
        vstd::arithmetic::div_mod::lemma_mod_bound(vv * vv, m);
        vstd::arithmetic::div_mod::lemma_mod_bound(2 * pp, m);
        assert(u2@ == lucas_u(q, 2 * k) % m);
        assert(v2@ == lucas_v(q, 2 * k) % m);
        assert(q2@ == pow(q, 2 * k) % m);
        vstd::arithmetic::div_mod::lemma_mod_bound(lucas_u(q, 2 * k), m);
        vstd::arithmetic::div_mod::lemma_mod_bound(lucas_v(q, 2 * k), m);
    }
    if e.is_odd() {
        let ghost j = 2 * k;
        let ghost uj = lucas_u(q, j);
        let ghost vj = lucas_v(q, j);
        let ghost pj = pow(q, j);
        assert(e@ == j + 1);
        let t = mod_add(&u2, &v2, x);
        let u3 = mod_half(&t, x);
        let w = dm.mul(&u2).add(&v2).mod_floor(x);
        let v3 = mod_half(&w, x);
        let q3 = q2.mul(qm).mod_floor(x);
        proof {
            lemma_lucas_step(q, j);
            let d = 1 - 4 * q;
            // 2 * u3 == uj + vj == 2 * U_(j+1) modulo x
            vstd::arithmetic::div_mod::lemma_add_mod_noop(uj, vj, m);
            assert(t@ == (uj + vj) % m);
            lemma_cancel_two(u3@ as int, lucas_u(q, j + 1), m);
            vstd::arithmetic::div_mod::lemma_small_mod(u3@, x@);
            // 2 * v3 == d * uj + vj == 2 * V_(j+1) modulo x
            vstd::arithmetic::div_mod::lemma_mul_mod_noop(d, uj, m);
            vstd::arithmetic::div_mod::lemma_add_mod_noop(d * uj, vj, m);
            vstd::arithmetic::div_mod::lemma_add_mod_noop((dm@ * u2@) as int, v2@ as int, m);
            vstd::arithmetic::div_mod::lemma_mod_twice(vj, m);
            assert((dm@ * u2@) as int == (d % m) * (uj % m)) by (nonlinear_arith)
                requires
                    dm@ as int == d % m,
                    u2@ as int == uj % m,
            ;
            assert(w@ == (d * uj + vj) % m);
            lemma_cancel_two(v3@ as int, lucas_v(q, j + 1), m);
            vstd::arithmetic::div_mod::lemma_small_mod(v3@, x@);
            // q^(j+1)
            vstd::arithmetic::power::lemma_pow_adds(q, j, 1);
            vstd::arithmetic::power::lemma_pow1(q);
            vstd::arithmetic::div_mod::lemma_mul_mod_noop(pj, q, m);
        }
        (u3, v3, q3)
    } else {
        assert(e@ == 2 * k);
        (u2, v2, q2)
    }
}

/// Selfridge's discriminant for the odd number `x`, as the index of the
/// candidate; see [`selfridge_search`].
fn selfridge_index(x: &BigNat) -> (r: Option<u32>)
    requires
        x@ % 2 == 1,
    ensures
        match r {
            Some(k) => selfridge_search(x@, 0) == Some(selfridge_candidate(k as nat)) && 5 + 2 * k
                < MAX_SELFRIDGE,
            None => selfridge_search(x@, 0).is_none(),
        },
{
    let x_signed = BigInt::from_biguint(crate::bigint::Sign::Plus, x.clone());
    let mut k: u32 = 0;
    while 5 + 2 * k < MAX_SELFRIDGE
        invariant
            5 + 2 * k <= MAX_SELFRIDGE + 1,
            x_signed@ == x@,
            x@ % 2 == 1,
            selfridge_search(x@, 0) == selfridge_search(x@, k as nat),
        decreases MAX_SELFRIDGE + 1 - k,
    {
        let m: i64 = (5 + 2 * k) as i64;
        let d = if k % 2 == 0 {
            BigInt::from_i64(m)
        } else {
            BigInt::from_i64(-m)
        };
        let j = jacobi(&d, &x_signed);
        if j == -1 {
            return Some(k);
        }
        if j == 0 && d.magnitude().lt(x) {
            return None;
        }
        k = k + 1;
    }
    None
}

/// The strong Lucas probable prime test with Selfridge's parameters; see
/// [`lucas_test`].
pub fn probably_prime_lucas(x: &BigNat) -> (r: bool)
    ensures
        r == lucas_test(x@),
{
    match x.to_u64() {
        Some(v) => {
            if v < 2 {
                return false;
            }
            if v == 2 {
                return true;
            }
        },
        None => {},
    }
    if x.is_even() {
        return false;
    }
    let k = match selfridge_index(x) {
        Some(k) => k,
        None => {
            return false;
        },
    };
    // q == (1 - d) / 4 for the discriminant d
    let ghost d = selfridge_candidate(k as nat);
    let ghost q = (1 - d) / 4;
    let q_signed = if k % 2 == 0 {
        BigInt::from_i64(-((1 + k / 2) as i64))
    } else {
        BigInt::from_i64(((3 + k) / 2) as i64)
    };
    let d_signed = if k % 2 == 0 {
        BigInt::from_i64((5 + 2 * k) as i64)
    } else {
        BigInt::from_i64(-((5 + 2 * k) as i64))
    };
    assert(q_signed@ == q && d_signed@ == d && d == 1 - 4 * q);
    let qm = q_signed.mod_floor(x);
    let dm = d_signed.mod_floor(x);
    // x + 1 == e * 2^s with e odd
    let one = BigNat::one();
    let two = BigNat::from_u64(2);
    let x_plus_1 = x.add(&one);
    let mut e = x_plus_1.clone();
    let ghost mut taken: nat = 0;
    while e.is_even()
        invariant
            two@ == 2,
            e@ > 0,
            odd_part(e@) == odd_part(x_plus_1@),
            twos(e@) + taken == twos(x_plus_1@),
        decreases e@,
    {
        e = e.div_floor(&two);
        proof {
            taken = taken + 1;
        }
    }
    let ghost ee = e@;
    let ghost xx = x@;
    let ghost m = x@ as int;
    let ghost s = twos(xx + 1);
    assert(ee == odd_part(xx + 1) && s == taken);
    let (u, v0, q0) = lucas_terms(&e, &qm, &dm, x, Ghost(q));
    proof {
        lemma_odd_part_twos(x_plus_1@);
        vstd::arithmetic::power2::lemma2_to64();
        assert(ee * pow2(0) == ee) by (nonlinear_arith)
            requires
                pow2(0) == 1,
        ;
    }
    if u.is_zero() {
        return true;
    }
    let mut v = v0;
    let mut qk = q0;
    let mut cur = e;
    let ghost mut r: nat = 0;
    while !cur.equals(&x_plus_1)
        invariant
            r <= s,
            two@ == 2,
            xx == x@,
            m == xx as int,
            xx > 2,
            xx % 2 == 1,
            ee > 0,
            ee == odd_part(xx + 1),
            s == twos(xx + 1),
            q == (1 - d) / 4,
            d == selfridge_search(xx, 0).unwrap(),
            selfridge_search(xx, 0).is_some(),
            x_plus_1@ == xx + 1,
            xx + 1 == ee * pow2(s),
            cur@ == ee * pow2(r),
            v@ == lucas_v(q, ee * pow2(r)) % m,
            qk@ == pow(q, ee * pow2(r)) % m,
            lucas_u(q, ee) % m != 0,
            forall|i: nat| i < r ==> #[trigger] lucas_v(q, ee * pow2(i)) % m != 0,
        decreases s - r,
    {
        proof {
            if r == s {
                assert(false);
            }
        }
        if v.is_zero() {
            assert(r < s && lucas_v(q, ee * pow2(r)) % m == 0);
            return true;
        }
        let ghost idx = ee * pow2(r);
        let ghost vv = lucas_v(q, idx);
        let ghost pp = pow(q, idx);
        proof {
            vstd::arithmetic::div_mod::lemma_mod_bound(vv, m);
            vstd::arithmetic::div_mod::lemma_mod_bound(pp, m);
        }
        let v_squared = v.mul(&v).mod_floor(x);
        let q_twice = mod_add(&qk, &qk, x);
        let next_v = mod_sub(&v_squared, &q_twice, x);
        let next_q = qk.mul(&qk).mod_floor(x);
        proof {
            lemma_lucas_v_double(q, idx);
            vstd::arithmetic::power::lemma_pow_adds(q, idx, idx);
            vstd::arithmetic::div_mod::lemma_mul_mod_noop(vv, vv, m);
            vstd::arithmetic::div_mod::lemma_mul_mod_noop(pp, pp, m);
            vstd::arithmetic::div_mod::lemma_mul_mod_noop_general(2, pp, m);
            assert(qk@ + qk@ == 2 * (pp % m));
            vstd::arithmetic::div_mod::lemma_sub_mod_noop(vv * vv, 2 * pp, m);
            vstd::arithmetic::power2::lemma_pow2_unfold(r + 1);
            assert(2 * idx == ee * pow2(r + 1) && idx + idx == 2 * idx && idx * 2 == 2 * idx)
                by (nonlinear_arith)
                requires
                    idx == ee * pow2(r),
                    pow2(r + 1) == 2 * pow2(r),
            ;
        }
        v = next_v;
        qk = next_q;
        cur = cur.mul(&two);
        proof {
            r = r + 1;
        }
    }
    proof {
        if r < s {
            vstd::arithmetic::power2::lemma_pow2_strictly_increases(r, s);
            assert(ee * pow2(r) < ee * pow2(s)) by (nonlinear_arith)
                requires
                    ee > 0,
                    pow2(r) < pow2(s),
            ;
        }
    }
    false
}

} // verus!
