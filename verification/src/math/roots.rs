//! Roots modulo a number of unknown factorisation: Shamir's trick and root
//! factoring.

use vstd::prelude::*;
use crate::bignat::BigNat;
use crate::math::gcd::{bezout, extended_gcd, gcd, inverse_mod, lemma_bezout_identity, lemma_inverse_mod};
use crate::math::power::{
    lemma_pow_mod_add_exp,
    lemma_pow_mod_bound,
    lemma_pow_mod_mul_base,
    lemma_pow_mod_mul_exp,
    lemma_pow_mod_of_one,
    lemma_pow_mod_one_exp,
    lemma_pow_mod_reduce_base,
    lemma_pow_mod_zero_exp,
    modpow_uint_int,
    pow_mod,
    signed_pow_mod,
};

verus! {

/// The numbers that a sequence of big integers stands for.
pub open spec fn values(xs: Seq<BigNat>) -> Seq<nat> {
    xs.map_values(|x: BigNat| x@)
}

/// The product of a sequence of numbers; the empty product is one.
pub open spec fn product(xs: Seq<nat>) -> nat
    decreases xs.len(),
{
    if xs.len() == 0 {
        1
    } else {
        product(xs.drop_last()) * xs.last()
    }
}

/// The product of a concatenation is the product of the products.
pub proof fn lemma_product_concat(a: Seq<nat>, b: Seq<nat>)
    ensures
        product(a + b) == product(a) * product(b),
    decreases b.len(),
{
    if b.len() == 0 {
        assert(a + b =~= a);
        assert(product(a) * 1 == product(a)) by (nonlinear_arith);
    } else {
        lemma_product_concat(a, b.drop_last());
        assert((a + b).drop_last() =~= a + b.drop_last());
        assert((a + b).last() == b.last());
        let pa = product(a);
        let pb = product(b.drop_last());
        let l = b.last();
        assert((pa * pb) * l == pa * (pb * l)) by (nonlinear_arith);
    }
}

/// The product of all the numbers is the product of all but one, times that
/// one.
pub proof fn lemma_product_remove(xs: Seq<nat>, i: int)
    requires
        0 <= i < xs.len(),
    ensures
        product(xs) == product(xs.remove(i)) * xs[i],
{
    let a = xs.subrange(0, i);
    let b = xs.subrange(i + 1, xs.len() as int);
    let one = seq![xs[i]];
    assert(xs =~= (a + one) + b);
    lemma_product_concat(a + one, b);
    lemma_product_concat(a, one);
    lemma_product_concat(a, b);
    assert(one.drop_last() =~= Seq::<nat>::empty());
    assert(product(one) == xs[i]) by {
        assert(product(one.drop_last()) == 1);
        assert(1 * xs[i] == xs[i]) by (nonlinear_arith);
    }
    let pa = product(a);
    let pb = product(b);
    let x = xs[i];
    assert((pa * x) * pb == (pa * pb) * x) by (nonlinear_arith);
}

/// The product of the numbers of a slice.
pub fn product_of(xs: &[BigNat]) -> (r: BigNat)
    ensures
        r@ == product(values(xs@)),
{
    let mut p = BigNat::one();
    let mut i: usize = 0;
    assert(values(xs@).take(0) =~= Seq::<nat>::empty());
    while i < xs.len()
        invariant
            i <= xs@.len(),
            p@ == product(values(xs@).take(i as int)),
        decreases xs@.len() - i,
    {
        proof {
            let v = values(xs@);
            assert(v.take(i + 1).drop_last() =~= v.take(i as int));
            assert(v.take(i + 1).last() == xs@[i as int]@);
        }
        p = p.mul(&xs[i]);
        i += 1;
    }
    assert(values(xs@).take(xs@.len() as int) =~= values(xs@));
    p
}

/// What Shamir's trick computes: nothing where the two roots do not lead to
/// the same element or where a needed inverse is missing, and otherwise
/// `root_x^b * root_y^a mod n` for the Bézout coefficients `(a, b)` of
/// `(x, y)`.
pub open spec fn shamir(root_x: nat, root_y: nat, x: nat, y: nat, n: nat) -> Option<nat>
    recommends
        n != 0,
{
    if pow_mod(root_x, x, n) != pow_mod(root_y, y, n) {
        None
    } else {
        let (a, b) = bezout(x, y);
        match (signed_pow_mod(root_x, b, n), signed_pow_mod(root_y, a, n)) {
            (Some(l), Some(r)) => Some((l * r) % n),
            _ => None,
        }
    }
}

/// The element that a signed power of a root leads to: for `u` with
/// `u^x == t`, the power `u^c` raised to `x * y` is `t^(c * y)`, where for a
/// negative `c` the inverse of `t` stands in place of `t`.
proof fn lemma_signed_power_of_root(u: nat, c: int, x: nat, y: nat, n: nat)
    requires
        n != 0,
        signed_pow_mod(u, c, n).is_some(),
    ensures
        c >= 0 ==> pow_mod(signed_pow_mod(u, c, n).unwrap(), x * y, n) == pow_mod(
            pow_mod(u, x, n),
            (c * y) as nat,
            n,
        ),
        c < 0 ==> pow_mod(signed_pow_mod(u, c, n).unwrap(), x * y, n) == pow_mod(
            pow_mod(inverse_mod(u as int, n as int).unwrap(), x, n),
            ((-c) * y) as nat,
            n,
        ),
        c < 0 ==> (pow_mod(inverse_mod(u as int, n as int).unwrap(), x, n) * pow_mod(u, x, n)) % n
            == 1nat % n,
{
    let base: nat = if c >= 0 {
        u
    } else {
        inverse_mod(u as int, n as int).unwrap()
    };
    let k: nat = if c >= 0 {
        c as nat
    } else {
        (-c) as nat
    };
    assert(0 <= k * y) by (nonlinear_arith);
    assert(k * (x * y) == x * (k * y)) by (nonlinear_arith);
    if c == 0 {
        assert(k * y == 0) by (nonlinear_arith)
            requires
                k == 0,
        ;
        lemma_pow_mod_reduce_base(1, x * y, n);
        lemma_pow_mod_of_one(x * y, n);
        lemma_pow_mod_zero_exp(pow_mod(u, x, n), n);
    } else {
        lemma_pow_mod_mul_exp(base, k, x * y, n);
        lemma_pow_mod_mul_exp(base, x, k * y, n);
    }
    if c < 0 {
        lemma_inverse_mod(u as int, n as int);
        lemma_pow_mod_mul_base(base, u, x, n);
        lemma_pow_mod_of_one(x, n);
    }
}

/// An element times `k` copies of itself and of its inverse is the element:
/// `t_inv^k * t^(k + 1) == t` modulo `n`.
proof fn lemma_inverse_power_cancels(t: nat, t_inv: nat, k: nat, n: nat)
    requires
        n != 0,
        t < n,
        (t_inv * t) % n == 1nat % n,
    ensures
        (pow_mod(t_inv, k, n) * pow_mod(t, k + 1, n)) % n == t,
{
    let p = pow_mod(t_inv, k, n);
    let q = pow_mod(t, k, n);
    lemma_pow_mod_bound(t_inv, k, n);
    lemma_pow_mod_bound(t, k, n);
    lemma_pow_mod_bound(t, k + 1, n);
    lemma_pow_mod_add_exp(t, k, 1, n);
    lemma_pow_mod_one_exp(t, n);
    vstd::arithmetic::div_mod::lemma_small_mod(t, n);
    // t^(k+1) == (q * t) % n
    assert(pow_mod(t, k + 1, n) == (q * t) % n);
    // (p * q) % n == 1 % n
    lemma_pow_mod_mul_base(t_inv, t, k, n);
    lemma_pow_mod_of_one(k, n);
    assert((p * q) % n == 1nat % n);
    // p * ((q * t) % n) == p * q * t == ((p * q) % n) * t == t  (mod n)
    vstd::arithmetic::div_mod::lemma_mul_mod_noop_general(p as int, (q * t) as int, n as int);
    vstd::arithmetic::div_mod::lemma_mul_mod_noop_general((p * q) as int, t as int, n as int);
    vstd::arithmetic::div_mod::lemma_mul_mod_noop_general(1, t as int, n as int);
    assert(p * (q * t) == (p * q) * t) by (nonlinear_arith);
    assert(1 * t == t) by (nonlinear_arith);
}

/// Shamir's trick yields a root: for coprime `x` and `y`, and roots with
/// `root_x^x == root_y^y == t` modulo `n`, the element that the trick
/// returns, raised to `x * y`, is `t` again.
pub proof fn lemma_shamir_is_root(root_x: nat, root_y: nat, x: nat, y: nat, n: nat)
    requires
        n != 0,
        gcd(x, y) == 1,
        pow_mod(root_x, x, n) == pow_mod(root_y, y, n),
        shamir(root_x, root_y, x, y, n).is_some(),
    ensures
        pow_mod(shamir(root_x, root_y, x, y, n).unwrap(), x * y, n) == pow_mod(root_x, x, n),
{
    let t = pow_mod(root_x, x, n);
    let (a, b) = bezout(x, y);
    lemma_bezout_identity(x, y);
    let l = signed_pow_mod(root_x, b, n).unwrap();
    let r = signed_pow_mod(root_y, a, n).unwrap();
    let res = (l * r) % n;
    lemma_pow_mod_bound(root_x, x, n);
    // res^(xy) == l^(xy) * r^(xy)
    lemma_pow_mod_mul_base(l, r, x * y, n);
    let lp = pow_mod(l, x * y, n);
    let rp = pow_mod(r, x * y, n);
    assert(pow_mod(res, x * y, n) == (lp * rp) % n);
    assert(y * x == x * y) by (nonlinear_arith);
    lemma_signed_power_of_root(root_x, b, x, y, n);
    lemma_signed_power_of_root(root_y, a, y, x, n);
    assert(0 <= x * y) by (nonlinear_arith);
    if a >= 0 && b >= 0 {
        let e1 = (b * y) as nat;
        let e2 = (a * x) as nat;
        assert(0 <= b * y && 0 <= a * x) by (nonlinear_arith)
            requires
                a >= 0,
                b >= 0,
        ;
        assert(e1 + e2 == 1) by (nonlinear_arith)
            requires
                x * a + y * b == 1,
                e1 == b * y,
                e2 == a * x,
        ;
        lemma_pow_mod_add_exp(t, e1, e2, n);
        lemma_pow_mod_one_exp(t, n);
        vstd::arithmetic::div_mod::lemma_small_mod(t, n);
    } else if b < 0 {
        // a * x == (-b) * y + 1
        let k = ((-b) * y) as nat;
        assert(0 <= (-b) * y) by (nonlinear_arith)
            requires
                b < 0,
        ;
        assert(a * x == k + 1 && a >= 0) by (nonlinear_arith)
            requires
                x * a + y * b == 1,
                k == (-b) * y,
                b < 0,
                x >= 0,
                y >= 0,
        ;
        let t_inv = pow_mod(inverse_mod(root_x as int, n as int).unwrap(), x, n);
        assert(lp == pow_mod(t_inv, k, n));
        assert(rp == pow_mod(t, k + 1, n));
        lemma_inverse_power_cancels(t, t_inv, k, n);
    } else {
        // b * y == (-a) * x + 1
        let k = ((-a) * x) as nat;
        assert(0 <= (-a) * x) by (nonlinear_arith)
            requires
                a < 0,
        ;
        assert(b * y == k + 1 && b >= 0) by (nonlinear_arith)
            requires
                x * a + y * b == 1,
                k == (-a) * x,
                a < 0,
                x >= 0,
                y >= 0,
        ;
        let t_inv = pow_mod(inverse_mod(root_y as int, n as int).unwrap(), y, n);
        assert(rp == pow_mod(t_inv, k, n));
        assert(lp == pow_mod(t, k + 1, n));
        lemma_inverse_power_cancels(t, t_inv, k, n);
        assert(lp * rp == rp * lp) by (nonlinear_arith);
    }
}

/// Shamir's trick: from an `x`-th root and a `y`-th root of one element
/// modulo `n`, an `(x * y)`-th root of it. See [`shamir`] for what is
/// returned, and [`lemma_shamir_is_root`] for why it is a root.
pub fn shamir_trick(root_x: &BigNat, root_y: &BigNat, x: &BigNat, y: &BigNat, n: &BigNat) -> (r:
    Option<BigNat>)
    requires
        n@ != 0,
    ensures
        match r {
            Some(v) => shamir(root_x@, root_y@, x@, y@, n@) == Some(v@),
            None => shamir(root_x@, root_y@, x@, y@, n@).is_none(),
        },
        r.is_some() && gcd(x@, y@) == 1 ==> pow_mod(r.unwrap()@, x@ * y@, n@) == pow_mod(
            root_x@,
            x@,
            n@,
        ),
{
    let g1 = root_x.modpow(x, n);
    let g2 = root_y.modpow(y, n);
    if !g1.equals(&g2) {
        return None;
    }
    let (_, a, b) = extended_gcd(x, y);
    let l = modpow_uint_int(root_x, &b, n);
    let r = modpow_uint_int(root_y, &a, n);
    match (l, r) {
        (Some(l), Some(r)) => {
            proof {
                if gcd(x@, y@) == 1 {
                    lemma_shamir_is_root(root_x@, root_y@, x@, y@, n@);
                }
            }
            Some(l.mul(&r).mod_floor(n))
        },
        _ => None,
    }
}

/// The `i`-th root that root factoring yields for the base `g` and the
/// exponents `xs`: `g` raised to the product of all the exponents but the
/// `i`-th. A single exponent leaves the base as it is.
pub open spec fn root_of(g: nat, xs: Seq<nat>, i: int, n: nat) -> nat
    recommends
        0 <= i < xs.len(),
{
    if xs.len() == 1 {
        g
    } else {
        pow_mod(g, product(xs.remove(i)), n)
    }
}

/// The roots of the left half: with the base raised to the product of the
/// right half, the left half alone yields the roots of the whole.
proof fn lemma_root_of_left(g: nat, v: Seq<nat>, k: int, i: int, n: nat)
    requires
        n != 0,
        1 <= k < v.len(),
        0 <= i < k,
    ensures
        root_of(pow_mod(g, product(v.skip(k)), n), v.take(k), i, n) == root_of(g, v, i, n),
{
    let l = v.take(k);
    let r = v.skip(k);
    if k == 1 {
        assert(v.remove(i) =~= r);
    } else {
        assert(v.remove(i) =~= l.remove(i) + r);
        lemma_product_concat(l.remove(i), r);
        lemma_pow_mod_mul_exp(g, product(r), product(l.remove(i)), n);
        assert(product(l.remove(i)) * product(r) == product(r) * product(l.remove(i)))
            by (nonlinear_arith);
    }
}

/// The roots of the right half: with the base raised to the product of the
/// left half, the right half alone yields the roots of the whole.
proof fn lemma_root_of_right(g: nat, v: Seq<nat>, k: int, i: int, n: nat)
    requires
        n != 0,
        1 <= k < v.len(),
        k <= i < v.len(),
    ensures
        root_of(pow_mod(g, product(v.take(k)), n), v.skip(k), i - k, n) == root_of(g, v, i, n),
{
    let l = v.take(k);
    let r = v.skip(k);
    if r.len() == 1 {
        assert(v.remove(i) =~= l);
    } else {
        assert(v.remove(i) =~= l + r.remove(i - k));
        lemma_product_concat(l, r.remove(i - k));
        lemma_pow_mod_mul_exp(g, product(l), product(r.remove(i - k)), n);
    }
}

/// Each root that root factoring yields, raised to its own exponent, is the
/// base raised to the product of all the exponents.
pub proof fn lemma_root_of_is_root(g: nat, xs: Seq<nat>, i: int, n: nat)
    requires
        n != 0,
        0 <= i < xs.len(),
    ensures
        pow_mod(root_of(g, xs, i, n), xs[i], n) == pow_mod(g, product(xs), n),
{
    lemma_product_remove(xs, i);
    if xs.len() == 1 {
        assert(xs.remove(i) =~= Seq::<nat>::empty());
        assert(1 * xs[i] == xs[i]) by (nonlinear_arith);
    } else {
        lemma_pow_mod_mul_exp(g, product(xs.remove(i)), xs[i], n);
    }
}

/// Root factoring: for the base `g` and the exponents `x`, the list of the
/// roots [`root_of`], one for each exponent and in their order, so that the
/// `i`-th root raised to the `i`-th exponent is `g` raised to the product of
/// all the exponents. The list of exponents must not be empty.
pub fn root_factor(g: &BigNat, x: &[BigNat], n: &BigNat) -> (r: Vec<BigNat>)
    requires
        x@.len() >= 1,
        x@.len() > 1 ==> n@ != 0,
    ensures
        r@.len() == x@.len(),
        forall|i: int| 0 <= i < r@.len() ==> (#[trigger] r@[i])@ == root_of(g@, values(x@), i, n@),
        n@ != 0 ==> forall|i: int|
            0 <= i < r@.len() ==> pow_mod((#[trigger] r@[i])@, x@[i]@, n@) == pow_mod(
                g@,
                product(values(x@)),
                n@,
            ),
    decreases x@.len(),
{
    let m = x.len();
    if m == 1 {
        let mut res: Vec<BigNat> = Vec::new();
        res.push(g.clone());
        proof {
            if n@ != 0 {
                lemma_root_of_is_root(g@, values(x@), 0, n@);
            }
        }
        return res;
    }
    let m_prime = m / 2;
    let (x_l, x_r) = x.split_at(m_prime);
    let g_l = g.modpow(&product_of(x_r), n);
    let g_r = g.modpow(&product_of(x_l), n);
    let mut res = root_factor(&g_l, x_l, n);
    let mut right = root_factor(&g_r, x_r, n);
    let ghost left_roots = res@;
    let ghost right_roots = right@;
    res.append(&mut right);
    proof {
        let v = values(x@);
        let k = m_prime as int;
        assert(values(x_l@) =~= v.take(k));
        assert(values(x_r@) =~= v.skip(k));
        assert forall|i: int| 0 <= i < res@.len() implies (#[trigger] res@[i])@ == root_of(
            g@,
            v,
            i,
            n@,
        ) && pow_mod(res@[i]@, x@[i]@, n@) == pow_mod(g@, product(v), n@) by {
            if i < k {
                assert(res@[i] == left_roots[i]);
                lemma_root_of_left(g@, v, k, i, n@);
            } else {
                assert(res@[i] == right_roots[i - k]);
                lemma_root_of_right(g@, v, k, i, n@);
            }
            lemma_root_of_is_root(g@, v, i, n@);
        }
    }
    res
}

} // verus!
