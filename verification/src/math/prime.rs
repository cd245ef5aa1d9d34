//! Probabilistic primality tests.

use vstd::prelude::*;
use vstd::arithmetic::power2::pow2;
use crate::bignat::BigNat;
use crate::encoding::{be_bytes, be_value, bytes_rem};
use crate::math::lucas::{lucas_test, probably_prime_lucas};
use crate::math::power::{lemma_pow_mod_mul_exp, pow_mod};

verus! {

/// Divisors up to this bound are tried one by one.
pub const SMALL_DIVISOR_LIMIT: u32 = 65536;

/// Whether `x` is a prime number.
pub open spec fn is_prime(x: nat) -> bool {
    x >= 2 && forall|d: nat| 2 <= d < x ==> #[trigger] (x % d) != 0
}

/// Whether `x` has a divisor of its own between two and the small divisor
/// limit: then `x` is certainly composite.
pub open spec fn has_small_divisor(x: nat) -> bool {
    exists|d: nat| 2 <= d < SMALL_DIVISOR_LIMIT && d < x && #[trigger] (x % d) == 0
}

/// How often two divides `n`; zero for zero.
pub open spec fn twos(n: nat) -> nat
    decreases n,
{
    if n == 0 || n % 2 == 1 {
        0
    } else {
        1 + twos(n / 2)
    }
}

/// What is left of `n` when all factors two are taken out.
pub open spec fn odd_part(n: nat) -> nat
    decreases n,
{
    if n == 0 || n % 2 == 1 {
        n
    } else {
        odd_part(n / 2)
    }
}

/// Whether the odd number `x` passes the strong probable prime test of
/// Miller and Rabin to the given base: with `x - 1 == d * 2^s` and `d` odd,
/// either `base^d == 1` or `base^(d * 2^r) == -1` modulo `x` for some
/// `r < s`.
pub open spec fn strong_probable_prime(x: nat, base: nat) -> bool
    recommends
        x > 2,
        x % 2 == 1,
{
    let d = odd_part((x - 1) as nat);
    let s = twos((x - 1) as nat);
    pow_mod(base, d, x) == 1 || exists|r: nat|
        r < s && #[trigger] pow_mod(base, d * pow2(r), x) == x - 1
}

/// The `index`-th number that a ChaCha random number generator seeded with
/// `seed` draws when it draws one number below `bound` after the other.
pub uninterp spec fn witness_draw(seed: u64, bound: nat, index: nat) -> nat;

/// The seed of the random bases for `x`: its low 64 bits.
pub open spec fn witness_seed(x: nat) -> u64 {
    (x % 0x1_0000_0000_0000_0000) as u64
}

/// The `i`-th random base for `x`, an odd number from 3 up to `x - 4`.
pub open spec fn witness_base(x: nat, i: nat) -> nat
    recommends
        x >= 7,
{
    3 + 2 * witness_draw(witness_seed(x), ((x - 5) / 2) as nat, i)
}

/// The base of round `i` out of `reps` rounds: the last round uses the
/// base two where two is forced, every other round its random base.
pub open spec fn round_base(x: nat, reps: nat, force2: bool, i: nat) -> nat {
    if force2 && i + 1 == reps {
        2
    } else {
        witness_base(x, i)
    }
}

/// What `reps` rounds of Miller and Rabin's test say of `x`. Numbers below
/// seven are decided outright, and an even number is composite. An odd
/// number passes when it is a strong probable prime to the base of every
/// round.
pub open spec fn miller_rabin(x: nat, reps: nat, force2: bool) -> bool {
    if x < 7 {
        x == 2 || x == 3 || x == 5
    } else if x % 2 == 0 {
        false
    } else {
        forall|i: nat| i < reps ==> strong_probable_prime(x, #[trigger] round_base(x, reps, force2, i))
    }
}

/// Taking the factors two out of a number splits it into its odd part and
/// a power of two.
pub proof fn lemma_odd_part_twos(n: nat)
    requires
        n > 0,
    ensures
        n == odd_part(n) * pow2(twos(n)),
        odd_part(n) % 2 == 1,
        odd_part(n) <= n,
    decreases n,
{
    if n % 2 == 1 {
        vstd::arithmetic::power2::lemma2_to64();
        assert(n * 1 == n) by (nonlinear_arith);
    } else {
        lemma_odd_part_twos(n / 2);
        vstd::arithmetic::power2::lemma_pow2_unfold(twos(n));
        let o = odd_part(n / 2);
        let p = pow2(twos(n / 2));
        assert(o * (2 * p) == 2 * (o * p)) by (nonlinear_arith);
        assert(odd_part(n) == o);
        assert(pow2(twos(n)) == 2 * p);
    }
}

/// Below the square of the small divisor limit, a number is prime exactly
/// when it is two at least and has no small divisor.
pub proof fn lemma_small_divisors_decide(x: nat)
    requires
        x < SMALL_DIVISOR_LIMIT * SMALL_DIVISOR_LIMIT,
    ensures
        is_prime(x) == (x >= 2 && !has_small_divisor(x)),
{
    if x >= 2 {
        if has_small_divisor(x) {
            let d = choose|d: nat| 2 <= d < SMALL_DIVISOR_LIMIT && d < x && #[trigger] (x % d) == 0;
            assert(x % d == 0);
            assert(!is_prime(x));
        }
        if !is_prime(x) {
            let d = choose|d: nat| 2 <= d < x && #[trigger] (x % d) != 0 == false;
            assert(x % d == 0);
            let e = x / d;
            vstd::arithmetic::div_mod::lemma_fundamental_div_mod(x as int, d as int);
            assert(x == d * e);
            assert(2 <= e < x && x == e * d) by (nonlinear_arith)
                requires
                    x == d * e,
                    2 <= d < x,
                    e >= 0,
            ;
            vstd::arithmetic::div_mod::lemma_fundamental_div_mod_converse(
                x as int,
                e as int,
                d as int,
                0,
            );
            assert(x % e == 0);
            assert(d < 65536 || e < 65536) by (nonlinear_arith)
                requires
                    x == d * e,
                    x < 65536 * 65536,
                    d >= 0,
                    e >= 0,
            ;
            if d < 65536 {
                assert(2 <= d < SMALL_DIVISOR_LIMIT && d < x && x % d == 0);
            } else {
                assert(2 <= e < SMALL_DIVISOR_LIMIT && e < x && x % e == 0);
            }
            assert(has_small_divisor(x));
        }
    }
}

/// A divisor of a divisor of a number divides the number.
proof fn lemma_divisor_of_divisor(x: nat, k: nat, p: nat)
    requires
        p > 0,
        k > 0,
        k % p == 0,
        x % k == 0,
    ensures
        x % p == 0,
{
    let h = k / p;
    vstd::arithmetic::div_mod::lemma_fundamental_div_mod(k as int, p as int);
    assert(k == p * h);
    assert(h > 0) by (nonlinear_arith)
        requires
            k == p * h,
            k > 0,
            p > 0,
    ;
    vstd::arithmetic::div_mod::lemma_mod_mod(x as int, p as int, h as int);
}

/// Trial division: whether `x` has a divisor of its own between two and the
/// small divisor limit. Once two and three are tried, only the numbers
/// that are neither even nor multiples of three need to be.
pub fn small_divisor(x: &BigNat) -> (r: bool)
    ensures
        r == has_small_divisor(x@),
{
    let small = x.to_u64();
    let limit: u32 = match small {
        Some(v) => if v < SMALL_DIVISOR_LIMIT as u64 {
            v as u32
        } else {
            SMALL_DIVISOR_LIMIT
        },
        None => SMALL_DIVISOR_LIMIT,
    };
    // A divisor counts when it lies in `2..limit`.
    assert(limit <= x@ && (limit == SMALL_DIVISOR_LIMIT || limit == x@));
    if limit <= 2 {
        return false;
    }
    if x.is_even() {
        assert(2nat < x@ && x@ % 2nat == 0);
        return true;
    }
    if limit <= 3 {
        return false;
    }
    let bytes = x.to_bytes_be();
    proof {
        crate::encoding::lemma_be_bytes_value(x@);
    }
    if bytes_rem(bytes.as_slice(), 3) == 0 {
        assert(3nat < x@ && x@ % 3nat == 0);
        return true;
    }
    let mut d: u32 = 5;
    let mut step: u32 = 2;
    assert forall|k: nat| 2 <= k < 5 && k < limit implies #[trigger] (x@ % k) != 0 by {
        if k == 4 && x@ % k == 0 {
            lemma_divisor_of_divisor(x@, k, 2);
        }
    }
    while d < limit
        invariant
            5 <= d <= limit + 4,
            (d % 6 == 5 && step == 2) || (d % 6 == 1 && step == 4),
            limit <= SMALL_DIVISOR_LIMIT,
            limit <= x@,
            limit == SMALL_DIVISOR_LIMIT || limit == x@,
            be_value(bytes@) == x@,
            x@ % 2 == 1,
            x@ % 3 != 0,
            forall|k: nat| 2 <= k < d && k < limit ==> #[trigger] (x@ % k) != 0,
        decreases limit + 4 - d,
    {
        if bytes_rem(bytes.as_slice(), d) == 0 {
            assert(2 <= d as nat && (d as nat) < limit && x@ % (d as nat) == 0);
            return true;
        }
        proof {
            assert forall|k: nat| d < k < d + step && k < limit implies #[trigger] (x@ % k)
                != 0 by {
                if x@ % k == 0 {
                    if k % 2 == 0 {
                        lemma_divisor_of_divisor(x@, k, 2);
                    } else {
                        assert(k % 3 == 0);
                        lemma_divisor_of_divisor(x@, k, 3);
                    }
                }
            }
        }
        d = d + step;
        step = 6 - step;
    }
    false
}

/// The strong probable prime test of Miller and Rabin on an odd `x` above
/// two, to one base.
pub fn is_strong_probable_prime(x: &BigNat, base: &BigNat) -> (r: bool)
    requires
        x@ > 2,
        x@ % 2 == 1,
    ensures
        r == strong_probable_prime(x@, base@),
{
    let one = BigNat::one();
    let two = BigNat::from_u64(2);
    let x_minus_1 = x.sub(&one);
    // x - 1 == d * 2^s with d odd
    let mut d = x_minus_1.clone();
    let ghost mut taken: nat = 0;
    while d.is_even()
        invariant
            two@ == 2,
            d@ > 0,
            odd_part(d@) == odd_part(x_minus_1@),
            twos(d@) + taken == twos(x_minus_1@),
        decreases d@,
    {
        d = d.div_floor(&two);
        proof {
            taken = taken + 1;
        }
    }
    let ghost dd = d@;
    let ghost xx = x@;
    let ghost s = twos((xx - 1) as nat);
    assert(dd == odd_part((xx - 1) as nat) && s == taken);
    let mut y = base.modpow(&d, x);
    proof {
        lemma_odd_part_twos(x_minus_1@);
        vstd::arithmetic::power2::lemma2_to64();
        assert(dd * pow2(0) == dd) by (nonlinear_arith)
            requires
                pow2(0) == 1,
        ;
    }
    if y.is_one() {
        return true;
    }
    // e == d * 2^r runs through the exponents below x - 1
    let mut e = d;
    let ghost mut r: nat = 0;
    while !e.equals(&x_minus_1)
        invariant
            r <= s,
            two@ == 2,
            xx == x@,
            xx > 2,
            xx % 2 == 1,
            dd > 0,
            dd == odd_part((xx - 1) as nat),
            s == twos((xx - 1) as nat),
            x_minus_1@ == xx - 1,
            xx - 1 == dd * pow2(s),
            e@ == dd * pow2(r),
            y@ == pow_mod(base@, dd * pow2(r), xx),
            pow_mod(base@, dd, xx) != 1,
            forall|k: nat| k < r ==> #[trigger] pow_mod(base@, dd * pow2(k), xx) != xx - 1,
        decreases s - r,
    {
        proof {
            if r == s {
                assert(false);
            }
        }
        if y.equals(&x_minus_1) {
            assert(r < s && pow_mod(base@, dd * pow2(r), xx) == xx - 1);
            return true;
        }
        proof {
            let e0 = dd * pow2(r);
            lemma_pow_mod_mul_exp(base@, e0, 2, xx);
            vstd::arithmetic::power2::lemma_pow2_unfold(r + 1);
            assert(e0 * 2 == dd * (2 * pow2(r))) by (nonlinear_arith)
                requires
                    e0 == dd * pow2(r),
            ;
            vstd::arithmetic::power::lemma_square_is_pow2(y@ as int);
        }
        y = y.mul(&y).mod_floor(x);
        e = e.mul(&two);
        proof {
            r = r + 1;
        }
    }
    proof {
        // e == x - 1 means r == s: all exponents were tried
        if r < s {
            vstd::arithmetic::power2::lemma_pow2_strictly_increases(r, s);
            assert(dd * pow2(r) < dd * pow2(s)) by (nonlinear_arith)
                requires
                    dd > 0,
                    pow2(r) < pow2(s),
            ;
        }
    }
    false
}

/// The low 64 bits of a number.
fn low_u64(x: &BigNat) -> (r: u64)
    ensures
        r == x@ % 0x1_0000_0000_0000_0000,
{
    let half = BigNat::from_u64(0x1_0000_0000);
    let modulus = half.mul(&half);
    assert(0x1_0000_0000nat * 0x1_0000_0000nat == 0x1_0000_0000_0000_0000nat) by (nonlinear_arith);
    let low = x.mod_floor(&modulus);
    match low.to_u64() {
        Some(v) => v,
        None => 0,
    }
}

/// Rounds of Miller and Rabin's test; see [`miller_rabin`]. The random bases
/// are drawn from a generator seeded with the low bits of `x`, so that the
/// answer for a given number is always the same.
pub fn probably_prime_miller_rabin(x: &BigNat, reps: usize, force2: bool) -> (r: bool)
    ensures
        r == miller_rabin(x@, reps as nat, force2),
{
    match x.to_u64() {
        Some(v) => {
            if v < 7 {
                return v == 2 || v == 3 || v == 5;
            }
        },
        None => {},
    }
    if x.is_even() {
        return false;
    }
    let seed = low_u64(x);
    let bound = x.sub(&BigNat::from_u64(5)).div_floor(&BigNat::from_u64(2));
    let bound_bytes = bound.to_bytes_be();
    proof {
        crate::encoding::lemma_be_bytes_value(bound@);
    }
    let draws = draw_witnesses(seed, bound_bytes.as_slice(), reps);
    let two = BigNat::from_u64(2);
    let three = BigNat::from_u64(3);
    let mut i: usize = 0;
    while i < reps
        invariant
            i <= reps,
            x@ >= 7,
            x@ % 2 == 1,
            two@ == 2,
            three@ == 3,
            draws@.len() == reps,
            seed == witness_seed(x@),
            bound@ == (x@ - 5) / 2,
            forall|k: int|
                0 <= k < reps ==> (#[trigger] draws@[k])@ == be_bytes(
                    witness_draw(seed, bound@, k as nat),
                ),
            forall|k: nat|
                k < i ==> strong_probable_prime(x@, #[trigger] round_base(x@, reps as nat, force2, k)),
        decreases reps - i,
    {
        let base = if force2 && i + 1 == reps {
            two.clone()
        } else {
            proof {
                crate::encoding::lemma_be_bytes_value(witness_draw(seed, bound@, i as nat));
            }
            let draw = BigNat::from_bytes_be(draws[i].as_slice());
            three.add(&two.mul(&draw))
        };
        assert(base@ == round_base(x@, reps as nat, force2, i as nat));
        if !is_strong_probable_prime(x, &base) {
            return false;
        }
        i = i + 1;
    }
    true
}

/// Whether a machine integer below the square of the small divisor limit
/// is a prime number: trial division by two, by three, and by the numbers
/// up to the square root that are neither even nor multiples of three.
pub fn small_prime(v: u64) -> (r: bool)
    requires
        v < 0x1_0000_0000,
    ensures
        r == is_prime(v as nat),
{
    if v < 2 {
        return false;
    }
    if v < 4 {
        assert(is_prime(v as nat));
        return true;
    }
    if v % 2 == 0 {
        assert(2nat < v && (v as nat) % 2nat == 0);
        return false;
    }
    if v % 3 == 0 {
        assert(3nat < v && (v as nat) % 3nat == 0);
        return false;
    }
    let mut d: u64 = 5;
    let mut step: u64 = 2;
    assert forall|k: nat| 2 <= k < 5 && k < v implies #[trigger] ((v as nat) % k) != 0 by {
        if k == 4 && (v as nat) % k == 0 {
            lemma_divisor_of_divisor(v as nat, k, 2);
        }
    }
    while d <= v / d
        invariant
            5 <= d <= 0x1_0004,
            v < 0x1_0000_0000,
            (d % 6 == 5 && step == 2) || (d % 6 == 1 && step == 4),
            v % 2 == 1,
            v % 3 != 0,
            forall|k: nat| 2 <= k < d && k < v ==> #[trigger] ((v as nat) % k) != 0,
        decreases 0x1_0004 - d,
    {
        proof {
            vstd::arithmetic::div_mod::lemma_fundamental_div_mod(v as int, d as int);
            vstd::arithmetic::div_mod::lemma_mod_bound(v as int, d as int);
            assert(d * d <= v) by (nonlinear_arith)
                requires
                    d <= v / d,
                    v == d * (v / d) + v % d,
                    v % d >= 0,
                    d >= 5,
            ;
            assert(d < 0x1_0000) by (nonlinear_arith)
                requires
                    d * d <= v,
                    v < 0x1_0000_0000,
            ;
            assert(d < v) by (nonlinear_arith)
                requires
                    d * d <= v,
                    d >= 5,
            ;
        }
        if v % d == 0 {
            assert(2 <= d as nat && (d as nat) < v && (v as nat) % (d as nat) == 0);
            return false;
        }
        proof {
            assert forall|k: nat| d < k < d + step && k < v implies #[trigger] ((v as nat) % k)
                != 0 by {
                if (v as nat) % k == 0 {
                    if k % 2 == 0 {
                        lemma_divisor_of_divisor(v as nat, k, 2);
                    } else {
                        assert(k % 3 == 0);
                        lemma_divisor_of_divisor(v as nat, k, 3);
                    }
                }
            }
        }
        d = d + step;
        step = 6 - step;
    }
    proof {
        // every divisor has a partner, and one of the two lies below d
        let x = v as nat;
        vstd::arithmetic::div_mod::lemma_fundamental_div_mod(v as int, d as int);
        vstd::arithmetic::div_mod::lemma_mod_bound(v as int, d as int);
        assert(x < d * d) by (nonlinear_arith)
            requires
                d > v / d,
                v == d * (v / d) + v % d,
                v % d < d,
                d >= 5,
                x == v,
        ;
        assert forall|k: nat| 2 <= k < x implies #[trigger] (x % k) != 0 by {
            if x % k == 0 && k >= d {
                let e = x / k;
                vstd::arithmetic::div_mod::lemma_fundamental_div_mod(x as int, k as int);
                assert(x == k * e);
                assert(2 <= e < d && x == e * k) by (nonlinear_arith)
                    requires
                        x == k * e,
                        d <= k < x,
                        x < d * d,
                        e >= 0,
                ;
                vstd::arithmetic::div_mod::lemma_fundamental_div_mod_converse(
                    x as int,
                    e as int,
                    k as int,
                    0,
                );
                assert(x % e == 0);
            }
        }
    }
    true
}

/// What [`probably_prime`] says of `x` with `n_iter` random rounds. A
/// number with a small divisor is composite, and below the square of the
/// small divisor limit that decides. A larger number must also pass Miller
/// and Rabin's test to the base two, the strong Lucas test, and `n_iter`
/// rounds of Miller and Rabin's test to random bases.
pub open spec fn probable_prime(x: nat, n_iter: nat) -> bool {
    x >= 2 && !has_small_divisor(x) && (x < SMALL_DIVISOR_LIMIT * SMALL_DIVISOR_LIMIT || (
    miller_rabin(x, 1, true) && lucas_test(x) && miller_rabin(x, n_iter, false)))
}

/// Up to the square of the small divisor limit the test is exact; beyond
/// it, an even number never passes.
pub proof fn lemma_probable_prime_small(x: nat, n_iter: nat)
    ensures
        x < SMALL_DIVISOR_LIMIT * SMALL_DIVISOR_LIMIT ==> probable_prime(x, n_iter) == is_prime(x),
        x > 2 && x % 2 == 0 ==> !probable_prime(x, n_iter),
{
    if x < SMALL_DIVISOR_LIMIT * SMALL_DIVISOR_LIMIT {
        lemma_small_divisors_decide(x);
    }
    if x > 2 && x % 2 == 0 {
        assert(2nat < SMALL_DIVISOR_LIMIT && 2nat < x && x % 2nat == 0);
    }
}

/// Whether `x` is probably prime: trial division by the small divisors,
/// then for a large number Miller and Rabin's test to the base two, the
/// strong Lucas test, and Miller and Rabin's test to `n_iter` random bases.
/// See [`probable_prime`]. The answer for a number below the square of the
/// small divisor limit is exact.
pub fn probably_prime(x: &BigNat, n_iter: usize) -> (r: bool)
    ensures
        r == probable_prime(x@, n_iter as nat),
        x@ < SMALL_DIVISOR_LIMIT * SMALL_DIVISOR_LIMIT ==> r == is_prime(x@),
        x@ <= 1 ==> !r,
        x@ == 2 || x@ == 3 ==> r,
        x@ > 2 && x@ % 2 == 0 ==> !r,
{
    proof {
        lemma_probable_prime_small(x@, n_iter as nat);
        if x@ == 2 || x@ == 3 {
            assert(is_prime(x@));
        }
    }
    match x.to_u64() {
        Some(v) => {
            if v < 2 {
                return false;
            }
            if v < 0x1_0000_0000 {
                return small_prime(v);
            }
        },
        None => {},
    }
    if small_divisor(x) {
        return false;
    }
    probably_prime_miller_rabin(x, 1, true) && probably_prime_lucas(x)
        && probably_prime_miller_rabin(x, n_iter, false)
}

/// Draws `count` numbers below `bound` from `rand_chacha::ChaChaRng`, seeded
/// with `seed` by `rand::SeedableRng::seed_from_u64`; each draw is one call
/// of `num_bigint_dig::RandBigInt::gen_biguint_below`, which yields a number
/// below the bound and panics on a zero bound. The generator is
/// deterministic, so the draws are a function of the seed, the bound and
/// their position.
#[verifier::external_body]
fn draw_witnesses(seed: u64, bound: &[u8], count: usize) -> (r: Vec<Vec<u8>>)
    requires
        be_value(bound@) != 0,
    ensures
        r@.len() == count,
        forall|i: int|
            0 <= i < count ==> (#[trigger] r@[i])@ == be_bytes(
                witness_draw(seed, be_value(bound@), i as nat),
            ) && be_value(r@[i]@) < be_value(bound@),
{
    let mut rng = <rand_chacha::ChaChaRng as rand::SeedableRng>::seed_from_u64(seed);
    let b = num_bigint_dig::BigUint::from_bytes_be(bound);
    (0..count).map(
        |_| num_bigint_dig::RandBigInt::gen_biguint_below(&mut rng, &b).to_bytes_be(),
    ).collect()
}

} // verus!
