//! Random primes of a given bit length.

use vstd::prelude::*;
use vstd::arithmetic::power::pow;
use rand_chacha::ChaCha20Rng;
use crate::bignat::{bit_length, BigNat};
use crate::encoding::{be_value, wipe};
use crate::error::Error;
use crate::hash::PRIME_ROUNDS;
use crate::math::gcd::gcd;
use crate::math::prime::{probable_prime, probably_prime};

verus! {

/// The ChaCha random number generator of the `rand_chacha` crate: the
/// source of randomness that setup and sampling draw from.
#[verifier::external_type_specification]
#[verifier::external_body]
pub struct ExChaCha20Rng(rand_chacha::ChaCha20Rng);

/// How many candidates prime sampling tries before it gives up.
pub const MAX_PRIME_ATTEMPTS: u32 = 0x100_0000;

/// The bits of the leading byte that a candidate of `bits` bits may use.
pub open spec fn leading_mask(bits: nat) -> u8 {
    let b = bits % 8;
    if b == 0 {
        0xffu8
    } else if b == 1 {
        0x01u8
    } else if b == 2 {
        0x03u8
    } else if b == 3 {
        0x07u8
    } else if b == 4 {
        0x0fu8
    } else if b == 5 {
        0x1fu8
    } else if b == 6 {
        0x3fu8
    } else {
        0x7fu8
    }
}

/// The two top bits of a candidate of `bits` bits, as far as they lie in
/// the leading byte.
pub open spec fn leading_top(bits: nat) -> u8 {
    let b = bits % 8;
    if b == 0 {
        0xc0u8
    } else if b == 1 {
        0x01u8
    } else if b == 2 {
        0x03u8
    } else if b == 3 {
        0x06u8
    } else if b == 4 {
        0x0cu8
    } else if b == 5 {
        0x18u8
    } else if b == 6 {
        0x30u8
    } else {
        0x60u8
    }
}

/// The candidate that random bytes are shaped into: the bits above the
/// length asked for are cleared, the two top bits and the lowest bit are
/// set.
pub open spec fn shaped(raw: Seq<u8>, bits: nat) -> Seq<u8>
    recommends
        bits >= 2,
        raw.len() == (bits + 7) / 8,
{
    let first = raw.update(0, (raw[0] & leading_mask(bits)) | leading_top(bits));
    let second = if bits % 8 == 1 {
        first.update(1, first[1] | 0x80u8)
    } else {
        first
    };
    second.update(second.len() - 1, second[second.len() - 1] | 0x01u8)
}

/// `256^k` is `2^(8k)`.
proof fn lemma_pow256(k: nat)
    ensures
        pow(256, k) == pow(2, 8 * k),
        pow(256, k) > 0,
    decreases k,
{
    reveal(pow);
    if k > 0 {
        lemma_pow256((k - 1) as nat);
        vstd::arithmetic::power::lemma_pow_adds(2, 8, (8 * (k - 1)) as nat);
        assert(pow(2, 8) == 256) by {
            reveal_with_fuel(pow, 9);
        }
    }
}

/// A number between `2^(k-1)` and `2^k` has `k` binary digits.
proof fn lemma_bit_length_between(n: nat, k: nat)
    requires
        k >= 1,
        pow(2, (k - 1) as nat) <= n < pow(2, k),
    ensures
        bit_length(n) == k,
    decreases k,
{
    reveal(pow);
    if k == 1 {
        assert(pow(2, 0) == 1);
        assert(pow(2, 1) == 2);
        assert(n == 1);
        assert(bit_length(0) == 0);
    } else {
        let h = pow(2, (k - 2) as nat);
        assert(pow(2, (k - 1) as nat) == 2 * h);
        assert(pow(2, k) == 2 * (2 * h));
        lemma_bit_length_between(n / 2, (k - 1) as nat);
    }
}

/// The leading byte of a candidate lies between its top bits and its mask,
/// with the lowest bit set or not.
proof fn lemma_leading_byte(x: u8, m: u8, t: u8)
    requires
        (m == 0xff && t == 0xc0) || (m == 0x03 && t == 0x03) || (m == 0x07 && t == 0x06) || (m
            == 0x0f && t == 0x0c) || (m == 0x1f && t == 0x18) || (m == 0x3f && t == 0x30) || (m
            == 0x7f && t == 0x60) || (m == 0x01 && t == 0x01),
    ensures
        t <= ((x & m) | t) <= m,
        t <= (((x & m) | t) | 0x01u8) <= m,
{
    assert(t <= ((x & m) | t) <= m && t <= (((x & m) | t) | 0x01u8) <= m) by (bit_vector)
        requires
            (m == 0xff && t == 0xc0) || (m == 0x03 && t == 0x03) || (m == 0x07 && t == 0x06) || (m
                == 0x0f && t == 0x0c) || (m == 0x1f && t == 0x18) || (m == 0x3f && t == 0x30) || (m
                == 0x7f && t == 0x60) || (m == 0x01 && t == 0x01),
    ;
}

/// The byte after the leading byte, where it holds the second of the top
/// bits.
proof fn lemma_second_byte(y: u8)
    ensures
        (y | 0x80u8) >= 0x80,
        ((y | 0x80u8) | 0x01u8) >= 0x80,
{
    assert((y | 0x80u8) >= 0x80 && ((y | 0x80u8) | 0x01u8) >= 0x80) by (bit_vector);
}

/// A shaped candidate has exactly `bits` binary digits, and its two top
/// bits are set.
pub proof fn lemma_shaped_bounds(raw: Seq<u8>, bits: nat)
    requires
        bits >= 2,
        raw.len() == (bits + 7) / 8,
    ensures
        3 * pow(2, (bits - 2) as nat) <= be_value(shaped(raw, bits)) < pow(2, bits),
        bit_length(be_value(shaped(raw, bits))) == bits,
{
    let s = shaped(raw, bits);
    let len = raw.len();
    let b = bits % 8;
    let m = leading_mask(bits);
    let t = leading_top(bits);
    let v = be_value(s);
    let rest = s.drop_first();
    let p = pow(256, (len - 1) as nat);
    crate::encoding::lemma_be_value_head(s);
    crate::encoding::lemma_be_value_bound(rest);
    lemma_pow256((len - 1) as nat);
    lemma_leading_byte(raw[0], m, t);
    let f = s[0] as nat;
    assert(v == f * p + be_value(rest));
    let e = (8 * (len - 1)) as nat;
    assert(p == pow(2, e));
    vstd::arithmetic::power2::lemma2_to64();
    if b == 1 {
        // one bit in the leading byte, the next in the byte after it
        assert(len >= 2);
        assert(f == 1);
        lemma_second_byte(raw[1]);
        let g = s[1] as nat;
        assert(g >= 128);
        let rest2 = rest.drop_first();
        let unit = pow(256, (len - 2) as nat);
        crate::encoding::lemma_be_value_head(rest);
        crate::encoding::lemma_be_value_bound(rest2);
        lemma_pow256((len - 2) as nat);
        assert(rest[0] == s[1]);
        let e1 = (8 * (len - 2)) as nat;
        assert(unit == pow(2, e1));
        vstd::arithmetic::power::lemma_pow_adds(2, 8, e1);
        vstd::arithmetic::power::lemma_pow_adds(2, 7, e1);
        vstd::arithmetic::power::lemma_pow_adds(2, 9, e1);
        vstd::arithmetic::power::lemma_pow_adds(2, 1, (bits - 2) as nat);
        assert(pow(2, 1) == 2 && pow(2, 7) == 128 && pow(2, 8) == 256 && pow(2, 9) == 512) by {
            reveal_with_fuel(pow, 10);
        }
        assert(bits - 2 == 7 + e1 && bits == 9 + e1);
        assert(p == 256 * unit);
        assert(v >= 384 * unit && v < 512 * unit) by (nonlinear_arith)
            requires
                v == 1 * p + be_value(rest),
                be_value(rest) == g * unit + be_value(rest2),
                be_value(rest) < p,
                g >= 128,
                p == 256 * unit,
                unit > 0,
        ;
        assert(3 * pow(2, (bits - 2) as nat) == 384 * unit) by (nonlinear_arith)
            requires
                pow(2, (bits - 2) as nat) == 128 * unit,
        ;
        assert(pow(2, (bits - 1) as nat) == 256 * unit);
    } else {
        let bb: nat = if b == 0 {
            8
        } else {
            b
        };
        assert(bits == e + bb);
        assert(t as nat == 3 * pow(2, (bb - 2) as nat) && m as nat + 1 == pow(2, bb)) by {
            reveal_with_fuel(pow, 10);
        }
        vstd::arithmetic::power::lemma_pow_adds(2, (bb - 2) as nat, e);
        vstd::arithmetic::power::lemma_pow_adds(2, bb, e);
        vstd::arithmetic::power::lemma_pow_adds(2, (bb - 1) as nat, e);
        let lo = pow(2, (bb - 2) as nat);
        assert(pow(2, (bb - 1) as nat) == 2 * lo && pow(2, bb) == 4 * lo) by {
            reveal_with_fuel(pow, 10);
        }
        assert(v >= 3 * (lo * p) && v < 4 * (lo * p)) by (nonlinear_arith)
            requires
                v == f * p + be_value(rest),
                0 <= be_value(rest) < p,
                3 * lo <= f,
                f + 1 <= 4 * lo,
                p > 0,
        ;
        assert(pow(2, (bits - 2) as nat) == lo * p);
        assert(pow(2, bits) == (4 * lo) * p);
        assert((4 * lo) * p == 4 * (lo * p)) by (nonlinear_arith);
        assert(pow(2, (bits - 1) as nat) == (2 * lo) * p);
        assert((2 * lo) * p == 2 * (lo * p)) by (nonlinear_arith);
    }
    lemma_bit_length_between(v, bits);
}

/// The product of two numbers whose two top bits are set is never a bit
/// short: for a number of `a` bits and one of `b` bits it has `a + b` bits.
pub proof fn lemma_top_bits_product(p: nat, q: nat, a: nat, b: nat)
    requires
        a >= 2,
        b >= 2,
        3 * pow(2, (a - 2) as nat) <= p < pow(2, a),
        3 * pow(2, (b - 2) as nat) <= q < pow(2, b),
    ensures
        pow(2, (a + b - 1) as nat) <= p * q < pow(2, a + b),
        bit_length(p * q) == a + b,
{
    let x = pow(2, (a - 2) as nat);
    let y = pow(2, (b - 2) as nat);
    vstd::arithmetic::power::lemma_pow_positive(2, (a - 2) as nat);
    vstd::arithmetic::power::lemma_pow_positive(2, (b - 2) as nat);
    vstd::arithmetic::power::lemma_pow_adds(2, (a - 2) as nat, (b - 2) as nat);
    vstd::arithmetic::power::lemma_pow_adds(2, 2, (a - 2) as nat);
    vstd::arithmetic::power::lemma_pow_adds(2, 2, (b - 2) as nat);
    vstd::arithmetic::power::lemma_pow_adds(2, 3, (a + b - 4) as nat);
    vstd::arithmetic::power::lemma_pow_adds(2, 4, (a + b - 4) as nat);
    assert(pow(2, 2) == 4 && pow(2, 3) == 8 && pow(2, 4) == 16) by {
        reveal_with_fuel(pow, 5);
    }
    assert(8 * (x * y) <= p * q < 16 * (x * y)) by (nonlinear_arith)
        requires
            3 * x <= p < 4 * x,
            3 * y <= q < 4 * y,
            x > 0,
            y > 0,
    ;
    lemma_bit_length_between(p * q, a + b);
}

/// Shapes random bytes into a candidate prime of `bits` bits: an odd
/// number whose two top bits are set. See [`shaped`]. The bytes are wiped
/// once the candidate is made of them.
pub fn shape_candidate(raw: Vec<u8>, bits: usize) -> (r: BigNat)
    requires
        bits >= 2,
        raw@.len() == (bits + 7) / 8,
    ensures
        r@ == be_value(shaped(raw@, bits as nat)),
        r@ % 2 == 1,
        bit_length(r@) == bits,
        3 * pow(2, (bits - 2) as nat) <= r@ < pow(2, bits as nat),
{
    proof {
        lemma_shaped_bounds(raw@, bits as nat);
    }
    let mut bytes = raw;
    let b = bits % 8;
    let mask: u8 = if b == 0 {
        0xff
    } else if b == 1 {
        0x01
    } else if b == 2 {
        0x03
    } else if b == 3 {
        0x07
    } else if b == 4 {
        0x0f
    } else if b == 5 {
        0x1f
    } else if b == 6 {
        0x3f
    } else {
        0x7f
    };
    let top: u8 = if b == 0 {
        0xc0
    } else if b == 1 {
        0x01
    } else if b == 2 {
        0x03
    } else if b == 3 {
        0x06
    } else if b == 4 {
        0x0c
    } else if b == 5 {
        0x18
    } else if b == 6 {
        0x30
    } else {
        0x60
    };
    let first = (bytes[0] & mask) | top;
    bytes.set(0, first);
    if b == 1 {
        let second = bytes[1] | 0x80;
        bytes.set(1, second);
    }
    let last_index = bytes.len() - 1;
    let last = bytes[last_index] | 0x01;
    bytes.set(last_index, last);
    proof {
        let low = bytes@[last_index as int];
        let before = bytes@.drop_last();
        assert(low % 2 == 1) by (bit_vector)
            requires
                low == last,
                exists|y: u8| last == y | 0x01u8,
        ;
        assert(bytes@.last() == low);
    }
    let candidate = BigNat::from_bytes_be(bytes.as_slice());
    // a candidate may become a secret prime: its bytes are not left behind
    wipe(&mut bytes);
    candidate
}

/// Samples a random prime of `bits` bits: candidates of [`shape_candidate`]
/// are drawn from the generator until one is a probable prime. The two top
/// bits are set, so that the product of two such primes of equal length is
/// never a bit short.
pub fn gen_prime(rng: &mut ChaCha20Rng, bits: usize) -> (r: Result<BigNat, Error>)
    requires
        bits >= 2,
    ensures
        match r {
            Ok(p) => probable_prime(p@, PRIME_ROUNDS as nat) && bit_length(p@) == bits && p@ % 2
                == 1 && p@ >= 3 * pow(2, (bits - 2) as nat),
            Err(e) => e == Error::PrimeNotFound,
        },
{
    let bytes_len = bits / 8 + (if bits % 8 == 0 {
        0usize
    } else {
        1usize
    });
    let mut attempts: u32 = 0;
    while attempts < MAX_PRIME_ATTEMPTS
        invariant
            bits >= 2,
            bytes_len == (bits + 7) / 8,
        decreases MAX_PRIME_ATTEMPTS - attempts,
    {
        let raw = random_bytes(rng, bytes_len);
        let p = shape_candidate(raw, bits);
        if probably_prime(&p, PRIME_ROUNDS) {
            return Ok(p);
        }
        attempts = attempts + 1;
    }
    Err(Error::PrimeNotFound)
}

/// Whether two machine integers are coprime.
pub fn coprime(a: u32, b: u32) -> (r: bool)
    ensures
        r == (gcd(a as nat, b as nat) == 1),
{
    let mut x = a;
    let mut y = b;
    while y != 0
        invariant
            gcd(x as nat, y as nat) == gcd(a as nat, b as nat),
        decreases y,
    {
        let rest = x % y;
        x = y;
        y = rest;
    }
    x == 1
}

/// Samples a random prime of `bits` bits as [`gen_prime`] does, but one
/// that can serve with the public exponent `exponent`: a candidate `p` is
/// passed over, before it is tested, unless `p - 1` is coprime to the
/// exponent.
pub fn gen_prime_for_exponent(rng: &mut ChaCha20Rng, bits: usize, exponent: u32) -> (r: Result<
    BigNat,
    Error,
>)
    requires
        bits >= 2,
        exponent > 0,
    ensures
        match r {
            Ok(p) => probable_prime(p@, PRIME_ROUNDS as nat) && bit_length(p@) == bits && p@ % 2
                == 1 && p@ >= 3 * pow(2, (bits - 2) as nat) && gcd(
                exponent as nat,
                ((p@ - 1) % (exponent as int)) as nat,
            ) == 1,
            Err(e) => e == Error::PrimeNotFound,
        },
{
    let bytes_len = bits / 8 + (if bits % 8 == 0 {
        0usize
    } else {
        1usize
    });
    let mut attempts: u32 = 0;
    while attempts < MAX_PRIME_ATTEMPTS
        invariant
            bits >= 2,
            exponent > 0,
            bytes_len == (bits + 7) / 8,
        decreases MAX_PRIME_ATTEMPTS - attempts,
    {
        attempts = attempts + 1;
        let raw = random_bytes(rng, bytes_len);
        let p = shape_candidate(raw, bits);
        let rest = p.rem_u32(exponent);
        let below: u32 = if rest == 0 {
            exponent - 1
        } else {
            rest - 1
        };
        proof {
            let e = exponent as int;
            let v = p@ as int;
            vstd::arithmetic::div_mod::lemma_fundamental_div_mod(v, e);
            let k = v / e;
            if rest == 0 {
                assert(v - 1 == (k - 1) * e + (e - 1)) by (nonlinear_arith)
                    requires
                        v == e * k + 0,
                ;
                vstd::arithmetic::div_mod::lemma_fundamental_div_mod_converse(
                    v - 1,
                    e,
                    v / e - 1,
                    e - 1,
                );
            } else {
                assert(v - 1 == k * e + (rest - 1)) by (nonlinear_arith)
                    requires
                        v == e * k + rest,
                ;
                vstd::arithmetic::div_mod::lemma_fundamental_div_mod_converse(
                    v - 1,
                    e,
                    v / e,
                    rest - 1,
                );
            }
            assert(below == (v - 1) % e);
        }
        if !coprime(exponent, below) {
            continue;
        }
        if probably_prime(&p, PRIME_ROUNDS) {
            return Ok(p);
        }
    }
    Err(Error::PrimeNotFound)
}

/// Random bytes from the generator, by `rand::RngCore::fill_bytes`: as many
/// as asked for. Nothing is known of what they hold.
#[verifier::external_body]
fn random_bytes(rng: &mut ChaCha20Rng, len: usize) -> (r: Vec<u8>)
    ensures
        r@.len() == len,
{
    let mut buf = vec![0u8; len];
    rand::RngCore::fill_bytes(rng, &mut buf);
    buf
}

} // verus!
