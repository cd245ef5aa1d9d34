//! Unsigned big integers.
//!
//! A [`BigNat`] holds a big integer of the `num-bigint-dig` crate and is
//! viewed as the natural number that it stands for. All arithmetic is done
//! by that crate; what it computes is taken on trust, and stated in the
//! contracts of the private functions at the end of this file.

use vstd::prelude::*;
use vstd::arithmetic::power::pow;
use crate::encoding::{be_bytes, be_value, bytes_rem};

verus! {

/// The big unsigned integer of the `num-bigint-dig` crate.
#[verifier::external_type_specification]
#[verifier::external_body]
pub struct ExBigUint(num_bigint_dig::BigUint);

/// The digits that a big integer of the `num-bigint-dig` crate holds: the
/// least significant first, in base `2^64`.
pub uninterp spec fn digits_of(x: num_bigint_dig::BigUint) -> Seq<u64>;

/// The number that little-endian digits in base `2^64` stand for.
pub open spec fn le_value(digits: Seq<u64>) -> nat
    decreases digits.len(),
{
    if digits.len() == 0 {
        0
    } else {
        digits[0] as nat + 0x1_0000_0000_0000_0000 * le_value(digits.drop_first())
    }
}

/// The number that a big integer of the `num-bigint-dig` crate stands for.
pub open spec fn value_of(x: num_bigint_dig::BigUint) -> nat {
    le_value(digits_of(x))
}

/// The number of binary digits of `n`: zero for zero.
pub open spec fn bit_length(n: nat) -> nat
    decreases n,
{
    if n == 0 {
        0
    } else {
        1 + bit_length(n / 2)
    }
}

/// An unsigned integer of any size.
#[derive(Debug)]
pub struct BigNat {
    inner: num_bigint_dig::BigUint,
}

impl View for BigNat {
    type V = nat;

    closed spec fn view(&self) -> nat {
        value_of(self.inner)
    }
}

impl Clone for BigNat {
    fn clone(&self) -> (r: Self)
        ensures
            r@ == self@,
    {
        BigNat { inner: raw_clone(&self.inner) }
    }
}

impl PartialEq for BigNat {
    fn eq(&self, other: &BigNat) -> (r: bool) {
        raw_eq(&self.inner, &other.inner)
    }
}

impl Eq for BigNat {

}

impl vstd::std_specs::cmp::PartialEqSpecImpl for BigNat {
    open spec fn obeys_eq_spec() -> bool {
        true
    }

    open spec fn eq_spec(&self, other: &BigNat) -> bool {
        self@ == other@
    }
}

impl BigNat {
    /// The number zero.
    pub fn zero() -> (r: BigNat)
        ensures
            r@ == 0,
    {
        BigNat { inner: raw_from_u64(0) }
    }

    /// The number one.
    pub fn one() -> (r: BigNat)
        ensures
            r@ == 1,
    {
        BigNat { inner: raw_from_u64(1) }
    }

    /// The number that the big-endian bytes stand for. Leading zero bytes
    /// are accepted, and so is the empty string, which stands for zero.
    pub fn from_bytes_be(bytes: &[u8]) -> (r: BigNat)
        ensures
            r@ == be_value(bytes@),
    {
        BigNat { inner: raw_from_bytes_be(bytes) }
    }

    /// The minimal big-endian bytes of the number; zero is the single byte
    /// `0`.
    pub fn to_bytes_be(&self) -> (r: Vec<u8>)
        ensures
            r@ == be_bytes(self@),
    {
        raw_to_bytes_be(&self.inner)
    }

    /// The big integer with the value of a machine integer.
    pub fn from_u64(v: u64) -> (r: BigNat)
        ensures
            r@ == v,
    {
        BigNat { inner: raw_from_u64(v) }
    }

    /// The value as a machine integer, where it fits.
    pub fn to_u64(&self) -> (r: Option<u64>)
        ensures
            self@ <= u64::MAX ==> r == Some(self@ as u64),
            self@ > u64::MAX ==> r.is_none(),
    {
        raw_to_u64(&self.inner)
    }

    /// Overwrites the digits of the number with zeros, and leaves zero: for
    /// secrets that must not outlive their use.
    pub fn scrub(&mut self)
        ensures
            final(self)@ == 0,
    {
        let bits = raw_bits(&self.inner);
        let count = bits / 64 + (if bits % 64 == 0 {
            0usize
        } else {
            1usize
        });
        let mut zeros: Vec<u64> = Vec::new();
        let mut i: usize = 0;
        while i < count
            invariant
                i <= count,
                zeros@.len() == i,
                le_value(zeros@) == 0,
            decreases count - i,
        {
            let ghost before = zeros@;
            zeros.insert(0, 0u64);
            i += 1;
            assert(zeros@.drop_first() =~= before);
        }
        raw_overwrite(&mut self.inner, zeros.as_slice());
    }

    /// Whether the number is zero.
    pub fn is_zero(&self) -> (r: bool)
        ensures
            r == (self@ == 0),
    {
        raw_bits(&self.inner) == 0
    }

    /// Whether the number is one.
    pub fn is_one(&self) -> (r: bool)
        ensures
            r == (self@ == 1),
    {
        match raw_to_u64(&self.inner) {
            Some(v) => v == 1,
            None => false,
        }
    }

    /// Whether the number is odd.
    pub fn is_odd(&self) -> (r: bool)
        ensures
            r == (self@ % 2 == 1),
    {
        raw_is_odd(&self.inner)
    }

    /// Whether the number is even.
    pub fn is_even(&self) -> (r: bool)
        ensures
            r == (self@ % 2 == 0),
    {
        !self.is_odd()
    }

    /// The remainder of the number by a small divisor.
    pub fn rem_u32(&self, d: u32) -> (r: u32)
        requires
            d > 0,
        ensures
            r == self@ % (d as nat),
    {
        let bytes = self.to_bytes_be();
        proof {
            crate::encoding::lemma_be_bytes_value(self@);
        }
        bytes_rem(bytes.as_slice(), d)
    }

    /// The number of binary digits: zero for zero.
    pub fn bits(&self) -> (r: usize)
        ensures
            r == bit_length(self@),
    {
        raw_bits(&self.inner)
    }

    /// `self + other`.
    pub fn add(&self, other: &BigNat) -> (r: BigNat)
        ensures
            r@ == self@ + other@,
    {
        BigNat { inner: raw_add(&self.inner, &other.inner) }
    }

    /// `self - other`, for `other` not above `self`.
    pub fn sub(&self, other: &BigNat) -> (r: BigNat)
        requires
            other@ <= self@,
        ensures
            r@ == self@ - other@,
    {
        BigNat { inner: raw_sub(&self.inner, &other.inner) }
    }

    /// `self * other`.
    pub fn mul(&self, other: &BigNat) -> (r: BigNat)
        ensures
            r@ == self@ * other@,
    {
        BigNat { inner: raw_mul(&self.inner, &other.inner) }
    }

    /// Quotient and remainder of `self` by a divisor other than zero.
    pub fn div_rem(&self, other: &BigNat) -> (r: (BigNat, BigNat))
        requires
            other@ != 0,
        ensures
            r.0@ == self@ / other@,
            r.1@ == self@ % other@,
    {
        let (q, m) = raw_div_rem(&self.inner, &other.inner);
        (BigNat { inner: q }, BigNat { inner: m })
    }

    /// `self / other`, rounded down, for a divisor other than zero.
    pub fn div_floor(&self, other: &BigNat) -> (r: BigNat)
        requires
            other@ != 0,
        ensures
            r@ == self@ / other@,
    {
        self.div_rem(other).0
    }

    /// `self mod other`, for a modulus other than zero.
    pub fn mod_floor(&self, other: &BigNat) -> (r: BigNat)
        requires
            other@ != 0,
        ensures
            r@ == self@ % other@,
    {
        self.div_rem(other).1
    }

    /// `self^exponent mod modulus`, for a modulus other than zero.
    pub fn modpow(&self, exponent: &BigNat, modulus: &BigNat) -> (r: BigNat)
        requires
            modulus@ != 0,
        ensures
            r@ == pow(self@ as int, exponent@) % (modulus@ as int),
    {
        BigNat { inner: raw_modpow(&self.inner, &exponent.inner, &modulus.inner) }
    }

    /// Whether `self < other`.
    pub fn lt(&self, other: &BigNat) -> (r: bool)
        ensures
            r == (self@ < other@),
    {
        raw_less(&self.inner, &other.inner)
    }

    /// Whether `self <= other`.
    pub fn le(&self, other: &BigNat) -> (r: bool)
        ensures
            r == (self@ <= other@),
    {
        !other.lt(self)
    }

    /// Whether `self` and `other` are the same number.
    pub fn equals(&self, other: &BigNat) -> (r: bool)
        ensures
            r == (self@ == other@),
    {
        raw_eq(&self.inner, &other.inner)
    }
}

/// `num_bigint_dig::BigUint::from_bytes_be`: the number that big-endian
/// bytes stand for.
#[verifier::external_body]
fn raw_from_bytes_be(bytes: &[u8]) -> (r: num_bigint_dig::BigUint)
    ensures
        value_of(r) == be_value(bytes@),
{
    num_bigint_dig::BigUint::from_bytes_be(bytes)
}

/// `num_bigint_dig::BigUint::to_bytes_be`: the big-endian bytes of the
/// number without leading zeros; zero gives the single byte `0`.
#[verifier::external_body]
fn raw_to_bytes_be(x: &num_bigint_dig::BigUint) -> (r: Vec<u8>)
    ensures
        r@ == be_bytes(value_of(*x)),
{
    x.to_bytes_be()
}

/// `From<u64>` of `num_bigint_dig::BigUint`: the big integer with the value
/// of the machine integer.
#[verifier::external_body]
fn raw_from_u64(v: u64) -> (r: num_bigint_dig::BigUint)
    ensures
        value_of(r) == v,
{
    num_bigint_dig::BigUint::from(v)
}

/// `num_traits::ToPrimitive::to_u64` of `num_bigint_dig::BigUint`: the
/// value as a machine integer, and none where it does not fit.
#[verifier::external_body]
fn raw_to_u64(x: &num_bigint_dig::BigUint) -> (r: Option<u64>)
    ensures
        value_of(*x) <= u64::MAX ==> r == Some(value_of(*x) as u64),
        value_of(*x) > u64::MAX ==> r.is_none(),
{
    num_traits::ToPrimitive::to_u64(x)
}

/// `Clone` of `num_bigint_dig::BigUint`: a copy with the same digits.
#[verifier::external_body]
fn raw_clone(x: &num_bigint_dig::BigUint) -> (r: num_bigint_dig::BigUint)
    ensures
        digits_of(r) == digits_of(*x),
{
    x.clone()
}

/// `==` of `num_bigint_dig::BigUint`: whether two big integers stand for
/// the same number.
#[verifier::external_body]
fn raw_eq(a: &num_bigint_dig::BigUint, b: &num_bigint_dig::BigUint) -> (r: bool)
    ensures
        r == (value_of(*a) == value_of(*b)),
{
    a == b
}

/// `<` of `num_bigint_dig::BigUint`.
#[verifier::external_body]
fn raw_less(a: &num_bigint_dig::BigUint, b: &num_bigint_dig::BigUint) -> (r: bool)
    ensures
        r == (value_of(*a) < value_of(*b)),
{
    a < b
}

/// `num_bigint_dig::BigUint::bits`: the fewest binary digits that express
/// the number, zero for zero.
#[verifier::external_body]
fn raw_bits(x: &num_bigint_dig::BigUint) -> (r: usize)
    ensures
        r == bit_length(value_of(*x)),
{
    x.bits()
}

/// `num_integer::Integer::is_odd` of `num_bigint_dig::BigUint`.
#[verifier::external_body]
fn raw_is_odd(x: &num_bigint_dig::BigUint) -> (r: bool)
    ensures
        r == (value_of(*x) % 2 == 1),
{
    num_integer::Integer::is_odd(x)
}

/// `num_bigint_dig::BigUint::assign_from_slice_native`: overwrites the
/// digits of `x` with the given little-endian digits in base `2^64`.
#[verifier::external_body]
fn raw_overwrite(x: &mut num_bigint_dig::BigUint, digits: &[u64])
    ensures
        value_of(*final(x)) == le_value(digits@),
{
    x.assign_from_slice_native(digits)
}

/// `+` of `num_bigint_dig::BigUint`.
#[verifier::external_body]
fn raw_add(a: &num_bigint_dig::BigUint, b: &num_bigint_dig::BigUint) -> (r: num_bigint_dig::BigUint)
    ensures
        value_of(r) == value_of(*a) + value_of(*b),
{
    a + b
}

/// `-` of `num_bigint_dig::BigUint`. The crate panics where the result
/// would be negative, so that case is left out.
#[verifier::external_body]
fn raw_sub(a: &num_bigint_dig::BigUint, b: &num_bigint_dig::BigUint) -> (r: num_bigint_dig::BigUint)
    requires
        value_of(*b) <= value_of(*a),
    ensures
        value_of(r) == value_of(*a) - value_of(*b),
{
    a - b
}

/// `*` of `num_bigint_dig::BigUint`.
#[verifier::external_body]
fn raw_mul(a: &num_bigint_dig::BigUint, b: &num_bigint_dig::BigUint) -> (r: num_bigint_dig::BigUint)
    ensures
        value_of(r) == value_of(*a) * value_of(*b),
{
    a * b
}

/// `num_integer::Integer::div_rem` of `num_bigint_dig::BigUint`: quotient
/// and remainder. The crate panics on a zero divisor, so that case is left
/// out.
#[verifier::external_body]
fn raw_div_rem(a: &num_bigint_dig::BigUint, b: &num_bigint_dig::BigUint) -> (r: (
    num_bigint_dig::BigUint,
    num_bigint_dig::BigUint,
))
    requires
        value_of(*b) != 0,
    ensures
        value_of(r.0) == value_of(*a) / value_of(*b),
        value_of(r.1) == value_of(*a) % value_of(*b),
{
    num_integer::Integer::div_rem(a, b)
}

/// `num_bigint_dig::BigUint::modpow`: the power `a^e` reduced modulo `n`.
/// The crate panics on a zero modulus, so that case is left out.
#[verifier::external_body]
fn raw_modpow(
    a: &num_bigint_dig::BigUint,
    e: &num_bigint_dig::BigUint,
    n: &num_bigint_dig::BigUint,
) -> (r: num_bigint_dig::BigUint)
    requires
        value_of(*n) != 0,
    ensures
        value_of(r) == pow(value_of(*a) as int, value_of(*e)) % (value_of(*n) as int),
{
    a.modpow(e, n)
}

} // verus!
