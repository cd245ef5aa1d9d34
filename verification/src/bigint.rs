//! Signed big integers: a sign and a magnitude.
//!
//! All arithmetic here is built from the unsigned operations of
//! [`BigNat`] and proved against the integers.

use vstd::prelude::*;
use crate::bignat::BigNat;

verus! {

/// The sign of a [`BigInt`].
#[derive(Clone, Copy, Debug, PartialEq, Eq, Structural)]
pub enum Sign {
    Minus,
    NoSign,
    Plus,
}

/// The absolute value of an integer.
pub open spec fn abs(a: int) -> nat {
    if a < 0 {
        (-a) as nat
    } else {
        a as nat
    }
}

/// The quotient of a division that rounds toward zero.
pub open spec fn trunc_div(a: int, b: int) -> int
    recommends
        b != 0,
{
    let q = (abs(a) / abs(b)) as int;
    if (a < 0) != (b < 0) {
        -q
    } else {
        q
    }
}

/// The remainder of a division that rounds toward zero: it has the sign of
/// the dividend.
pub open spec fn trunc_rem(a: int, b: int) -> int
    recommends
        b != 0,
{
    let r = (abs(a) % abs(b)) as int;
    if a < 0 {
        -r
    } else {
        r
    }
}

/// The quotient of a division that rounds down.
pub open spec fn floor_div(a: int, b: int) -> int
    recommends
        b != 0,
{
    if b > 0 {
        a / b
    } else {
        (-a) / (-b)
    }
}

/// The remainder of a division that rounds down: it has the sign of the
/// divisor.
pub open spec fn floor_mod(a: int, b: int) -> int
    recommends
        b != 0,
{
    if b > 0 {
        a % b
    } else {
        -((-a) % (-b))
    }
}

/// Rounding toward zero splits the dividend as every division does.
pub proof fn lemma_trunc_div_rem(a: int, b: int)
    requires
        b != 0,
    ensures
        a == trunc_div(a, b) * b + trunc_rem(a, b),
        abs(trunc_rem(a, b)) < abs(b),
{
    let x = abs(a) as int;
    let y = abs(b) as int;
    vstd::arithmetic::div_mod::lemma_fundamental_div_mod(x, y);
    vstd::arithmetic::div_mod::lemma_mod_bound(x, y);
    let q = x / y;
    let r = x % y;
    assert(x == y * q + r);
    assert((-q) * b == -(q * b)) by (nonlinear_arith);
    assert(q * (-y) == -(q * y)) by (nonlinear_arith);
    assert(y * q == q * y) by (nonlinear_arith);
}

/// The bytes of a signed number: a sign byte, `0` for a number that is not
/// negative and `1` for a negative one, and the minimal big-endian bytes of
/// the magnitude.
pub open spec fn signed_bytes(a: int) -> Seq<u8> {
    seq![if a < 0 {
        1u8
    } else {
        0u8
    }] + crate::encoding::be_bytes(abs(a))
}

/// A signed integer of any size.
#[derive(Debug)]
pub struct BigInt {
    negative: bool,
    magnitude: BigNat,
}

impl View for BigInt {
    type V = int;

    closed spec fn view(&self) -> int {
        if self.negative {
            -(self.magnitude@ as int)
        } else {
            self.magnitude@ as int
        }
    }
}

impl Clone for BigInt {
    fn clone(&self) -> (r: Self)
        ensures
            r@ == self@,
    {
        proof {
            use_type_invariant(self);
        }
        BigInt { negative: self.negative, magnitude: self.magnitude.clone() }
    }
}

impl PartialEq for BigInt {
    fn eq(&self, other: &BigInt) -> (r: bool) {
        self.equals(other)
    }
}

impl Eq for BigInt {

}

impl vstd::std_specs::cmp::PartialEqSpecImpl for BigInt {
    open spec fn obeys_eq_spec() -> bool {
        true
    }

    open spec fn eq_spec(&self, other: &BigInt) -> bool {
        self@ == other@
    }
}

impl BigInt {
    #[verifier::type_invariant]
    spec fn zero_is_unsigned(self) -> bool {
        self.magnitude@ == 0 ==> !self.negative
    }

    /// The number zero.
    pub fn zero() -> (r: BigInt)
        ensures
            r@ == 0,
    {
        BigInt { negative: false, magnitude: BigNat::zero() }
    }

    /// The number one.
    pub fn one() -> (r: BigInt)
        ensures
            r@ == 1,
    {
        BigInt { negative: false, magnitude: BigNat::one() }
    }

    /// The integer with the given sign and magnitude. With `NoSign` the
    /// result is zero whatever the magnitude; a zero magnitude gives zero
    /// whatever the sign.
    pub fn from_biguint(sign: Sign, magnitude: BigNat) -> (r: BigInt)
        ensures
            r@ == match sign {
                Sign::Minus => -(magnitude@ as int),
                Sign::NoSign => 0,
                Sign::Plus => magnitude@ as int,
            },
    {
        match sign {
            Sign::NoSign => BigInt::zero(),
            Sign::Plus => BigInt { negative: false, magnitude },
            Sign::Minus => {
                let negative = !magnitude.is_zero();
                BigInt { negative, magnitude }
            },
        }
    }

    /// The big integer with the value of a machine integer.
    pub fn from_i64(v: i64) -> (r: BigInt)
        ensures
            r@ == v,
    {
        if v >= 0 {
            BigInt { negative: false, magnitude: BigNat::from_u64(v as u64) }
        } else if v == i64::MIN {
            BigInt { negative: true, magnitude: BigNat::from_u64(0x8000_0000_0000_0000u64) }
        } else {
            BigInt { negative: true, magnitude: BigNat::from_u64((-v) as u64) }
        }
    }

    /// The sign: `NoSign` for zero.
    pub fn sign(&self) -> (r: Sign)
        ensures
            r == (if self@ < 0 {
                Sign::Minus
            } else if self@ == 0 {
                Sign::NoSign
            } else {
                Sign::Plus
            }),
    {
        proof {
            use_type_invariant(self);
        }
        if self.negative {
            Sign::Minus
        } else if self.magnitude.is_zero() {
            Sign::NoSign
        } else {
            Sign::Plus
        }
    }

    /// Whether the number is below zero.
    pub fn is_negative(&self) -> (r: bool)
        ensures
            r == (self@ < 0),
    {
        proof {
            use_type_invariant(self);
        }
        self.negative
    }

    /// Whether the number is zero.
    pub fn is_zero(&self) -> (r: bool)
        ensures
            r == (self@ == 0),
    {
        proof {
            use_type_invariant(self);
        }
        self.magnitude.is_zero()
    }

    /// Whether the number is one.
    pub fn is_one(&self) -> (r: bool)
        ensures
            r == (self@ == 1),
    {
        proof {
            use_type_invariant(self);
        }
        !self.negative && self.magnitude.is_one()
    }

    /// Whether the number is odd.
    pub fn is_odd(&self) -> (r: bool)
        ensures
            r == (self@ % 2 == 1),
    {
        proof {
            use_type_invariant(self);
        }
        self.magnitude.is_odd()
    }

    /// The absolute value as an unsigned integer.
    pub fn magnitude(&self) -> (r: BigNat)
        ensures
            r@ == abs(self@),
    {
        self.magnitude.clone()
    }

    /// The value as an unsigned integer, where it is not negative.
    pub fn to_biguint(&self) -> (r: Option<BigNat>)
        ensures
            self@ >= 0 ==> r.is_some() && r.unwrap()@ == self@,
            self@ < 0 ==> r.is_none(),
    {
        proof {
            use_type_invariant(self);
        }
        if self.negative {
            None
        } else {
            Some(self.magnitude.clone())
        }
    }

    /// The sign byte and the minimal big-endian bytes of the magnitude: the
    /// sign byte is `0` for a number that is not negative and `1` for a
    /// negative one.
    pub fn to_bytes_be(&self) -> (r: (u8, Vec<u8>))
        ensures
            r.0 == (if self@ < 0 {
                1u8
            } else {
                0u8
            }),
            r.1@ == crate::encoding::be_bytes(abs(self@)),
    {
        proof {
            use_type_invariant(self);
        }
        let sign: u8 = if self.negative {
            1
        } else {
            0
        };
        (sign, self.magnitude.to_bytes_be())
    }

    /// The number as one byte string: the sign byte, `0` for a number that
    /// is not negative and `1` for a negative one, and after it the minimal
    /// big-endian bytes of the magnitude.
    pub fn to_signed_bytes_be(&self) -> (r: Vec<u8>)
        ensures
            r@ == signed_bytes(self@),
    {
        let (sign, magnitude) = self.to_bytes_be();
        let mut bytes: Vec<u8> = Vec::new();
        bytes.push(sign);
        let mut i: usize = 0;
        while i < magnitude.len()
            invariant
                i <= magnitude@.len(),
                bytes@ == seq![sign] + magnitude@.take(i as int),
            decreases magnitude@.len() - i,
        {
            bytes.push(magnitude[i]);
            i += 1;
            assert(bytes@ =~= seq![sign] + magnitude@.take(i as int));
        }
        assert(magnitude@.take(magnitude@.len() as int) =~= magnitude@);
        bytes
    }

    /// The number that a sign byte and the big-endian bytes of a magnitude
    /// after it stand for. There is none where the string is empty or the
    /// sign byte is neither `0` nor `1`.
    pub fn from_signed_bytes_be(bytes: &[u8]) -> (r: Option<BigInt>)
        ensures
            r.is_some() == (bytes@.len() >= 1 && bytes@[0] <= 1),
            r.is_some() ==> r.unwrap()@ == (if bytes@[0] == 1 {
                -(crate::encoding::be_value(bytes@.drop_first()) as int)
            } else {
                crate::encoding::be_value(bytes@.drop_first()) as int
            }),
    {
        if bytes.len() == 0 {
            return None;
        }
        let sign = bytes[0];
        if sign > 1 {
            return None;
        }
        let rest = vstd::slice::slice_subrange(bytes, 1, bytes.len());
        assert(rest@ =~= bytes@.drop_first());
        let magnitude = BigNat::from_bytes_be(rest);
        if sign == 1 {
            Some(BigInt::from_biguint(Sign::Minus, magnitude))
        } else {
            Some(BigInt::from_biguint(Sign::Plus, magnitude))
        }
    }

    /// The absolute value.
    pub fn abs(&self) -> (r: BigInt)
        ensures
            r@ == abs(self@),
    {
        BigInt { negative: false, magnitude: self.magnitude.clone() }
    }

    /// `-self`.
    pub fn neg(&self) -> (r: BigInt)
        ensures
            r@ == -self@,
    {
        proof {
            use_type_invariant(self);
        }
        let negative = !self.negative && !self.magnitude.is_zero();
        BigInt { negative, magnitude: self.magnitude.clone() }
    }

    /// `self + other`.
    pub fn add(&self, other: &BigInt) -> (r: BigInt)
        ensures
            r@ == self@ + other@,
    {
        proof {
            use_type_invariant(self);
            use_type_invariant(other);
        }
        if self.negative == other.negative {
            let magnitude = self.magnitude.add(&other.magnitude);
            BigInt { negative: self.negative, magnitude }
        } else if other.magnitude.le(&self.magnitude) {
            let magnitude = self.magnitude.sub(&other.magnitude);
            let negative = self.negative && !magnitude.is_zero();
            BigInt { negative, magnitude }
        } else {
            let magnitude = other.magnitude.sub(&self.magnitude);
            BigInt { negative: other.negative, magnitude }
        }
    }

    /// `self - other`.
    pub fn sub(&self, other: &BigInt) -> (r: BigInt)
        ensures
            r@ == self@ - other@,
    {
        let minus = other.neg();
        self.add(&minus)
    }

    /// `self * other`.
    pub fn mul(&self, other: &BigInt) -> (r: BigInt)
        ensures
            r@ == self@ * other@,
    {
        proof {
            use_type_invariant(self);
            use_type_invariant(other);
        }
        let magnitude = self.magnitude.mul(&other.magnitude);
        let negative = (self.negative != other.negative) && !magnitude.is_zero();
        proof {
            let a = self.magnitude@ as int;
            let b = other.magnitude@ as int;
            assert((-a) * b == -(a * b)) by (nonlinear_arith);
            assert(a * (-b) == -(a * b)) by (nonlinear_arith);
            assert((-a) * (-b) == a * b) by (nonlinear_arith);
        }
        BigInt { negative, magnitude }
    }

    /// Quotient and remainder of the division that rounds toward zero, by a
    /// divisor other than zero.
    pub fn div_rem(&self, other: &BigInt) -> (r: (BigInt, BigInt))
        requires
            other@ != 0,
        ensures
            r.0@ == trunc_div(self@, other@),
            r.1@ == trunc_rem(self@, other@),
    {
        proof {
            use_type_invariant(self);
            use_type_invariant(other);
        }
        let (q, m) = self.magnitude.div_rem(&other.magnitude);
        let q_negative = (self.negative != other.negative) && !q.is_zero();
        let m_negative = self.negative && !m.is_zero();
        (BigInt { negative: q_negative, magnitude: q }, BigInt { negative: m_negative, magnitude: m })
    }

    /// `self mod modulus` for a positive modulus: the remainder that is not
    /// negative.
    pub fn mod_floor(&self, modulus: &BigNat) -> (r: BigNat)
        requires
            modulus@ != 0,
        ensures
            r@ == self@ % (modulus@ as int),
    {
        proof {
            use_type_invariant(self);
        }
        let m = self.magnitude.mod_floor(modulus);
        if self.negative && !m.is_zero() {
            proof {
                let a = self.magnitude@ as int;
                let n = modulus@ as int;
                vstd::arithmetic::div_mod::lemma_fundamental_div_mod(a, n);
                vstd::arithmetic::div_mod::lemma_mod_bound(a, n);
                let q = a / n;
                assert(-a == (-q - 1) * n + (n - a % n)) by (nonlinear_arith)
                    requires
                        a == n * q + a % n,
                ;
                vstd::arithmetic::div_mod::lemma_fundamental_div_mod_converse(
                    -a,
                    n,
                    -q - 1,
                    n - a % n,
                );
            }
            modulus.sub(&m)
        } else {
            proof {
                if self.negative {
                    let a = self.magnitude@ as int;
                    let n = modulus@ as int;
                    vstd::arithmetic::div_mod::lemma_fundamental_div_mod(a, n);
                    let q = a / n;
                    assert(-a == (-q) * n + 0) by (nonlinear_arith)
                        requires
                            a == n * q + 0,
                    ;
                    vstd::arithmetic::div_mod::lemma_fundamental_div_mod_converse(-a, n, -q, 0);
                }
            }
            m
        }
    }

    /// Quotient and remainder of the division that rounds down, by a
    /// divisor other than zero.
    pub fn div_mod_floor(&self, other: &BigInt) -> (r: (BigInt, BigInt))
        requires
            other@ != 0,
        ensures
            r.0@ == floor_div(self@, other@),
            r.1@ == floor_mod(self@, other@),
            self@ == r.0@ * other@ + r.1@,
    {
        proof {
            use_type_invariant(other);
        }
        let flip = other.is_negative();
        let dividend = if flip {
            self.neg()
        } else {
            self.clone()
        };
        let divisor = other.magnitude();
        let rest = dividend.mod_floor(&divisor);
        let rest_signed = BigInt::from_biguint(Sign::Plus, rest);
        let exact = dividend.sub(&rest_signed);
        let (quotient, _) = exact.div_rem(&BigInt::from_biguint(Sign::Plus, divisor));
        proof {
            let a = dividend@;
            let b = divisor@ as int;
            vstd::arithmetic::div_mod::lemma_fundamental_div_mod(a, b);
            let k = a / b;
            assert(exact@ == b * k);
            // the division of an exact multiple leaves nothing over
            lemma_trunc_div_rem(exact@, b);
            let q = trunc_div(exact@, b);
            let m = trunc_rem(exact@, b);
            assert(abs(exact@) == abs(k) * abs(b)) by (nonlinear_arith)
                requires
                    exact@ == b * k,
                    b > 0,
            ;
            vstd::arithmetic::div_mod::lemma_fundamental_div_mod_converse(
                abs(exact@) as int,
                b,
                abs(k) as int,
                0,
            );
            assert(m == 0);
            assert(q == k) by (nonlinear_arith)
                requires
                    b * k == q * b + 0,
                    b > 0,
            ;
            assert(k * (-b) == -(k * b)) by (nonlinear_arith);
            assert(b * k == k * b) by (nonlinear_arith);
        }
        let remainder = if flip {
            rest_signed.neg()
        } else {
            rest_signed
        };
        (quotient, remainder)
    }

    /// Whether `self` and `other` are the same number.
    pub fn equals(&self, other: &BigInt) -> (r: bool)
        ensures
            r == (self@ == other@),
    {
        proof {
            use_type_invariant(self);
            use_type_invariant(other);
        }
        self.negative == other.negative && self.magnitude.equals(&other.magnitude)
    }
}

} // verus!
