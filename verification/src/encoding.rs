//! Big-endian byte strings and the natural numbers they stand for.
//!
//! Every integer of this library is hashed and handed out as an unsigned
//! big-endian byte string of minimal length. This module fixes that
//! encoding and proves that it is a bijection between natural numbers and
//! minimal byte strings.

use vstd::prelude::*;

verus! {

/// The number that a big-endian byte string stands for. Leading zero bytes
/// do not change it; the empty string stands for zero.
pub open spec fn be_value(s: Seq<u8>) -> nat
    decreases s.len(),
{
    if s.len() == 0 {
        0
    } else {
        be_value(s.drop_last()) * 256 + s.last() as nat
    }
}

/// The minimal big-endian byte string of `n`. Zero is the single byte `0`.
pub open spec fn be_bytes(n: nat) -> Seq<u8>
    decreases n,
{
    if n < 256 {
        seq![n as u8]
    } else {
        be_bytes(n / 256).push((n % 256) as u8)
    }
}

/// A byte string is minimal when it is not empty and carries no leading zero
/// byte, the single byte `0` excepted.
pub open spec fn is_minimal(s: Seq<u8>) -> bool {
    s.len() >= 1 && (s.len() == 1 || s[0] != 0)
}

/// The big-endian byte string of `n` padded with leading zeros to exactly
/// `width` bytes; the high part of `n` is cut off where it does not fit.
pub open spec fn be_fixed(n: nat, width: nat) -> Seq<u8>
    decreases width,
{
    if width == 0 {
        Seq::<u8>::empty()
    } else {
        be_fixed(n / 256, (width - 1) as nat).push((n % 256) as u8)
    }
}

/// A string that starts with a non-zero byte stands for a positive number.
pub proof fn lemma_leading_nonzero_positive(s: Seq<u8>)
    requires
        s.len() >= 1,
        s[0] != 0,
    ensures
        be_value(s) > 0,
    decreases s.len(),
{
    if s.len() == 1 {
        assert(s.drop_last().len() == 0);
        assert(be_value(s.drop_last()) == 0);
    } else {
        assert(s.drop_last()[0] == s[0]);
        lemma_leading_nonzero_positive(s.drop_last());
    }
}

/// `be_bytes` yields a minimal string that stands for its argument.
pub proof fn lemma_be_bytes_value(n: nat)
    ensures
        is_minimal(be_bytes(n)),
        be_value(be_bytes(n)) == n,
    decreases n,
{
    if n < 256 {
        let s = seq![n as u8];
        assert(s.drop_last().len() == 0);
        assert(be_value(s.drop_last()) == 0);
    } else {
        let hi = be_bytes(n / 256);
        lemma_be_bytes_value(n / 256);
        let s = hi.push((n % 256) as u8);
        assert(s.drop_last() =~= hi);
        assert(s[0] == hi[0]);
        if hi.len() == 1 {
            assert(hi.drop_last().len() == 0);
            assert(be_value(hi.drop_last()) == 0);
            assert(be_value(hi) == hi[0] as nat);
        }
    }
}

/// A minimal string is the `be_bytes` of its value: the encoding is unique.
pub proof fn lemma_minimal_is_be_bytes(s: Seq<u8>)
    requires
        is_minimal(s),
    ensures
        s == be_bytes(be_value(s)),
    decreases s.len(),
{
    if s.len() == 1 {
        assert(s.drop_last().len() == 0);
        assert(be_value(s.drop_last()) == 0);
        assert(s =~= seq![s[0]]);
    } else {
        let hi = s.drop_last();
        assert(hi[0] == s[0]);
        lemma_leading_nonzero_positive(hi);
        lemma_minimal_is_be_bytes(hi);
        let v = be_value(s);
        assert(v / 256 == be_value(hi));
        assert(v % 256 == s.last() as nat);
        assert(s =~= hi.push(s.last()));
    }
}

/// The value of a string is its first byte, moved up by the length of the
/// rest, plus the value of the rest.
pub proof fn lemma_be_value_head(s: Seq<u8>)
    requires
        s.len() >= 1,
    ensures
        be_value(s) == s[0] as nat * vstd::arithmetic::power::pow(256, (s.len() - 1) as nat)
            + be_value(s.drop_first()),
    decreases s.len(),
{
    if s.len() == 1 {
        vstd::arithmetic::power::lemma_pow0(256);
        assert(s.drop_last().len() == 0);
        assert(s.drop_first().len() == 0);
        assert(be_value(s.drop_last()) == 0);
        assert(be_value(s.drop_first()) == 0);
    } else {
        let hi = s.drop_last();
        lemma_be_value_head(hi);
        assert(hi[0] == s[0]);
        assert(hi.drop_first() =~= s.drop_first().drop_last());
        assert(s.drop_first().last() == s.last());
        let p = vstd::arithmetic::power::pow(256, (hi.len() - 1) as nat);
        assert(vstd::arithmetic::power::pow(256, (s.len() - 1) as nat) == 256 * p) by {
            reveal(vstd::arithmetic::power::pow);
        }
        let f = s[0] as nat;
        let m = be_value(hi.drop_first());
        assert((f * p + m) * 256 == f * (256 * p) + m * 256) by (nonlinear_arith);
    }
}

/// A string of `len` bytes stands for a number below `256^len`.
pub proof fn lemma_be_value_bound(s: Seq<u8>)
    ensures
        be_value(s) < vstd::arithmetic::power::pow(256, s.len()),
    decreases s.len(),
{
    if s.len() == 0 {
        vstd::arithmetic::power::lemma_pow0(256);
    } else {
        lemma_be_value_bound(s.drop_last());
        let p = vstd::arithmetic::power::pow(256, (s.len() - 1) as nat);
        assert(vstd::arithmetic::power::pow(256, s.len()) == 256 * p) by {
            reveal(vstd::arithmetic::power::pow);
        }
    }
}

/// `be_fixed` has the width asked for and stands for `n` cut to that width.
pub proof fn lemma_be_fixed_value(n: nat, width: nat)
    ensures
        be_fixed(n, width).len() == width,
        be_value(be_fixed(n, width)) == n % (vstd::arithmetic::power::pow(256, width) as nat),
    decreases width,
{
    if width == 0 {
        vstd::arithmetic::power::lemma_pow0(256);
    } else {
        let w1 = (width - 1) as nat;
        lemma_be_fixed_value(n / 256, w1);
        let hi = be_fixed(n / 256, w1);
        let s = hi.push((n % 256) as u8);
        assert(s.drop_last() =~= hi);
        let p = vstd::arithmetic::power::pow(256, w1);
        vstd::arithmetic::power::lemma_pow_positive(256, w1);
        assert(vstd::arithmetic::power::pow(256, width) == 256 * p) by {
            reveal(vstd::arithmetic::power::pow);
        }
        vstd::arithmetic::div_mod::lemma_mod_breakdown(n as int, 256, p);
    }
}

/// The eight big-endian bytes of a 64-bit number, as `byteorder`'s
/// `BigEndian::write_u64` lays them out: the most significant byte first.
#[verifier::external_body]
pub(crate) fn be64(v: u64) -> (r: Vec<u8>)
    ensures
        r@ == be_fixed(v as nat, 8),
{
    let mut buf = [0u8; 8];
    <byteorder::BigEndian as byteorder::ByteOrder>::write_u64(&mut buf, v);
    buf.to_vec()
}

/// The two big-endian bytes of a 16-bit number, as `byteorder`'s
/// `BigEndian::write_u16` lays them out: the most significant byte first.
#[verifier::external_body]
pub(crate) fn be16(v: u16) -> (r: Vec<u8>)
    ensures
        r@ == be_fixed(v as nat, 2),
{
    let mut buf = [0u8; 2];
    <byteorder::BigEndian as byteorder::ByteOrder>::write_u16(&mut buf, v);
    buf.to_vec()
}

/// Overwrites every byte with zero: for bytes of a secret that must not
/// outlive their use.
pub fn wipe(bytes: &mut Vec<u8>)
    ensures
        final(bytes)@.len() == old(bytes)@.len(),
        forall|i: int| 0 <= i < final(bytes)@.len() ==> final(bytes)@[i] == 0,
{
    let n = bytes.len();
    let mut i: usize = 0;
    while i < n
        invariant
            n == bytes@.len(),
            n == old(bytes)@.len(),
            i <= n,
            forall|j: int| 0 <= j < i ==> bytes@[j] == 0,
        decreases n - i,
    {
        bytes.set(i, 0u8);
        i += 1;
    }
}

/// One more byte at the end of a string: the value so far moves up by one
/// byte.
pub proof fn lemma_be_value_step(s: Seq<u8>, i: int)
    requires
        0 <= i < s.len(),
    ensures
        be_value(s.take(i + 1)) == be_value(s.take(i)) * 256 + s[i] as nat,
{
    assert(s.take(i + 1).drop_last() =~= s.take(i));
    assert(s.take(i + 1).last() == s[i]);
}

/// The remainder of the number that big-endian bytes stand for, by a small
/// divisor. The bytes are taken four at a time.
pub fn bytes_rem(bytes: &[u8], d: u32) -> (r: u32)
    requires
        d > 0,
    ensures
        r == be_value(bytes@) % (d as nat),
{
    let n = bytes.len();
    let head = n % 4;
    let mut acc: u64 = 0;
    let mut i: usize = 0;
    proof {
        assert(bytes@.take(0).len() == 0);
        vstd::arithmetic::div_mod::lemma_small_mod(0, d as nat);
    }
    while i < head
        invariant
            n == bytes@.len(),
            head == n % 4,
            i <= head,
            d > 0,
            acc < d,
            acc as nat == be_value(bytes@.take(i as int)) % (d as nat),
        decreases head - i,
    {
        proof {
            lemma_be_value_step(bytes@, i as int);
            let b = bytes@[i as int] as int;
            let v = be_value(bytes@.take(i as int)) as int;
            vstd::arithmetic::div_mod::lemma_mul_mod_noop_general(v, 256, d as int);
            vstd::arithmetic::div_mod::lemma_add_mod_noop(v * 256, b, d as int);
            vstd::arithmetic::div_mod::lemma_add_mod_noop((v % (d as int)) * 256, b, d as int);
            assert((acc * 256) as int == (v % (d as int)) * 256);
        }
        acc = (acc * 256 + bytes[i] as u64) % (d as u64);
        i += 1;
    }
    while i < n
        invariant
            n == bytes@.len(),
            i <= n,
            (n - i) % 4 == 0,
            d > 0,
            acc < d,
            acc as nat == be_value(bytes@.take(i as int)) % (d as nat),
        decreases n - i,
    {
        let chunk: u64 = (bytes[i] as u64) * 0x100_0000 + (bytes[i + 1] as u64) * 0x1_0000 + (bytes[i
            + 2] as u64) * 0x100 + bytes[i + 3] as u64;
        proof {
            lemma_be_value_step(bytes@, i as int);
            lemma_be_value_step(bytes@, i + 1);
            lemma_be_value_step(bytes@, i + 2);
            lemma_be_value_step(bytes@, i + 3);
            let v = be_value(bytes@.take(i as int)) as int;
            assert(be_value(bytes@.take(i + 4)) == v * 0x1_0000_0000 + chunk);
            vstd::arithmetic::div_mod::lemma_mul_mod_noop_general(v, 0x1_0000_0000, d as int);
            vstd::arithmetic::div_mod::lemma_add_mod_noop(v * 0x1_0000_0000, chunk as int, d as int);
            vstd::arithmetic::div_mod::lemma_add_mod_noop(
                (v % (d as int)) * 0x1_0000_0000,
                chunk as int,
                d as int,
            );
            assert((acc * 0x1_0000_0000) as int == (v % (d as int)) * 0x1_0000_0000);
        }
        acc = (acc * 0x1_0000_0000 + chunk) % (d as u64);
        i += 4;
    }
    assert(bytes@.take(n as int) =~= bytes@);
    acc as u32
}

} // verus!
