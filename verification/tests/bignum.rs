use accumulators::bigint::{BigInt, Sign};
use accumulators::bignat::BigNat;
use num_bigint_dig::RandBigInt;
use num_integer::Integer;
use rand::thread_rng;

fn lib_uint(x: &num_bigint_dig::BigUint) -> BigNat {
    BigNat::from_bytes_be(&x.to_bytes_be())
}

fn outside_uint(x: &BigNat) -> num_bigint_dig::BigUint {
    num_bigint_dig::BigUint::from_bytes_be(&x.to_bytes_be())
}

fn lib_int(x: &num_bigint_dig::BigInt) -> BigInt {
    let (sign, bytes) = x.to_bytes_be();
    let magnitude = BigNat::from_bytes_be(&bytes);
    match sign {
        num_bigint_dig::Sign::Minus => BigInt::from_biguint(Sign::Minus, magnitude),
        num_bigint_dig::Sign::NoSign => BigInt::from_biguint(Sign::NoSign, magnitude),
        num_bigint_dig::Sign::Plus => BigInt::from_biguint(Sign::Plus, magnitude),
    }
}

#[test]
fn bytes_are_big_endian_and_minimal() {
    assert_eq!(BigNat::from_bytes_be(&[]), BigNat::zero());
    assert_eq!(BigNat::from_bytes_be(&[0, 0, 0]), BigNat::zero());
    assert_eq!(BigNat::from_bytes_be(&[0, 1, 2]), BigNat::from_u64(258));
    assert_eq!(BigNat::from_bytes_be(b"A"), BigNat::from_u64(65));
    assert_eq!(BigNat::from_bytes_be(b"AB"), BigNat::from_u64(16706));

    assert_eq!(BigNat::zero().to_bytes_be(), vec![0u8]);
    assert_eq!(BigNat::from_u64(1125).to_bytes_be(), vec![4u8, 101]);
    assert_eq!(BigNat::from_u64(256).to_bytes_be(), vec![1u8, 0]);
    assert_eq!(
        BigNat::from_u64(u64::MAX).to_bytes_be(),
        vec![0xffu8, 0xff, 0xff, 0xff, 0xff, 0xff, 0xff, 0xff]
    );
    assert_eq!(
        BigNat::from_bytes_be(&[1, 0, 0, 0, 0, 0, 0, 0, 0]).to_bytes_be(),
        vec![1u8, 0, 0, 0, 0, 0, 0, 0, 0]
    );
}

#[test]
fn machine_integers_convert_both_ways() {
    for v in [0u64, 1, 2, 255, 256, 65535, 1 << 32, u64::MAX].iter() {
        let x = BigNat::from_u64(*v);
        assert_eq!(x.to_u64(), Some(*v));
        assert_eq!(x.is_zero(), *v == 0);
        assert_eq!(x.is_one(), *v == 1);
        assert_eq!(x.is_odd(), *v % 2 == 1);
        assert_eq!(x.is_even(), *v % 2 == 0);
    }
    let beyond = BigNat::from_u64(u64::MAX).add(&BigNat::one());
    assert_eq!(beyond.to_u64(), None);
    assert!(!beyond.is_zero());
    assert!(!beyond.is_one());
    assert_eq!(beyond.bits(), 65);
    assert_eq!(BigNat::zero().bits(), 0);
    assert_eq!(BigNat::one().bits(), 1);
    assert_eq!(BigNat::from_u64(255).bits(), 8);
    assert_eq!(BigNat::from_u64(256).bits(), 9);
}

#[test]
fn unsigned_arithmetic_agrees_with_the_outside_crate() {
    let mut rng = thread_rng();
    for bits in [0usize, 1, 8, 63, 64, 65, 128, 200, 1024].iter() {
        for _ in 0..20 {
            let a0 = rng.gen_biguint(*bits);
            let b0 = rng.gen_biguint(*bits / 2 + 1);
            let m0 = rng.gen_biguint(*bits + 3) + 1u32;
            let (a, b, m) = (lib_uint(&a0), lib_uint(&b0), lib_uint(&m0));

            assert_eq!(outside_uint(&a.add(&b)), &a0 + &b0);
            assert_eq!(outside_uint(&a.mul(&b)), &a0 * &b0);
            if b0 <= a0 {
                assert_eq!(outside_uint(&a.sub(&b)), &a0 - &b0);
            }
            let (q, r) = a.div_rem(&m);
            assert_eq!(outside_uint(&q), &a0 / &m0);
            assert_eq!(outside_uint(&r), &a0 % &m0);
            assert_eq!(a.div_floor(&m), q);
            assert_eq!(a.mod_floor(&m), r);
            assert_eq!(outside_uint(&a.modpow(&b, &m)), a0.modpow(&b0, &m0));
            assert_eq!(a.lt(&b), a0 < b0);
            assert_eq!(a.le(&b), a0 <= b0);
            assert_eq!(a.equals(&b), a0 == b0);
            assert_eq!(a == b, a0 == b0);
            assert_eq!(a.bits(), a0.bits());
            assert_eq!(a.is_odd(), a0.is_odd());
            assert_eq!(a.rem_u32(65547) as u64, (&a0 % 65547u32).to_bytes_be().iter().fold(0u64, |acc, b| acc * 256 + *b as u64));
            assert_eq!(a.clone(), a);
        }
    }
}

#[test]
fn small_cases_of_unsigned_arithmetic() {
    let six = BigNat::from_u64(6);
    let four = BigNat::from_u64(4);
    assert_eq!(six.add(&four), BigNat::from_u64(10));
    assert_eq!(six.sub(&four), BigNat::from_u64(2));
    assert_eq!(six.sub(&six), BigNat::zero());
    assert_eq!(six.mul(&four), BigNat::from_u64(24));
    assert_eq!(six.div_rem(&four), (BigNat::one(), BigNat::from_u64(2)));
    assert_eq!(six.modpow(&four, &BigNat::from_u64(7)), BigNat::from_u64(1));
    assert_eq!(six.modpow(&four, &BigNat::from_u64(10)), BigNat::from_u64(6));
    // the modulus one, odd and small, and an even modulus
    assert_eq!(six.modpow(&four, &BigNat::one()), BigNat::zero());
    assert_eq!(six.modpow(&BigNat::zero(), &BigNat::one()), BigNat::zero());
    assert_eq!(six.modpow(&BigNat::zero(), &four), BigNat::one());
    assert_eq!(BigNat::zero().modpow(&BigNat::zero(), &four), BigNat::one());
    assert_eq!(BigNat::zero().modpow(&six, &four), BigNat::zero());
    assert_eq!(six.rem_u32(4), 2);
    assert_eq!(six.rem_u32(7), 6);
    assert_eq!(BigNat::from_u64(u64::MAX).rem_u32(1_000_003), (u64::MAX % 1_000_003) as u32);
    assert!(four.lt(&six));
    assert!(!six.lt(&six));
    assert!(six.le(&six));
}

#[test]
fn scrub_leaves_zero() {
    let mut secret = BigNat::from_bytes_be(&[0xab; 40]);
    secret.scrub();
    assert_eq!(secret, BigNat::zero());
    assert_eq!(secret.to_bytes_be(), vec![0u8]);
    let mut nothing = BigNat::zero();
    nothing.scrub();
    assert!(nothing.is_zero());
    // a scrubbed number is a number like any other
    assert_eq!(secret.add(&BigNat::one()), BigNat::one());
}

#[test]
fn signs_and_magnitudes() {
    let five = BigNat::from_u64(5);
    assert_eq!(BigInt::from_biguint(Sign::Plus, five.clone()), BigInt::from_i64(5));
    assert_eq!(BigInt::from_biguint(Sign::Minus, five.clone()), BigInt::from_i64(-5));
    assert_eq!(BigInt::from_biguint(Sign::NoSign, five.clone()), BigInt::zero());
    assert_eq!(BigInt::from_biguint(Sign::Minus, BigNat::zero()), BigInt::zero());

    assert_eq!(BigInt::from_i64(-5).sign(), Sign::Minus);
    assert_eq!(BigInt::from_i64(0).sign(), Sign::NoSign);
    assert_eq!(BigInt::from_i64(5).sign(), Sign::Plus);
    assert!(BigInt::from_i64(-5).is_negative());
    assert!(!BigInt::zero().is_negative());
    assert!(BigInt::zero().is_zero());
    assert!(BigInt::one().is_one());
    assert!(!BigInt::from_i64(-1).is_one());
    assert!(BigInt::from_i64(-3).is_odd());
    assert!(!BigInt::from_i64(-4).is_odd());

    assert_eq!(BigInt::from_i64(-5).magnitude(), five);
    assert_eq!(BigInt::from_i64(-5).abs(), BigInt::from_i64(5));
    assert_eq!(BigInt::from_i64(-5).neg(), BigInt::from_i64(5));
    assert_eq!(BigInt::zero().neg(), BigInt::zero());
    assert_eq!(BigInt::from_i64(5).to_biguint(), Some(five));
    assert_eq!(BigInt::from_i64(0).to_biguint(), Some(BigNat::zero()));
    assert_eq!(BigInt::from_i64(-5).to_biguint(), None);

    assert_eq!(
        BigInt::from_i64(i64::MIN).magnitude(),
        BigNat::from_u64(1 << 63)
    );
    assert_eq!(BigInt::from_i64(i64::MAX).magnitude(), BigNat::from_u64(i64::MAX as u64));
}

#[test]
fn signed_bytes_carry_a_sign_byte() {
    assert_eq!(BigInt::from_i64(258).to_bytes_be(), (0u8, vec![1u8, 2]));
    assert_eq!(BigInt::from_i64(-258).to_bytes_be(), (1u8, vec![1u8, 2]));
    assert_eq!(BigInt::zero().to_bytes_be(), (0u8, vec![0u8]));
}

#[test]
fn signed_arithmetic_on_small_numbers() {
    for a in -12i64..13 {
        for b in -12i64..13 {
            let x = BigInt::from_i64(a);
            let y = BigInt::from_i64(b);
            assert_eq!(x.add(&y), BigInt::from_i64(a + b));
            assert_eq!(x.sub(&y), BigInt::from_i64(a - b));
            assert_eq!(x.mul(&y), BigInt::from_i64(a * b));
            assert_eq!(x.equals(&y), a == b);
            if b != 0 {
                // rounding toward zero, as the machine does
                assert_eq!(x.div_rem(&y), (BigInt::from_i64(a / b), BigInt::from_i64(a % b)));
                // rounding down
                assert_eq!(
                    x.div_mod_floor(&y),
                    (BigInt::from_i64(a.div_floor(&b)), BigInt::from_i64(a.mod_floor(&b)))
                );
            }
            if b > 0 {
                assert_eq!(
                    x.mod_floor(&BigNat::from_u64(b as u64)),
                    BigNat::from_u64(a.rem_euclid(b) as u64)
                );
            }
        }
    }
}

#[test]
fn signed_arithmetic_agrees_with_the_outside_crate() {
    let mut rng = thread_rng();
    for _ in 0..200 {
        let a0 = rng.gen_bigint(300);
        let b0 = rng.gen_bigint(140);
        let (a, b) = (lib_int(&a0), lib_int(&b0));
        assert_eq!(a.add(&b), lib_int(&(&a0 + &b0)));
        assert_eq!(a.sub(&b), lib_int(&(&a0 - &b0)));
        assert_eq!(a.mul(&b), lib_int(&(&a0 * &b0)));
        if !b.is_zero() {
            let (q0, r0) = a0.div_rem(&b0);
            assert_eq!(a.div_rem(&b), (lib_int(&q0), lib_int(&r0)));
            let (q0, r0) = a0.div_mod_floor(&b0);
            assert_eq!(a.div_mod_floor(&b), (lib_int(&q0), lib_int(&r0)));
        }
    }
}

#[test]
fn signed_numbers_as_one_byte_string() {
    assert_eq!(BigInt::from_i64(258).to_signed_bytes_be(), vec![0u8, 1, 2]);
    assert_eq!(BigInt::from_i64(-258).to_signed_bytes_be(), vec![1u8, 1, 2]);
    assert_eq!(BigInt::zero().to_signed_bytes_be(), vec![0u8, 0]);
    for v in [0i64, 1, -1, 255, -256, i64::MAX, i64::MIN].iter() {
        let x = BigInt::from_i64(*v);
        assert_eq!(BigInt::from_signed_bytes_be(&x.to_signed_bytes_be()), Some(x));
    }
    // leading zeros of the magnitude are accepted, and so is minus zero
    assert_eq!(
        BigInt::from_signed_bytes_be(&[1, 0, 0, 5]),
        Some(BigInt::from_i64(-5))
    );
    assert_eq!(BigInt::from_signed_bytes_be(&[1, 0]), Some(BigInt::zero()));
    assert_eq!(BigInt::from_signed_bytes_be(&[0]), Some(BigInt::zero()));
    assert_eq!(BigInt::from_signed_bytes_be(&[]), None);
    assert_eq!(BigInt::from_signed_bytes_be(&[2, 5]), None);
}
