use accumulators::bigint::{BigInt, Sign};
use accumulators::bignat::BigNat;
use accumulators::math::gcd::{extended_gcd, ModInverse};
use accumulators::math::jacobi::jacobi;
use accumulators::math::power::{modpow_uint_int, pow_assign};
use accumulators::math::roots::{root_factor, shamir_trick};
use num_bigint_dig::{RandBigInt, RandPrime};
use num_traits::Pow;
use rand::{thread_rng, Rng};

fn lib_uint(x: &num_bigint_dig::BigUint) -> BigNat {
    BigNat::from_bytes_be(&x.to_bytes_be())
}

fn lib_int(x: &num_bigint_dig::BigInt) -> BigInt {
    let (sign, bytes) = x.to_bytes_be();
    let magnitude = BigNat::from_bytes_be(&bytes);
    match sign {
        num_bigint_dig::Sign::Minus => BigInt::from_biguint(Sign::Minus, magnitude),
        num_bigint_dig::Sign::NoSign => BigInt::from_biguint(Sign::NoSign, magnitude),
        num_bigint_dig::Sign::Plus => BigInt::from_biguint(Sign::Plus, magnitude),
    }
}

fn parse_uint(digits: &str) -> BigNat {
    lib_uint(&num_bigint_dig::BigUint::parse_bytes(digits.as_bytes(), 10).unwrap())
}

fn parse_int(digits: &str) -> BigInt {
    lib_int(&num_bigint_dig::BigInt::parse_bytes(digits.as_bytes(), 10).unwrap())
}

#[test]
fn test_pow_assign_basics() {
    for i in 0..1024 {
        for j in 0..128 {
            let res = num_bigint_dig::BigUint::from(i as u64).pow(j as u32);
            let mut res_big = BigNat::from_u64(i as u64);
            pow_assign(&mut res_big, &BigNat::from_u64(j as u64));
            assert_eq!(res_big, lib_uint(&res));
        }
    }
}

#[test]
fn test_quo_rem() {
    // Ref: https://www.wolframalpha.com/input/?i=QuotientRemainder%5B-10,+13%5D
    let (l, r) = &BigInt::from_i64(-10).div_mod_floor(&BigInt::from_i64(13));

    assert_eq!((l, r), (&BigInt::from_i64(-1), &BigInt::from_i64(3),));
}

#[test]
fn test_modpow() {
    let cases = vec![["49", "-6193420858199668535", "2881", "6"]];

    for case in &cases {
        let a = parse_uint(case[0]);
        let e = parse_int(case[1]);
        let n = parse_uint(case[2]);
        let expected = parse_uint(case[3]);

        let actual = modpow_uint_int(&a, &e, &n).unwrap();

        assert_eq!(expected, actual);
    }
}

#[test]
fn test_root_factor() {
    let mut rng = thread_rng();

    for _ in 0..10 {
        let n = lib_uint(&rng.gen_biguint(64));
        let g = lib_uint(&rng.gen_biguint(64));
        let m: usize = rng.gen_range(1..128);

        let x = (0..m)
            .map(|_| lib_uint(&rng.gen_biguint(64)))
            .collect::<Vec<_>>();

        let r = root_factor(&g, &x, &n);

        let mut xs = BigNat::one();
        for e in &x {
            xs = xs.mul(e);
        }
        let y = g.modpow(&xs, &n);

        for (root, x_i) in r.iter().zip(x.iter()) {
            // root is the x_i-th root of y
            // so we check that root^x_i = y
            assert_eq!(&root.clone().modpow(x_i, &n), &y);
        }
    }
}

#[test]
fn test_shamir_trick() {
    let mut rng = thread_rng();

    for _ in 0..30 {
        let n = lib_uint(&rng.gen_biguint(64));
        let g = lib_uint(&rng.gen_prime(64));

        let x = lib_uint(&rng.gen_prime(64));
        let y = lib_uint(&rng.gen_prime(64));
        let z = lib_uint(&rng.gen_prime(64));

        // the element we calc the root against
        let a = g.modpow(&x.mul(&y).mul(&z), &n);
        let root_x = g.modpow(&y.mul(&z), &n);
        let root_y = g.modpow(&x.mul(&z), &n);

        // make sure they are actual roots
        assert_eq!(
            &root_x.modpow(&x, &n),
            &a,
            "root_x is not the x-th root of a"
        );
        assert_eq!(
            &root_y.modpow(&y, &n),
            &a,
            "root_y is not the y-th root of a"
        );

        let root = shamir_trick(&root_x, &root_y, &x, &y, &n).unwrap();

        // root is the xy-th root of a
        // so we check that root^xy = a
        assert_eq!(&root.clone().modpow(&x.mul(&y), &n), &a);
    }
}

#[test]
fn test_extended_gcd_example() {
    // simple example for wikipedia
    let a = BigNat::from_u64(240);
    let b = BigNat::from_u64(46);
    let (q, s_k, t_k) = extended_gcd(&a, &b);

    assert_eq!(q, BigInt::from_i64(2));
    assert_eq!(s_k, BigInt::from_i64(-9));
    assert_eq!(t_k, BigInt::from_i64(47));
}

#[test]
fn test_extended_gcd_assumptions() {
    let mut rng = thread_rng();

    for i in 1..100 {
        let a = lib_uint(&rng.gen_biguint(i * 128));
        let b = lib_uint(&rng.gen_biguint(i * 128));
        let (q, s_k, t_k) = extended_gcd(&a, &b);

        let lhs = BigInt::from_biguint(Sign::Plus, a).mul(&s_k);
        let rhs = BigInt::from_biguint(Sign::Plus, b).mul(&t_k);
        assert_eq!(q, lhs.add(&rhs));
    }
}

#[test]
fn test_jacobi() {
    let cases = [
        [0, 1, 1],
        [0, -1, 1],
        [1, 1, 1],
        [1, -1, 1],
        [0, 5, 0],
        [1, 5, 1],
        [2, 5, -1],
        [-2, 5, -1],
        [2, -5, -1],
        [-2, -5, 1],
        [3, 5, -1],
        [5, 5, 0],
        [-5, 5, 0],
        [6, 5, 1],
        [6, -5, 1],
        [-6, 5, 1],
        [-6, -5, -1],
    ];

    for case in cases.iter() {
        let x = BigInt::from_i64(case[0]);
        let y = BigInt::from_i64(case[1]);

        assert_eq!(
            case[2] as isize,
            jacobi(&x, &y),
            "jacobi({:?}, {:?})",
            x,
            y
        );
    }
}

#[test]
fn test_mod_inverse() {
    let tests = [
        ["1234567", "458948883992"],
        ["239487239847", "2410312426921032588552076022197566074856950548502459942654116941958108831682612228890093858261341614673227141477904012196503648957050582631942730706805009223062734745341073406696246014589361659774041027169249453200378729434170325843778659198143763193776859869524088940195577346119843545301547043747207749969763750084308926339295559968882457872412993810129130294592999947926365264059284647209730384947211681434464714438488520940127459844288859336526896320919633919"],
        ["-10", "13"],
        ["-6193420858199668535", "2881"],
    ];

    for test in &tests {
        let element = parse_int(test[0]);
        let modulus = parse_int(test[1]);

        println!("{:?} modinv {:?}", element, modulus);
        let inverse = element.clone().mod_inverse(&modulus).unwrap();
        println!("inverse: {:?}", &inverse);
        let cmp = inverse.mul(&element).mod_floor(&modulus.magnitude());

        assert_eq!(
            cmp,
            BigNat::one(),
            "mod_inverse({:?}, {:?}) * {:?} % {:?} = {:?}, not 1",
            &element,
            &modulus,
            &element,
            &modulus,
            &cmp
        );
    }

    // exhaustive tests for small numbers
    for n in 2..100 {
        let modulus = BigInt::from_i64(n);
        for x in 1..n {
            for sign in vec![1i64, -1i64] {
                let element = BigInt::from_i64(sign * x as i64);
                let (gcd, _, _) = extended_gcd(&element.magnitude(), &modulus.magnitude());

                if !gcd.is_one() {
                    continue;
                }

                let inverse = element.clone().mod_inverse(&modulus).unwrap();
                let cmp = inverse.mul(&element).mod_floor(&modulus.magnitude());
                println!("inverse: {:?}", &inverse);
                assert_eq!(
                    cmp,
                    BigNat::one(),
                    "mod_inverse({:?}, {:?}) * {:?} % {:?} = {:?}, not 1",
                    &element,
                    &modulus,
                    &element,
                    &modulus,
                    &cmp
                );
            }
        }
    }
}

#[test]
fn root_factor_on_fixed_values() {
    let g = BigNat::from_u64(2);
    let n = BigNat::from_u64(1_000_003);
    let xs = vec![BigNat::from_u64(3), BigNat::from_u64(5), BigNat::from_u64(7)];
    let roots = root_factor(&g, &xs, &n);
    // 2^35, 2^21 and 2^15 modulo n
    assert_eq!(
        roots,
        vec![
            BigNat::from_u64((1u64 << 35) % 1_000_003),
            BigNat::from_u64((1u64 << 21) % 1_000_003),
            BigNat::from_u64(1u64 << 15),
        ]
    );
    // a single exponent leaves the base as it is, reduced or not
    let wide = BigNat::from_u64(5_000_000);
    assert_eq!(root_factor(&wide, &xs[..1], &n), vec![wide.clone()]);
    // two exponents
    assert_eq!(
        root_factor(&g, &xs[..2], &n),
        vec![BigNat::from_u64(32), BigNat::from_u64(8)]
    );
}

#[test]
fn shamir_trick_on_fixed_values() {
    // 2^15 is a cube root and 2^9 a fifth root of 2^45 modulo 1000003;
    // the trick gives 2^3, the fifteenth root
    let n = BigNat::from_u64(1_000_003);
    let root_x = BigNat::from_u64(1 << 15);
    let root_y = BigNat::from_u64(1 << 9);
    let x = BigNat::from_u64(3);
    let y = BigNat::from_u64(5);
    assert_eq!(
        shamir_trick(&root_x, &root_y, &x, &y, &n),
        Some(BigNat::from_u64(8))
    );
    // the roots must lead to the same element
    assert_eq!(shamir_trick(&root_x, &root_x, &x, &y, &n), None);
    // exponents that share a factor give an element that is no root
    let four = BigNat::from_u64(4);
    let weak = shamir_trick(&four, &four, &BigNat::from_u64(2), &BigNat::from_u64(2), &n).unwrap();
    assert_ne!(weak.modpow(&four, &n), BigNat::from_u64(16));
}

#[test]
fn extended_gcd_on_edge_cases() {
    let zero = BigNat::zero();
    let seven = BigNat::from_u64(7);
    assert_eq!(
        extended_gcd(&seven, &zero),
        (BigInt::from_i64(7), BigInt::one(), BigInt::zero())
    );
    assert_eq!(
        extended_gcd(&zero, &seven),
        (BigInt::from_i64(7), BigInt::zero(), BigInt::one())
    );
    assert_eq!(
        extended_gcd(&zero, &zero),
        (BigInt::zero(), BigInt::one(), BigInt::zero())
    );
    assert_eq!(
        extended_gcd(&seven, &seven),
        (BigInt::from_i64(7), BigInt::zero(), BigInt::one())
    );
    assert_eq!(
        extended_gcd(&BigNat::from_u64(5), &BigNat::from_u64(3)),
        (BigInt::one(), BigInt::from_i64(-1), BigInt::from_i64(2))
    );
}

#[test]
fn mod_inverse_on_fixed_values() {
    assert_eq!(
        BigNat::from_u64(3).mod_inverse(&BigNat::from_u64(7)),
        Some(BigNat::from_u64(5))
    );
    assert_eq!(
        BigNat::from_u64(3).mod_inverse(BigNat::from_u64(7)),
        Some(BigNat::from_u64(5))
    );
    assert_eq!(
        BigInt::from_i64(-3).mod_inverse(&BigInt::from_i64(7)),
        Some(BigInt::from_i64(2))
    );
    // a negative modulus counts by its absolute value
    assert_eq!(
        BigInt::from_i64(3).mod_inverse(BigInt::from_i64(-7)),
        Some(BigInt::from_i64(5))
    );
    // no inverse, the element equal to the modulus, the modulus one
    assert_eq!(BigNat::from_u64(6).mod_inverse(&BigNat::from_u64(9)), None);
    assert_eq!(BigNat::from_u64(9).mod_inverse(&BigNat::from_u64(9)), None);
    assert_eq!(BigNat::zero().mod_inverse(&BigNat::from_u64(9)), None);
    assert_eq!(
        BigNat::from_u64(5).mod_inverse(&BigNat::one()),
        Some(BigNat::zero())
    );
}

#[test]
fn pow_assign_on_fixed_values() {
    let mut a = BigNat::from_u64(3);
    pow_assign(&mut a, &BigNat::from_u64(40));
    assert_eq!(a, BigNat::from_u64(12157665459056928801));
    let mut b = BigNat::zero();
    pow_assign(&mut b, &BigNat::zero());
    assert_eq!(b, BigNat::one());
    let mut c = BigNat::zero();
    pow_assign(&mut c, &BigNat::from_u64(5));
    assert_eq!(c, BigNat::zero());
}

#[test]
fn jacobi_of_larger_numbers() {
    // (1001 / 9907) = -1 and (19 / 45) = 1, (8 / 21) = -1, (5 / 21) = 1
    let cases = [[1001i64, 9907, -1], [19, 45, 1], [8, 21, -1], [5, 21, 1], [30, 7, 1], [21, 21, 0]];
    for case in cases.iter() {
        assert_eq!(
            jacobi(&BigInt::from_i64(case[0]), &BigInt::from_i64(case[1])),
            case[2] as isize,
            "jacobi({}, {})",
            case[0],
            case[1]
        );
    }
}
