use accumulators::bignat::BigNat;
use accumulators::math::lucas::probably_prime_lucas;
use accumulators::math::prime::{
    is_strong_probable_prime, probably_prime, probably_prime_miller_rabin, small_divisor,
    small_prime,
};
use accumulators::math::prime_rand::{gen_prime, shape_candidate};
use num_bigint_dig::RandBigInt;
use rand::{thread_rng, SeedableRng};
use rand_chacha::ChaChaRng;

fn lib_uint(x: &num_bigint_dig::BigUint) -> BigNat {
    BigNat::from_bytes_be(&x.to_bytes_be())
}

fn outside_uint(x: &BigNat) -> num_bigint_dig::BigUint {
    num_bigint_dig::BigUint::from_bytes_be(&x.to_bytes_be())
}

fn parse(digits: &str) -> BigNat {
    lib_uint(&num_bigint_dig::BigUint::parse_bytes(digits.as_bytes(), 10).unwrap())
}

// The sieve of Eratosthenes: the deterministic reference.
fn sieve(limit: usize) -> Vec<bool> {
    let mut prime = vec![true; limit];
    prime[0] = false;
    prime[1] = false;
    let mut i = 2;
    while i * i < limit {
        if prime[i] {
            let mut j = i * i;
            while j < limit {
                prime[j] = false;
                j += i;
            }
        }
        i += 1;
    }
    prime
}

#[test]
fn probably_prime_agrees_with_the_sieve_on_the_first_million() {
    let reference = sieve(1_000_000);
    for (x, expected) in reference.iter().enumerate() {
        assert_eq!(
            probably_prime(&BigNat::from_u64(x as u64), 20),
            *expected,
            "probably_prime({})",
            x
        );
    }
}

#[test]
fn small_prime_agrees_with_the_sieve() {
    let reference = sieve(200_000);
    for (x, expected) in reference.iter().enumerate() {
        assert_eq!(small_prime(x as u64), *expected, "small_prime({})", x);
    }
    assert!(small_prime(4294967291));
    assert!(!small_prime(4294967295));
    assert!(!small_prime(65537 * 65521));
}

#[test]
fn probably_prime_rejects_carmichael_numbers() {
    let carmichael: [u64; 16] = [
        561,
        1105,
        1729,
        2465,
        2821,
        6601,
        8911,
        10585,
        15841,
        29341,
        41041,
        46657,
        52633,
        62745,
        63973,
        75361,
    ];
    for c in carmichael.iter() {
        assert!(!probably_prime(&BigNat::from_u64(*c), 20), "{}", c);
    }
    // beyond 32 bits
    for c in ["232250619601", "9746347772161", "1436697831295441"].iter() {
        assert!(!probably_prime(&parse(c), 20), "{}", c);
    }
}

#[test]
fn probably_prime_edge_cases() {
    assert!(!probably_prime(&BigNat::zero(), 20));
    assert!(!probably_prime(&BigNat::one(), 20));
    assert!(probably_prime(&BigNat::from_u64(2), 20));
    assert!(probably_prime(&BigNat::from_u64(3), 20));
    assert!(!probably_prime(&BigNat::from_u64(4), 20));
    assert!(!probably_prime(&parse("340282366920938463463374607431768211456"), 20));
    // no rounds to random bases at all
    assert!(probably_prime(&parse("170141183460469231731687303715884105727"), 0));
}

#[test]
fn probably_prime_accepts_known_primes() {
    for p in [
        "4294967311",
        "2305843009213693951",
        "618970019642690137449562111",
        "170141183460469231731687303715884105727",
        "6864797660130609714981900799081393217269435300143305409394463459185543183397656052122559640661454554977296311391480858037121987999716643812574028291115057151",
    ]
    .iter()
    {
        assert!(probably_prime(&parse(p), 20), "{}", p);
    }
}

#[test]
fn probably_prime_rejects_products_of_large_primes() {
    let p = parse("2305843009213693951");
    let q = parse("618970019642690137449562111");
    assert!(!probably_prime(&p.mul(&q), 20));
    assert!(!probably_prime(&p.mul(&p), 20));
    assert!(!probably_prime(&parse("4294967311").mul(&parse("4294967357")), 20));
}

#[test]
fn strong_pseudoprimes_to_many_bases_fail_the_lucas_test() {
    // strong pseudoprimes to the first nine and the first twelve prime
    // bases; neither has a small factor
    for n in ["3825123056546413051", "318665857834031151167461"].iter() {
        let x = parse(n);
        assert!(!small_divisor(&x), "{}", n);
        assert!(is_strong_probable_prime(&x, &BigNat::from_u64(2)), "{}", n);
        assert!(is_strong_probable_prime(&x, &BigNat::from_u64(3)), "{}", n);
        assert!(probably_prime_miller_rabin(&x, 1, true), "{}", n);
        assert!(!probably_prime_lucas(&x), "{}", n);
        assert!(!probably_prime(&x, 20), "{}", n);
    }
}

#[test]
fn miller_rabin_with_random_bases_rejects_what_base_two_accepts() {
    // 2047 = 23 * 89 is the least strong pseudoprime to the base two
    let x = BigNat::from_u64(2047);
    assert!(is_strong_probable_prime(&x, &BigNat::from_u64(2)));
    assert!(probably_prime_miller_rabin(&x, 1, true));
    assert!(!is_strong_probable_prime(&x, &BigNat::from_u64(3)));
    assert!(!probably_prime_miller_rabin(&x, 20, false));
    // the answer for a number is always the same
    let y = parse("3825123056546413051");
    let first = probably_prime_miller_rabin(&y, 20, false);
    for _ in 0..5 {
        assert_eq!(probably_prime_miller_rabin(&y, 20, false), first);
    }
}

#[test]
fn miller_rabin_decides_the_numbers_below_seven() {
    let expected = [false, false, true, true, false, true, false];
    for (x, e) in expected.iter().enumerate() {
        assert_eq!(probably_prime_miller_rabin(&BigNat::from_u64(x as u64), 5, true), *e);
        assert_eq!(probably_prime_miller_rabin(&BigNat::from_u64(x as u64), 0, false), *e);
    }
    assert!(!probably_prime_miller_rabin(&BigNat::from_u64(1000), 5, true));
    assert!(probably_prime_miller_rabin(&BigNat::from_u64(1009), 5, true));
    assert!(!probably_prime_miller_rabin(&BigNat::from_u64(1001), 5, true));
}

#[test]
fn lucas_test_is_exact_below_its_first_pseudoprime() {
    let reference = sieve(5459);
    for x in 0..5459usize {
        assert_eq!(
            probably_prime_lucas(&BigNat::from_u64(x as u64)),
            reference[x],
            "lucas({})",
            x
        );
    }
    // 5459 = 53 * 103 and 5777 = 53 * 109 are the first two strong Lucas
    // pseudoprimes
    assert!(probably_prime_lucas(&BigNat::from_u64(5459)));
    assert!(probably_prime_lucas(&BigNat::from_u64(5777)));
    assert!(!probably_prime(&BigNat::from_u64(5459), 20));
}

#[test]
fn lucas_test_rejects_squares() {
    assert!(!probably_prime_lucas(&BigNat::from_u64(9)));
    assert!(!probably_prime_lucas(&BigNat::from_u64(25)));
    assert!(!probably_prime_lucas(&BigNat::from_u64(1194649)));
    assert!(!probably_prime_lucas(&parse("10000000000000000000000")));
}

#[test]
fn small_divisor_finds_divisors_of_its_own_only() {
    assert!(!small_divisor(&BigNat::zero()));
    assert!(!small_divisor(&BigNat::one()));
    assert!(!small_divisor(&BigNat::from_u64(2)));
    assert!(!small_divisor(&BigNat::from_u64(3)));
    assert!(small_divisor(&BigNat::from_u64(4)));
    assert!(!small_divisor(&BigNat::from_u64(65521)));
    assert!(small_divisor(&BigNat::from_u64(65521 * 2)));
    assert!(small_divisor(&BigNat::from_u64(65521 * 65537)));
    // a divisor at the limit and beyond does not count
    assert!(!small_divisor(&BigNat::from_u64(65537 * 65539)));
    assert!(small_divisor(&BigNat::from_u64(65535 * 65537)));
}

#[test]
fn probably_prime_agrees_with_the_outside_test_on_random_numbers() {
    let mut rng = thread_rng();
    for bits in [40usize, 64, 100, 128, 200].iter() {
        for _ in 0..60 {
            let mut x = rng.gen_biguint(*bits);
            x |= num_bigint_dig::BigUint::from(1u8);
            let expected = num_bigint_dig::prime::probably_prime(&x, 20);
            assert_eq!(probably_prime(&lib_uint(&x), 20), expected, "{}", x);
        }
    }
}

#[test]
fn gen_prime_gives_primes_of_the_length_asked_for() {
    let mut rng = ChaChaRng::from_seed([7u8; 32]);
    for bits in [2usize, 3, 4, 5, 8, 9, 15, 16, 17, 31, 32, 33, 63, 64, 65, 128].iter() {
        let p = gen_prime(&mut rng, *bits).unwrap();
        assert_eq!(p.bits(), *bits);
        assert!(p.is_odd() || *bits == 2);
        assert!(num_bigint_dig::prime::probably_prime(&outside_uint(&p), 20));
        // the two top bits are set
        let top = outside_uint(&p) >> (*bits - 2);
        assert_eq!(top, num_bigint_dig::BigUint::from(3u8));
    }
}

#[test]
fn gen_prime_follows_the_generator() {
    let mut first = ChaChaRng::from_seed([1u8; 32]);
    let mut again = ChaChaRng::from_seed([1u8; 32]);
    let mut other = ChaChaRng::from_seed([2u8; 32]);
    let p = gen_prime(&mut first, 96).unwrap();
    assert_eq!(p, gen_prime(&mut again, 96).unwrap());
    assert_ne!(p, gen_prime(&mut other, 96).unwrap());
    // the generator has moved on
    assert_ne!(p, gen_prime(&mut first, 96).unwrap());
}

#[test]
fn shape_candidate_sets_the_top_bits_and_the_lowest() {
    // 12 bits in two bytes: the top four bits go, the next two are set
    let shaped = shape_candidate(vec![0xf0, 0x00], 12);
    assert_eq!(shaped, BigNat::from_u64(0x0c01));
    let shaped = shape_candidate(vec![0xff, 0xfe], 12);
    assert_eq!(shaped, BigNat::from_u64(0x0fff));
    // 9 bits: the second of the top bits lies in the second byte
    let shaped = shape_candidate(vec![0x00, 0x00], 9);
    assert_eq!(shaped, BigNat::from_u64(0x0181));
    // 8 and 16 bits: a whole leading byte
    assert_eq!(shape_candidate(vec![0x00], 8), BigNat::from_u64(0xc1));
    assert_eq!(shape_candidate(vec![0x12, 0x34], 16), BigNat::from_u64(0xd235));
    // 2 bits
    assert_eq!(shape_candidate(vec![0xfc], 2), BigNat::from_u64(3));
}
