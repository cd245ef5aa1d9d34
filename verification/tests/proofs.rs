use accumulators::bigint::{BigInt, Sign};
use accumulators::bignat::BigNat;
use accumulators::proofs::{ni_poe_prove, ni_poe_verify, ni_poke2_prove, ni_poke2_verify};
use num_bigint_dig::{RandBigInt, RandPrime};
use rand::thread_rng;

fn lib_uint(x: &num_bigint_dig::BigUint) -> BigNat {
    BigNat::from_bytes_be(&x.to_bytes_be())
}

// One pass over the sizes; the passes are run as separate tests.
fn ni_poe_pass() {
    let mut rng = thread_rng();
    for j in 1..10 {
        for k in 1..4 {
            let p = lib_uint(&rng.gen_prime(128));
            let q = lib_uint(&rng.gen_prime(128));
            let n = p.mul(&q);

            let mut x = BigNat::one();
            for _ in 0..j {
                x = x.mul(&lib_uint(&rng.gen_prime(256)));
            }
            let u = lib_uint(&rng.gen_biguint(k * 64));
            let w = u.modpow(&x, &n);

            let q = ni_poe_prove(&x, &u, &w, &n).unwrap();
            assert!(ni_poe_verify(&x, &u, &w, &q, &n))
        }
    }
}

#[test]
fn test_ni_poe() {
    ni_poe_pass();
}

#[test]
fn test_ni_poe_second_pass() {
    ni_poe_pass();
}

#[test]
fn test_ni_poe_third_pass() {
    ni_poe_pass();
}

#[test]
fn test_ni_poke2() {
    let mut rng = thread_rng();

    for i in 1..4 {
        for j in 1..4 {
            for k in 1..4 {
                let n = lib_uint(&rng.gen_biguint(i * 64));

                let x = lib_uint(&rng.gen_prime(j * 128));
                let u = lib_uint(&rng.gen_prime(k * 64));
                let w = u.modpow(&x, &n);

                let pi = ni_poke2_prove(&BigInt::from_biguint(Sign::Plus, x.clone()), &u, &w, &n)
                    .unwrap();
                assert!(ni_poke2_verify(&u, &w, &pi, &n))
            }
        }
    }
}
