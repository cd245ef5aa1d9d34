use accumulators::bignat::BigNat;
use accumulators::hash::{hash_group, hash_prime, nonce_hash, verify_nonce_hash};
use accumulators::math::prime::probably_prime;
use blake2::{Blake2b512, Digest};
use num_bigint_dig::RandBigInt;
use rand::{thread_rng, Rng};

#[test]
fn test_hash_prime() {
    let mut rng = thread_rng();

    for i in 1..10 {
        let mut val = vec![0u8; i * 32];
        rng.fill(&mut val[..]);

        let h = hash_prime(&val).unwrap();
        assert!(probably_prime(&h, 20));
    }
}

#[test]
fn test_hash_group() {
    let mut rng = thread_rng();

    for i in 1..10 {
        let mut val = vec![0u8; i * 32];
        rng.fill(&mut val[..]);
        let n = BigNat::from_bytes_be(&rng.gen_biguint(1024).to_bytes_be());

        let h = hash_group(&val, &n);
        assert!(h.le(&n));
    }
}

#[test]
fn test_hash_nonce() {
    let mut rng = thread_rng();
    let mut nonce: u16 = 0;
    for i in 1..10 {
        let mut val = vec![0u8; i * 32];
        rng.fill(&mut val[..]);
        let _n = rng.gen_biguint(1024);

        let mut h = nonce_hash(nonce, &val, None);

        while h == None {
            nonce = nonce + 1;
            h = nonce_hash(nonce, &val, None);
        }

        assert!(verify_nonce_hash(&h.unwrap()));
    }
}

fn blake2b(data: &[u8]) -> Vec<u8> {
    Blake2b512::digest(data).to_vec()
}

#[test]
fn hash_prime_walks_the_chain_of_digests() {
    for input in [&b""[..], &b"abc"[..], &[0u8; 100][..]].iter() {
        let mut y = BigNat::from_bytes_be(&blake2b(input)[..16]);
        while !probably_prime(&y, 20) {
            y = BigNat::from_bytes_be(&blake2b(&y.to_bytes_be())[..16]);
        }
        assert!(y.bits() <= 128);
        assert_eq!(hash_prime(input), Some(y));
    }
    assert_ne!(hash_prime(b"abc"), hash_prime(b"abd"));
}

#[test]
fn hash_group_reduces_the_digest() {
    let n = BigNat::from_u64(1_000_000_007);
    let expected = BigNat::from_bytes_be(&blake2b(b"hello")).mod_floor(&n);
    assert_eq!(hash_group(b"hello", &n), expected);
    assert!(hash_group(b"hello", &n).lt(&n));
    assert_eq!(hash_group(b"hello", &BigNat::one()), BigNat::zero());
    // a modulus beyond the digest leaves the digest as it is
    let wide = BigNat::from_bytes_be(&[0xff; 65]);
    assert_eq!(hash_group(b"", &wide), BigNat::from_bytes_be(&blake2b(b"")));
}

#[test]
fn nonce_hash_digests_nonce_input_and_root() {
    let input = b"some data";
    let root = BigNat::from_u64(0x0102_0304);
    let mut found = 0;
    for nonce in 0u16..400 {
        let mut plain = vec![(nonce >> 8) as u8, nonce as u8];
        plain.extend_from_slice(input);
        let expected = BigNat::from_bytes_be(&blake2b(&plain));
        let h = nonce_hash(nonce, input, None);
        if probably_prime(&expected, 20) {
            assert_eq!(h, Some(expected));
            assert!(verify_nonce_hash(&h.unwrap()));
            found += 1;
        } else {
            assert_eq!(h, None);
            assert!(!verify_nonce_hash(&expected));
        }

        let mut rooted = plain.clone();
        rooted.extend_from_slice(&[1, 2, 3, 4]);
        let expected = BigNat::from_bytes_be(&blake2b(&rooted));
        let h = nonce_hash(nonce, input, Some(&root));
        if probably_prime(&expected, 20) {
            assert_eq!(h, Some(expected));
            found += 1;
        } else {
            assert_eq!(h, None);
        }
    }
    assert!(found > 0);
}
