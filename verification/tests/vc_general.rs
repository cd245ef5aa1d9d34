use accumulators::accumulator::Accumulator;
use accumulators::bignat::BigNat;
use accumulators::error::Error;
use accumulators::group::RSAGroup;
use accumulators::map::KeyValueMap;
use accumulators::traits::{DynamicVectorCommitment, StaticVectorCommitment};
use accumulators::vc::binary::BinaryVectorCommitment;
use accumulators::vc::general::{
    create_vector_commitment, create_vector_commitment_with, hash_binary, VectorCommitment,
};
use blake2::{Blake2b512, Digest};
use num_bigint_dig::RandBigInt;
use rand::SeedableRng;
use rand_chacha::ChaChaRng;

fn lib_uint(x: &num_bigint_dig::BigUint) -> BigNat {
    BigNat::from_bytes_be(&x.to_bytes_be())
}

#[test]
fn test_general_vc_basics() {
    let lambda = 128;
    let n = 1024;
    let rng = &mut ChaChaRng::from_seed([0u8; 32]);

    let mut vc = VectorCommitment::<Accumulator>::setup::<RSAGroup>(rng, lambda, n).unwrap();

    let val: Vec<BigNat> = (0..3).map(|_| lib_uint(&rng.gen_biguint(16))).collect();
    vc.commit(&val).unwrap();

    for i in 0..3 {
        let comm = vc.open(&val[i], i).unwrap();
        assert!(vc.verify(&val[i], i, &comm), "invalid commitment {}", i);
    }
}

#[test]
fn test_general_vc_batch() {
    let lambda = 128;
    let n = 1024;
    let rng = &mut ChaChaRng::from_seed([0u8; 32]);

    let mut vc = VectorCommitment::<Accumulator>::setup::<RSAGroup>(rng, lambda, n).unwrap();

    let val: Vec<BigNat> = (0..4).map(|_| lib_uint(&rng.gen_biguint(32))).collect();
    vc.commit(&val).unwrap();

    let committed = vec![val[1].clone(), val[3].clone()];
    let comm = vc.batch_open(&committed, &[1, 3]).unwrap();
    assert!(
        vc.batch_verify(&committed, &[1, 3], &comm),
        "invalid commitment"
    );
}

#[test]
fn test_general_vc_update() {
    let lambda = 128;
    let n = 1024;
    let rng = &mut ChaChaRng::from_seed([0u8; 32]);

    let mut vc = VectorCommitment::<Accumulator>::setup::<RSAGroup>(rng, lambda, n).unwrap();
    let val: Vec<BigNat> = (0..4).map(|_| lib_uint(&rng.gen_biguint(32))).collect();

    vc.commit(&val).unwrap();

    let comm = vc.open(&val[2], 2).unwrap();
    assert!(vc.verify(&val[2], 2, &comm), "invalid commitment");

    let new_val = lib_uint(&rng.gen_biguint(128));
    vc.update(&new_val, &val[2], 2).unwrap();

    // ensure old commitment fails now
    assert!(
        !vc.verify(&new_val, 2, &comm),
        "commitment should be invalid"
    );

    let comm_new = vc.open(&new_val, 2).unwrap();
    assert!(vc.verify(&new_val, 2, &comm_new), "invalid commitment");
}

fn blake2b(data: &[u8]) -> Vec<u8> {
    Blake2b512::digest(data).to_vec()
}

#[test]
fn general_vc_batch_open_binds_the_values() {
    let lambda = 128;
    let rng = &mut ChaChaRng::from_seed([0u8; 32]);
    let mut vc = VectorCommitment::<Accumulator>::setup::<RSAGroup>(rng, lambda, 4).unwrap();

    let val: Vec<BigNat> = (0..4).map(|_| lib_uint(&rng.gen_biguint(lambda))).collect();
    vc.commit(&val).unwrap();

    let committed = vec![val[1].clone(), val[3].clone()];
    let comm = vc.batch_open(&committed, &[1, 3]).unwrap();
    assert!(vc.batch_verify(&committed, &[1, 3], &comm));

    // swapping any value makes it fail
    let swapped = vec![val[3].clone(), val[1].clone()];
    assert!(!vc.batch_verify(&swapped, &[1, 3], &comm));
    let first_swapped = vec![val[0].clone(), val[3].clone()];
    assert!(!vc.batch_verify(&first_swapped, &[1, 3], &comm));
    let second_swapped = vec![val[1].clone(), val[2].clone()];
    assert!(!vc.batch_verify(&second_swapped, &[1, 3], &comm));
    // and so does another position
    assert!(!vc.batch_verify(&committed, &[1, 2], &comm));
    // lists of different lengths are refused
    assert!(!vc.batch_verify(&committed, &[1], &comm));
    assert!(vc.batch_open(&committed, &[1]).is_none());
    // a value that was not committed cannot be opened
    assert!(vc.open(&val[0], 1).is_none());
}

#[test]
fn hash_binary_lists_the_bits_of_the_digest() {
    let m = BigNat::from_u64(123456789);
    let digest = blake2b(&m.to_bytes_be());
    let bits = hash_binary(&m, 128);
    assert_eq!(bits.len(), 128);
    for (k, bit) in bits.iter().enumerate() {
        let expected = (digest[k / 8] >> (7 - k % 8)) & 1 == 1;
        assert_eq!(*bit, expected, "bit {}", k);
    }
    // as many bits as asked for, and no more than the digest holds
    for lambda in [0usize, 1, 7, 8, 9, 12, 15, 100, 511].iter() {
        let short = hash_binary(&m, *lambda);
        assert_eq!(short.len(), *lambda);
        assert_eq!(&short[..], &hash_binary(&m, 512)[..*lambda]);
    }
    // twelve bits: the first byte and the high half of the second
    let twelve = hash_binary(&m, 12);
    for k in 8..12 {
        assert_eq!(twelve[k], (digest[1] >> (15 - k)) & 1 == 1);
    }
    // equal numbers, equal bits
    assert_eq!(hash_binary(&BigNat::from_u64(123456789), 100), hash_binary(&m, 100));
    assert_ne!(hash_binary(&BigNat::from_u64(123456788), 100), hash_binary(&m, 100));
    assert_eq!(hash_binary(&m, 512).len(), 512);
    assert_eq!(hash_binary(&m, 4096).len(), 512);
    assert_eq!(&hash_binary(&m, 512)[..128], &bits[..]);
}

#[test]
fn setup_refuses_a_lambda_that_the_digest_cannot_fill() {
    let rng = &mut ChaChaRng::from_seed([0u8; 32]);
    for lambda in [0usize, 513, 520, 1024].iter() {
        assert_eq!(
            VectorCommitment::<Accumulator>::setup::<RSAGroup>(rng, *lambda, 16).unwrap_err(),
            Error::InvalidLambda
        );
        assert_eq!(
            create_vector_commitment::<Accumulator, RSAGroup>(*lambda, 16).unwrap_err(),
            Error::InvalidLambda
        );
    }
    // a group of fewer than 64 bits is refused by the group
    assert_eq!(
        VectorCommitment::<Accumulator>::setup::<RSAGroup>(rng, 32, 16).unwrap_err(),
        Error::TooFewBits
    );
}

#[test]
fn create_vector_commitment_draws_from_the_operating_system() {
    let first = create_vector_commitment::<Accumulator, RSAGroup>(128, 16).unwrap();
    let second = create_vector_commitment::<Accumulator, RSAGroup>(128, 16).unwrap();
    assert_eq!(first.lambda(), 128);
    assert_eq!(first.capacity(), 16);
    assert_eq!(first.state().modulus().bits(), 128);
    assert_ne!(first.state().modulus(), second.state().modulus());
    assert_eq!(first.state().root(), first.state().generator());
}

#[test]
fn general_vc_update_to_the_same_value_changes_nothing() {
    let rng = &mut ChaChaRng::from_seed([3u8; 32]);
    let mut vc = VectorCommitment::<Accumulator>::setup::<RSAGroup>(rng, 64, 2).unwrap();
    let val = vec![BigNat::from_u64(7), BigNat::from_u64(8)];
    vc.commit(&val).unwrap();
    let root = vc.state().root().clone();
    assert_eq!(vc.update(&val[0], &val[0], 0), Some(()));
    assert_eq!(vc.state().root(), &root);
    // back and forth
    let other = BigNat::from_u64(9);
    assert_eq!(vc.update(&other, &val[0], 0), Some(()));
    assert_ne!(vc.state().root(), &root);
    assert_eq!(vc.update(&val[0], &other, 0), Some(()));
    assert_eq!(vc.state().root(), &root);
}

#[test]
fn the_map_is_set_up_over_a_vector_commitment() {
    let rng = &mut ChaChaRng::from_seed([0u8; 32]);
    let map = KeyValueMap::<Accumulator>::setup::<RSAGroup>(rng, 128, 16).unwrap();
    assert_eq!(map.commitment().lambda(), 128);
    assert_eq!(map.commitment().capacity(), 16);
    assert_eq!(
        map.commitment().state().root(),
        map.commitment().state().generator()
    );
    assert!(KeyValueMap::<Accumulator>::setup::<RSAGroup>(rng, 0, 16).is_err());
}

fn small_binary() -> Result<BinaryVectorCommitment<Accumulator>, Error> {
    BinaryVectorCommitment::<Accumulator>::from_accumulator(
        64,
        4,
        Accumulator::from_group(
            64,
            Ok((BigNat::from_u64(1_000_003 * 1_000_033), BigNat::from_u64(2))),
        ),
    )
}

#[test]
fn a_commitment_over_a_binary_commitment() {
    let mut vc = VectorCommitment::<Accumulator>::from_binary(64, 4, small_binary()).unwrap();
    assert_eq!(vc.lambda(), 64);
    assert_eq!(vc.capacity(), 4);
    assert_eq!(vc.state().root(), &BigNat::from_u64(2));
    let val = vec![BigNat::from_u64(5)];
    vc.commit(&val).unwrap();
    let proof = vc.open(&val[0], 0).unwrap();
    assert!(vc.verify(&val[0], 0, &proof));

    // a lambda that the digest cannot fill, whatever the setup gave
    assert_eq!(
        VectorCommitment::<Accumulator>::from_binary(0, 4, small_binary()).unwrap_err(),
        Error::InvalidLambda
    );
    assert_eq!(
        VectorCommitment::<Accumulator>::from_binary(513, 4, Err(Error::TooFewBits)).unwrap_err(),
        Error::InvalidLambda
    );
    // any number of bits up to those of the digest will do
    assert!(VectorCommitment::<Accumulator>::from_binary(1, 4, small_binary()).is_ok());
    assert!(VectorCommitment::<Accumulator>::from_binary(60, 4, small_binary()).is_ok());
    assert!(VectorCommitment::<Accumulator>::from_binary(512, 4, small_binary()).is_ok());
    // a failure of the setup is handed on
    assert_eq!(
        VectorCommitment::<Accumulator>::from_binary(64, 4, Err(Error::TooFewBits)).unwrap_err(),
        Error::TooFewBits
    );
    assert_eq!(
        VectorCommitment::<Accumulator>::setup::<RSAGroup>(
            &mut ChaChaRng::from_seed([0u8; 32]),
            56,
            4
        )
        .unwrap_err(),
        Error::TooFewBits
    );
}

#[test]
fn a_map_over_a_commitment() {
    let made = VectorCommitment::<Accumulator>::from_binary(64, 4, small_binary());
    let map = KeyValueMap::<Accumulator>::from_commitment(made).unwrap();
    assert_eq!(map.commitment().lambda(), 64);
    assert_eq!(map.commitment().capacity(), 4);
    assert_eq!(map.commitment().state().generator(), &BigNat::from_u64(2));
    assert_eq!(
        KeyValueMap::<Accumulator>::from_commitment(Err(Error::NoEntropy)).unwrap_err(),
        Error::NoEntropy
    );
    assert_eq!(
        KeyValueMap::<Accumulator>::setup::<RSAGroup>(&mut ChaChaRng::from_seed([0u8; 32]), 0, 4)
            .unwrap_err(),
        Error::InvalidLambda
    );
}

#[test]
fn create_vector_commitment_with_a_generator_or_none() {
    let seeded = ChaChaRng::from_seed([4u8; 32]);
    let vc =
        create_vector_commitment_with::<Accumulator, RSAGroup>(Some(seeded), 128, 16).unwrap();
    assert_eq!(vc.lambda(), 128);
    assert_eq!(vc.capacity(), 16);
    assert_eq!(vc.state().modulus().bits(), 128);
    assert_eq!(vc.state().generator(), &BigNat::from_u64(65547));
    // the same generator, the same group
    let again = create_vector_commitment_with::<Accumulator, RSAGroup>(
        Some(ChaChaRng::from_seed([4u8; 32])),
        128,
        16,
    )
    .unwrap();
    assert_eq!(vc.state().modulus(), again.state().modulus());

    assert_eq!(
        create_vector_commitment_with::<Accumulator, RSAGroup>(None, 128, 16).unwrap_err(),
        Error::NoEntropy
    );
    // the lambda is looked at first
    assert_eq!(
        create_vector_commitment_with::<Accumulator, RSAGroup>(None, 0, 16).unwrap_err(),
        Error::InvalidLambda
    );
}

#[test]
fn general_vc_with_a_lambda_that_is_no_multiple_of_eight() {
    let lambda = 100;
    let rng = &mut ChaChaRng::from_seed([0u8; 32]);
    let mut vc = VectorCommitment::<Accumulator>::setup::<RSAGroup>(rng, lambda, 4).unwrap();
    assert_eq!(vc.state().modulus().bits(), 100);

    let val: Vec<BigNat> = (0..3).map(|_| lib_uint(&rng.gen_biguint(64))).collect();
    vc.commit(&val).unwrap();
    // each element takes lambda positions
    let set_bits: usize = val
        .iter()
        .map(|m| hash_binary(m, lambda).iter().filter(|b| **b).count())
        .sum();
    assert!(set_bits > 0);
    for i in 0..3 {
        let comm = vc.open(&val[i], i).unwrap();
        assert!(vc.verify(&val[i], i, &comm), "invalid commitment {}", i);
        assert!(!vc.verify(&val[i], (i + 1) % 3, &comm));
    }
    let comm = vc.batch_open(&val[1..], &[1, 2]).unwrap();
    assert!(vc.batch_verify(&val[1..], &[1, 2], &comm));
}

#[test]
fn a_copy_of_a_commitment_goes_its_own_way() {
    let rng = &mut ChaChaRng::from_seed([0u8; 32]);
    let mut vc = VectorCommitment::<Accumulator>::setup::<RSAGroup>(rng, 64, 4).unwrap();
    let val = vec![BigNat::from_u64(7), BigNat::from_u64(8)];
    vc.commit(&val).unwrap();
    let proof = vc.open(&val[0], 0).unwrap();

    let mut copy = vc.clone();
    assert_eq!(copy.lambda(), 64);
    assert_eq!(copy.capacity(), 4);
    assert!(copy.verify(&val[0], 0, &proof));
    assert_eq!(copy.open(&val[0], 0), Some(proof.clone()));
    copy.update(&BigNat::from_u64(9), &val[0], 0).unwrap();
    assert!(!copy.verify(&val[0], 0, &proof));
    assert!(vc.verify(&val[0], 0, &proof));
    assert_eq!(copy.lambda(), 64);
    assert_eq!(copy.capacity(), 4);
}
