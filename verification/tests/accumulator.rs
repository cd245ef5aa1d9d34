use accumulators::accumulator::Accumulator;
use accumulators::bigint::{BigInt, Sign};
use accumulators::bignat::BigNat;
use accumulators::error::Error;
use accumulators::group::{rsa_modulus, PrimeGroup, RSAGroup};
use accumulators::math::power::modpow_uint_int;
use accumulators::math::prime_rand::gen_prime;
use accumulators::math::roots::shamir_trick;
use accumulators::proofs::ni_poe_verify;
use accumulators::traits::{
    BatchedAccumulator, DynamicAccumulator, StaticAccumulator, UniversalAccumulator,
};
use rand::SeedableRng;
use rand_chacha::ChaChaRng;

fn seeded() -> ChaChaRng {
    ChaChaRng::from_seed([0u8; 32])
}

fn small_accumulator(rng: &mut ChaChaRng) -> Accumulator {
    Accumulator::setup::<RSAGroup>(rng, 256).unwrap()
}

fn prime(rng: &mut ChaChaRng) -> BigNat {
    gen_prime(rng, 256).unwrap()
}

#[test]
fn rsa_setup_then_add_and_verify() {
    let mut rng = seeded();
    let mut acc = Accumulator::setup::<RSAGroup>(&mut rng, 3072).unwrap();
    assert_eq!(acc.modulus().bits(), 3072);
    assert_eq!(acc.generator(), &BigNat::from_u64(65547));
    assert_eq!(acc.root(), acc.generator());

    let x = prime(&mut rng);
    assert_eq!(x.bits(), 256);
    acc.add(&x);

    let w = acc.mem_wit_create(&x).unwrap();
    assert!(acc.ver_mem(&w, &x));
    assert_eq!(acc.root(), &acc.generator().modpow(&x, acc.modulus()));
}

#[test]
fn non_membership_after_a_single_add() {
    let mut rng = seeded();
    let mut acc = small_accumulator(&mut rng);
    let x = prime(&mut rng);
    acc.add(&x);

    let y = prime(&mut rng);
    assert_ne!(x, y);
    let (u, v) = acc.non_mem_wit_create(&y).unwrap();

    // u^y * g^v == A (mod n)
    let n = acc.modulus();
    let g_v = modpow_uint_int(acc.generator(), &v, n).unwrap();
    assert_eq!(&u.modpow(&y, n).mul(&g_v).mod_floor(n), acc.root());
    assert!(acc.ver_non_mem(&(u, v), &y));

    // a member has no such witness
    assert!(acc.non_mem_wit_create(&x).is_none());
    // and a witness for another element is not accepted for it
    let other = acc.non_mem_wit_create(&y).unwrap();
    assert!(!acc.ver_non_mem(&other, &x));
}

#[test]
fn batch_add_then_verify() {
    let mut rng = seeded();
    let mut acc = small_accumulator(&mut rng);
    let xs = vec![prime(&mut rng), prime(&mut rng), prime(&mut rng)];

    let a_pre = acc.root().clone();
    let w = acc.batch_add(&xs).unwrap();
    assert!(acc.ver_batch_add(&w, &a_pre, &xs));

    // the same as adding one by one
    let mut one_by_one = Accumulator::setup::<RSAGroup>(&mut seeded(), 256).unwrap();
    for x in &xs {
        one_by_one.add(x);
    }
    assert_eq!(acc.root(), one_by_one.root());
    assert_eq!(acc.members(), one_by_one.members());

    // each element is a member now
    for x in &xs {
        let wit = acc.mem_wit_create(x).unwrap();
        assert!(acc.ver_mem(&wit, x));
    }
    // the proof is not accepted for another list, nor against another root
    assert!(!acc.ver_batch_add(&w, &a_pre, &xs[..2]));
    assert!(!acc.ver_batch_add(&w, acc.root(), &xs));
}

#[test]
fn shamir_round_trip() {
    let g = BigNat::from_u64(65547);
    let n = BigNat::from_u64(2147483647).mul(&BigNat::from_u64(2305843009213693951));
    let x = BigNat::from_u64(1000003);
    let y = BigNat::from_u64(1000033);
    let z = BigNat::from_u64(1000037);

    let a = g.modpow(&x.mul(&y).mul(&z), &n);
    let root_x = g.modpow(&y.mul(&z), &n);
    let root_y = g.modpow(&x.mul(&z), &n);

    let root_xy = shamir_trick(&root_x, &root_y, &x, &y, &n).unwrap();
    assert_eq!(root_xy.modpow(&x.mul(&y), &n), a);
    assert_eq!(root_xy, g.modpow(&z, &n));

    // roots of different elements are refused
    assert!(shamir_trick(&root_x, &g, &x, &y, &n).is_none());
}

#[test]
fn empty_batch_add_changes_nothing() {
    let mut rng = seeded();
    let mut acc = small_accumulator(&mut rng);
    acc.add(&prime(&mut rng));
    let before = acc.root().clone();
    let members = acc.members().clone();

    let w = acc.batch_add(&[]).unwrap();
    assert_eq!(w, BigNat::one());
    assert_eq!(acc.root(), &before);
    assert_eq!(acc.members(), &members);
    assert!(acc.ver_batch_add(&w, &before, &[]));
}

#[test]
fn single_element_batches() {
    let mut rng = seeded();
    let mut acc = small_accumulator(&mut rng);
    let x = prime(&mut rng);
    let start = acc.root().clone();

    let w = acc.batch_add(&[x.clone()]).unwrap();
    assert!(acc.ver_batch_add(&w, &start, &[x.clone()]));
    assert_eq!(acc.root(), &start.modpow(&x, acc.modulus()));

    let after_add = acc.root().clone();
    let wit = acc.mem_wit_create(&x).unwrap();
    let proof = acc.batch_del(&[(wit, x.clone())]).unwrap();
    assert!(acc.ver_batch_del(&proof, &after_add, &[x.clone()]));
    assert_eq!(acc.root(), &start);
    assert_eq!(acc.members(), &BigNat::one());
}

#[test]
fn add_then_del_w_mem_returns_to_the_state_before() {
    let mut rng = seeded();
    let mut acc = small_accumulator(&mut rng);
    acc.add(&prime(&mut rng));
    let root = acc.root().clone();
    let members = acc.members().clone();

    let x = prime(&mut rng);
    acc.add(&x);
    assert_ne!(acc.root(), &root);
    let w = acc.mem_wit_create(&x).unwrap();
    assert_eq!(acc.del_w_mem(&w, &x), Some(()));
    assert_eq!(acc.root(), &root);
    assert_eq!(acc.members(), &members);
}

#[test]
fn del_removes_members_only() {
    let mut rng = seeded();
    let mut acc = small_accumulator(&mut rng);
    let x = prime(&mut rng);
    let y = prime(&mut rng);
    acc.add(&x);
    let with_x = acc.root().clone();
    acc.add(&y);

    // no member: nothing changes
    let z = prime(&mut rng);
    let before = acc.root().clone();
    assert_eq!(acc.del(&z), None);
    assert_eq!(acc.root(), &before);
    assert!(acc.mem_wit_create(&z).is_none());
    assert_eq!(acc.del(&BigNat::zero()), None);

    assert_eq!(acc.del(&y), Some(()));
    assert_eq!(acc.root(), &with_x);
    assert!(acc.mem_wit_create(&y).is_none());
    assert_eq!(acc.del(&y), None);
}

#[test]
fn del_w_mem_refuses_a_wrong_witness() {
    let mut rng = seeded();
    let mut acc = small_accumulator(&mut rng);
    let x = prime(&mut rng);
    let y = prime(&mut rng);
    acc.add(&x);
    acc.add(&y);
    let before = acc.root().clone();

    let w_x = acc.mem_wit_create(&x).unwrap();
    assert_eq!(acc.del_w_mem(&w_x, &y), None);
    assert_eq!(acc.root(), &before);
    // no member, whatever the witness
    let z = prime(&mut rng);
    assert_eq!(acc.del_w_mem(&w_x, &z), None);
    assert_eq!(acc.root(), &before);
}

#[test]
fn batch_del_aggregates_the_witnesses() {
    let mut rng = seeded();
    let mut acc = small_accumulator(&mut rng);
    let keep = prime(&mut rng);
    acc.add(&keep);
    let kept = acc.root().clone();
    let xs = vec![prime(&mut rng), prime(&mut rng), prime(&mut rng)];
    acc.batch_add(&xs).unwrap();
    let full = acc.root().clone();

    let pairs: Vec<(BigNat, BigNat)> = xs
        .iter()
        .map(|x| (acc.mem_wit_create(x).unwrap(), x.clone()))
        .collect();
    let proof = acc.batch_del(&pairs).unwrap();
    assert_eq!(acc.root(), &kept);
    assert_eq!(acc.members(), &keep);
    assert!(acc.ver_batch_del(&proof, &full, &xs));
    assert!(!acc.ver_batch_del(&proof, &kept, &xs));

    // nothing to delete, and a wrong witness
    assert!(acc.batch_del(&[]).is_none());
    let w = acc.mem_wit_create(&keep).unwrap();
    assert!(acc.batch_del(&[(w, xs[0].clone())]).is_none());
    assert_eq!(acc.root(), &kept);
}

#[test]
fn aggregated_membership_witness() {
    let mut rng = seeded();
    let mut acc = small_accumulator(&mut rng);
    let x = prime(&mut rng);
    let y = prime(&mut rng);
    acc.batch_add(&[x.clone(), y.clone(), prime(&mut rng)]).unwrap();

    let w_x = acc.mem_wit_create(&x).unwrap();
    let w_y = acc.mem_wit_create(&y).unwrap();
    let (w_xy, pi) = acc.agg_mem_wit(&w_x, &w_y, &x, &y).unwrap();
    assert!(acc.ver_agg_mem_wit(&w_xy, &pi, &x, &y));
    assert!(acc.ver_mem(&w_xy, &x.mul(&y)));
    assert_eq!(w_xy, acc.mem_wit_create(&x.mul(&y)).unwrap());
    assert!(!acc.ver_agg_mem_wit(&w_x, &pi, &x, &y));
}

#[test]
fn membership_witness_with_proof() {
    let mut rng = seeded();
    let mut acc = small_accumulator(&mut rng);
    let x = prime(&mut rng);
    acc.add(&prime(&mut rng));
    acc.add(&x);

    let star = acc.mem_wit_create_star(&x).unwrap();
    assert!(acc.ver_mem_star(&x, &star));
    assert_eq!(star.0, acc.mem_wit_create(&x).unwrap());
    assert!(ni_poe_verify(&x, &star.0, acc.root(), &star.1, acc.modulus()));

    let y = prime(&mut rng);
    assert!(acc.mem_wit_create_star(&y).is_none());
    assert!(!acc.ver_mem_star(&y, &star));
}

#[test]
fn non_membership_witness_with_proofs() {
    let mut rng = seeded();
    let mut acc = small_accumulator(&mut rng);
    let x = prime(&mut rng);
    acc.add(&x);
    acc.add(&prime(&mut rng));

    let y = prime(&mut rng);
    let star = acc.non_mem_wit_create_star(&y).unwrap();
    assert!(acc.ver_non_mem_star(&y, &star));
    let (u, _) = acc.non_mem_wit_create(&y).unwrap();
    assert_eq!(star.0, u);

    assert!(acc.non_mem_wit_create_star(&x).is_none());
    assert!(!acc.ver_non_mem_star(&x, &star));
}

#[test]
fn witnesses_across_two_accumulators() {
    let mut rng = seeded();
    let mut first = small_accumulator(&mut rng);
    let mut second = first.clone();
    let x = prime(&mut rng);
    let y = prime(&mut rng);
    first.add(&prime(&mut rng));
    first.add(&x);
    second.add(&y);
    second.add(&prime(&mut rng));

    let w_x = first.mem_wit_create(&x).unwrap();
    let w_y = second.mem_wit_create(&y).unwrap();
    let pi = first.mem_wit_x(second.root(), &w_x, &w_y, &x, &y);
    assert_eq!(pi, w_x.mul(&w_y).mod_floor(first.modulus()));
    assert!(first.ver_mem_x(second.root(), &pi, &x, &y));
    assert!(!first.ver_mem_x(first.root(), &pi, &x, &y));
    // the elements must be coprime
    assert!(!first.ver_mem_x(second.root(), &pi, &x, &x));
}

#[test]
fn all_membership_witnesses_at_once() {
    let mut rng = seeded();
    let mut acc = small_accumulator(&mut rng);
    let xs: Vec<BigNat> = (0..7).map(|_| prime(&mut rng)).collect();
    acc.batch_add(&xs).unwrap();

    let witnesses = acc.create_all_mem_wit(&xs);
    assert_eq!(witnesses.len(), xs.len());
    for (w, x) in witnesses.iter().zip(xs.iter()) {
        assert!(acc.ver_mem(w, x));
        assert_eq!(w, &acc.mem_wit_create(x).unwrap());
    }
    assert!(acc.create_all_mem_wit(&[]).is_empty());
}

#[test]
fn rsa_setup_refuses_short_moduli() {
    let mut rng = seeded();
    assert_eq!(RSAGroup::generate_primes(&mut rng, 63).unwrap_err(), Error::TooFewBits);
    assert_eq!(RSAGroup::generate_primes(&mut rng, 0).unwrap_err(), Error::TooFewBits);
    assert!(Accumulator::setup::<RSAGroup>(&mut rng, 32).is_err());

    let (n, g) = RSAGroup::generate_primes(&mut rng, 64).unwrap();
    assert_eq!(n.bits(), 64);
    assert_eq!(g, BigNat::from_u64(65547));
    let (n, _) = RSAGroup::generate_primes(&mut rng, 65).unwrap();
    assert_eq!(n.bits(), 65);
}

#[test]
fn rsa_setup_follows_the_generator() {
    let (n, _) = RSAGroup::generate_primes(&mut seeded(), 128).unwrap();
    let (again, _) = RSAGroup::generate_primes(&mut seeded(), 128).unwrap();
    let (other, _) = RSAGroup::generate_primes(&mut ChaChaRng::from_seed([9u8; 32]), 128).unwrap();
    assert_eq!(n, again);
    assert_ne!(n, other);
}

#[test]
fn rsa_modulus_checks_its_primes() {
    let p = BigNat::from_u64(4294967357);
    let q = BigNat::from_u64(4294967387);
    let n = rsa_modulus(&p, &q, 65).unwrap();
    assert_eq!(n, p.mul(&q));
    // the wrong length, equal primes, a prime below two
    assert!(rsa_modulus(&p, &q, 64).is_none());
    assert!(rsa_modulus(&p, &p, 65).is_none());
    assert!(rsa_modulus(&BigNat::one(), &q, 33).is_none());
    // 65547 = 9 * 7283 shares the factor three with the totient
    let r = BigNat::from_u64(7);
    let s = BigNat::from_u64(11);
    assert!(rsa_modulus(&r, &s, 7).is_none());
    // and with the product 15, though the totient 8 would do
    let t = BigNat::from_u64(5);
    assert!(rsa_modulus(&t, &BigNat::from_u64(3), 4).is_none());
    // 5 * 11 = 55 with the totient 40: coprime both
    assert_eq!(rsa_modulus(&t, &s, 6), Some(BigNat::from_u64(55)));
    assert_eq!(rsa_modulus(&s, &t, 6), Some(BigNat::from_u64(55)));
    // a totient that is a multiple of 7283
    let u = BigNat::from_u64(7283 * 2 + 1);
    assert!(rsa_modulus(&u, &t, 17).is_none());
}

#[test]
fn rsa_setup_gives_an_odd_modulus_coprime_to_the_generator() {
    for seed in 0u8..4 {
        let mut rng = ChaChaRng::from_seed([seed; 32]);
        for bits in [64usize, 65, 100, 128].iter() {
            let (n, g) = RSAGroup::generate_primes(&mut rng, *bits).unwrap();
            assert_eq!(n.bits(), *bits);
            assert!(n.is_odd());
            assert_eq!(g, BigNat::from_u64(65547));
            assert!(n.rem_u32(3) != 0 && n.rem_u32(7283) != 0);
        }
    }
}

#[test]
fn signed_exponents_cancel() {
    let n = BigNat::from_u64(2881);
    let a = BigNat::from_u64(49);
    for e in [1i64, 2, 17, 6193420858199668535].iter() {
        let up = modpow_uint_int(&a, &BigInt::from_i64(*e), &n).unwrap();
        let down = modpow_uint_int(&a, &BigInt::from_i64(-*e), &n).unwrap();
        assert_eq!(up.mul(&down).mod_floor(&n), BigNat::one());
    }
    // exponent zero gives one, whatever the modulus
    let zero = BigInt::from_biguint(Sign::NoSign, BigNat::zero());
    assert_eq!(modpow_uint_int(&a, &zero, &BigNat::one()), Some(BigNat::one()));
    // no inverse: 49 = 7 * 7 modulo 14
    let m = BigNat::from_u64(14);
    assert!(modpow_uint_int(&a, &BigInt::from_i64(-1), &m).is_none());
    assert_eq!(
        modpow_uint_int(&a, &BigInt::from_i64(2), &m),
        Some(BigNat::from_u64(49 * 49 % 14))
    );
}

// A setup that hands out fixed parameters: here a modulus of one.
struct NoGroup;

impl PrimeGroup for NoGroup {
    fn generate_primes(
        _rng: &mut ChaChaRng,
        _bit_size: usize,
    ) -> Result<(BigNat, BigNat), Error> {
        Ok((BigNat::one(), BigNat::zero()))
    }
}

// A generator that is no element of the group.
struct WideGenerator;

impl PrimeGroup for WideGenerator {
    fn generate_primes(
        _rng: &mut ChaChaRng,
        _bit_size: usize,
    ) -> Result<(BigNat, BigNat), Error> {
        Ok((BigNat::from_u64(77), BigNat::from_u64(77)))
    }
}

// A small group with fixed parameters.
struct FixedGroup;

impl PrimeGroup for FixedGroup {
    fn generate_primes(
        _rng: &mut ChaChaRng,
        _bit_size: usize,
    ) -> Result<(BigNat, BigNat), Error> {
        Ok((BigNat::from_u64(1_000_003 * 1_000_033), BigNat::from_u64(2)))
    }
}

#[test]
fn setup_refuses_parameters_that_are_no_group() {
    let mut rng = seeded();
    assert_eq!(
        Accumulator::setup::<NoGroup>(&mut rng, 128).unwrap_err(),
        Error::InvalidGroup
    );
    assert_eq!(
        Accumulator::setup::<WideGenerator>(&mut rng, 128).unwrap_err(),
        Error::InvalidGroup
    );
}

#[test]
fn accumulator_over_fixed_parameters() {
    let mut rng = seeded();
    let mut acc = Accumulator::setup::<FixedGroup>(&mut rng, 40).unwrap();
    let n = BigNat::from_u64(1_000_003 * 1_000_033);
    assert_eq!(acc.modulus(), &n);
    assert_eq!(acc.lambda(), 40);
    assert_eq!(acc.root(), &BigNat::from_u64(2));
    assert_eq!(acc.members(), &BigNat::one());

    acc.add(&BigNat::from_u64(3));
    acc.add(&BigNat::from_u64(5));
    acc.add(&BigNat::from_u64(7));
    // 2^105 modulo n
    assert_eq!(
        acc.root(),
        &BigNat::from_u64(2).modpow(&BigNat::from_u64(105), &n)
    );
    assert_eq!(acc.members(), &BigNat::from_u64(105));

    // the witness of 5 is 2^21, and its non-membership witness is refused
    let w = acc.mem_wit_create(&BigNat::from_u64(5)).unwrap();
    assert_eq!(w, BigNat::from_u64(2_097_152));
    assert!(acc.ver_mem(&w, &BigNat::from_u64(5)));
    assert!(acc.non_mem_wit_create(&BigNat::from_u64(5)).is_none());

    // 11 is no member: 105 = 9 * 11 + 6, so the witness is (2^9, 6)
    let (u, v) = acc.non_mem_wit_create(&BigNat::from_u64(11)).unwrap();
    assert_eq!(u, BigNat::from_u64(512));
    assert_eq!(v, BigInt::from_i64(6));
    assert!(acc.ver_non_mem(&(u, v), &BigNat::from_u64(11)));
    assert!(!acc.ver_non_mem(&(BigNat::from_u64(512), BigInt::from_i64(5)), &BigNat::from_u64(11)));
    // an element that shares a factor with a member has no such witness
    assert!(acc.non_mem_wit_create(&BigNat::from_u64(10)).is_none());
    assert!(acc.non_mem_wit_create(&BigNat::zero()).is_none());
}

#[test]
fn an_accumulator_from_the_parameters_of_a_group() {
    let n = BigNat::from_u64(1_000_003 * 1_000_033);
    let g = BigNat::from_u64(2);
    let acc = Accumulator::from_group(40, Ok((n.clone(), g.clone()))).unwrap();
    assert_eq!(acc.modulus(), &n);
    assert_eq!(acc.generator(), &g);
    assert_eq!(acc.root(), &g);
    assert_eq!(acc.members(), &BigNat::one());
    assert_eq!(acc.lambda(), 40);
    // the least group: modulus two, generator one
    let least = Accumulator::from_group(2, Ok((g.clone(), BigNat::one()))).unwrap();
    assert_eq!(least.root(), &BigNat::one());

    // a failure of the setup is handed on
    assert_eq!(
        Accumulator::from_group(40, Err(Error::TooFewBits)).unwrap_err(),
        Error::TooFewBits
    );
    assert_eq!(
        Accumulator::from_group(40, Err(Error::PrimeNotFound)).unwrap_err(),
        Error::PrimeNotFound
    );
    // a modulus below two, a generator of zero, a generator beyond the group
    for (modulus, generator) in [(0u64, 0u64), (1, 0), (1, 1), (77, 0), (77, 77), (77, 78)].iter() {
        assert_eq!(
            Accumulator::from_group(
                40,
                Ok((BigNat::from_u64(*modulus), BigNat::from_u64(*generator)))
            )
            .unwrap_err(),
            Error::InvalidGroup
        );
    }
    assert!(Accumulator::from_group(40, Ok((BigNat::from_u64(77), BigNat::from_u64(76)))).is_ok());
}
