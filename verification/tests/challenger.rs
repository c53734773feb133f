use p3_baby_bear::{default_babybear_poseidon2_16, BabyBear as Native, Poseidon2BabyBear};
use p3_challenger::{
    CanObserve, CanSample, CanSampleBits, DuplexChallenger, FieldChallenger, GrindingChallenger,
};
use p3_field::extension::BinomialExtensionField;
use p3_field::{BasedVectorSpace, PrimeCharacteristicRing, PrimeField64};
use p3_recursion::challenger::{
    check_witness, observe_algebra_element, observe_slice, sample_algebra_element, sample_bits,
    BabyBearDuplexChallenger, Challenger,
};
use p3_recursion::extension::{BabyBearExt4, ExtensionField};
use p3_recursion::field::{BabyBear, Field};
use p3_recursion::generation::{replay_pow_witness, GenerationError};

type NativeChallenger = DuplexChallenger<Native, Poseidon2BabyBear<16>, 16, 8>;
type NativeExt = BinomialExtensionField<Native, 4>;

fn native() -> NativeChallenger {
    NativeChallenger::new(default_babybear_poseidon2_16())
}

fn bb(x: &Native) -> BabyBear {
    BabyBear::from_u64(x.as_canonical_u64())
}

#[test]
fn the_duplex_sponge_matches_its_crate() {
    let mut theirs = native();
    let mut ours = BabyBearDuplexChallenger::new();
    for round in 0..6u64 {
        // Fewer elements than the rate, the rate, and more than it.
        for i in 0..5 * round {
            theirs.observe(Native::from_u64(1000 * round + i));
            ours.observe(BabyBear::from_u64(1000 * round + i));
        }
        for _ in 0..3 * round + 1 {
            let expected: Native = theirs.sample();
            assert_eq!(ours.sample(), bb(&expected));
        }
    }
}

#[test]
fn extension_elements_are_read_by_coefficients() {
    let mut theirs = native();
    let mut ours = BabyBearDuplexChallenger::new();
    let x: NativeExt = BasedVectorSpace::<Native>::from_basis_coefficients_fn(|i| {
        Native::from_u64(i as u64 + 5)
    });
    theirs.observe_algebra_element(x);
    let coefficients = (5..9).map(BabyBear::from_u64).collect();
    observe_algebra_element::<BabyBear, BabyBearExt4, _>(
        &mut ours,
        BabyBearExt4::from_coefficients(&coefficients),
    );
    let expected: NativeExt = theirs.sample_algebra_element();
    let got: BabyBearExt4 = sample_algebra_element::<BabyBear, BabyBearExt4, _>(&mut ours);
    let words: &[Native] = expected.as_basis_coefficients_slice();
    assert_eq!(got.coefficients(), words.iter().map(bb).collect::<Vec<_>>());
}

#[test]
fn bits_are_the_low_bits_of_an_element() {
    let mut theirs = native();
    let mut ours = BabyBearDuplexChallenger::new();
    theirs.observe_slice(&[Native::from_u64(3), Native::from_u64(4)]);
    observe_slice(&mut ours, &[BabyBear::from_u64(3), BabyBear::from_u64(4)]);
    for bits in [0, 1, 7, 20] {
        let expected: usize = theirs.sample_bits(bits);
        assert_eq!(sample_bits(&mut ours, bits), expected);
    }
}

#[test]
fn forks_are_independent() {
    let mut ours = BabyBearDuplexChallenger::new();
    ours.observe(BabyBear::from_u64(9));
    let mut copy = ours.fork();
    let first = copy.sample();
    copy.observe(BabyBear::one());
    assert_eq!(ours.sample(), first);
}

#[test]
fn grinding_witnesses_are_checked() {
    let mut theirs = native();
    theirs.observe(Native::from_u64(77));
    let witness = theirs.clone().grind(6);
    let mut ours = BabyBearDuplexChallenger::new();
    ours.observe(BabyBear::from_u64(77));
    let fork = ours.fork();
    assert!(check_witness(&mut ours, 6, bb(&witness)));
    assert!(theirs.check_witness(6, witness));
    // Both transcripts go on in the same way.
    let expected: Native = theirs.sample();
    assert_eq!(ours.sample(), bb(&expected));
    // Some other witness fails.
    let rejected = (1..64u64).any(|i| {
        let other = bb(&witness).add(BabyBear::from_u64(i));
        !check_witness(&mut fork.fork(), 6, other)
    });
    assert!(rejected);
}

#[test]
fn replaying_no_proof_of_work_leaves_the_transcript() {
    let mut ours = BabyBearDuplexChallenger::new();
    ours.observe(BabyBear::from_u64(5));
    let mut fork = ours.fork();
    assert_eq!(replay_pow_witness(&mut ours, 0, BabyBear::from_u64(123)), Ok(None));
    assert_eq!(ours.sample(), fork.sample());
}

#[test]
fn replayed_proofs_of_work_give_the_sampled_element() {
    let mut theirs = native();
    theirs.observe(Native::from_u64(12));
    let witness = theirs.clone().grind(5);
    let mut ours = BabyBearDuplexChallenger::new();
    ours.observe(BabyBear::from_u64(12));
    let fork = ours.fork();
    theirs.observe(witness);
    let expected: Native = theirs.sample();
    let got = replay_pow_witness(&mut ours, 5, bb(&witness)).unwrap();
    assert_eq!(got, Some(bb(&expected)));
    assert_eq!(bb(&expected).as_canonical_u64() % 32, 0);
    let failed = (1..64u64).any(|i| {
        let other = bb(&witness).add(BabyBear::from_u64(i));
        replay_pow_witness(&mut fork.fork(), 5, other) == Err(GenerationError::InvalidPowWitness)
    });
    assert!(failed);
}
