use core::marker::PhantomData;

use p3_air::{Air, AirBuilder, BaseAir, WindowAccess};
use p3_baby_bear::{default_babybear_poseidon2_16, BabyBear as Val, Poseidon2BabyBear};
use p3_challenger::DuplexChallenger;
use p3_commit::{BatchOpeningRef, ExtensionMmcs, Mmcs};
use p3_dft::Radix2DitParallel;
use p3_field::extension::BinomialExtensionField;
use p3_field::{BasedVectorSpace, Field as NativeField, PrimeCharacteristicRing, PrimeField64};
use p3_fri::{BatchMultiOpening as NativeOpening, FriParameters, FriProof as NativeFri};
use p3_matrix::dense::RowMajorMatrix;
use p3_merkle_tree::{MerkleCap, MerkleTreeHidingMmcs, MerkleTreeMmcs};
use p3_recursion::challenger::BabyBearDuplexChallenger;
use p3_recursion::extension::{BabyBearExt4, ExtensionField};
use p3_recursion::field::{exp_u64, BabyBear, Field, TwoAdicField};
use p3_recursion::fri_paths::{
    expand_fri_mmcs_paths, ExpandedFriMmcsPaths, FriWitnessBuildError,
};
use p3_recursion::fri_witness::{
    reconstruct_two_adic_fri_rows, BatchMultiOpening, CommitPhaseMultiStep, FriProof,
    FriWitnessError, ReconstructedFriRows, TwoAdicMultiplicativeCoset,
};
use p3_recursion::generation::{
    BatchFriWitnessContext, FriGenerationParams, GenerationError, HidingFriPcs,
    HidingOpeningProof, TwoAdicFriPcs,
};
use p3_recursion::merkle::{MerkleWitnessError, PrunedMerklePaths};
use p3_recursion::poseidon2_hash::{BabyBearPoseidon2Compress, BabyBearPoseidon2Hash};
use p3_recursion::uni_generation::{
    generate_uni_fri_witness_context, UniAirShape, UniCommitments, UniOpenedValues, UniProof,
};
use p3_symmetric::{PaddingFreeSponge, TruncatedPermutation};
use p3_uni_stark::{prove, verify, StarkConfig};
use rand::rngs::StdRng;
use rand::SeedableRng;

const LOG_BLOWUP: usize = 2;
const LOG_FINAL_POLY_LEN: usize = 1;
const SALT_ELEMS: usize = 4;

type Perm = Poseidon2BabyBear<16>;
type MyHash = PaddingFreeSponge<Perm, 16, 8, 8>;
type MyCompress = TruncatedPermutation<Perm, 2, 8, 16>;
type Packing = <Val as NativeField>::Packing;
type ValMmcs = MerkleTreeMmcs<Packing, Packing, MyHash, MyCompress, 2, 8>;
type HidingMmcs =
    MerkleTreeHidingMmcs<Packing, Packing, MyHash, MyCompress, StdRng, 2, 8, SALT_ELEMS>;
type Challenge = BinomialExtensionField<Val, 4>;
type ChallengeMmcs = ExtensionMmcs<Val, Challenge, ValMmcs>;
type HidingChallengeMmcs = ExtensionMmcs<Val, Challenge, HidingMmcs>;
type Challenger = DuplexChallenger<Val, Perm, 16, 8>;
type Dft = Radix2DitParallel<Val>;
type Pcs = p3_fri::TwoAdicFriPcs<Val, Dft, ValMmcs, ChallengeMmcs>;
type HidingPcs = p3_fri::HidingFriPcs<Val, Dft, HidingMmcs, HidingChallengeMmcs, StdRng>;
type MyConfig = StarkConfig<Pcs, Challenge, Challenger>;
type HidingConfig = StarkConfig<HidingPcs, Challenge, Challenger>;
type Cap = MerkleCap<Val, [Val; 8]>;
type Pruned = PrunedMerklePaths<BabyBear, 8>;
type Salted = (Vec<Vec<Vec<BabyBear>>>, Pruned);
type Ours<P> = FriProof<BabyBear, BabyBearExt4, Vec<BabyBear>, P>;
type Context = BatchFriWitnessContext<TwoAdicMultiplicativeCoset<BabyBear>, BabyBearExt4>;

struct FibonacciAir;

impl<F> BaseAir<F> for FibonacciAir {
    fn width(&self) -> usize {
        2
    }

    fn num_public_values(&self) -> usize {
        3
    }
}

impl<AB: AirBuilder> Air<AB> for FibonacciAir {
    fn eval(&self, builder: &mut AB) {
        let main = builder.main();
        let public = builder.public_values();
        let (a, b, x) = (public[0], public[1], public[2]);
        let local = main.current_slice();
        let next = main.next_slice();
        let (left, right) = (local[0], local[1]);
        let (next_left, next_right) = (next[0], next[1]);
        builder.when_first_row().assert_eq(left, a);
        builder.when_first_row().assert_eq(right, b);
        builder.when_transition().assert_eq(right, next_left);
        builder.when_transition().assert_eq(left + right, next_right);
        builder.when_last_row().assert_eq(right, x);
    }
}

fn fibonacci(n: usize) -> (RowMajorMatrix<Val>, Vec<Val>) {
    let mut values = vec![Val::ZERO, Val::ONE];
    for i in 1..n {
        let (left, right) = (values[2 * i - 2], values[2 * i - 1]);
        values.push(right);
        values.push(left + right);
    }
    let last = values[2 * n - 1];
    (RowMajorMatrix::new(values, 2), vec![Val::ZERO, Val::ONE, last])
}

fn air_shape() -> UniAirShape {
    UniAirShape {
        preprocessed_width: 0,
        num_public_values: 3,
        reads_next_row: true,
        reads_next_preprocessed_row: false,
    }
}

fn fri_parameters<M>(mmcs: M) -> FriParameters<M> {
    FriParameters {
        log_blowup: LOG_BLOWUP,
        log_final_poly_len: LOG_FINAL_POLY_LEN,
        max_log_arity: 2,
        num_queries: 5,
        commit_proof_of_work_bits: 2,
        query_proof_of_work_bits: 3,
        mmcs,
    }
}

fn generation_params() -> FriGenerationParams {
    FriGenerationParams {
        log_final_height: LOG_BLOWUP + LOG_FINAL_POLY_LEN,
        commit_pow_bits: 2,
        query_pow_bits: 3,
        num_queries: 5,
    }
}

fn bb(x: &Val) -> BabyBear {
    BabyBear::from_u64(x.as_canonical_u64())
}

fn bbs(xs: &[Val]) -> Vec<BabyBear> {
    xs.iter().map(bb).collect()
}

fn ext(x: &Challenge) -> BabyBearExt4 {
    let c: &[Val] = x.as_basis_coefficients_slice();
    BabyBearExt4::from_coefficients(&bbs(c))
}

fn exts(xs: &[Challenge]) -> Vec<BabyBearExt4> {
    xs.iter().map(ext).collect()
}

fn native(x: &BabyBear) -> Val {
    Val::from_u64(x.as_canonical_u64())
}

fn native_ext(x: &BabyBearExt4) -> Challenge {
    let c = x.coefficients();
    Challenge::from_basis_coefficients_fn(|i| native(&c[i]))
}

fn cap(c: &Cap) -> Vec<BabyBear> {
    let digests: &[[Val; 8]] = c.as_ref();
    digests.iter().flat_map(|d| bbs(d)).collect()
}

fn pruned(p: &p3_merkle_tree::PrunedMerklePaths<Val, 8>) -> Pruned {
    Pruned { sibling_hashes: p.sibling_hashes.iter().map(|d| d.map(|x| bb(&x))).collect() }
}

fn salted(
    p: &(Vec<Vec<Vec<Val>>>, p3_merkle_tree::PrunedMerklePaths<Val, 8>),
) -> Salted {
    (p.0.iter().map(|q| q.iter().map(|m| bbs(m)).collect()).collect(), pruned(&p.1))
}

fn native_path(path: &[[BabyBear; 8]]) -> Vec<[Val; 8]> {
    path.iter().map(|d| d.map(|x| native(&x))).collect()
}

fn convert<IM, FM, P>(
    fri: &NativeFri<Challenge, FM, Val, Vec<NativeOpening<Val, IM>>>,
    input: impl Fn(&IM::MultiProof) -> P,
    phase: impl Fn(&FM::MultiProof) -> P,
) -> Ours<P>
where
    IM: Mmcs<Val>,
    FM: Mmcs<Challenge, Commitment = Cap>,
{
    FriProof {
        commit_phase_commits: fri.commit_phase_commits.iter().map(cap).collect(),
        commit_pow_witnesses: bbs(&fri.commit_pow_witnesses),
        input_openings: fri
            .input_openings
            .iter()
            .map(|o| BatchMultiOpening {
                opened_values: o
                    .opened_values
                    .iter()
                    .map(|q| q.iter().map(|row| bbs(row)).collect())
                    .collect(),
                opening_proof: input(&o.opening_proof),
            })
            .collect(),
        commit_phase_openings: fri
            .commit_phase_openings
            .iter()
            .map(|s| CommitPhaseMultiStep {
                log_arity: s.log_arity,
                sibling_values: s.sibling_values.iter().map(|q| exts(q)).collect(),
                opening_proof: phase(&s.opening_proof),
            })
            .collect(),
        final_poly: exts(&fri.final_poly),
        query_pow_witness: bb(&fri.query_pow_witness),
    }
}

fn opened_values(o: &p3_uni_stark::OpenedValues<Challenge>) -> UniOpenedValues<BabyBearExt4> {
    UniOpenedValues {
        trace_local: exts(&o.trace_local),
        trace_next: o.trace_next.as_ref().map(|v| exts(v)),
        preprocessed_local: o.preprocessed_local.as_ref().map(|v| exts(v)),
        preprocessed_next: o.preprocessed_next.as_ref().map(|v| exts(v)),
        quotient_chunks: o.quotient_chunks.iter().map(|v| exts(v)).collect(),
        random: o.random.as_ref().map(|v| exts(v)),
    }
}

fn commitments(c: &p3_uni_stark::Commitments<Cap>) -> UniCommitments<BabyBear> {
    UniCommitments {
        trace: cap(&c.trace),
        quotient_chunks: cap(&c.quotient_chunks),
        random: c.random.as_ref().map(cap),
    }
}

fn val_mmcs() -> ValMmcs {
    let perm = default_babybear_poseidon2_16();
    ValMmcs::new(MyHash::new(perm.clone()), MyCompress::new(perm), 0)
}

fn hiding_mmcs() -> HidingMmcs {
    let perm = default_babybear_poseidon2_16();
    let rng = StdRng::seed_from_u64(1);
    HidingMmcs::new(MyHash::new(perm.clone()), MyCompress::new(perm), 0, rng)
}

struct Honest {
    stark: UniProof<BabyBear, BabyBearExt4, Ours<Pruned>>,
    public_values: Vec<BabyBear>,
    commits: Vec<Cap>,
    phase_commits: Vec<Cap>,
}

fn honest() -> Honest {
    let mmcs = val_mmcs();
    let pcs = Pcs::new(
        Dft::default(),
        mmcs.clone(),
        fri_parameters(ChallengeMmcs::new(mmcs)),
    );
    let config = MyConfig::new(pcs, Challenger::new(default_babybear_poseidon2_16()));
    let (trace, public_values) = fibonacci(64);
    let made = prove(&config, &FibonacciAir, trace, &public_values);
    verify(&config, &FibonacciAir, &made, &public_values).unwrap();
    Honest {
        stark: UniProof {
            commitments: commitments(&made.commitments),
            opened_values: opened_values(&made.opened_values),
            opening_proof: convert(&made.opening_proof, pruned, pruned),
            degree_bits: made.degree_bits,
        },
        public_values: bbs(&public_values),
        commits: vec![made.commitments.trace.clone(), made.commitments.quotient_chunks.clone()],
        phase_commits: made.opening_proof.commit_phase_commits.clone(),
    }
}

fn context(h: &Honest) -> Result<Context, GenerationError> {
    generate_uni_fri_witness_context(
        &air_shape(),
        &TwoAdicFriPcs::<Pruned> { merkle: PhantomData },
        BabyBearDuplexChallenger::new(),
        &h.stark,
        &h.public_values,
        generation_params(),
        &None,
    )
}

fn expand(
    fri: &Ours<Pruned>,
    c: &Context,
) -> Result<ExpandedFriMmcsPaths<BabyBear, 8>, FriWitnessBuildError> {
    let (hash, compress) = (BabyBearPoseidon2Hash::new(), BabyBearPoseidon2Compress::new());
    expand_fri_mmcs_paths::<BabyBear, BabyBearExt4, Vec<BabyBear>, _, _, _, _, 2, 8>(
        fri,
        &c.input_batches,
        c.alpha,
        &c.betas,
        &c.query_indices,
        LOG_BLOWUP,
        LOG_FINAL_POLY_LEN,
        &hash,
        &compress,
        0,
        &hash,
        &compress,
        0,
    )
}

fn rows<P>(
    fri: &Ours<P>,
    c: &Context,
) -> Result<ReconstructedFriRows<BabyBear, BabyBearExt4>, FriWitnessError> {
    reconstruct_two_adic_fri_rows(
        fri,
        &c.input_batches,
        c.alpha,
        &c.betas,
        &c.query_indices,
        LOG_BLOWUP,
        LOG_FINAL_POLY_LEN,
    )
}

fn native_dimensions(d: &[p3_recursion::merkle::Dimensions]) -> Vec<p3_matrix::Dimensions> {
    d.iter().map(|d| p3_matrix::Dimensions { width: d.width, height: d.height }).collect()
}

fn native_rows(rows: &[Vec<BabyBear>]) -> Vec<Vec<Val>> {
    rows.iter().map(|r| r.iter().map(native).collect()).collect()
}

fn native_ext_rows(rows: &[Vec<BabyBearExt4>]) -> Vec<Vec<Challenge>> {
    rows.iter().map(|r| r.iter().map(native_ext).collect()).collect()
}

#[test]
fn expanded_paths_authenticate_an_honest_proof() {
    let h = honest();
    let c = context(&h).unwrap();
    assert_eq!(c.query_indices.len(), 5);
    let fri = &h.stark.opening_proof;
    assert_eq!(c.betas.len(), fri.commit_phase_commits.len());
    let paths = expand(fri, &c).unwrap();
    let rows = rows(fri, &c).unwrap();
    let mmcs = val_mmcs();
    let phase_mmcs = ChallengeMmcs::new(mmcs.clone());
    for q in 0..5 {
        for b in 0..2 {
            mmcs.verify_batch(
                &h.commits[b],
                &native_dimensions(&rows.input_dimensions[b]),
                rows.input_indices[b][q],
                BatchOpeningRef::new(
                    &native_rows(&fri.input_openings[b].opened_values[q]),
                    &native_path(&paths.input_paths[q][b]),
                ),
            )
            .unwrap();
        }
        for k in 0..h.phase_commits.len() {
            phase_mmcs
                .verify_batch(
                    &h.phase_commits[k],
                    &native_dimensions(&rows.commit_phase_dimensions[k]),
                    rows.commit_phase_indices[k][q],
                    BatchOpeningRef::new(
                        &native_ext_rows(&rows.commit_phase_rows[k][q]),
                        &native_path(&paths.commit_phase_paths[q][k]),
                    ),
                )
                .unwrap();
        }
    }
}

#[test]
fn tampered_proofs_of_work_are_rejected() {
    let mut h = honest();
    let honest_witness = h.stark.opening_proof.query_pow_witness;
    // Some other witness fails the query proof of work.
    let mut failures = 0;
    for i in 1..8u64 {
        h.stark.opening_proof.query_pow_witness = honest_witness.add(BabyBear::from_u64(i));
        if let Err(e) = context(&h) {
            assert_eq!(e, GenerationError::InvalidPowWitness);
            failures += 1;
        }
    }
    assert!(failures > 0);
}

#[test]
fn proof_shapes_are_checked_before_the_transcript() {
    let mut h = honest();
    h.public_values.pop();
    assert!(matches!(context(&h), Err(GenerationError::InvalidProofShape(_))));

    let mut h = honest();
    h.stark.commitments.random = Some(vec![BabyBear::zero(); 8]);
    assert_eq!(context(&h).err(), Some(GenerationError::RandomizationError));
}

#[test]
fn tampered_openings_change_the_expansion() {
    let h = honest();
    let c = context(&h).unwrap();
    let honest_paths = expand(&h.stark.opening_proof, &c).unwrap();

    // One digest too many in a shared input proof.
    let mut long = honest();
    long.stark.opening_proof.input_openings[1]
        .opening_proof
        .sibling_hashes
        .push([BabyBear::zero(); 8]);
    assert!(matches!(
        expand(&long.stark.opening_proof, &c),
        Err(FriWitnessBuildError::InputMerkle {
            batch: 1,
            source: MerkleWitnessError::SiblingCountMismatch { .. },
        })
    ));

    // One digest too few in a commit phase.
    let mut short = honest();
    short.stark.opening_proof.commit_phase_openings[0].opening_proof.sibling_hashes.pop();
    assert!(matches!(
        expand(&short.stark.opening_proof, &c),
        Err(FriWitnessBuildError::CommitPhaseMerkle {
            phase: 0,
            source: MerkleWitnessError::SiblingCountMismatch { .. },
        })
    ));

    // Another opened value leads to other recomputed digests.
    let mut other = honest();
    let values = &mut other.stark.opening_proof.input_openings[0].opened_values[0][0];
    values[0] = values[0].add(BabyBear::one());
    if let Ok(paths) = expand(&other.stark.opening_proof, &c) {
        assert_ne!(paths.input_paths, honest_paths.input_paths);
    }
}

#[test]
fn rows_complete_the_siblings_and_indices_shift() {
    let h = honest();
    let c = context(&h).unwrap();
    let fri = &h.stark.opening_proof;
    let rebuilt = rows(fri, &c).unwrap();
    for q in 0..c.query_indices.len() {
        let mut index = c.query_indices[q];
        for (k, step) in fri.commit_phase_openings.iter().enumerate() {
            let arity = 1usize << step.log_arity;
            let row = &rebuilt.commit_phase_rows[k][q][0];
            assert_eq!(row.len(), arity);
            let mut siblings = row.clone();
            siblings.remove(index % arity);
            assert_eq!(siblings, step.sibling_values[q]);
            index >>= step.log_arity;
            assert_eq!(rebuilt.commit_phase_indices[k][q], index);
        }
    }
}

#[test]
fn openings_do_not_steer_the_queries() {
    let h = honest();
    let honest_context = context(&h).unwrap();
    let mut other = honest();
    let fri = &mut other.stark.opening_proof;
    fri.input_openings.clear();
    for step in fri.commit_phase_openings.iter_mut() {
        step.sibling_values.clear();
        step.opening_proof.sibling_hashes.clear();
    }
    let c = context(&other).unwrap();
    assert_eq!(c.alpha, honest_context.alpha);
    assert_eq!(c.betas, honest_context.betas);
    assert_eq!(c.query_indices, honest_context.query_indices);
}

#[test]
fn reconstruction_checks_its_inputs() {
    let h = honest();
    let mut c = context(&h).unwrap();
    let fri = &h.stark.opening_proof;
    assert!(rows(fri, &c).is_ok());

    let beta = c.betas.pop().unwrap();
    assert!(matches!(rows(fri, &c), Err(FriWitnessError::InvalidShape(_))));
    c.betas.push(beta);

    let claims = core::mem::take(&mut c.input_batches[0][0].points_and_values);
    assert_eq!(
        rows(fri, &c).err(),
        Some(FriWitnessError::MatrixWithoutOpeningPoint { batch: 0, matrix: 0 })
    );
    c.input_batches[0][0].points_and_values = claims;

    let value = c.input_batches[0][0].points_and_values[0].1.pop().unwrap();
    assert_eq!(
        rows(fri, &c).err(),
        Some(FriWitnessError::InvalidShape("opening-point evaluation widths disagree"))
    );
    let other = c.input_batches[0][0].points_and_values[1].1.pop().unwrap();
    assert_eq!(
        rows(fri, &c).err(),
        Some(FriWitnessError::OpeningWidthMismatch { query: 0, batch: 0, matrix: 0 })
    );
    c.input_batches[0][0].points_and_values[0].1.push(value);
    c.input_batches[0][0].points_and_values[1].1.push(other);
    assert!(rows(fri, &c).is_ok());

    // A claim at the very point that a query opens cannot be divided out.
    let points = &mut c.input_batches[0][0].points_and_values;
    let index = c.query_indices[0];
    let log_height = h.stark.degree_bits + LOG_BLOWUP;
    let reversed = index.reverse_bits() >> (usize::BITS as usize - log_height);
    let root = BabyBear::two_adic_generator(log_height);
    let x = BabyBear::generator().mul(exp_u64(root, reversed as u64));
    points[0].0 = BabyBearExt4::from_base(x);
    assert_eq!(
        rows(fri, &c).err(),
        Some(FriWitnessError::OpeningPointMatchesQueryPoint { query: 0 })
    );
}

struct HidingFixture {
    stark: UniProof<BabyBear, BabyBearExt4, HidingOpeningProof<BabyBear, BabyBearExt4, Salted>>,
    public_values: Vec<BabyBear>,
}

fn hiding() -> HidingFixture {
    let mmcs = hiding_mmcs();
    let pcs = HidingPcs::new(
        Dft::default(),
        mmcs.clone(),
        fri_parameters(HidingChallengeMmcs::new(mmcs)),
        4,
        StdRng::seed_from_u64(2),
    );
    let config = HidingConfig::new(pcs, Challenger::new(default_babybear_poseidon2_16()));
    let (trace, public_values) = fibonacci(32);
    let made = prove(&config, &FibonacciAir, trace, &public_values);
    verify(&config, &FibonacciAir, &made, &public_values).unwrap();
    let (random, fri) = &made.opening_proof;
    HidingFixture {
        stark: UniProof {
            commitments: commitments(&made.commitments),
            opened_values: opened_values(&made.opened_values),
            opening_proof: HidingOpeningProof {
                random_openings: random
                    .iter()
                    .map(|round| {
                        round
                            .iter()
                            .map(|matrix| matrix.iter().map(|point| exts(point)).collect())
                            .collect()
                    })
                    .collect(),
                fri: convert(fri, salted, salted),
            },
            degree_bits: made.degree_bits,
        },
        public_values: bbs(&public_values),
    }
}

fn hiding_context(h: &HidingFixture) -> Result<Context, GenerationError> {
    generate_uni_fri_witness_context(
        &air_shape(),
        &HidingFriPcs::<Salted> { merkle: PhantomData },
        BabyBearDuplexChallenger::new(),
        &h.stark,
        &h.public_values,
        generation_params(),
        &None,
    )
}

#[test]
fn hiding_openings_extend_the_claims() {
    let h = hiding();
    let c = hiding_context(&h).unwrap();
    assert_eq!(c.input_batches.len(), 3);
    // Four random codewords stand behind the two columns of the trace.
    let (_, values) = &c.input_batches[1][0].points_and_values[0];
    assert_eq!(values.len(), 2 + 4);
    assert_eq!(values[..2], h.stark.opened_values.trace_local[..]);
    assert_eq!(values[2..], h.stark.opening_proof.random_openings[1][0][0][..]);
    assert_eq!(c.query_indices.len(), 5);
}

#[test]
fn random_openings_match_the_rounds() {
    let mut h = hiding();
    h.stark.opening_proof.random_openings.pop();
    assert_eq!(
        hiding_context(&h).err(),
        Some(GenerationError::HidingRandomOpeningRoundCountMismatch { expected: 3, got: 2 })
    );
    let mut h = hiding();
    h.stark.opening_proof.random_openings[1].clear();
    assert_eq!(
        hiding_context(&h).err(),
        Some(GenerationError::HidingRandomOpeningMatrixCountMismatch {
            round: 1,
            expected: 1,
            got: 0,
        })
    );
    let mut h = hiding();
    h.stark.opening_proof.random_openings[1][0].pop();
    assert_eq!(
        hiding_context(&h).err(),
        Some(GenerationError::HidingRandomOpeningPointCountMismatch {
            round: 1,
            matrix: 0,
            expected: 2,
            got: 1,
        })
    );
}
