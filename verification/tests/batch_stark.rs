use core::marker::PhantomData;

use p3_air::{Air, AirBuilder, BaseAir, PermutationAirBuilder, WindowAccess};
use p3_baby_bear::{default_babybear_poseidon2_16, BabyBear as Val, Poseidon2BabyBear};
use p3_batch_stark::{prove_batch, verify_batch, CommonData, ProverData, StarkInstance};
use p3_challenger::DuplexChallenger;
use p3_commit::{BatchOpeningRef, ExtensionMmcs, Mmcs};
use p3_dft::Radix2DitParallel;
use p3_field::extension::BinomialExtensionField;
use p3_field::{BasedVectorSpace, Field as NativeField, PrimeCharacteristicRing, PrimeField64};
use p3_fri::{BatchMultiOpening as NativeOpening, FriParameters, FriProof as NativeFri};
use p3_lookup::{Count, InteractionBuilder};
use p3_matrix::dense::RowMajorMatrix;
use p3_merkle_tree::{MerkleCap, MerkleTreeHidingMmcs, MerkleTreeMmcs};
use p3_recursion::challenger::BabyBearDuplexChallenger;
use p3_recursion::extension::{BabyBearExt4, ExtensionField};
use p3_recursion::field::{BabyBear, Field};
use p3_recursion::fri_paths::{
    expand_fri_mmcs_paths, expand_hiding_fri_mmcs_paths, ExpandedFriMmcsPaths,
    FriWitnessBuildError,
};
use p3_recursion::fri_witness::{
    reconstruct_two_adic_fri_rows, BatchMultiOpening, CommitPhaseMultiStep, FriProof,
    FriWitnessError, ReconstructedFriRows, TwoAdicMultiplicativeCoset,
};
use p3_recursion::generation::{
    BatchFriWitnessContext, FriGenerationParams, GenerationError, HidingFriPcs,
    HidingOpeningProof, TwoAdicFriPcs,
};
use p3_recursion::merkle::PrunedMerklePaths;
use p3_recursion::poseidon2_hash::{BabyBearPoseidon2Compress, BabyBearPoseidon2Hash};
use p3_recursion::stark_generation::{
    generate_batch_challenge_data, generate_batch_challenges, generate_batch_fri_witness_context,
    AirShape, BatchCommitments, BatchProof, GlobalPreprocessed, InstanceOpenedValues,
    PreprocessedInstanceMeta,
};
use p3_symmetric::{PaddingFreeSponge, TruncatedPermutation};
use p3_uni_stark::StarkConfig;
use rand::rngs::StdRng;
use rand::SeedableRng;

const LOG_BLOWUP: usize = 2;
const LOG_FINAL_POLY_LEN: usize = 1;
const SALT_ELEMS: usize = 4;

type Perm = Poseidon2BabyBear<16>;
type MyHash = PaddingFreeSponge<Perm, 16, 8, 8>;
type MyCompress = TruncatedPermutation<Perm, 2, 8, 16>;
type Packing = <Val as NativeField>::Packing;
type ValMmcs = MerkleTreeMmcs<Packing, Packing, MyHash, MyCompress, 2, 8>;
type HidingMmcs =
    MerkleTreeHidingMmcs<Packing, Packing, MyHash, MyCompress, StdRng, 2, 8, SALT_ELEMS>;
type Challenge = BinomialExtensionField<Val, 4>;
type ChallengeMmcs = ExtensionMmcs<Val, Challenge, ValMmcs>;
type HidingChallengeMmcs = ExtensionMmcs<Val, Challenge, HidingMmcs>;
type Challenger = DuplexChallenger<Val, Perm, 16, 8>;
type Dft = Radix2DitParallel<Val>;
type Pcs = p3_fri::TwoAdicFriPcs<Val, Dft, ValMmcs, ChallengeMmcs>;
type HidingPcs = p3_fri::HidingFriPcs<Val, Dft, HidingMmcs, HidingChallengeMmcs, StdRng>;
type MyConfig = StarkConfig<Pcs, Challenge, Challenger>;
type HidingConfig = StarkConfig<HidingPcs, Challenge, Challenger>;
type Cap = MerkleCap<Val, [Val; 8]>;
type Pruned = PrunedMerklePaths<BabyBear, 8>;
type Salted = (Vec<Vec<Vec<BabyBear>>>, Pruned);
type Ours<P> = FriProof<BabyBear, BabyBearExt4, Vec<BabyBear>, P>;
type Context = BatchFriWitnessContext<TwoAdicMultiplicativeCoset<BabyBear>, BabyBearExt4>;

#[derive(Clone, Copy)]
struct FibonacciAir {
    log_height: usize,
    lookups: bool,
}

impl<F: NativeField> BaseAir<F> for FibonacciAir {
    fn width(&self) -> usize {
        2
    }

    fn num_public_values(&self) -> usize {
        3
    }

    fn preprocessed_trace(&self) -> Option<RowMajorMatrix<F>> {
        let values = (0..1u64 << self.log_height).map(F::from_u64).collect();
        Some(RowMajorMatrix::new(values, 1))
    }

    fn preprocessed_width(&self) -> usize {
        1
    }
}

impl<AB: PermutationAirBuilder + InteractionBuilder> Air<AB> for FibonacciAir
where
    AB::F: NativeField,
{
    fn eval(&self, builder: &mut AB) {
        let main = builder.main();
        let public = builder.public_values();
        let (a, b, x) = (public[0], public[1], public[2]);
        let local = main.current_slice();
        let next = main.next_slice();
        let (left, right) = (local[0], local[1]);
        let (next_left, next_right) = (next[0], next[1]);
        builder.when_first_row().assert_eq(left, a);
        builder.when_first_row().assert_eq(right, b);
        builder.when_transition().assert_eq(right, next_left);
        builder.when_transition().assert_eq(left + right, next_right);
        builder.when_last_row().assert_eq(right, x);
        if self.lookups {
            builder.push_local_interaction(vec![
                (vec![left.into()], Count::bounded(AB::Expr::ONE, 1)),
                (vec![left.into()], Count::provided(-AB::Expr::ONE)),
            ]);
        }
    }
}

fn fibonacci(n: usize) -> (RowMajorMatrix<Val>, Vec<Val>) {
    let mut values = vec![Val::ZERO, Val::ONE];
    for i in 1..n {
        let (left, right) = (values[2 * i - 2], values[2 * i - 1]);
        values.push(right);
        values.push(left + right);
    }
    let last = values[2 * n - 1];
    (RowMajorMatrix::new(values, 2), vec![Val::ZERO, Val::ONE, last])
}

fn fri_parameters<M>(mmcs: M) -> FriParameters<M> {
    FriParameters {
        log_blowup: LOG_BLOWUP,
        log_final_poly_len: LOG_FINAL_POLY_LEN,
        max_log_arity: 2,
        num_queries: 5,
        commit_proof_of_work_bits: 2,
        query_proof_of_work_bits: 3,
        mmcs,
    }
}

fn generation_params() -> FriGenerationParams {
    FriGenerationParams {
        log_final_height: LOG_BLOWUP + LOG_FINAL_POLY_LEN,
        commit_pow_bits: 2,
        query_pow_bits: 3,
        num_queries: 5,
    }
}

fn bb(x: &Val) -> BabyBear {
    BabyBear::from_u64(x.as_canonical_u64())
}

fn bbs(xs: &[Val]) -> Vec<BabyBear> {
    xs.iter().map(bb).collect()
}

fn ext(x: &Challenge) -> BabyBearExt4 {
    let c: &[Val] = x.as_basis_coefficients_slice();
    BabyBearExt4::from_coefficients(&bbs(c))
}

fn exts(xs: &[Challenge]) -> Vec<BabyBearExt4> {
    xs.iter().map(ext).collect()
}

fn native(x: &BabyBear) -> Val {
    Val::from_u64(x.as_canonical_u64())
}

fn native_ext(x: &BabyBearExt4) -> Challenge {
    let c = x.coefficients();
    Challenge::from_basis_coefficients_fn(|i| native(&c[i]))
}

fn cap(c: &Cap) -> Vec<BabyBear> {
    let digests: &[[Val; 8]] = c.as_ref();
    digests.iter().flat_map(|d| bbs(d)).collect()
}

fn pruned(p: &p3_merkle_tree::PrunedMerklePaths<Val, 8>) -> Pruned {
    Pruned { sibling_hashes: p.sibling_hashes.iter().map(|d| d.map(|x| bb(&x))).collect() }
}

fn salted(
    p: &(Vec<Vec<Vec<Val>>>, p3_merkle_tree::PrunedMerklePaths<Val, 8>),
) -> Salted {
    (p.0.iter().map(|q| q.iter().map(|m| bbs(m)).collect()).collect(), pruned(&p.1))
}

fn native_path(path: &[[BabyBear; 8]]) -> Vec<[Val; 8]> {
    path.iter().map(|d| d.map(|x| native(&x))).collect()
}

fn convert<IM, FM, P>(
    fri: &NativeFri<Challenge, FM, Val, Vec<NativeOpening<Val, IM>>>,
    input: impl Fn(&IM::MultiProof) -> P,
    phase: impl Fn(&FM::MultiProof) -> P,
) -> Ours<P>
where
    IM: Mmcs<Val>,
    FM: Mmcs<Challenge, Commitment = Cap>,
{
    FriProof {
        commit_phase_commits: fri.commit_phase_commits.iter().map(cap).collect(),
        commit_pow_witnesses: bbs(&fri.commit_pow_witnesses),
        input_openings: fri
            .input_openings
            .iter()
            .map(|o| BatchMultiOpening {
                opened_values: o
                    .opened_values
                    .iter()
                    .map(|q| q.iter().map(|row| bbs(row)).collect())
                    .collect(),
                opening_proof: input(&o.opening_proof),
            })
            .collect(),
        commit_phase_openings: fri
            .commit_phase_openings
            .iter()
            .map(|s| CommitPhaseMultiStep {
                log_arity: s.log_arity,
                sibling_values: s.sibling_values.iter().map(|q| exts(q)).collect(),
                opening_proof: phase(&s.opening_proof),
            })
            .collect(),
        final_poly: exts(&fri.final_poly),
        query_pow_witness: bb(&fri.query_pow_witness),
    }
}

fn val_mmcs() -> ValMmcs {
    let perm = default_babybear_poseidon2_16();
    ValMmcs::new(MyHash::new(perm.clone()), MyCompress::new(perm), 0)
}

fn hiding_mmcs() -> HidingMmcs {
    let perm = default_babybear_poseidon2_16();
    let rng = StdRng::seed_from_u64(1);
    HidingMmcs::new(MyHash::new(perm.clone()), MyCompress::new(perm), 0, rng)
}

fn airs() -> [FibonacciAir; 2] {
    [
        FibonacciAir { log_height: 5, lookups: true },
        FibonacciAir { log_height: 4, lookups: false },
    ]
}

fn instance(
    o: &p3_batch_stark::proof::OpenedValuesWithLookups<Challenge>,
) -> InstanceOpenedValues<BabyBearExt4> {
    let base = &o.base_opened_values;
    InstanceOpenedValues {
        trace_local: exts(&base.trace_local),
        trace_next: base.trace_next.as_ref().map(|v| exts(v)),
        preprocessed_local: base.preprocessed_local.as_ref().map(|v| exts(v)),
        preprocessed_next: base.preprocessed_next.as_ref().map(|v| exts(v)),
        quotient_chunks: base.quotient_chunks.iter().map(|v| exts(v)).collect(),
        random: base.random.as_ref().map(|v| exts(v)),
        permutation_local: exts(&o.permutation_local),
        permutation_next: exts(&o.permutation_next),
    }
}

fn batch_commitments(
    c: &p3_batch_stark::proof::BatchCommitments<Cap>,
) -> BatchCommitments<BabyBear> {
    BatchCommitments {
        main: cap(&c.main),
        permutation: c.permutation.as_ref().map(cap),
        quotient_chunks: cap(&c.quotient_chunks),
        random: c.random.as_ref().map(cap),
    }
}

struct Fixture<O> {
    stark: BatchProof<BabyBear, BabyBearExt4, O>,
    airs: Vec<AirShape>,
    public_values: Vec<Vec<BabyBear>>,
    preprocessed: Option<GlobalPreprocessed<BabyBear>>,
    lookups: Vec<bool>,
    /// The commitments in the order in which they are opened.
    commits: Vec<Cap>,
    phase_commits: Vec<Cap>,
}

fn shapes(instances: &[InstanceOpenedValues<BabyBearExt4>], zk: usize) -> Vec<AirShape> {
    instances
        .iter()
        .map(|i| AirShape {
            width: 2,
            log_quotient_chunks: i.quotient_chunks.len().trailing_zeros() as usize - zk,
        })
        .collect()
}

fn metas(
    metas: &[Option<p3_batch_stark::common::PreprocessedInstanceMeta>],
) -> Vec<Option<PreprocessedInstanceMeta>> {
    metas
        .iter()
        .map(|m| {
            m.as_ref().map(|m| PreprocessedInstanceMeta {
                matrix_index: m.matrix_index,
                width: m.width,
                degree_bits: m.degree_bits,
            })
        })
        .collect()
}

fn plain() -> Fixture<Ours<Pruned>> {
    let mmcs = val_mmcs();
    let pcs =
        Pcs::new(Dft::default(), mmcs.clone(), fri_parameters(ChallengeMmcs::new(mmcs)));
    let config = MyConfig::new(pcs, Challenger::new(default_babybear_poseidon2_16()));
    let airs = airs();
    let (trace_0, public_0) = fibonacci(32);
    let (trace_1, public_1) = fibonacci(16);
    let instances = vec![
        StarkInstance { air: &airs[0], trace: &trace_0, public_values: public_0.clone() },
        StarkInstance { air: &airs[1], trace: &trace_1, public_values: public_1.clone() },
    ];
    let data = ProverData::from_instances(&config, &instances);
    let made = prove_batch(&config, &instances, &data);
    let public = vec![public_0, public_1];
    let common: &CommonData<MyConfig> = &data.common;
    verify_batch(&config, &airs, &made, &public, common).unwrap();
    let global = common.preprocessed.as_ref().unwrap();
    let instances: Vec<InstanceOpenedValues<BabyBearExt4>> =
        made.opened_values.instances.iter().map(instance).collect();
    let shapes = shapes(&instances, 0);
    Fixture {
        stark: BatchProof {
            commitments: batch_commitments(&made.commitments),
            instances,
            opening_proof: convert(&made.opening_proof, pruned, pruned),
            lookup_terminals: made
                .lookup_terminals
                .iter()
                .map(|t| t.as_ref().map(|t| ext(&t.0)))
                .collect(),
            degree_bits: made.degree_bits.clone(),
        },
        airs: shapes,
        public_values: public.iter().map(|p| bbs(p)).collect(),
        preprocessed: Some(GlobalPreprocessed {
            commitment: cap(&global.commitment),
            instances: metas(&global.instances),
            matrix_to_instance: global.matrix_to_instance.clone(),
        }),
        lookups: vec![true, false],
        commits: vec![
            made.commitments.main.clone(),
            made.commitments.quotient_chunks.clone(),
            global.commitment.clone(),
            made.commitments.permutation.clone().unwrap(),
        ],
        phase_commits: made.opening_proof.commit_phase_commits.clone(),
    }
}

type HidingOpening = HidingOpeningProof<BabyBear, BabyBearExt4, Salted>;

fn hiding() -> Fixture<HidingOpening> {
    let mmcs = hiding_mmcs();
    let pcs = HidingPcs::new(
        Dft::default(),
        mmcs.clone(),
        fri_parameters(HidingChallengeMmcs::new(mmcs)),
        4,
        StdRng::seed_from_u64(2),
    );
    let config = HidingConfig::new(pcs, Challenger::new(default_babybear_poseidon2_16()));
    let airs = airs();
    let (trace_0, public_0) = fibonacci(32);
    let (trace_1, public_1) = fibonacci(16);
    let instances = vec![
        StarkInstance { air: &airs[0], trace: &trace_0, public_values: public_0.clone() },
        StarkInstance { air: &airs[1], trace: &trace_1, public_values: public_1.clone() },
    ];
    let data = ProverData::from_instances(&config, &instances);
    let made = prove_batch(&config, &instances, &data);
    let public = vec![public_0, public_1];
    let common: &CommonData<HidingConfig> = &data.common;
    verify_batch(&config, &airs, &made, &public, common).unwrap();
    let global = common.preprocessed.as_ref().unwrap();
    let (random, fri) = &made.opening_proof;
    let instances: Vec<InstanceOpenedValues<BabyBearExt4>> =
        made.opened_values.instances.iter().map(instance).collect();
    let shapes = shapes(&instances, 1);
    Fixture {
        stark: BatchProof {
            commitments: batch_commitments(&made.commitments),
            instances,
            opening_proof: HidingOpeningProof {
                random_openings: random
                    .iter()
                    .map(|round| {
                        round
                            .iter()
                            .map(|matrix| matrix.iter().map(|point| exts(point)).collect())
                            .collect()
                    })
                    .collect(),
                fri: convert(fri, salted, salted),
            },
            lookup_terminals: made
                .lookup_terminals
                .iter()
                .map(|t| t.as_ref().map(|t| ext(&t.0)))
                .collect(),
            degree_bits: made.degree_bits.clone(),
        },
        airs: shapes,
        public_values: public.iter().map(|p| bbs(p)).collect(),
        preprocessed: Some(GlobalPreprocessed {
            commitment: cap(&global.commitment),
            instances: metas(&global.instances),
            matrix_to_instance: global.matrix_to_instance.clone(),
        }),
        lookups: vec![true, false],
        commits: vec![
            made.commitments.random.clone().unwrap(),
            made.commitments.main.clone(),
            made.commitments.quotient_chunks.clone(),
            global.commitment.clone(),
            made.commitments.permutation.clone().unwrap(),
        ],
        phase_commits: fri.commit_phase_commits.clone(),
    }
}

fn context(
    f: &Fixture<Ours<Pruned>>,
) -> Result<(Vec<BabyBearExt4>, Context), GenerationError> {
    generate_batch_fri_witness_context(
        &f.airs,
        &TwoAdicFriPcs::<Pruned> { merkle: PhantomData },
        BabyBearDuplexChallenger::new(),
        &f.stark,
        &f.public_values,
        generation_params(),
        &f.preprocessed,
        2,
        &f.lookups,
    )
}

fn hiding_context(
    f: &Fixture<HidingOpening>,
) -> Result<(Vec<BabyBearExt4>, Context), GenerationError> {
    generate_batch_fri_witness_context(
        &f.airs,
        &HidingFriPcs::<Salted> { merkle: PhantomData },
        BabyBearDuplexChallenger::new(),
        &f.stark,
        &f.public_values,
        generation_params(),
        &f.preprocessed,
        2,
        &f.lookups,
    )
}

fn expand(
    fri: &Ours<Pruned>,
    c: &Context,
) -> Result<ExpandedFriMmcsPaths<BabyBear, 8>, FriWitnessBuildError> {
    let (hash, compress) = (BabyBearPoseidon2Hash::new(), BabyBearPoseidon2Compress::new());
    expand_fri_mmcs_paths::<BabyBear, BabyBearExt4, Vec<BabyBear>, _, _, _, _, 2, 8>(
        fri,
        &c.input_batches,
        c.alpha,
        &c.betas,
        &c.query_indices,
        LOG_BLOWUP,
        LOG_FINAL_POLY_LEN,
        &hash,
        &compress,
        0,
        &hash,
        &compress,
        0,
    )
}

fn rows<P>(
    fri: &Ours<P>,
    c: &Context,
) -> Result<ReconstructedFriRows<BabyBear, BabyBearExt4>, FriWitnessError> {
    reconstruct_two_adic_fri_rows(
        fri,
        &c.input_batches,
        c.alpha,
        &c.betas,
        &c.query_indices,
        LOG_BLOWUP,
        LOG_FINAL_POLY_LEN,
    )
}

fn native_dimensions(d: &[p3_recursion::merkle::Dimensions]) -> Vec<p3_matrix::Dimensions> {
    d.iter().map(|d| p3_matrix::Dimensions { width: d.width, height: d.height }).collect()
}

fn native_rows(rows: &[Vec<BabyBear>]) -> Vec<Vec<Val>> {
    rows.iter().map(|r| r.iter().map(native).collect()).collect()
}

fn native_ext_rows(rows: &[Vec<BabyBearExt4>]) -> Vec<Vec<Challenge>> {
    rows.iter().map(|r| r.iter().map(native_ext).collect()).collect()
}

#[test]
fn batch_paths_authenticate_an_honest_proof() {
    let f = plain();
    let (challenges, c) = context(&f).unwrap();
    // The lookup pair, the constraint challenge, the opening point, and the challenges of FRI.
    assert!(challenges.len() > 4 + c.betas.len() + 5);
    let fri = &f.stark.opening_proof;
    let paths = expand(fri, &c).unwrap();
    let rows = rows(fri, &c).unwrap();
    let mmcs = val_mmcs();
    let phase_mmcs = ChallengeMmcs::new(mmcs.clone());
    assert_eq!(fri.input_openings.len(), f.commits.len());
    for q in 0..5 {
        for b in 0..f.commits.len() {
            mmcs.verify_batch(
                &f.commits[b],
                &native_dimensions(&rows.input_dimensions[b]),
                rows.input_indices[b][q],
                BatchOpeningRef::new(
                    &native_rows(&fri.input_openings[b].opened_values[q]),
                    &native_path(&paths.input_paths[q][b]),
                ),
            )
            .unwrap();
        }
        for k in 0..f.phase_commits.len() {
            phase_mmcs
                .verify_batch(
                    &f.phase_commits[k],
                    &native_dimensions(&rows.commit_phase_dimensions[k]),
                    rows.commit_phase_indices[k][q],
                    BatchOpeningRef::new(
                        &native_ext_rows(&rows.commit_phase_rows[k][q]),
                        &native_path(&paths.commit_phase_paths[q][k]),
                    ),
                )
                .unwrap();
        }
    }
}

fn hiding_expand(
    f: &Fixture<HidingOpening>,
    c: &Context,
) -> Result<ExpandedFriMmcsPaths<BabyBear, 8>, FriWitnessBuildError> {
    let (hash, compress) = (BabyBearPoseidon2Hash::new(), BabyBearPoseidon2Compress::new());
    expand_hiding_fri_mmcs_paths::<
        BabyBear,
        BabyBearExt4,
        Vec<BabyBear>,
        _,
        _,
        _,
        _,
        2,
        8,
        SALT_ELEMS,
    >(
        &f.stark.opening_proof.fri,
        &c.input_batches,
        c.alpha,
        &c.betas,
        &c.query_indices,
        LOG_BLOWUP,
        LOG_FINAL_POLY_LEN,
        &hash,
        &compress,
        0,
        &hash,
        &compress,
        0,
    )
}

#[test]
fn batch_paths_authenticate_a_hiding_proof() {
    let f = hiding();
    let (_, c) = hiding_context(&f).unwrap();
    let paths = hiding_expand(&f, &c).unwrap();
    let fri = &f.stark.opening_proof.fri;
    let rows = rows(fri, &c).unwrap();
    let mmcs = hiding_mmcs();
    let phase_mmcs = HidingChallengeMmcs::new(hiding_mmcs());
    for q in 0..5 {
        for b in 0..f.commits.len() {
            let salts = native_rows(&fri.input_openings[b].opening_proof.0[q]);
            mmcs.verify_batch(
                &f.commits[b],
                &native_dimensions(&rows.input_dimensions[b]),
                rows.input_indices[b][q],
                BatchOpeningRef::new(
                    &native_rows(&fri.input_openings[b].opened_values[q]),
                    &(salts, native_path(&paths.input_paths[q][b])),
                ),
            )
            .unwrap();
        }
        for k in 0..f.phase_commits.len() {
            let salts = native_rows(&fri.commit_phase_openings[k].opening_proof.0[q]);
            phase_mmcs
                .verify_batch(
                    &f.phase_commits[k],
                    &native_dimensions(&rows.commit_phase_dimensions[k]),
                    rows.commit_phase_indices[k][q],
                    BatchOpeningRef::new(
                        &native_ext_rows(&rows.commit_phase_rows[k][q]),
                        &(salts, native_path(&paths.commit_phase_paths[q][k])),
                    ),
                )
                .unwrap();
        }
    }
}

#[test]
fn salt_widths_are_checked() {
    let mut f = hiding();
    let (_, c) = hiding_context(&f).unwrap();
    f.stark.opening_proof.fri.input_openings[1].opening_proof.0[2][0].pop();
    assert!(matches!(
        hiding_expand(&f, &c),
        Err(FriWitnessBuildError::SaltWidthMismatch {
            query: 2,
            matrix: 0,
            expected: SALT_ELEMS,
            got: 3,
            ..
        })
    ));
}

#[test]
fn batch_challenges_are_the_first_part_of_the_context() {
    let f = plain();
    let (challenges, c) = context(&f).unwrap();
    let only = generate_batch_challenges(
        &f.airs,
        &TwoAdicFriPcs::<Pruned> { merkle: PhantomData },
        BabyBearDuplexChallenger::new(),
        &f.stark,
        &f.public_values,
        Some(generation_params()),
        &f.preprocessed,
        2,
        &f.lookups,
    )
    .unwrap();
    assert_eq!(only, challenges);
    assert!(only.contains(&c.alpha));
    for beta in &c.betas {
        assert!(only.contains(beta));
    }
}

#[test]
fn batch_data_come_in_sampling_order() {
    let f = plain();
    let (challenges, fri, batches) = generate_batch_challenge_data(
        &f.airs,
        &TwoAdicFriPcs::<Pruned> { merkle: PhantomData },
        BabyBearDuplexChallenger::new(),
        &f.stark,
        &f.public_values,
        Some(generation_params()),
        &f.preprocessed,
        2,
        &f.lookups,
    )
    .unwrap();
    let k = if f.lookups.contains(&true) { 2 } else { 0 };
    assert_eq!(challenges.len(), k + 2 + fri.public_values.len());
    assert_eq!(challenges[k + 2..], fri.public_values[..]);
    assert_eq!(fri.public_values[0], fri.alpha);
    // Without a random commitment the trace comes first, opened at the out-of-domain point.
    assert!(f.stark.commitments.random.is_none());
    let zeta = challenges[k + 1];
    assert!(batches[0].iter().all(|m| m.points_and_values[0].0 == zeta));
    let count = 2
        + f.preprocessed.is_some() as usize
        + f.stark.commitments.permutation.is_some() as usize;
    assert_eq!(batches.len(), count);
    for (i, m) in batches[0].iter().enumerate() {
        assert_eq!(m.points_and_values[0].1, f.stark.instances[i].trace_local);
    }
}

#[test]
fn hiding_batch_data_come_in_sampling_order() {
    let f = hiding();
    let (challenges, c) = hiding_context(&f).unwrap();
    // The lookup pair and the constraint challenge come first, then the opening point.
    let zeta = challenges[3];
    assert_eq!(challenges[4], c.alpha);
    assert_eq!(c.input_batches.len(), 5);
    // The random batch and the trace are opened at that point, one matrix for each instance.
    for batch in &c.input_batches[..2] {
        assert_eq!(batch.len(), f.airs.len());
        assert!(batch.iter().all(|m| m.points_and_values[0].0 == zeta));
    }
}

#[test]
fn counts_are_checked_before_heights() {
    let f = plain();
    let (_, c) = context(&f).unwrap();
    let fri = &f.stark.opening_proof;
    // No machine holds such heights, but the query is missing before they matter.
    assert_eq!(
        reconstruct_two_adic_fri_rows(fri, &c.input_batches, c.alpha, &c.betas, &[], 1000, 1000)
            .err(),
        Some(FriWitnessError::InvalidShape("FRI requires at least one query"))
    );
    assert_eq!(
        reconstruct_two_adic_fri_rows(fri, &[], c.alpha, &c.betas, &[0], 1000, 1000).err(),
        Some(FriWitnessError::InvalidShape("input opening batch count mismatch"))
    );
}

#[test]
fn batch_challenges_need_parameters() {
    let f = plain();
    let r = generate_batch_challenges(
        &f.airs,
        &TwoAdicFriPcs::<Pruned> { merkle: PhantomData },
        BabyBearDuplexChallenger::new(),
        &f.stark,
        &f.public_values,
        None,
        &f.preprocessed,
        2,
        &f.lookups,
    );
    assert_eq!(r, Err(GenerationError::MissingParameterError));
}

#[test]
fn batch_shapes_are_checked() {
    let mut f = plain();
    f.public_values.pop();
    assert_eq!(
        context(&f).err(),
        Some(GenerationError::InstanceMetadataLengthMismatch {
            airs: 2,
            opened_values: 2,
            public_values: 1,
            degree_bits: 2,
        })
    );

    let mut f = plain();
    f.stark.commitments.random = Some(vec![BabyBear::zero(); 8]);
    assert_eq!(context(&f).err(), Some(GenerationError::RandomizationError));

    let mut f = plain();
    f.stark.instances[0].quotient_chunks[0].pop();
    assert!(matches!(context(&f).err(), Some(GenerationError::InvalidProofShape(_))));

    let mut f = plain();
    f.stark.instances[0].permutation_local.pop();
    assert!(matches!(context(&f).err(), Some(GenerationError::InvalidProofShape(_))));
}

#[test]
fn a_changed_opening_changes_the_challenges() {
    let f = plain();
    let (challenges, _) = context(&f).unwrap();
    let mut g = plain();
    let value = g.stark.instances[1].trace_local[0];
    g.stark.instances[1].trace_local[0] = value.add(BabyBearExt4::one());
    match context(&g) {
        // The grinding witnesses were found for another transcript.
        Err(e) => assert_eq!(e, GenerationError::InvalidPowWitness),
        Ok((other, _)) => assert_ne!(other, challenges),
    }
}
