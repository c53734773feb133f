use p3_commit::Mmcs;
use p3_field::extension::BinomialExtensionField;
use p3_field::{BasedVectorSpace, Field as NativeField, PrimeCharacteristicRing, PrimeField64};
use p3_koala_bear::{default_koalabear_poseidon2_16, KoalaBear as Native, Poseidon2KoalaBear};
use p3_matrix::dense::RowMajorMatrix;
use p3_merkle_tree::MerkleTreeMmcs;
use p3_recursion::extension::{BabyBearExt4, ExtensionField};
use p3_recursion::field::{BabyBear, Field, KoalaBear};
use p3_recursion::merkle::{Dimensions, MerkleWitnessError, PrunedMerklePaths};
use p3_recursion::poseidon2_hash::{
    BabyBearPoseidon2Compress, BabyBearPoseidon2Hash, KoalaBearPoseidon2Compress,
    KoalaBearPoseidon2Hash,
};
use p3_recursion::whir_params::{VariableOrder, WhirRoundParams, WhirVerifierParams};
use p3_recursion::whir_witness::{
    expand_base_opening, expand_extension_opening, expand_whir_mmcs_paths, QueryOpenings,
    SharedRows, WhirProof, WhirWitnessBuildError,
};
use p3_symmetric::{PaddingFreeSponge, TruncatedPermutation};

const DIGEST_ELEMS: usize = 8;

type F = KoalaBear;
type Pruned = PrunedMerklePaths<F, DIGEST_ELEMS>;
type Perm = Poseidon2KoalaBear<16>;
type NativeHash = PaddingFreeSponge<Perm, 16, 8, 8>;
type NativeCompress = TruncatedPermutation<Perm, 2, 8, 16>;
type NativeMmcs = MerkleTreeMmcs<
    <Native as NativeField>::Packing,
    <Native as NativeField>::Packing,
    NativeHash,
    NativeCompress,
    2,
    8,
>;

fn back(x: &Native) -> F {
    F::from_u64(x.as_canonical_u64())
}

fn digest(d: &[Native; 8]) -> [F; 8] {
    d.map(|x| back(&x))
}

struct Fixture {
    dimensions: [Dimensions; 1],
    indices: Vec<usize>,
    rows: Vec<Vec<F>>,
    pruned: Pruned,
    full: Vec<Vec<[F; 8]>>,
}

fn base_fixture() -> Fixture {
    let permutation = default_koalabear_poseidon2_16();
    let mmcs = NativeMmcs::new(
        NativeHash::new(permutation.clone()),
        NativeCompress::new(permutation),
        0,
    );
    let matrix = RowMajorMatrix::new((0..64).map(Native::from_u64).collect(), 4);
    let dimensions = [Dimensions { height: 16, width: 4 }];
    let indices = vec![1, 5, 9];
    let (_, prover_data) = mmcs.commit(vec![matrix]);
    let (opened_values, shared) = mmcs.open_multi_batch(&indices, &prover_data);
    let rows = opened_values.iter().map(|query| query[0].iter().map(back).collect()).collect();
    let pruned = Pruned { sibling_hashes: shared.sibling_hashes.iter().map(digest).collect() };
    let full = indices
        .iter()
        .map(|&i| mmcs.open_batch(i, &prover_data).opening_proof.iter().map(digest).collect())
        .collect();
    Fixture { dimensions, indices, rows, pruned, full }
}

fn expand(
    dimensions: &[Dimensions],
    indices: &[usize],
    rows: &[Vec<F>],
    pruned: &Pruned,
) -> Result<Vec<Vec<[F; 8]>>, MerkleWitnessError> {
    expand_base_opening::<F, KoalaBearPoseidon2Hash, KoalaBearPoseidon2Compress, 2, DIGEST_ELEMS>(
        dimensions,
        indices,
        rows,
        pruned,
        &KoalaBearPoseidon2Hash::new(),
        &KoalaBearPoseidon2Compress::new(),
        0,
    )
}

#[test]
fn honest_shared_frontier_expands_to_one_full_path_per_query() {
    let t = base_fixture();
    let paths = expand(&t.dimensions, &t.indices, &t.rows, &t.pruned)
        .expect("honest shared frontier must expand");
    assert_eq!(paths.len(), t.indices.len());
    assert!(paths.iter().all(|path| !path.is_empty()));
    assert_eq!(paths, t.full);
}

#[test]
fn malformed_shared_frontier_lengths_are_rejected() {
    let t = base_fixture();

    let mut short = t.pruned.clone();
    short.sibling_hashes.pop();
    assert!(matches!(
        expand(&t.dimensions, &t.indices, &t.rows, &short),
        Err(MerkleWitnessError::SiblingCountMismatch { .. })
    ));

    let mut long = t.pruned;
    long.sibling_hashes.push([F::zero(); DIGEST_ELEMS]);
    assert!(matches!(
        expand(&t.dimensions, &t.indices, &t.rows, &long),
        Err(MerkleWitnessError::SiblingCountMismatch { .. })
    ));
}

#[test]
fn verifier_owned_query_and_row_geometry_is_enforced() {
    let t = base_fixture();

    let mut missing_query = t.rows.clone();
    missing_query.pop();
    assert_eq!(
        expand(&t.dimensions, &t.indices, &missing_query, &t.pruned),
        Err(MerkleWitnessError::QueryCountMismatch {
            expected: t.indices.len(),
            got: missing_query.len(),
        })
    );

    let mut wrong_width = t.rows.clone();
    wrong_width[0].pop();
    assert!(matches!(
        expand(&t.dimensions, &t.indices, &wrong_width, &t.pruned),
        Err(MerkleWitnessError::WidthMismatch { query: 0, matrix: 0, .. })
    ));

    let mut out_of_bounds = t.indices;
    out_of_bounds[0] = t.dimensions[0].height;
    assert!(matches!(
        expand(&t.dimensions, &out_of_bounds, &t.rows, &t.pruned),
        Err(MerkleWitnessError::IndexOutOfBounds { .. })
    ));
}

#[test]
fn inconsistent_duplicate_query_rows_are_rejected() {
    let t = base_fixture();
    let indices = vec![1, 1];
    let mut duplicate_rows = vec![t.rows[0].clone(), t.rows[0].clone()];
    duplicate_rows[1][0] = duplicate_rows[1][0].add(F::one());
    assert_eq!(
        expand(&t.dimensions, &indices, &duplicate_rows, &t.pruned),
        Err(MerkleWitnessError::InconsistentDuplicateOpenings { slot: 0 })
    );
}

type B = p3_baby_bear::BabyBear;
type E = BinomialExtensionField<B, 4>;
type BPerm = p3_baby_bear::Poseidon2BabyBear<16>;
type BHash = PaddingFreeSponge<BPerm, 16, 8, 8>;
type BCompress = TruncatedPermutation<BPerm, 2, 8, 16>;
type BMmcs =
    MerkleTreeMmcs<<B as NativeField>::Packing, <B as NativeField>::Packing, BHash, BCompress, 2, 8>;
type BPruned = PrunedMerklePaths<BabyBear, 8>;

fn bb(x: &B) -> BabyBear {
    BabyBear::from_u64(x.as_canonical_u64())
}

fn ext(x: &E) -> BabyBearExt4 {
    let coefficients: Vec<BabyBear> =
        <E as BasedVectorSpace<B>>::as_basis_coefficients_slice(x).iter().map(bb).collect();
    BabyBearExt4::from_coefficients(&coefficients)
}

struct Opened {
    base: SharedRows<BabyBear, BabyBear, 8>,
    extension: SharedRows<BabyBearExt4, BabyBear, 8>,
    base_paths: Vec<Vec<[BabyBear; 8]>>,
    extension_paths: Vec<Vec<[BabyBear; 8]>>,
}

/// Commits to a base matrix of 16 rows and to an extension matrix of 8 rows, and opens both.
fn opened(base_indices: &[usize], extension_indices: &[usize]) -> Opened {
    let permutation = p3_baby_bear::default_babybear_poseidon2_16();
    let mmcs = BMmcs::new(BHash::new(permutation.clone()), BCompress::new(permutation), 0);
    let flat: Vec<B> = (0..64).map(|i| B::from_u64(i * i + 1)).collect();
    let (_, data) = mmcs.commit(vec![RowMajorMatrix::new(flat, 4)]);
    let (rows, shared) = mmcs.open_multi_batch(base_indices, &data);
    let base = SharedRows {
        rows: rows.iter().map(|q| q[0].iter().map(bb).collect()).collect(),
        pruned: BPruned {
            sibling_hashes: shared.sibling_hashes.iter().map(|d| d.map(|x| bb(&x))).collect(),
        },
    };
    let path = |i: usize| -> Vec<[BabyBear; 8]> {
        mmcs.open_batch(i, &data).opening_proof.iter().map(|d| d.map(|x| bb(&x))).collect()
    };
    let base_paths = base_indices.iter().map(|&i| path(i)).collect();

    let wide: Vec<B> = (0..8 * 2 * 4).map(|i| B::from_u64(7 * i + 5)).collect();
    let (_, data) = mmcs.commit(vec![RowMajorMatrix::new(wide.clone(), 8)]);
    let (rows, shared) = mmcs.open_multi_batch(extension_indices, &data);
    let extension = SharedRows {
        rows: rows
            .iter()
            .map(|q| {
                q[0].chunks(4)
                    .map(|c| ext(&E::from_basis_coefficients_fn(|i| c[i])))
                    .collect::<Vec<BabyBearExt4>>()
            })
            .collect(),
        pruned: BPruned {
            sibling_hashes: shared.sibling_hashes.iter().map(|d| d.map(|x| bb(&x))).collect(),
        },
    };
    let path = |i: usize| -> Vec<[BabyBear; 8]> {
        mmcs.open_batch(i, &data).opening_proof.iter().map(|d| d.map(|x| bb(&x))).collect()
    };
    let extension_paths = extension_indices.iter().map(|&i| path(i)).collect();
    Opened { base, extension, base_paths, extension_paths }
}

fn params() -> WhirVerifierParams<BabyBear> {
    WhirVerifierParams {
        variable_order: VariableOrder::Prefix,
        starting_folding_pow_bits: 0,
        round_params: vec![WhirRoundParams {
            num_variables: 4,
            folding_factor: 2,
            folding_pow_bits: 0,
            domain_size: 64,
            folded_domain_gen: BabyBear::one(),
            num_queries: 3,
            ood_samples: 1,
            pow_bits: 0,
        }],
        final_queries: 2,
        final_pow_bits: 0,
        final_domain_size: 16,
        final_folded_domain_gen: BabyBear::one(),
        final_sumcheck_rounds: 1,
        final_folding_pow_bits: 0,
        permutation_config: None,
    }
}

fn expand_proof(
    whir: &WhirProof<BabyBear, BabyBearExt4, 8>,
    params: &WhirVerifierParams<BabyBear>,
    round_indices: &[Vec<usize>],
    final_indices: &[usize],
) -> Result<Vec<Vec<[BabyBear; 8]>>, WhirWitnessBuildError> {
    expand_whir_mmcs_paths::<
        BabyBear,
        BabyBearExt4,
        BabyBearPoseidon2Hash,
        BabyBearPoseidon2Compress,
        2,
        8,
    >(
        whir,
        params,
        round_indices,
        final_indices,
        &BabyBearPoseidon2Hash::new(),
        &BabyBearPoseidon2Compress::new(),
        0,
    )
    .map(|expanded| expanded.paths)
}

#[test]
fn extension_rows_are_hashed_by_their_coefficients() {
    let o = opened(&[0], &[6, 2]);
    let paths = expand_extension_opening::<
        BabyBear,
        BabyBearExt4,
        BabyBearPoseidon2Hash,
        BabyBearPoseidon2Compress,
        2,
        8,
    >(
        &[Dimensions { height: 8, width: 2 }],
        &[6, 2],
        &o.extension.rows,
        &o.extension.pruned,
        &BabyBearPoseidon2Hash::new(),
        &BabyBearPoseidon2Compress::new(),
        0,
    )
    .unwrap();
    assert_eq!(paths, o.extension_paths);
}

#[test]
fn proof_paths_run_through_the_rounds_in_order() {
    let rounds = vec![vec![3, 12, 3]];
    let last = vec![7, 1];
    let o = opened(&rounds[0], &last);
    let whir = WhirProof {
        rounds: vec![QueryOpenings::Base(o.base)],
        final_openings: QueryOpenings::Extension(o.extension),
    };
    let paths = expand_proof(&whir, &params(), &rounds, &last).unwrap();
    assert_eq!(paths.len(), 5);
    assert_eq!(paths[..3], o.base_paths[..]);
    assert_eq!(paths[3..], o.extension_paths[..]);
    // Queries of one leaf share their path.
    assert_eq!(paths[0], paths[2]);
}

#[test]
fn proof_shape_is_checked() {
    let o = opened(&[3, 12, 3], &[7, 1]);
    let again = opened(&[3, 12, 3], &[7, 1]);
    let whir = WhirProof {
        rounds: vec![QueryOpenings::Base(o.base)],
        final_openings: QueryOpenings::Extension(o.extension),
    };
    assert!(matches!(
        expand_proof(&whir, &params(), &[], &[7, 1]),
        Err(WhirWitnessBuildError::InvalidShape(_))
    ));
    assert!(matches!(
        expand_proof(&whir, &params(), &[vec![3, 12, 4]], &[7, 1]),
        Err(WhirWitnessBuildError::Merkle { round: 0, .. })
    ));
    assert_eq!(
        expand_proof(&whir, &params(), &[vec![3, 12, 3]], &[7]),
        Err(WhirWitnessBuildError::Merkle {
            round: 1,
            source: MerkleWitnessError::QueryCountMismatch { expected: 1, got: 2 },
        })
    );
    let swapped = WhirProof {
        rounds: vec![QueryOpenings::Extension(again.extension)],
        final_openings: QueryOpenings::Base(again.base),
    };
    assert_eq!(
        expand_proof(&swapped, &params(), &[vec![7, 1]], &[3, 12, 3]),
        Err(WhirWitnessBuildError::InvalidShape("WHIR opening field does not match its round"))
    );
    let mut without_rounds = params();
    without_rounds.round_params.clear();
    let only_final = WhirProof { rounds: vec![], final_openings: whir.final_openings };
    assert_eq!(
        expand_proof(&only_final, &without_rounds, &[], &[7, 1]),
        Err(WhirWitnessBuildError::InvalidShape(
            "WHIR final opening field does not match the round count"
        ))
    );
}
