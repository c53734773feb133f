use p3_baby_bear::{default_babybear_poseidon2_16, BabyBear as Native, Poseidon2BabyBear};
use p3_commit::Mmcs;
use p3_field::{Field as NativeField, PrimeCharacteristicRing, PrimeField64};
use p3_matrix::dense::RowMajorMatrix;
use p3_merkle_tree::MerkleTreeMmcs;
use p3_recursion::field::{BabyBear, Field};
use p3_recursion::merkle::{
    expand_pruned_merkle_paths, expand_with_schedule, Dimensions, MerkleWitnessError,
    PrunedMerklePaths,
};
use p3_recursion::poseidon2_hash::{BabyBearPoseidon2Compress, BabyBearPoseidon2Hash};
use p3_symmetric::{PaddingFreeSponge, TruncatedPermutation};

type Perm = Poseidon2BabyBear<16>;
type NativeHash = PaddingFreeSponge<Perm, 16, 8, 8>;
type NativeCompress = TruncatedPermutation<Perm, 2, 8, 16>;
type Packing = <Native as NativeField>::Packing;
type NativeMmcs = MerkleTreeMmcs<Packing, Packing, NativeHash, NativeCompress, 2, 8>;
type Path = Vec<[BabyBear; 8]>;

fn back(x: &Native) -> BabyBear {
    BabyBear::from_u64(x.as_canonical_u64())
}

fn digest(d: &[Native; 8]) -> [BabyBear; 8] {
    d.map(|x| back(&x))
}

struct Fixture {
    dimensions: Vec<Dimensions>,
    opened: Vec<Vec<Vec<BabyBear>>>,
    pruned: PrunedMerklePaths<BabyBear, 8>,
    full: Vec<Path>,
}

/// Commits to matrices of the given shapes and opens them at the given rows.
fn fixture(shapes: &[(usize, usize)], indices: &[usize], cap_height: usize) -> Fixture {
    let permutation = default_babybear_poseidon2_16();
    let mmcs = NativeMmcs::new(
        NativeHash::new(permutation.clone()),
        NativeCompress::new(permutation),
        cap_height,
    );
    let matrices: Vec<RowMajorMatrix<Native>> = shapes
        .iter()
        .enumerate()
        .map(|(m, &(height, width))| {
            let values =
                (0..height * width).map(|i| Native::from_u64((1000 * m + i) as u64)).collect();
            RowMajorMatrix::new(values, width)
        })
        .collect();
    let (_, data) = mmcs.commit(matrices);
    let (values, shared) = mmcs.open_multi_batch(indices, &data);
    Fixture {
        dimensions: shapes.iter().map(|&(height, width)| Dimensions { height, width }).collect(),
        opened: values
            .iter()
            .map(|q| q.iter().map(|row| row.iter().map(back).collect()).collect())
            .collect(),
        pruned: PrunedMerklePaths {
            sibling_hashes: shared.sibling_hashes.iter().map(digest).collect(),
        },
        full: indices
            .iter()
            .map(|&i| mmcs.open_batch(i, &data).opening_proof.iter().map(digest).collect())
            .collect(),
    }
}

fn expand(
    t: &Fixture,
    indices: &[usize],
    cap_height: usize,
) -> Result<Vec<Path>, MerkleWitnessError> {
    expand_pruned_merkle_paths::<
        BabyBear,
        BabyBearPoseidon2Hash,
        BabyBearPoseidon2Compress,
        2,
        8,
    >(
        &t.dimensions,
        indices,
        &t.opened,
        &t.pruned,
        &BabyBearPoseidon2Hash::new(),
        &BabyBearPoseidon2Compress::new(),
        cap_height,
    )
}

#[test]
fn expanded_paths_are_the_single_openings() {
    let cases: [(&[(usize, usize)], &[usize], usize); 6] = [
        (&[(16, 4)], &[1, 5, 9], 0),
        (&[(16, 3)], &[15, 0, 7, 7, 15], 0),
        (&[(16, 3), (8, 2), (16, 1)], &[2, 3, 12], 0),
        (&[(4, 2), (32, 5), (8, 1)], &[31, 16, 17, 3], 1),
        (&[(8, 2)], &[0, 1, 2, 3, 4, 5, 6, 7], 0),
        (&[(32, 2), (32, 2)], &[9], 2),
    ];
    for (shapes, indices, cap_height) in cases {
        let t = fixture(shapes, indices, cap_height);
        assert_eq!(expand(&t, indices, cap_height).unwrap(), t.full);
    }
}

#[test]
fn equal_queries_get_equal_paths() {
    let indices = [6, 2, 6];
    let t = fixture(&[(8, 1)], &indices, 0);
    let paths = expand(&t, &indices, 0).unwrap();
    assert_eq!(paths[0], paths[2]);
    assert_ne!(paths[0], paths[1]);
}

#[test]
fn boundary_digests_stand_where_nothing_is_recomputed() {
    // Leaves 0 and 1 meet at once: the proof carries one digest for each higher level.
    let indices = [0, 1];
    let t = fixture(&[(8, 1)], &indices, 0);
    assert_eq!(t.pruned.sibling_hashes.len(), 2);
    let paths = expand(&t, &indices, 0).unwrap();
    assert_eq!(paths[0][1..], t.pruned.sibling_hashes[..]);
    assert_eq!(paths[1][1..], t.pruned.sibling_hashes[..]);
    assert_ne!(paths[0][0], paths[1][0]);
}

#[test]
fn a_query_opens_every_matrix() {
    let indices = [1, 2];
    let mut t = fixture(&[(8, 1), (4, 1)], &indices, 0);
    t.opened[1].pop();
    assert_eq!(
        expand(&t, &indices, 0),
        Err(MerkleWitnessError::MatrixCountMismatch { query: 1, expected: 2, got: 1 })
    );
}

#[test]
fn merged_queries_agree_on_injected_rows() {
    // Leaves 2 and 3 lie below the same row of the shorter matrix.
    let indices = [2, 3];
    let mut t = fixture(&[(8, 1), (4, 1)], &indices, 0);
    t.opened[1][1][0] = t.opened[1][1][0].add(BabyBear::one());
    assert_eq!(
        expand(&t, &indices, 0),
        Err(MerkleWitnessError::InconsistentGroupOpening { slot: 1, matrix: 1 })
    );
}

#[test]
fn no_matrices_form_no_tree() {
    let t = Fixture {
        dimensions: vec![],
        opened: vec![vec![]],
        pruned: PrunedMerklePaths { sibling_hashes: vec![] },
        full: vec![],
    };
    assert_eq!(expand(&t, &[0], 0), Err(MerkleWitnessError::InvalidGeometry));
}

#[test]
fn no_queries_need_no_digests() {
    let mut t = fixture(&[(8, 1)], &[1], 0);
    t.opened.clear();
    t.pruned.sibling_hashes.clear();
    assert_eq!(expand(&t, &[], 0), Ok(vec![]));
    t.pruned.sibling_hashes.push([BabyBear::zero(); 8]);
    assert_eq!(
        expand(&t, &[], 0),
        Err(MerkleWitnessError::SiblingCountMismatch { expected: 0, got: 1 })
    );
}

#[test]
fn digest_counts_are_exact() {
    let indices = [1, 5, 9];
    let mut t = fixture(&[(16, 4)], &indices, 0);
    let n = t.pruned.sibling_hashes.len();
    let last = t.pruned.sibling_hashes.pop().unwrap();
    assert_eq!(
        expand(&t, &indices, 0),
        Err(MerkleWitnessError::SiblingCountMismatch { expected: n, got: n - 1 })
    );
    t.pruned.sibling_hashes.push(last);
    t.pruned.sibling_hashes.push(last);
    assert_eq!(
        expand(&t, &indices, 0),
        Err(MerkleWitnessError::SiblingCountMismatch { expected: n, got: n + 1 })
    );
}

#[test]
fn leaves_lie_inside_the_tallest_matrix() {
    let t = fixture(&[(8, 1)], &[7], 0);
    assert_eq!(
        expand(&t, &[8], 0),
        Err(MerkleWitnessError::IndexOutOfBounds { max_height: 8, index: 8 })
    );
}

fn expand_along(
    t: &Fixture,
    indices: &[usize],
    schedule: Option<Vec<usize>>,
) -> Result<Vec<Path>, MerkleWitnessError> {
    expand_with_schedule::<BabyBear, BabyBearPoseidon2Hash, BabyBearPoseidon2Compress, 2, 8>(
        &t.dimensions,
        indices,
        &t.opened,
        &t.pruned,
        &BabyBearPoseidon2Hash::new(),
        &BabyBearPoseidon2Compress::new(),
        &schedule,
    )
}

#[test]
fn paths_follow_the_given_schedule() {
    let indices = [2, 3, 12];
    let t = fixture(&[(16, 3), (8, 2)], &indices, 1);
    // Four levels of two, the highest of which lies in the cap.
    assert_eq!(expand_along(&t, &indices, Some(vec![2; 3])).unwrap(), t.full);
    // Leaves 2 and 3 meet at once and miss leaf 12 on two more levels.
    assert_eq!(t.pruned.sibling_hashes.len(), 5);
    assert_eq!(
        expand_along(&t, &indices, Some(vec![2; 2])),
        Err(MerkleWitnessError::SiblingCountMismatch { expected: 3, got: 5 })
    );
    assert_eq!(
        expand_along(&t, &indices, None),
        Err(MerkleWitnessError::InvalidGeometry)
    );
}
