//! Full Merkle paths for every query of a FRI proof.

use vstd::arithmetic::power2::*;
use vstd::prelude::*;

use crate::bits;
use crate::extension::ExtensionField;
use crate::field::{Field, TwoAdicField};
use crate::fri_witness;
use crate::fri_witness::{
    reconstruct_two_adic_fri_rows, FriInputMatrix, FriProof, FriReplay, FriWitnessError,
    ReconstructedFriRows, TwoAdicMultiplicativeCoset,
};
use crate::merkle;
use crate::merkle::{
    expand_pruned_merkle_paths, CryptographicHasher, Dimensions, MerkleWitnessError,
    PrunedMerklePaths, PseudoCompressionFunction,
};
use crate::seqs;
use crate::seqs::{append_copy, copy_vec};

verus! {

/// Full per-query Merkle paths reconstructed from shared multiproofs. Layout is
/// `[query][input batch or commit phase][sibling]`.
#[derive(Clone, Debug, PartialEq, Eq)]
pub struct ExpandedFriMmcsPaths<F, const DIGEST_ELEMS: usize> {
    pub input_paths: Vec<Vec<Vec<[F; DIGEST_ELEMS]>>>,
    pub commit_phase_paths: Vec<Vec<Vec<[F; DIGEST_ELEMS]>>>,
}

/// Failures while converting a compact proof into witness paths. Every variant is a failure of the
/// shape of the proof, never a recoverable fallback.
#[derive(Clone, Debug, PartialEq, Eq)]
pub enum FriWitnessBuildError {
    InvalidShape(&'static str),
    Arithmetic(FriWitnessError),
    InputMerkle { batch: usize, source: MerkleWitnessError },
    CommitPhaseMerkle { phase: usize, source: MerkleWitnessError },
    SaltWidthMismatch {
        location: &'static str,
        query: usize,
        matrix: usize,
        expected: usize,
        got: usize,
    },
}

/// All lists have the length of the first.
pub open spec fn uniform<T>(lists: Seq<Vec<T>>) -> bool {
    forall|i: int| 0 <= i < lists.len() ==> (#[trigger] lists[i])@.len() == lists[0]@.len()
}

fn is_uniform<T>(lists: &Vec<Vec<T>>) -> (r: bool)
    ensures
        r == uniform(lists@),
{
    let mut i: usize = 0;
    while i < lists.len()
        invariant
            i <= lists@.len(),
            forall|j: int| 0 <= j < i ==> (#[trigger] lists@[j])@.len() == lists@[0]@.len(),
        decreases lists@.len() - i,
    {
        if lists[i].len() != lists[0].len() {
            return false;
        }
        i += 1;
    }
    true
}

impl<F, const DIGEST_ELEMS: usize> ExpandedFriMmcsPaths<F, DIGEST_ELEMS> {
    /// Every query has a path for every batch and every phase.
    pub open spec fn wf(self) -> bool {
        &&& self.input_paths@.len() == self.commit_phase_paths@.len()
        &&& uniform(self.input_paths@)
        &&& uniform(self.commit_phase_paths@)
    }

    pub fn new(
        input_paths: Vec<Vec<Vec<[F; DIGEST_ELEMS]>>>,
        commit_phase_paths: Vec<Vec<Vec<[F; DIGEST_ELEMS]>>>,
    ) -> (r: Result<Self, FriWitnessBuildError>)
        ensures
            match r {
                Ok(paths) => {
                    &&& paths.wf()
                    &&& paths.input_paths == input_paths
                    &&& paths.commit_phase_paths == commit_phase_paths
                },
                Err(e) => e == FriWitnessBuildError::InvalidShape(
                    if input_paths@.len() != commit_phase_paths@.len() {
                        "FRI input and commit-phase path query counts differ"
                    } else if !uniform(input_paths@) {
                        "FRI input path batch count differs across queries"
                    } else {
                        "FRI commit-phase path count differs across queries"
                    },
                ) && !(input_paths@.len() == commit_phase_paths@.len() && uniform(input_paths@)
                    && uniform(commit_phase_paths@)),
            },
    {
        if input_paths.len() != commit_phase_paths.len() {
            return Err(
                FriWitnessBuildError::InvalidShape(
                    "FRI input and commit-phase path query counts differ",
                ),
            );
        }
        if !is_uniform(&input_paths) {
            return Err(
                FriWitnessBuildError::InvalidShape(
                    "FRI input path batch count differs across queries",
                ),
            );
        }
        if !is_uniform(&commit_phase_paths) {
            return Err(
                FriWitnessBuildError::InvalidShape(
                    "FRI commit-phase path count differs across queries",
                ),
            );
        }
        Ok(ExpandedFriMmcsPaths { input_paths, commit_phase_paths })
    }
}

// Flattening of extension rows.

/// The coefficients of the first `n` elements, one after the other.
pub open spec fn flat<F: Field, EF: ExtensionField<F>>(row: Seq<EF>, n: nat) -> Seq<F>
    decreases n,
{
    if n == 0 {
        Seq::empty()
    } else {
        flat::<F, EF>(row, (n - 1) as nat) + row[n - 1].sp_coefficients()
    }
}

/// A row of extension elements as base elements.
pub open spec fn flat_row<F: Field, EF: ExtensionField<F>>(row: Seq<EF>) -> Seq<F> {
    flat::<F, EF>(row, row.len())
}

/// All rows of all queries as base elements.
pub open spec fn flat_tables<F: Field, EF: ExtensionField<F>>(
    rows: Seq<Seq<Seq<EF>>>,
) -> Seq<Seq<Seq<F>>> {
    Seq::new(
        rows.len(),
        |q: int| Seq::new(rows[q].len(), |m: int| flat_row::<F, EF>(rows[q][m])),
    )
}

/// Flattens one row of extension elements.
pub fn flatten_row<F: Field, EF: ExtensionField<F>>(row: &Vec<EF>) -> (r: Vec<F>)
    ensures
        r@ == flat_row::<F, EF>(row@),
{
    let mut r: Vec<F> = Vec::new();
    let mut i: usize = 0;
    while i < row.len()
        invariant
            i <= row@.len(),
            r@ == flat::<F, EF>(row@, i as nat),
        decreases row@.len() - i,
    {
        let coefficients: Vec<F> = row[i].coefficients();
        append_copy(&mut r, &coefficients);
        i += 1;
    }
    r
}

fn flatten_extension_dimensions<F: Field, EF: ExtensionField<F>>(dimensions: &Vec<Dimensions>) -> (r:
    Vec<Dimensions>)
    requires
        forall|m: int|
            0 <= m < dimensions@.len() ==> (#[trigger] dimensions@[m]).width * EF::sp_dimension()
                <= usize::MAX,
    ensures
        r@ == flat_dimensions(dimensions@, EF::sp_dimension()),
{
    let dimension: usize = EF::dimension();
    let mut r: Vec<Dimensions> = Vec::with_capacity(dimensions.len());
    let mut m: usize = 0;
    while m < dimensions.len()
        invariant
            m <= dimensions@.len(),
            dimension == EF::sp_dimension(),
            forall|m: int|
                0 <= m < dimensions@.len() ==> (#[trigger] dimensions@[m]).width
                    * EF::sp_dimension() <= usize::MAX,
            r@ == flat_dimensions(dimensions@, EF::sp_dimension()).take(m as int),
        decreases dimensions@.len() - m,
    {
        let d: Dimensions = dimensions[m];
        assert(dimensions@[m as int].width * EF::sp_dimension() <= usize::MAX);
        r.push(Dimensions { width: d.width * dimension, height: d.height });
        m += 1;
        assert(r@ =~= flat_dimensions(dimensions@, EF::sp_dimension()).take(m as int));
    }
    assert(r@ =~= flat_dimensions(dimensions@, EF::sp_dimension()));
    r
}

/// Dimensions counted in base elements.
pub open spec fn flat_dimensions(dimensions: Seq<Dimensions>, dimension: nat) -> Seq<Dimensions> {
    Seq::new(
        dimensions.len(),
        |m: int|
            Dimensions {
                width: (dimensions[m].width * dimension) as usize,
                height: dimensions[m].height,
            },
    )
}

fn flatten_extension_rows<F: Field, EF: ExtensionField<F>>(rows: &Vec<Vec<Vec<EF>>>) -> (r: Vec<
    Vec<Vec<F>>,
>)
    ensures
        seqs::tables(r@) == flat_tables::<F, EF>(seqs::tables(rows@)),
{
    let mut r: Vec<Vec<Vec<F>>> = Vec::with_capacity(rows.len());
    let mut q: usize = 0;
    while q < rows.len()
        invariant
            q <= rows@.len(),
            r@.len() == q,
            forall|i: int|
                0 <= i < q ==> seqs::rows((#[trigger] r@[i])@) == flat_tables::<F, EF>(
                    seqs::tables(rows@),
                )[i],
        decreases rows@.len() - q,
    {
        let mut query: Vec<Vec<F>> = Vec::with_capacity(rows[q].len());
        let mut m: usize = 0;
        while m < rows[q].len()
            invariant
                q < rows@.len(),
                m <= rows@[q as int]@.len(),
                query@.len() == m,
                forall|i: int|
                    0 <= i < m ==> (#[trigger] query@[i])@ == flat_row::<F, EF>(
                        rows@[q as int]@[i]@,
                    ),
            decreases rows@[q as int]@.len() - m,
        {
            query.push(flatten_row::<F, EF>(&rows[q][m]));
            m += 1;
        }
        assert(seqs::rows(query@) =~= flat_tables::<F, EF>(seqs::tables(rows@))[q as int]);
        r.push(query);
        q += 1;
    }
    assert(seqs::tables(r@) =~= flat_tables::<F, EF>(seqs::tables(rows@)));
    r
}

// Salts of hiding commitments.

/// Rows with their salts appended.
pub open spec fn salted_rows<F>(
    rows: Seq<Seq<Seq<F>>>,
    salts: Seq<Seq<Seq<F>>>,
) -> Seq<Seq<Seq<F>>> {
    Seq::new(
        rows.len(),
        |q: int| Seq::new(rows[q].len(), |m: int| rows[q][m] + salts[q][m]),
    )
}

/// Dimensions with the salt columns.
pub open spec fn salted_dimensions(dimensions: Seq<Dimensions>, salt: nat) -> Seq<Dimensions> {
    Seq::new(
        dimensions.len(),
        |m: int|
            Dimensions {
                width: (dimensions[m].width + salt) as usize,
                height: dimensions[m].height,
            },
    )
}

pub open spec fn wrong_salt_width<F>(salts: Seq<Seq<F>>, salt: nat) -> spec_fn(int) -> bool {
    |m: int| salts[m].len() != salt
}

/// What is wrong with the salts of the first `n` queries.
pub open spec fn queries_salt_failure<F>(
    matrices: nat,
    rows: Seq<Seq<Seq<F>>>,
    salts: Seq<Seq<Seq<F>>>,
    salt: nat,
    location: &'static str,
    n: nat,
) -> Option<FriWitnessBuildError>
    decreases n,
{
    if n == 0 {
        None
    } else {
        match queries_salt_failure(matrices, rows, salts, salt, location, (n - 1) as nat) {
            Some(e) => Some(e),
            None => if rows[n - 1].len() != matrices || salts[n - 1].len() != matrices {
                Some(FriWitnessBuildError::InvalidShape("hiding salt matrix count mismatch"))
            } else {
                match seqs::least(matrices, wrong_salt_width(salts[n - 1], salt)) {
                    Some(m) => Some(
                        FriWitnessBuildError::SaltWidthMismatch {
                            location,
                            query: (n - 1) as usize,
                            matrix: m as usize,
                            expected: salt as usize,
                            got: salts[n - 1][m].len() as usize,
                        },
                    ),
                    None => None,
                }
            },
        }
    }
}

/// Why salts cannot be attached, if they cannot.
pub open spec fn salt_failure<F>(
    matrices: nat,
    rows: Seq<Seq<Seq<F>>>,
    salts: Seq<Seq<Seq<F>>>,
    salt: nat,
    location: &'static str,
) -> Option<FriWitnessBuildError> {
    if rows.len() != salts.len() {
        Some(FriWitnessBuildError::InvalidShape("hiding salt query count mismatch"))
    } else {
        queries_salt_failure(matrices, rows, salts, salt, location, rows.len())
    }
}

proof fn lemma_queries_salt_failure<F>(
    matrices: nat,
    rows: Seq<Seq<Seq<F>>>,
    salts: Seq<Seq<Seq<F>>>,
    salt: nat,
    location: &'static str,
    m: nat,
    n: nat,
)
    requires
        m <= n,
        queries_salt_failure(matrices, rows, salts, salt, location, m) is Some,
    ensures
        queries_salt_failure(matrices, rows, salts, salt, location, n) == queries_salt_failure(
            matrices,
            rows,
            salts,
            salt,
            location,
            m,
        ),
    decreases n,
{
    if m < n {
        lemma_queries_salt_failure(matrices, rows, salts, salt, location, m, (n - 1) as nat);
    }
}

fn attach_salts<F: Field, const SALT_ELEMS: usize>(
    dimensions: &Vec<Dimensions>,
    rows: &Vec<Vec<Vec<F>>>,
    salts: &Vec<Vec<Vec<F>>>,
    location: &'static str,
) -> (r: Result<(Vec<Dimensions>, Vec<Vec<Vec<F>>>), FriWitnessBuildError>)
    requires
        forall|m: int|
            0 <= m < dimensions@.len() ==> (#[trigger] dimensions@[m]).width + SALT_ELEMS
                <= usize::MAX,
    ensures
        match r {
            Ok((salted, salted_values)) => {
                &&& salt_failure(
                    dimensions@.len(),
                    seqs::tables(rows@),
                    seqs::tables(salts@),
                    SALT_ELEMS as nat,
                    location,
                ) is None
                &&& salted@ == salted_dimensions(dimensions@, SALT_ELEMS as nat)
                &&& seqs::tables(salted_values@) == salted_rows(
                    seqs::tables(rows@),
                    seqs::tables(salts@),
                )
            },
            Err(e) => salt_failure(
                dimensions@.len(),
                seqs::tables(rows@),
                seqs::tables(salts@),
                SALT_ELEMS as nat,
                location,
            ) == Some(e),
        },
{
    let ghost t = seqs::tables(rows@);
    let ghost s = seqs::tables(salts@);
    let ghost w = SALT_ELEMS as nat;
    let ghost n = dimensions@.len();
    if rows.len() != salts.len() {
        return Err(FriWitnessBuildError::InvalidShape("hiding salt query count mismatch"));
    }
    let mut salted_values: Vec<Vec<Vec<F>>> = Vec::with_capacity(rows.len());
    let mut query: usize = 0;
    while query < rows.len()
        invariant
            query <= rows@.len(),
            rows@.len() == salts@.len(),
            t == seqs::tables(rows@),
            s == seqs::tables(salts@),
            w == SALT_ELEMS,
            n == dimensions@.len(),
            queries_salt_failure(n, t, s, w, location, query as nat) is None,
            salted_values@.len() == query,
            forall|q: int|
                0 <= q < query ==> seqs::rows((#[trigger] salted_values@[q])@) == salted_rows(
                    t,
                    s,
                )[q],
        decreases rows@.len() - query,
    {
        let ghost bad = wrong_salt_width(s[query as int], w);
        if rows[query].len() != dimensions.len() || salts[query].len() != dimensions.len() {
            proof {
                lemma_queries_salt_failure(n, t, s, w, location, (query + 1) as nat, t.len());
            }
            return Err(FriWitnessBuildError::InvalidShape("hiding salt matrix count mismatch"));
        }
        let mut salted_query: Vec<Vec<F>> = Vec::with_capacity(dimensions.len());
        let mut matrix: usize = 0;
        while matrix < dimensions.len()
            invariant
                query < rows@.len(),
                rows@.len() == salts@.len(),
                t == seqs::tables(rows@),
                s == seqs::tables(salts@),
                w == SALT_ELEMS,
                n == dimensions@.len(),
                bad == wrong_salt_width(s[query as int], w),
                queries_salt_failure(n, t, s, w, location, query as nat) is None,
                rows@[query as int]@.len() == n,
                salts@[query as int]@.len() == n,
                matrix <= n,
                salted_query@.len() == matrix,
                forall|m: int| 0 <= m < matrix ==> !#[trigger] bad(m),
                forall|m: int|
                    0 <= m < matrix ==> (#[trigger] salted_query@[m])@ == t[query as int][m]
                        + s[query as int][m],
            decreases n - matrix,
        {
            let salt: &Vec<F> = &salts[query][matrix];
            if salt.len() != SALT_ELEMS {
                proof {
                    assert(bad(matrix as int));
                    seqs::lemma_least_some(n, bad, matrix as int);
                    lemma_queries_salt_failure(n, t, s, w, location, (query + 1) as nat, t.len());
                }
                return Err(
                    FriWitnessBuildError::SaltWidthMismatch {
                        location,
                        query,
                        matrix,
                        expected: SALT_ELEMS,
                        got: salt.len(),
                    },
                );
            }
            assert(!bad(matrix as int));
            let mut salted: Vec<F> = copy_vec(&rows[query][matrix]);
            append_copy(&mut salted, salt);
            salted_query.push(salted);
            matrix += 1;
        }
        proof {
            seqs::lemma_least_none(n, bad);
            assert(seqs::rows(salted_query@) =~= salted_rows(t, s)[query as int]);
        }
        salted_values.push(salted_query);
        query += 1;
    }
    let mut salted: Vec<Dimensions> = Vec::with_capacity(dimensions.len());
    let mut m: usize = 0;
    while m < dimensions.len()
        invariant
            m <= dimensions@.len(),
            w == SALT_ELEMS,
            forall|m: int|
                0 <= m < dimensions@.len() ==> (#[trigger] dimensions@[m]).width + SALT_ELEMS
                    <= usize::MAX,
            salted@ == salted_dimensions(dimensions@, w).take(m as int),
        decreases dimensions@.len() - m,
    {
        let d: Dimensions = dimensions[m];
        assert(dimensions@[m as int].width + SALT_ELEMS <= usize::MAX);
        salted.push(Dimensions { width: d.width + SALT_ELEMS, height: d.height });
        m += 1;
        assert(salted@ =~= salted_dimensions(dimensions@, w).take(m as int));
    }
    assert(salted@ =~= salted_dimensions(dimensions@, w));
    assert(seqs::tables(salted_values@) =~= salted_rows(t, s));
    Ok((salted, salted_values))
}

// Expansion.

/// One shared multiproof together with what it authenticates.
pub struct SharedOpening<F, const DIGEST_ELEMS: usize> {
    pub dimensions: Seq<Dimensions>,
    pub indices: Seq<nat>,
    pub rows: Seq<Seq<Seq<F>>>,
    pub siblings: Seq<[F; DIGEST_ELEMS]>,
}

impl<F: Field, const DIGEST_ELEMS: usize> SharedOpening<F, DIGEST_ELEMS> {
    pub open spec fn failure(self, arity: nat, cap_height: nat) -> Option<MerkleWitnessError> {
        merkle::expansion_failure(
            arity,
            cap_height,
            self.dimensions,
            self.indices,
            self.rows,
            self.siblings,
        )
    }

    pub open spec fn path<H, C, const N: usize>(
        self,
        hash: H,
        compress: C,
        cap_height: nat,
        query: int,
    ) -> Seq<[F; DIGEST_ELEMS]> where
        H: CryptographicHasher<F, DIGEST_ELEMS>,
        C: PseudoCompressionFunction<F, N, DIGEST_ELEMS>,
     {
        merkle::expanded_path::<F, H, C, N, DIGEST_ELEMS>(
            hash,
            compress,
            cap_height,
            self.dimensions,
            self.indices,
            self.rows,
            self.siblings,
            query,
        )
    }

    /// The same opening of a hiding commitment.
    pub open spec fn salted(self, salts: Seq<Seq<Seq<F>>>, salt: nat) -> Self {
        SharedOpening {
            dimensions: salted_dimensions(self.dimensions, salt),
            indices: self.indices,
            rows: salted_rows(self.rows, salts),
            siblings: self.siblings,
        }
    }
}

impl<F: TwoAdicField, EF: ExtensionField<F>, Cm, P> FriReplay<F, EF, Cm, P> {
    /// The index of every query in an input batch.
    pub open spec fn input_indices(self, b: int) -> Seq<nat> {
        let dropped = self.log_global() - fri_witness::max_log_height(
            self.claims()[b],
            self.claims()[b].len(),
        );
        Seq::new(
            self.indices.len(),
            |q: int| (self.indices[q] as int / pow2(dropped as nat) as int) as nat,
        )
    }

    /// The index of every query in a commit phase.
    pub open spec fn phase_indices(self, k: int) -> Seq<nat> {
        Seq::new(self.indices.len(), |q: int| self.fold(q).state::<F>((k + 1) as nat).index)
    }

    /// The row of every query in a commit phase.
    pub open spec fn phase_rows(self, k: int) -> Seq<Seq<Seq<EF>>> {
        Seq::new(self.indices.len(), |q: int| seq![self.fold(q).row::<F>(k as nat)])
    }

    /// The dimensions of a commit phase, in extension elements.
    pub open spec fn phase_dimensions(self, k: int) -> Seq<Dimensions> {
        let arities = fri_witness::log_arities_of(self.fri.commit_phase_openings@);
        seq![
            Dimensions {
                width: pow2(arities[k]) as usize,
                height: pow2(
                    (self.log_global() - fri_witness::sum(arities, (k + 1) as nat)) as nat,
                ) as usize,
            },
        ]
    }

    /// What the multiproof of an input batch authenticates.
    pub open spec fn input_opening<const DIGEST_ELEMS: usize>(
        self,
        b: int,
        siblings: Seq<[F; DIGEST_ELEMS]>,
    ) -> SharedOpening<F, DIGEST_ELEMS> {
        SharedOpening {
            dimensions: fri_witness::dimensions_of(self.claims()[b]),
            indices: self.input_indices(b),
            rows: self.opened(b),
            siblings,
        }
    }

    /// What the multiproof of a commit phase authenticates.
    pub open spec fn phase_opening<const DIGEST_ELEMS: usize>(
        self,
        k: int,
        siblings: Seq<[F; DIGEST_ELEMS]>,
    ) -> SharedOpening<F, DIGEST_ELEMS> {
        SharedOpening {
            dimensions: flat_dimensions(self.phase_dimensions(k), EF::sp_dimension()),
            indices: self.phase_indices(k),
            rows: flat_tables::<F, EF>(self.phase_rows(k)),
            siblings,
        }
    }

    /// The trees of the input batches are such as their arity can build.
    pub open spec fn scheduled(self, arity: nat) -> bool {
        forall|b: int|
            0 <= b < self.batches.len() ==> merkle::schedule_ends(
                arity,
                merkle::heights_of(fri_witness::dimensions_of(#[trigger] self.claims()[b])),
            )
    }

    /// Once the rows can be reconstructed, they can be flattened and their trees built.
    pub open spec fn expandable(self, arity: nat, salt: nat) -> bool {
        self.failure() is None ==> self.countable(salt) && self.scheduled(arity)
    }

    /// The flattened rows, with `salt` more columns, are countable by the machine.
    pub open spec fn countable(self, salt: nat) -> bool {
        &&& forall|k: int|
            0 <= k < self.fri.commit_phase_openings@.len() ==> pow2(
                (#[trigger] self.fri.commit_phase_openings@[k]).log_arity as nat,
            ) * EF::sp_dimension() + salt <= usize::MAX
        &&& forall|b: int, m: int|
            #![trigger self.claims()[b][m]]
            0 <= b < self.claims().len() && 0 <= m < self.claims()[b].len()
                && self.claims()[b][m].claims.len() > 0 ==> fri_witness::width_of(
                self.claims()[b][m],
            ) + salt <= usize::MAX
    }

    /// The reconstructed values are the described ones.
    proof fn lemma_described(self, r: ReconstructedFriRows<F, EF>)
        requires
            self.describes(r),
        ensures
            forall|b: int|
                0 <= b < self.batches.len() ==> merkle::nats((#[trigger] r.input_indices@[b])@)
                    == self.input_indices(b),
            forall|k: int|
                0 <= k < self.fri.commit_phase_openings@.len() ==> merkle::nats(
                    (#[trigger] r.commit_phase_indices@[k])@,
                ) == self.phase_indices(k),
            forall|k: int|
                0 <= k < self.fri.commit_phase_openings@.len() ==> seqs::tables(
                    (#[trigger] r.commit_phase_rows@[k])@,
                ) == self.phase_rows(k),
    {
        let steps = self.fri.commit_phase_openings@;
        assert forall|b: int| 0 <= b < self.batches.len() implies merkle::nats(
            (#[trigger] r.input_indices@[b])@,
        ) == self.input_indices(b) by {
            assert(r.input_dimensions@[b]@ == fri_witness::dimensions_of(self.claims()[b]));
            assert(r.input_indices@[b]@.len() == self.indices.len());
            assert forall|q: int| 0 <= q < self.indices.len() implies merkle::nats(
                r.input_indices@[b]@,
            )[q] == self.input_indices(b)[q] by {
                let dropped = self.log_global() - fri_witness::max_log_height(
                    self.claims()[b],
                    self.claims()[b].len(),
                );
                lemma_pow2_pos(dropped as nat);
                assert(r.input_indices@[b]@[q] as nat == self.input_indices(b)[q]);
            }
            assert(merkle::nats(r.input_indices@[b]@) =~= self.input_indices(b));
        }
        assert forall|k: int| 0 <= k < steps.len() implies merkle::nats(
            (#[trigger] r.commit_phase_indices@[k])@,
        ) == self.phase_indices(k) by {
            assert(r.commit_phase_dimensions@[k]@ == self.phase_dimensions(k));
            assert(merkle::nats(r.commit_phase_indices@[k]@) =~= self.phase_indices(k));
        }
        assert forall|k: int| 0 <= k < steps.len() implies seqs::tables(
            (#[trigger] r.commit_phase_rows@[k])@,
        ) == self.phase_rows(k) by {
            assert(r.commit_phase_dimensions@[k]@ == self.phase_dimensions(k));
            assert forall|q: int| 0 <= q < self.indices.len() implies seqs::rows(
                (#[trigger] r.commit_phase_rows@[k]@[q])@,
            ) == seq![self.fold(q).row::<F>(k as nat)] by {
                assert(seqs::rows(r.commit_phase_rows@[k]@[q]@) =~= seq![
                    self.fold(q).row::<F>(k as nat),
                ]);
            }
            assert(seqs::tables(r.commit_phase_rows@[k]@) =~= self.phase_rows(k));
        }
    }

    /// All heights are within the reach of the tree arithmetic.
    proof fn lemma_heights(self)
        requires
            self.heights_fit(),
        ensures
            forall|b: int, m: int|
                #![trigger fri_witness::dimensions_of(self.claims()[b])[m]]
                0 <= b < self.batches.len() && 0 <= m < self.claims()[b].len()
                    ==> fri_witness::dimensions_of(self.claims()[b])[m].height <= usize::MAX / 2
                    + 1,
            forall|k: int|
                0 <= k < self.fri.commit_phase_openings@.len() ==> (
                #[trigger] self.phase_dimensions(k))[0].height <= usize::MAX / 2 + 1,
            forall|k: int|
                0 <= k < self.fri.commit_phase_openings@.len() ==> (
                #[trigger] self.phase_dimensions(k))[0].width == pow2(
                    self.fri.commit_phase_openings@[k].log_arity as nat,
                ),
    {
        assert forall|b: int, m: int|
            #![trigger fri_witness::dimensions_of(self.claims()[b])[m]]
            0 <= b < self.batches.len() && 0 <= m < self.claims()[b].len() implies
            fri_witness::dimensions_of(self.claims()[b])[m].height <= usize::MAX / 2 + 1 by {
            assert(self.batches[b]@[m].domain.log_size + self.log_blowup < usize::BITS);
            lemma_half_word(self.claims()[b][m].log_height);
        }
        let arities = fri_witness::log_arities_of(self.fri.commit_phase_openings@);
        assert forall|k: int| 0 <= k < self.fri.commit_phase_openings@.len() implies (
        #[trigger] self.phase_dimensions(k))[0].height <= usize::MAX / 2 + 1
            && self.phase_dimensions(k)[0].width == pow2(
            self.fri.commit_phase_openings@[k].log_arity as nat,
        ) by {
            fri_witness::lemma_sum_monotone(arities, (k + 1) as nat, arities.len());
            let h = (self.log_global() - fri_witness::sum(arities, (k + 1) as nat)) as nat;
            lemma_half_word(h);
            lemma_half_word(arities[k]);
        }
    }
}

/// A power of two below the word size is at most half the word.
pub proof fn lemma_half_word(k: nat)
    requires
        k < usize::BITS,
    ensures
        pow2(k) <= usize::MAX / 2 + 1,
        pow2(k) <= usize::MAX,
{
    bits::lemma_fits(k);
    vstd::layout::unsigned_int_max_values();
    lemma_pow2_unfold(usize::BITS as nat);
    if k < usize::BITS - 1 {
        lemma_pow2_strictly_increases(k, (usize::BITS - 1) as nat);
    }
}

/// `count` empty lists.
fn empty_lists<T>(count: usize) -> (r: Vec<Vec<T>>)
    ensures
        r@.len() == count,
        forall|i: int| 0 <= i < count ==> (#[trigger] r@[i])@.len() == 0,
{
    let mut r: Vec<Vec<T>> = Vec::with_capacity(count);
    let mut i: usize = 0;
    while i < count
        invariant
            i <= count,
            r@.len() == i,
            forall|j: int| 0 <= j < i ==> (#[trigger] r@[j])@.len() == 0,
        decreases count - i,
    {
        r.push(Vec::new());
        i += 1;
    }
    r
}

/// Appends one path to the list of every query.
fn push_paths<T: Copy>(lists: &mut Vec<Vec<Vec<T>>>, paths: &Vec<Vec<T>>)
    requires
        paths@.len() == old(lists)@.len(),
    ensures
        final(lists)@.len() == old(lists)@.len(),
        forall|q: int|
            #![trigger final(lists)@[q]]
            0 <= q < final(lists)@.len() ==> seqs::rows(final(lists)@[q]@) == seqs::rows(
                old(lists)@[q]@,
            ).push(paths@[q]@),
{
    let ghost before = lists@;
    let mut q: usize = 0;
    while q < paths.len()
        invariant
            q <= paths@.len(),
            paths@.len() == before.len(),
            lists@.len() == before.len(),
            forall|i: int|
                #![trigger lists@[i]]
                0 <= i < q ==> seqs::rows(lists@[i]@) == seqs::rows(before[i]@).push(paths@[i]@),
            forall|i: int| q <= i < before.len() ==> (#[trigger] lists@[i]) == before[i],
        decreases paths@.len() - q,
    {
        lists[q].push(copy_vec(&paths[q]));
        assert(seqs::rows(lists@[q as int]@) =~= seqs::rows(before[q as int]@).push(
            paths@[q as int]@,
        ));
        q += 1;
    }
}

/// The first of the input batches below `n` whose multiproof does not expand.
pub open spec fn input_failure<F: TwoAdicField, EF: ExtensionField<F>, Cm, const DIGEST_ELEMS: usize>(
    replay: FriReplay<F, EF, Cm, PrunedMerklePaths<F, DIGEST_ELEMS>>,
    arity: nat,
    cap_height: nat,
    n: nat,
) -> Option<FriWitnessBuildError>
    decreases n,
{
    if n == 0 {
        None
    } else {
        match input_failure(replay, arity, cap_height, (n - 1) as nat) {
            Some(e) => Some(e),
            None => match plain_input(replay, n - 1).failure(arity, cap_height) {
                Some(source) => Some(
                    FriWitnessBuildError::InputMerkle { batch: (n - 1) as usize, source },
                ),
                None => None,
            },
        }
    }
}

/// The first of the commit phases below `n` whose multiproof does not expand.
pub open spec fn phase_failure<F: TwoAdicField, EF: ExtensionField<F>, Cm, const DIGEST_ELEMS: usize>(
    replay: FriReplay<F, EF, Cm, PrunedMerklePaths<F, DIGEST_ELEMS>>,
    arity: nat,
    cap_height: nat,
    n: nat,
) -> Option<FriWitnessBuildError>
    decreases n,
{
    if n == 0 {
        None
    } else {
        match phase_failure(replay, arity, cap_height, (n - 1) as nat) {
            Some(e) => Some(e),
            None => match plain_phase(replay, n - 1).failure(arity, cap_height) {
                Some(source) => Some(
                    FriWitnessBuildError::CommitPhaseMerkle { phase: (n - 1) as usize, source },
                ),
                None => None,
            },
        }
    }
}

/// The opening of an input batch without salts.
pub open spec fn plain_input<F: TwoAdicField, EF: ExtensionField<F>, Cm, const DIGEST_ELEMS: usize>(
    replay: FriReplay<F, EF, Cm, PrunedMerklePaths<F, DIGEST_ELEMS>>,
    b: int,
) -> SharedOpening<F, DIGEST_ELEMS> {
    replay.input_opening(b, replay.fri.input_openings@[b].opening_proof.sibling_hashes@)
}

/// The opening of a commit phase without salts.
pub open spec fn plain_phase<F: TwoAdicField, EF: ExtensionField<F>, Cm, const DIGEST_ELEMS: usize>(
    replay: FriReplay<F, EF, Cm, PrunedMerklePaths<F, DIGEST_ELEMS>>,
    k: int,
) -> SharedOpening<F, DIGEST_ELEMS> {
    replay.phase_opening(k, replay.fri.commit_phase_openings@[k].opening_proof.sibling_hashes@)
}

/// Why a FRI proof does not expand, if it does not.
pub open spec fn fri_failure<F: TwoAdicField, EF: ExtensionField<F>, Cm, const DIGEST_ELEMS: usize>(
    replay: FriReplay<F, EF, Cm, PrunedMerklePaths<F, DIGEST_ELEMS>>,
    arity: nat,
    input_cap_height: nat,
    fri_cap_height: nat,
) -> Option<FriWitnessBuildError> {
    match replay.failure() {
        Some(e) => Some(FriWitnessBuildError::Arithmetic(e)),
        None => match input_failure(replay, arity, input_cap_height, replay.batches.len()) {
            Some(e) => Some(e),
            None => phase_failure(
                replay,
                arity,
                fri_cap_height,
                replay.fri.commit_phase_openings@.len(),
            ),
        },
    }
}

proof fn lemma_input_failure<F: TwoAdicField, EF: ExtensionField<F>, Cm, const DIGEST_ELEMS: usize>(
    replay: FriReplay<F, EF, Cm, PrunedMerklePaths<F, DIGEST_ELEMS>>,
    arity: nat,
    cap_height: nat,
    m: nat,
    n: nat,
)
    requires
        m <= n,
        input_failure(replay, arity, cap_height, m) is Some,
    ensures
        input_failure(replay, arity, cap_height, n) == input_failure(replay, arity, cap_height, m),
    decreases n,
{
    if m < n {
        lemma_input_failure(replay, arity, cap_height, m, (n - 1) as nat);
    }
}

proof fn lemma_phase_failure<F: TwoAdicField, EF: ExtensionField<F>, Cm, const DIGEST_ELEMS: usize>(
    replay: FriReplay<F, EF, Cm, PrunedMerklePaths<F, DIGEST_ELEMS>>,
    arity: nat,
    cap_height: nat,
    m: nat,
    n: nat,
)
    requires
        m <= n,
        phase_failure(replay, arity, cap_height, m) is Some,
    ensures
        phase_failure(replay, arity, cap_height, n) == phase_failure(replay, arity, cap_height, m),
    decreases n,
{
    if m < n {
        lemma_phase_failure(replay, arity, cap_height, m, (n - 1) as nat);
    }
}

/// Expand every non-hiding input and commit-phase shared multiproof into the complete paths that
/// the recursive commitment verifier consumes.
pub fn expand_fri_mmcs_paths<
    F,
    EF,
    Cm,
    InputH,
    InputC,
    FriH,
    FriC,
    const N: usize,
    const DIGEST_ELEMS: usize,
>(
    fri: &FriProof<F, EF, Cm, PrunedMerklePaths<F, DIGEST_ELEMS>>,
    input_batches: &[Vec<FriInputMatrix<TwoAdicMultiplicativeCoset<F>, EF>>],
    alpha: EF,
    betas: &[EF],
    indices: &[usize],
    log_blowup: usize,
    log_final_poly_len: usize,
    input_hash: &InputH,
    input_compress: &InputC,
    input_cap_height: usize,
    fri_hash: &FriH,
    fri_compress: &FriC,
    fri_cap_height: usize,
) -> (r: Result<ExpandedFriMmcsPaths<F, DIGEST_ELEMS>, FriWitnessBuildError>) where
    F: TwoAdicField,
    EF: ExtensionField<F>,
    InputH: CryptographicHasher<F, DIGEST_ELEMS>,
    InputC: PseudoCompressionFunction<F, N, DIGEST_ELEMS>,
    FriH: CryptographicHasher<F, DIGEST_ELEMS>,
    FriC: PseudoCompressionFunction<F, N, DIGEST_ELEMS>,

    requires
        N >= 2,
        is_pow2(N as int),
        fri_witness::replay_of(
            *fri,
            input_batches@,
            alpha,
            betas@,
            indices@,
            log_blowup,
            log_final_poly_len,
        ).representable(),
        fri_witness::replay_of(
            *fri,
            input_batches@,
            alpha,
            betas@,
            indices@,
            log_blowup,
            log_final_poly_len,
        ).expandable(N as nat, 0),
        forall|b: int|
            0 <= b < fri.input_openings@.len() ==> (
            #[trigger] fri.input_openings@[b]).opening_proof.sibling_hashes@.len() < usize::MAX,
        forall|k: int|
            0 <= k < fri.commit_phase_openings@.len() ==> (
            #[trigger] fri.commit_phase_openings@[k]).opening_proof.sibling_hashes@.len()
                < usize::MAX,
    ensures
        ({
            let replay = fri_witness::replay_of(
                *fri,
                input_batches@,
                alpha,
                betas@,
                indices@,
                log_blowup,
                log_final_poly_len,
            );
            let failure = fri_failure(
                replay,
                N as nat,
                input_cap_height as nat,
                fri_cap_height as nat,
            );
            match r {
                Ok(paths) => {
                    &&& failure is None
                    &&& paths.wf()
                    &&& paths.input_paths@.len() == indices@.len()
                    &&& forall|q: int|
                        0 <= q < indices@.len() ==> seqs::rows(
                            (#[trigger] paths.input_paths@[q])@,
                        ) == Seq::new(
                            input_batches@.len(),
                            |b: int|
                                plain_input(replay, b).path::<InputH, InputC, N>(
                                    *input_hash,
                                    *input_compress,
                                    input_cap_height as nat,
                                    q,
                                ),
                        )
                    &&& forall|q: int|
                        0 <= q < indices@.len() ==> seqs::rows(
                            (#[trigger] paths.commit_phase_paths@[q])@,
                        ) == Seq::new(
                            fri.commit_phase_openings@.len(),
                            |k: int|
                                plain_phase(replay, k).path::<FriH, FriC, N>(
                                    *fri_hash,
                                    *fri_compress,
                                    fri_cap_height as nat,
                                    q,
                                ),
                        )
                },
                Err(e) => failure == Some(e),
            }
        }),
{
    let ghost replay = fri_witness::replay_of(
        *fri,
        input_batches@,
        alpha,
        betas@,
        indices@,
        log_blowup,
        log_final_poly_len,
    );
    let reconstructed: ReconstructedFriRows<F, EF> = match reconstruct_two_adic_fri_rows(
        fri,
        input_batches,
        alpha,
        betas,
        indices,
        log_blowup,
        log_final_poly_len,
    ) {
        Ok(rows) => rows,
        Err(e) => {
            return Err(FriWitnessBuildError::Arithmetic(e));
        },
    };
    proof {
        replay.lemma_described(reconstructed);
        replay.lemma_heights();
    }
    let mut input_paths: Vec<Vec<Vec<[F; DIGEST_ELEMS]>>> = empty_lists(indices.len());
    let mut b: usize = 0;
    proof {
        assert forall|q: int| 0 <= q < indices@.len() implies seqs::rows(
            (#[trigger] input_paths@[q])@,
        ) == Seq::new(
            0,
            |b: int|
                plain_input(replay, b).path::<InputH, InputC, N>(
                    *input_hash,
                    *input_compress,
                    input_cap_height as nat,
                    q,
                ),
        ) by {
            assert(seqs::rows(input_paths@[q]@) =~= Seq::empty());
        }
    }
    while b < fri.input_openings.len()
        invariant
            N >= 2,
            is_pow2(N as int),
            b <= fri.input_openings@.len(),
            fri.input_openings@.len() == input_batches@.len(),
            replay == fri_witness::replay_of(
                *fri,
                input_batches@,
                alpha,
                betas@,
                indices@,
                log_blowup,
                log_final_poly_len,
            ),
            replay.describes(reconstructed),
            replay.failure() is None,
            forall|b: int|
                0 <= b < fri.input_openings@.len() ==> (
                #[trigger] fri.input_openings@[b]).opening_proof.sibling_hashes@.len()
                    < usize::MAX,
            forall|b: int|
                0 <= b < replay.batches.len() ==> merkle::nats(
                    (#[trigger] reconstructed.input_indices@[b])@,
                ) == replay.input_indices(b),
            replay.scheduled(N as nat),
            forall|b: int, m: int|
                #![trigger fri_witness::dimensions_of(replay.claims()[b])[m]]
                0 <= b < replay.batches.len() && 0 <= m < replay.claims()[b].len()
                    ==> fri_witness::dimensions_of(replay.claims()[b])[m].height <= usize::MAX / 2
                    + 1,
            input_failure(replay, N as nat, input_cap_height as nat, b as nat) is None,
            input_paths@.len() == indices@.len(),
            forall|q: int|
                0 <= q < indices@.len() ==> seqs::rows((#[trigger] input_paths@[q])@) == Seq::new(
                    b as nat,
                    |b: int|
                        plain_input(replay, b).path::<InputH, InputC, N>(
                            *input_hash,
                            *input_compress,
                            input_cap_height as nat,
                            q,
                        ),
                ),
        decreases fri.input_openings@.len() - b,
    {
        let dimensions: &Vec<Dimensions> = &reconstructed.input_dimensions[b];
        assert(dimensions@ == fri_witness::dimensions_of(replay.claims()[b as int]));
        assert(merkle::nats(reconstructed.input_indices@[b as int]@) == replay.input_indices(
            b as int,
        ));
        proof {
            assert forall|m: int| 0 <= m < dimensions@.len() implies (
            #[trigger] dimensions@[m]).height <= usize::MAX / 2 + 1 by {
                assert(fri_witness::dimensions_of(replay.claims()[b as int])[m].height
                    <= usize::MAX / 2 + 1);
            }
        }
        let ghost before = input_paths@;
        match expand_pruned_merkle_paths::<F, InputH, InputC, N, DIGEST_ELEMS>(
            dimensions.as_slice(),
            reconstructed.input_indices[b].as_slice(),
            fri.input_openings[b].opened_values.as_slice(),
            &fri.input_openings[b].opening_proof,
            input_hash,
            input_compress,
            input_cap_height,
        ) {
            Ok(paths) => {
                push_paths(&mut input_paths, &paths);
                proof {
                    assert forall|q: int| 0 <= q < indices@.len() implies seqs::rows(
                        (#[trigger] input_paths@[q])@,
                    ) == Seq::new(
                        (b + 1) as nat,
                        |b: int|
                            plain_input(replay, b).path::<InputH, InputC, N>(
                                *input_hash,
                                *input_compress,
                                input_cap_height as nat,
                                q,
                            ),
                    ) by {
                        assert(seqs::rows(before[q]@).len() == b);
                        assert(paths@[q]@ == plain_input(replay, b as int).path::<
                            InputH,
                            InputC,
                            N,
                        >(*input_hash, *input_compress, input_cap_height as nat, q));
                        assert(seqs::rows(input_paths@[q]@) =~= Seq::new(
                            (b + 1) as nat,
                            |b: int|
                                plain_input(replay, b).path::<InputH, InputC, N>(
                                    *input_hash,
                                    *input_compress,
                                    input_cap_height as nat,
                                    q,
                                ),
                        ));
                    }
                }
            },
            Err(source) => {
                proof {
                    lemma_input_failure(
                        replay,
                        N as nat,
                        input_cap_height as nat,
                        (b + 1) as nat,
                        replay.batches.len(),
                    );
                }
                return Err(FriWitnessBuildError::InputMerkle { batch: b, source });
            },
        }
        b += 1;
    }
    let mut commit_phase_paths: Vec<Vec<Vec<[F; DIGEST_ELEMS]>>> = empty_lists(indices.len());
    let mut k: usize = 0;
    proof {
        assert forall|q: int| 0 <= q < indices@.len() implies seqs::rows(
            (#[trigger] commit_phase_paths@[q])@,
        ) == Seq::new(
            0,
            |k: int|
                plain_phase(replay, k).path::<FriH, FriC, N>(
                    *fri_hash,
                    *fri_compress,
                    fri_cap_height as nat,
                    q,
                ),
        ) by {
            assert(seqs::rows(commit_phase_paths@[q]@) =~= Seq::empty());
        }
    }
    while k < fri.commit_phase_openings.len()
        invariant
            N >= 2,
            is_pow2(N as int),
            k <= fri.commit_phase_openings@.len(),
            replay == fri_witness::replay_of(
                *fri,
                input_batches@,
                alpha,
                betas@,
                indices@,
                log_blowup,
                log_final_poly_len,
            ),
            replay.countable(0),
            replay.describes(reconstructed),
            replay.failure() is None,
            forall|k: int|
                0 <= k < fri.commit_phase_openings@.len() ==> (
                #[trigger] fri.commit_phase_openings@[k]).opening_proof.sibling_hashes@.len()
                    < usize::MAX,
            forall|k: int|
                0 <= k < fri.commit_phase_openings@.len() ==> merkle::nats(
                    (#[trigger] reconstructed.commit_phase_indices@[k])@,
                ) == replay.phase_indices(k),
            forall|k: int|
                0 <= k < fri.commit_phase_openings@.len() ==> seqs::tables(
                    (#[trigger] reconstructed.commit_phase_rows@[k])@,
                ) == replay.phase_rows(k),
            forall|k: int|
                0 <= k < fri.commit_phase_openings@.len() ==> (
                #[trigger] replay.phase_dimensions(k))[0].height <= usize::MAX / 2 + 1,
            forall|k: int|
                0 <= k < fri.commit_phase_openings@.len() ==> (
                #[trigger] replay.phase_dimensions(k))[0].width == pow2(
                    fri.commit_phase_openings@[k].log_arity as nat,
                ),
            input_failure(replay, N as nat, input_cap_height as nat, replay.batches.len()) is None,
            phase_failure(replay, N as nat, fri_cap_height as nat, k as nat) is None,
            commit_phase_paths@.len() == indices@.len(),
            forall|q: int|
                0 <= q < indices@.len() ==> seqs::rows((#[trigger] commit_phase_paths@[q])@)
                    == Seq::new(
                    k as nat,
                    |k: int|
                        plain_phase(replay, k).path::<FriH, FriC, N>(
                            *fri_hash,
                            *fri_compress,
                            fri_cap_height as nat,
                            q,
                        ),
                ),
        decreases fri.commit_phase_openings@.len() - k,
    {
        let ghost shape = replay.phase_dimensions(k as int);
        assert(reconstructed.commit_phase_dimensions@[k as int]@ == shape);
        proof {
            assert(pow2(replay.fri.commit_phase_openings@[k as int].log_arity as nat)
                * EF::sp_dimension() <= usize::MAX);
            assert(shape[0].width == pow2(fri.commit_phase_openings@[k as int].log_arity as nat));
        }
        let dimensions: Vec<Dimensions> = flatten_extension_dimensions::<F, EF>(
            &reconstructed.commit_phase_dimensions[k],
        );
        let opened_values: Vec<Vec<Vec<F>>> = flatten_extension_rows::<F, EF>(
            &reconstructed.commit_phase_rows[k],
        );
        assert(merkle::nats(reconstructed.commit_phase_indices@[k as int]@)
            == replay.phase_indices(k as int));
        assert(seqs::tables(reconstructed.commit_phase_rows@[k as int]@) == replay.phase_rows(
            k as int,
        ));
        proof {
            assert forall|m: int| 0 <= m < dimensions@.len() implies (
            #[trigger] dimensions@[m]).height <= usize::MAX / 2 + 1 by {
                assert(shape[0].height <= usize::MAX / 2 + 1);
            }
            assert(dimensions@.len() == 1);
            merkle::lemma_schedule_ends(N as nat, merkle::heights_of(dimensions@));
        }
        let ghost before = commit_phase_paths@;
        match expand_pruned_merkle_paths::<F, FriH, FriC, N, DIGEST_ELEMS>(
            dimensions.as_slice(),
            reconstructed.commit_phase_indices[k].as_slice(),
            opened_values.as_slice(),
            &fri.commit_phase_openings[k].opening_proof,
            fri_hash,
            fri_compress,
            fri_cap_height,
        ) {
            Ok(paths) => {
                push_paths(&mut commit_phase_paths, &paths);
                proof {
                    assert forall|q: int| 0 <= q < indices@.len() implies seqs::rows(
                        (#[trigger] commit_phase_paths@[q])@,
                    ) == Seq::new(
                        (k + 1) as nat,
                        |k: int|
                            plain_phase(replay, k).path::<FriH, FriC, N>(
                                *fri_hash,
                                *fri_compress,
                                fri_cap_height as nat,
                                q,
                            ),
                    ) by {
                        assert(seqs::rows(before[q]@).len() == k);
                        assert(paths@[q]@ == plain_phase(replay, k as int).path::<FriH, FriC, N>(
                            *fri_hash,
                            *fri_compress,
                            fri_cap_height as nat,
                            q,
                        ));
                        assert(seqs::rows(commit_phase_paths@[q]@) =~= Seq::new(
                            (k + 1) as nat,
                            |k: int|
                                plain_phase(replay, k).path::<FriH, FriC, N>(
                                    *fri_hash,
                                    *fri_compress,
                                    fri_cap_height as nat,
                                    q,
                                ),
                        ));
                    }
                }
            },
            Err(source) => {
                proof {
                    lemma_phase_failure(
                        replay,
                        N as nat,
                        fri_cap_height as nat,
                        (k + 1) as nat,
                        replay.fri.commit_phase_openings@.len(),
                    );
                }
                return Err(FriWitnessBuildError::CommitPhaseMerkle { phase: k, source });
            },
        }
        k += 1;
    }
    proof {
        assert forall|q: int| 0 <= q < input_paths@.len() implies (
        #[trigger] input_paths@[q])@.len() == input_batches@.len() by {
            assert(seqs::rows(input_paths@[q]@).len() == input_batches@.len());
        }
        assert forall|q: int| 0 <= q < commit_phase_paths@.len() implies (
        #[trigger] commit_phase_paths@[q])@.len() == fri.commit_phase_openings@.len() by {
            assert(seqs::rows(commit_phase_paths@[q]@).len()
                == fri.commit_phase_openings@.len());
        }
        assert(uniform(input_paths@));
        assert(uniform(commit_phase_paths@));
    }
    ExpandedFriMmcsPaths::new(input_paths, commit_phase_paths)
}

impl<F: TwoAdicField, EF: ExtensionField<F>, Cm, const DIGEST_ELEMS: usize> FriReplay<
    F,
    EF,
    Cm,
    (Vec<Vec<Vec<F>>>, PrunedMerklePaths<F, DIGEST_ELEMS>),
> {
    /// What is wrong with the salts of an input batch.
    pub open spec fn input_salts_failure(self, b: int, salt: nat) -> Option<FriWitnessBuildError> {
        salt_failure(
            self.claims()[b].len(),
            self.opened(b),
            seqs::tables(self.fri.input_openings@[b].opening_proof.0@),
            salt,
            "input batch",
        )
    }

    /// What is wrong with the salts of a commit phase.
    pub open spec fn phase_salts_failure(self, k: int, salt: nat) -> Option<FriWitnessBuildError> {
        salt_failure(
            1,
            flat_tables::<F, EF>(self.phase_rows(k)),
            seqs::tables(self.fri.commit_phase_openings@[k].opening_proof.0@),
            salt,
            "commit phase",
        )
    }
}

impl<F: TwoAdicField, EF: ExtensionField<F>, Cm, P> FriReplay<F, EF, Cm, P> {
    /// Every matrix of a batch that passed its checks has an opening point.
    proof fn lemma_claimed(self, n: nat, b: int, m: int)
        requires
            self.batches_failure(n) is None,
            0 <= b < n <= self.batches.len(),
            0 <= m < self.claims()[b].len(),
        ensures
            self.claims()[b][m].claims.len() > 0,
        decreases n,
    {
        if b < n - 1 {
            self.lemma_claimed((n - 1) as nat, b, m);
        } else {
            lemma_claims_claimed(b, self.claims()[b], self.claims()[b].len(), m);
        }
    }
}

proof fn lemma_claims_claimed<EF>(
    batch: int,
    matrices: Seq<fri_witness::MatrixClaims<EF>>,
    n: nat,
    m: int,
)
    requires
        fri_witness::claims_failure(batch, matrices, n) is None,
        0 <= m < n,
    ensures
        matrices[m].claims.len() > 0,
    decreases n,
{
    if m < n - 1 {
        lemma_claims_claimed(batch, matrices, (n - 1) as nat, m);
    }
}

/// The first of the input batches below `n` whose salts do not fit or whose multiproof does not
/// expand.
pub open spec fn hiding_input_failure<F: TwoAdicField, EF: ExtensionField<F>, Cm, const DIGEST_ELEMS: usize>(
    replay: FriReplay<F, EF, Cm, (Vec<Vec<Vec<F>>>, PrunedMerklePaths<F, DIGEST_ELEMS>)>,
    salt: nat,
    arity: nat,
    cap_height: nat,
    n: nat,
) -> Option<FriWitnessBuildError>
    decreases n,
{
    if n == 0 {
        None
    } else {
        match hiding_input_failure(replay, salt, arity, cap_height, (n - 1) as nat) {
            Some(e) => Some(e),
            None => match replay.input_salts_failure(n - 1, salt) {
                Some(e) => Some(e),
                None => match hiding_input(replay, salt, n - 1).failure(arity, cap_height) {
                    Some(source) => Some(
                        FriWitnessBuildError::InputMerkle { batch: (n - 1) as usize, source },
                    ),
                    None => None,
                },
            },
        }
    }
}

/// The first of the commit phases below `n` whose salts do not fit or whose multiproof does not
/// expand.
pub open spec fn hiding_phase_failure<F: TwoAdicField, EF: ExtensionField<F>, Cm, const DIGEST_ELEMS: usize>(
    replay: FriReplay<F, EF, Cm, (Vec<Vec<Vec<F>>>, PrunedMerklePaths<F, DIGEST_ELEMS>)>,
    salt: nat,
    arity: nat,
    cap_height: nat,
    n: nat,
) -> Option<FriWitnessBuildError>
    decreases n,
{
    if n == 0 {
        None
    } else {
        match hiding_phase_failure(replay, salt, arity, cap_height, (n - 1) as nat) {
            Some(e) => Some(e),
            None => match replay.phase_salts_failure(n - 1, salt) {
                Some(e) => Some(e),
                None => match hiding_phase(replay, salt, n - 1).failure(arity, cap_height) {
                    Some(source) => Some(
                        FriWitnessBuildError::CommitPhaseMerkle {
                            phase: (n - 1) as usize,
                            source,
                        },
                    ),
                    None => None,
                },
            },
        }
    }
}

/// The opening of an input batch with its salts.
pub open spec fn hiding_input<F: TwoAdicField, EF: ExtensionField<F>, Cm, const DIGEST_ELEMS: usize>(
    replay: FriReplay<F, EF, Cm, (Vec<Vec<Vec<F>>>, PrunedMerklePaths<F, DIGEST_ELEMS>)>,
    salt: nat,
    b: int,
) -> SharedOpening<F, DIGEST_ELEMS> {
    replay.input_opening(b, replay.fri.input_openings@[b].opening_proof.1.sibling_hashes@).salted(
        seqs::tables(replay.fri.input_openings@[b].opening_proof.0@),
        salt,
    )
}

/// The opening of a commit phase with its salts.
pub open spec fn hiding_phase<F: TwoAdicField, EF: ExtensionField<F>, Cm, const DIGEST_ELEMS: usize>(
    replay: FriReplay<F, EF, Cm, (Vec<Vec<Vec<F>>>, PrunedMerklePaths<F, DIGEST_ELEMS>)>,
    salt: nat,
    k: int,
) -> SharedOpening<F, DIGEST_ELEMS> {
    replay.phase_opening(
        k,
        replay.fri.commit_phase_openings@[k].opening_proof.1.sibling_hashes@,
    ).salted(seqs::tables(replay.fri.commit_phase_openings@[k].opening_proof.0@), salt)
}

/// Why a hiding FRI proof does not expand, if it does not.
pub open spec fn hiding_fri_failure<F: TwoAdicField, EF: ExtensionField<F>, Cm, const DIGEST_ELEMS: usize>(
    replay: FriReplay<F, EF, Cm, (Vec<Vec<Vec<F>>>, PrunedMerklePaths<F, DIGEST_ELEMS>)>,
    salt: nat,
    arity: nat,
    input_cap_height: nat,
    fri_cap_height: nat,
) -> Option<FriWitnessBuildError> {
    match replay.failure() {
        Some(e) => Some(FriWitnessBuildError::Arithmetic(e)),
        None => match hiding_input_failure(replay, salt, arity, input_cap_height, replay.batches.len()) {
            Some(e) => Some(e),
            None => hiding_phase_failure(
                replay,
                salt,
                arity,
                fri_cap_height,
                replay.fri.commit_phase_openings@.len(),
            ),
        },
    }
}

proof fn lemma_hiding_input_failure<F: TwoAdicField, EF: ExtensionField<F>, Cm, const DIGEST_ELEMS: usize>(
    replay: FriReplay<F, EF, Cm, (Vec<Vec<Vec<F>>>, PrunedMerklePaths<F, DIGEST_ELEMS>)>,
    salt: nat,
    arity: nat,
    cap_height: nat,
    m: nat,
    n: nat,
)
    requires
        m <= n,
        hiding_input_failure(replay, salt, arity, cap_height, m) is Some,
    ensures
        hiding_input_failure(replay, salt, arity, cap_height, n) == hiding_input_failure(replay, salt, arity, cap_height, m),
    decreases n,
{
    if m < n {
        lemma_hiding_input_failure(replay, salt, arity, cap_height, m, (n - 1) as nat);
    }
}

proof fn lemma_hiding_phase_failure<F: TwoAdicField, EF: ExtensionField<F>, Cm, const DIGEST_ELEMS: usize>(
    replay: FriReplay<F, EF, Cm, (Vec<Vec<Vec<F>>>, PrunedMerklePaths<F, DIGEST_ELEMS>)>,
    salt: nat,
    arity: nat,
    cap_height: nat,
    m: nat,
    n: nat,
)
    requires
        m <= n,
        hiding_phase_failure(replay, salt, arity, cap_height, m) is Some,
    ensures
        hiding_phase_failure(replay, salt, arity, cap_height, n) == hiding_phase_failure(replay, salt, arity, cap_height, m),
    decreases n,
{
    if m < n {
        lemma_hiding_phase_failure(replay, salt, arity, cap_height, m, (n - 1) as nat);
    }
}

/// Hiding counterpart of [`expand_fri_mmcs_paths`]. Salts are reattached before hashing.
pub fn expand_hiding_fri_mmcs_paths<
    F,
    EF,
    Cm,
    InputH,
    InputC,
    FriH,
    FriC,
    const N: usize,
    const DIGEST_ELEMS: usize,
    const SALT_ELEMS: usize,
>(
    fri: &FriProof<F, EF, Cm, (Vec<Vec<Vec<F>>>, PrunedMerklePaths<F, DIGEST_ELEMS>)>,
    input_batches: &[Vec<FriInputMatrix<TwoAdicMultiplicativeCoset<F>, EF>>],
    alpha: EF,
    betas: &[EF],
    indices: &[usize],
    log_blowup: usize,
    log_final_poly_len: usize,
    input_hash: &InputH,
    input_compress: &InputC,
    input_cap_height: usize,
    fri_hash: &FriH,
    fri_compress: &FriC,
    fri_cap_height: usize,
) -> (r: Result<ExpandedFriMmcsPaths<F, DIGEST_ELEMS>, FriWitnessBuildError>) where
    F: TwoAdicField,
    EF: ExtensionField<F>,
    InputH: CryptographicHasher<F, DIGEST_ELEMS>,
    InputC: PseudoCompressionFunction<F, N, DIGEST_ELEMS>,
    FriH: CryptographicHasher<F, DIGEST_ELEMS>,
    FriC: PseudoCompressionFunction<F, N, DIGEST_ELEMS>,

    requires
        N >= 2,
        is_pow2(N as int),
        fri_witness::replay_of(
            *fri,
            input_batches@,
            alpha,
            betas@,
            indices@,
            log_blowup,
            log_final_poly_len,
        ).representable(),
        fri_witness::replay_of(
            *fri,
            input_batches@,
            alpha,
            betas@,
            indices@,
            log_blowup,
            log_final_poly_len,
        ).expandable(N as nat, SALT_ELEMS as nat),
        forall|b: int|
            0 <= b < fri.input_openings@.len() ==> (
            #[trigger] fri.input_openings@[b]).opening_proof.1.sibling_hashes@.len() < usize::MAX,
        forall|k: int|
            0 <= k < fri.commit_phase_openings@.len() ==> (
            #[trigger] fri.commit_phase_openings@[k]).opening_proof.1.sibling_hashes@.len()
                < usize::MAX,
    ensures
        ({
            let replay = fri_witness::replay_of(
                *fri,
                input_batches@,
                alpha,
                betas@,
                indices@,
                log_blowup,
                log_final_poly_len,
            );
            let failure = hiding_fri_failure(
                replay,
                SALT_ELEMS as nat,
                N as nat,
                input_cap_height as nat,
                fri_cap_height as nat,
            );
            match r {
                Ok(paths) => {
                    &&& failure is None
                    &&& paths.wf()
                    &&& paths.input_paths@.len() == indices@.len()
                    &&& forall|q: int|
                        0 <= q < indices@.len() ==> seqs::rows(
                            (#[trigger] paths.input_paths@[q])@,
                        ) == Seq::new(
                            input_batches@.len(),
                            |b: int|
                                hiding_input(replay, SALT_ELEMS as nat, b).path::<InputH, InputC, N>(
                                    *input_hash,
                                    *input_compress,
                                    input_cap_height as nat,
                                    q,
                                ),
                        )
                    &&& forall|q: int|
                        0 <= q < indices@.len() ==> seqs::rows(
                            (#[trigger] paths.commit_phase_paths@[q])@,
                        ) == Seq::new(
                            fri.commit_phase_openings@.len(),
                            |k: int|
                                hiding_phase(replay, SALT_ELEMS as nat, k).path::<FriH, FriC, N>(
                                    *fri_hash,
                                    *fri_compress,
                                    fri_cap_height as nat,
                                    q,
                                ),
                        )
                },
                Err(e) => failure == Some(e),
            }
        }),
{
    let ghost replay = fri_witness::replay_of(
        *fri,
        input_batches@,
        alpha,
        betas@,
        indices@,
        log_blowup,
        log_final_poly_len,
    );
    let reconstructed: ReconstructedFriRows<F, EF> = match reconstruct_two_adic_fri_rows(
        fri,
        input_batches,
        alpha,
        betas,
        indices,
        log_blowup,
        log_final_poly_len,
    ) {
        Ok(rows) => rows,
        Err(e) => {
            return Err(FriWitnessBuildError::Arithmetic(e));
        },
    };
    proof {
        replay.lemma_described(reconstructed);
        replay.lemma_heights();
    }
    let mut input_paths: Vec<Vec<Vec<[F; DIGEST_ELEMS]>>> = empty_lists(indices.len());
    let mut b: usize = 0;
    proof {
        assert forall|q: int| 0 <= q < indices@.len() implies seqs::rows(
            (#[trigger] input_paths@[q])@,
        ) == Seq::new(
            0,
            |b: int|
                hiding_input(replay, SALT_ELEMS as nat, b).path::<InputH, InputC, N>(
                    *input_hash,
                    *input_compress,
                    input_cap_height as nat,
                    q,
                ),
        ) by {
            assert(seqs::rows(input_paths@[q]@) =~= Seq::empty());
        }
    }
    while b < fri.input_openings.len()
        invariant
            N >= 2,
            is_pow2(N as int),
            b <= fri.input_openings@.len(),
            fri.input_openings@.len() == input_batches@.len(),
            replay == fri_witness::replay_of(
                *fri,
                input_batches@,
                alpha,
                betas@,
                indices@,
                log_blowup,
                log_final_poly_len,
            ),
            replay.countable(SALT_ELEMS as nat),
            replay.batches_failure(replay.batches.len()) is None,
            replay.describes(reconstructed),
            replay.failure() is None,
            forall|b: int|
                0 <= b < fri.input_openings@.len() ==> (
                #[trigger] fri.input_openings@[b]).opening_proof.1.sibling_hashes@.len()
                    < usize::MAX,
            forall|b: int|
                0 <= b < replay.batches.len() ==> merkle::nats(
                    (#[trigger] reconstructed.input_indices@[b])@,
                ) == replay.input_indices(b),
            replay.scheduled(N as nat),
            forall|b: int, m: int|
                #![trigger fri_witness::dimensions_of(replay.claims()[b])[m]]
                0 <= b < replay.batches.len() && 0 <= m < replay.claims()[b].len()
                    ==> fri_witness::dimensions_of(replay.claims()[b])[m].height <= usize::MAX / 2
                    + 1,
            hiding_input_failure(replay, SALT_ELEMS as nat, N as nat, input_cap_height as nat, b as nat) is None,
            input_paths@.len() == indices@.len(),
            forall|q: int|
                0 <= q < indices@.len() ==> seqs::rows((#[trigger] input_paths@[q])@) == Seq::new(
                    b as nat,
                    |b: int|
                        hiding_input(replay, SALT_ELEMS as nat, b).path::<InputH, InputC, N>(
                            *input_hash,
                            *input_compress,
                            input_cap_height as nat,
                            q,
                        ),
                ),
        decreases fri.input_openings@.len() - b,
    {
        let shape: &Vec<Dimensions> = &reconstructed.input_dimensions[b];
        assert(shape@ == fri_witness::dimensions_of(replay.claims()[b as int]));
        proof {
            assert forall|m: int| 0 <= m < shape@.len() implies (#[trigger] shape@[m]).width
                + SALT_ELEMS <= usize::MAX by {
                replay.lemma_claimed(replay.batches.len(), b as int, m);
                assert(replay.claims()[b as int][m].claims.len() > 0);
            }
        }
        let (dimensions, opened_values) = match attach_salts::<F, SALT_ELEMS>(
            shape,
            &fri.input_openings[b].opened_values,
            &fri.input_openings[b].opening_proof.0,
            "input batch",
        ) {
            Ok(salted) => salted,
            Err(e) => {
                proof {
                    lemma_hiding_input_failure(
                        replay,
                        SALT_ELEMS as nat,
                        N as nat,
                        input_cap_height as nat,
                        (b + 1) as nat,
                        replay.batches.len(),
                    );
                }
                return Err(e);
            },
        };
        assert(merkle::nats(reconstructed.input_indices@[b as int]@) == replay.input_indices(
            b as int,
        ));
        proof {
            assert forall|m: int| 0 <= m < dimensions@.len() implies (
            #[trigger] dimensions@[m]).height <= usize::MAX / 2 + 1 by {
                assert(fri_witness::dimensions_of(replay.claims()[b as int])[m].height
                    <= usize::MAX / 2 + 1);
            }
            assert(merkle::heights_of(dimensions@) =~= merkle::heights_of(shape@));
        }
        let ghost before = input_paths@;
        match expand_pruned_merkle_paths::<F, InputH, InputC, N, DIGEST_ELEMS>(
            dimensions.as_slice(),
            reconstructed.input_indices[b].as_slice(),
            opened_values.as_slice(),
            &fri.input_openings[b].opening_proof.1,
            input_hash,
            input_compress,
            input_cap_height,
        ) {
            Ok(paths) => {
                push_paths(&mut input_paths, &paths);
                proof {
                    assert forall|q: int| 0 <= q < indices@.len() implies seqs::rows(
                        (#[trigger] input_paths@[q])@,
                    ) == Seq::new(
                        (b + 1) as nat,
                        |b: int|
                            hiding_input(replay, SALT_ELEMS as nat, b).path::<InputH, InputC, N>(
                                *input_hash,
                                *input_compress,
                                input_cap_height as nat,
                                q,
                            ),
                    ) by {
                        assert(seqs::rows(before[q]@).len() == b);
                        assert(paths@[q]@ == hiding_input(replay, SALT_ELEMS as nat, b as int).path::<
                            InputH,
                            InputC,
                            N,
                        >(*input_hash, *input_compress, input_cap_height as nat, q));
                        assert(seqs::rows(input_paths@[q]@) =~= Seq::new(
                            (b + 1) as nat,
                            |b: int|
                                hiding_input(replay, SALT_ELEMS as nat, b).path::<InputH, InputC, N>(
                                    *input_hash,
                                    *input_compress,
                                    input_cap_height as nat,
                                    q,
                                ),
                        ));
                    }
                }
            },
            Err(source) => {
                proof {
                    lemma_hiding_input_failure(
                        replay,
                        SALT_ELEMS as nat,
                        N as nat,
                        input_cap_height as nat,
                        (b + 1) as nat,
                        replay.batches.len(),
                    );
                }
                return Err(FriWitnessBuildError::InputMerkle { batch: b, source });
            },
        }
        b += 1;
    }
    let mut commit_phase_paths: Vec<Vec<Vec<[F; DIGEST_ELEMS]>>> = empty_lists(indices.len());
    let mut k: usize = 0;
    proof {
        assert forall|q: int| 0 <= q < indices@.len() implies seqs::rows(
            (#[trigger] commit_phase_paths@[q])@,
        ) == Seq::new(
            0,
            |k: int|
                hiding_phase(replay, SALT_ELEMS as nat, k).path::<FriH, FriC, N>(
                    *fri_hash,
                    *fri_compress,
                    fri_cap_height as nat,
                    q,
                ),
        ) by {
            assert(seqs::rows(commit_phase_paths@[q]@) =~= Seq::empty());
        }
    }
    while k < fri.commit_phase_openings.len()
        invariant
            N >= 2,
            is_pow2(N as int),
            k <= fri.commit_phase_openings@.len(),
            replay == fri_witness::replay_of(
                *fri,
                input_batches@,
                alpha,
                betas@,
                indices@,
                log_blowup,
                log_final_poly_len,
            ),
            replay.countable(SALT_ELEMS as nat),
            replay.describes(reconstructed),
            replay.failure() is None,
            forall|k: int|
                0 <= k < fri.commit_phase_openings@.len() ==> (
                #[trigger] fri.commit_phase_openings@[k]).opening_proof.1.sibling_hashes@.len()
                    < usize::MAX,
            forall|k: int|
                0 <= k < fri.commit_phase_openings@.len() ==> merkle::nats(
                    (#[trigger] reconstructed.commit_phase_indices@[k])@,
                ) == replay.phase_indices(k),
            forall|k: int|
                0 <= k < fri.commit_phase_openings@.len() ==> seqs::tables(
                    (#[trigger] reconstructed.commit_phase_rows@[k])@,
                ) == replay.phase_rows(k),
            forall|k: int|
                0 <= k < fri.commit_phase_openings@.len() ==> (
                #[trigger] replay.phase_dimensions(k))[0].height <= usize::MAX / 2 + 1,
            forall|k: int|
                0 <= k < fri.commit_phase_openings@.len() ==> (
                #[trigger] replay.phase_dimensions(k))[0].width == pow2(
                    fri.commit_phase_openings@[k].log_arity as nat,
                ),
            hiding_input_failure(replay, SALT_ELEMS as nat, N as nat, input_cap_height as nat, replay.batches.len()) is None,
            hiding_phase_failure(replay, SALT_ELEMS as nat, N as nat, fri_cap_height as nat, k as nat) is None,
            commit_phase_paths@.len() == indices@.len(),
            forall|q: int|
                0 <= q < indices@.len() ==> seqs::rows((#[trigger] commit_phase_paths@[q])@)
                    == Seq::new(
                    k as nat,
                    |k: int|
                        hiding_phase(replay, SALT_ELEMS as nat, k).path::<FriH, FriC, N>(
                            *fri_hash,
                            *fri_compress,
                            fri_cap_height as nat,
                            q,
                        ),
                ),
        decreases fri.commit_phase_openings@.len() - k,
    {
        let ghost shape = replay.phase_dimensions(k as int);
        assert(reconstructed.commit_phase_dimensions@[k as int]@ == shape);
        proof {
            assert(pow2(replay.fri.commit_phase_openings@[k as int].log_arity as nat)
                * EF::sp_dimension() <= usize::MAX);
            assert(shape[0].width == pow2(fri.commit_phase_openings@[k as int].log_arity as nat));
        }
        let base_dimensions: Vec<Dimensions> = flatten_extension_dimensions::<F, EF>(
            &reconstructed.commit_phase_dimensions[k],
        );
        let base_rows: Vec<Vec<Vec<F>>> = flatten_extension_rows::<F, EF>(
            &reconstructed.commit_phase_rows[k],
        );
        assert(merkle::nats(reconstructed.commit_phase_indices@[k as int]@)
            == replay.phase_indices(k as int));
        assert(seqs::tables(reconstructed.commit_phase_rows@[k as int]@) == replay.phase_rows(
            k as int,
        ));
        let (dimensions, opened_values) = match attach_salts::<F, SALT_ELEMS>(
            &base_dimensions,
            &base_rows,
            &fri.commit_phase_openings[k].opening_proof.0,
            "commit phase",
        ) {
            Ok(salted) => salted,
            Err(e) => {
                proof {
                    lemma_hiding_phase_failure(
                        replay,
                        SALT_ELEMS as nat,
                        N as nat,
                        fri_cap_height as nat,
                        (k + 1) as nat,
                        replay.fri.commit_phase_openings@.len(),
                    );
                }
                return Err(e);
            },
        };
        proof {
            assert forall|m: int| 0 <= m < dimensions@.len() implies (
            #[trigger] dimensions@[m]).height <= usize::MAX / 2 + 1 by {
                assert(shape[0].height <= usize::MAX / 2 + 1);
            }
            assert(dimensions@.len() == 1);
            merkle::lemma_schedule_ends(N as nat, merkle::heights_of(dimensions@));
        }
        let ghost before = commit_phase_paths@;
        match expand_pruned_merkle_paths::<F, FriH, FriC, N, DIGEST_ELEMS>(
            dimensions.as_slice(),
            reconstructed.commit_phase_indices[k].as_slice(),
            opened_values.as_slice(),
            &fri.commit_phase_openings[k].opening_proof.1,
            fri_hash,
            fri_compress,
            fri_cap_height,
        ) {
            Ok(paths) => {
                push_paths(&mut commit_phase_paths, &paths);
                proof {
                    assert forall|q: int| 0 <= q < indices@.len() implies seqs::rows(
                        (#[trigger] commit_phase_paths@[q])@,
                    ) == Seq::new(
                        (k + 1) as nat,
                        |k: int|
                            hiding_phase(replay, SALT_ELEMS as nat, k).path::<FriH, FriC, N>(
                                *fri_hash,
                                *fri_compress,
                                fri_cap_height as nat,
                                q,
                            ),
                    ) by {
                        assert(seqs::rows(before[q]@).len() == k);
                        assert(paths@[q]@ == hiding_phase(replay, SALT_ELEMS as nat, k as int).path::<FriH, FriC, N>(
                            *fri_hash,
                            *fri_compress,
                            fri_cap_height as nat,
                            q,
                        ));
                        assert(seqs::rows(commit_phase_paths@[q]@) =~= Seq::new(
                            (k + 1) as nat,
                            |k: int|
                                hiding_phase(replay, SALT_ELEMS as nat, k).path::<FriH, FriC, N>(
                                    *fri_hash,
                                    *fri_compress,
                                    fri_cap_height as nat,
                                    q,
                                ),
                        ));
                    }
                }
            },
            Err(source) => {
                proof {
                    lemma_hiding_phase_failure(
                        replay,
                        SALT_ELEMS as nat,
                        N as nat,
                        fri_cap_height as nat,
                        (k + 1) as nat,
                        replay.fri.commit_phase_openings@.len(),
                    );
                }
                return Err(FriWitnessBuildError::CommitPhaseMerkle { phase: k, source });
            },
        }
        k += 1;
    }
    proof {
        assert forall|q: int| 0 <= q < input_paths@.len() implies (
        #[trigger] input_paths@[q])@.len() == input_batches@.len() by {
            assert(seqs::rows(input_paths@[q]@).len() == input_batches@.len());
        }
        assert forall|q: int| 0 <= q < commit_phase_paths@.len() implies (
        #[trigger] commit_phase_paths@[q])@.len() == fri.commit_phase_openings@.len() by {
            assert(seqs::rows(commit_phase_paths@[q]@).len()
                == fri.commit_phase_openings@.len());
        }
        assert(uniform(input_paths@));
        assert(uniform(commit_phase_paths@));
    }
    ExpandedFriMmcsPaths::new(input_paths, commit_phase_paths)
}

} // verus!
