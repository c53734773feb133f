//! Full Merkle paths for every query of a WHIR proof.

use vstd::arithmetic::power2::*;
use vstd::prelude::*;

use crate::extension::ExtensionField;
use crate::field::Field;
use crate::fri_paths;
use crate::fri_paths::{flatten_row, SharedOpening};
use crate::merkle;
use crate::merkle::{
    expand_pruned_merkle_paths, CryptographicHasher, Dimensions, MerkleWitnessError,
    PrunedMerklePaths, PseudoCompressionFunction,
};
use crate::seqs;
use crate::seqs::copy_vec;
use crate::whir_params;
use crate::whir_params::{folded_dimensions, WhirVerifierParams};

verus! {

/// Failures while converting the WHIR multiproofs into recursive paths.
#[derive(Clone, Debug, PartialEq, Eq)]
pub enum WhirWitnessBuildError {
    InvalidShape(&'static str),
    Merkle { round: usize, source: MerkleWitnessError },
}

/// The opened rows of all queries of one round, with the shared proof for them.
pub struct SharedRows<T, F, const DIGEST_ELEMS: usize> {
    pub rows: Vec<Vec<T>>,
    pub pruned: PrunedMerklePaths<F, DIGEST_ELEMS>,
}

/// The opened rows of one round, over the base field or over the extension.
pub enum QueryOpenings<F, EF, const DIGEST_ELEMS: usize> {
    Base(SharedRows<F, F, DIGEST_ELEMS>),
    Extension(SharedRows<EF, F, DIGEST_ELEMS>),
}

/// The openings of a WHIR proof.
pub struct WhirProof<F, EF, const DIGEST_ELEMS: usize> {
    /// One per intermediate round.
    pub rounds: Vec<QueryOpenings<F, EF, DIGEST_ELEMS>>,
    pub final_openings: QueryOpenings<F, EF, DIGEST_ELEMS>,
}

/// Full Merkle paths, those of the intermediate rounds first.
#[derive(Clone, Debug, PartialEq, Eq)]
pub struct ExpandedWhirMmcsPaths<F, const DIGEST_ELEMS: usize> {
    pub paths: Vec<Vec<[F; DIGEST_ELEMS]>>,
}

/// Rows of one matrix as the openings of queries.
pub open spec fn single_matrix<F>(rows: Seq<Seq<F>>) -> Seq<Seq<Seq<F>>> {
    Seq::new(rows.len(), |q: int| seq![rows[q]])
}

pub open spec fn flat_rows<F: Field, EF: ExtensionField<F>>(rows: Seq<Seq<EF>>) -> Seq<Seq<F>> {
    Seq::new(rows.len(), |q: int| fri_paths::flat_row::<F, EF>(rows[q]))
}

/// What the multiproof of a round over the base field authenticates.
pub open spec fn base_opening<F: Field, const DIGEST_ELEMS: usize>(
    dimensions: Seq<Dimensions>,
    indices: Seq<nat>,
    rows: Seq<Seq<F>>,
    siblings: Seq<[F; DIGEST_ELEMS]>,
) -> SharedOpening<F, DIGEST_ELEMS> {
    SharedOpening { dimensions, indices, rows: single_matrix(rows), siblings }
}

/// What the multiproof of a round over the extension authenticates: the coefficients of the rows.
pub open spec fn extension_opening<F: Field, EF: ExtensionField<F>, const DIGEST_ELEMS: usize>(
    dimensions: Seq<Dimensions>,
    indices: Seq<nat>,
    rows: Seq<Seq<EF>>,
    siblings: Seq<[F; DIGEST_ELEMS]>,
) -> SharedOpening<F, DIGEST_ELEMS> {
    SharedOpening {
        dimensions: fri_paths::flat_dimensions(dimensions, EF::sp_dimension()),
        indices,
        rows: single_matrix(flat_rows::<F, EF>(rows)),
        siblings,
    }
}

/// Expands the shared proof of a round over the base field.
pub fn expand_base_opening<F, H, C, const N: usize, const DIGEST_ELEMS: usize>(
    dimensions: &[Dimensions],
    indices: &[usize],
    rows: &[Vec<F>],
    pruned: &PrunedMerklePaths<F, DIGEST_ELEMS>,
    hash: &H,
    compress: &C,
    cap_height: usize,
) -> (r: Result<Vec<Vec<[F; DIGEST_ELEMS]>>, MerkleWitnessError>) where
    F: Field,
    H: CryptographicHasher<F, DIGEST_ELEMS>,
    C: PseudoCompressionFunction<F, N, DIGEST_ELEMS>,

    requires
        N >= 2,
        is_pow2(N as int),
        forall|m: int|
            0 <= m < dimensions@.len() ==> (#[trigger] dimensions@[m]).height <= usize::MAX / 2 + 1,
        merkle::schedule_ends(N as nat, merkle::heights_of(dimensions@)),
        pruned.sibling_hashes@.len() < usize::MAX,
    ensures
        ({
            let opening = base_opening(
                dimensions@,
                merkle::nats(indices@),
                seqs::rows(rows@),
                pruned.sibling_hashes@,
            );
            match r {
                Ok(paths) => {
                    &&& opening.failure(N as nat, cap_height as nat) is None
                    &&& paths@.len() == indices@.len()
                    &&& forall|q: int|
                        0 <= q < paths@.len() ==> (#[trigger] paths@[q])@ == opening.path::<
                            H,
                            C,
                            N,
                        >(*hash, *compress, cap_height as nat, q)
                },
                Err(e) => opening.failure(N as nat, cap_height as nat) == Some(e),
            }
        }),
{
    let mut opened: Vec<Vec<Vec<F>>> = Vec::new();
    let mut q: usize = 0;
    while q < rows.len()
        invariant
            q <= rows@.len(),
            opened@.len() == q,
            forall|i: int|
                0 <= i < q ==> seqs::rows((#[trigger] opened@[i])@) == seq![rows@[i]@],
        decreases rows@.len() - q,
    {
        let mut query: Vec<Vec<F>> = Vec::new();
        query.push(copy_vec(&rows[q]));
        assert(seqs::rows(query@) =~= seq![rows@[q as int]@]);
        opened.push(query);
        q += 1;
    }
    assert(seqs::tables(opened@) =~= single_matrix(seqs::rows(rows@)));
    expand_pruned_merkle_paths(
        dimensions,
        indices,
        opened.as_slice(),
        pruned,
        hash,
        compress,
        cap_height,
    )
}

/// Expands the shared proof of a round over the extension.
pub fn expand_extension_opening<F, EF, H, C, const N: usize, const DIGEST_ELEMS: usize>(
    dimensions: &[Dimensions],
    indices: &[usize],
    rows: &[Vec<EF>],
    pruned: &PrunedMerklePaths<F, DIGEST_ELEMS>,
    hash: &H,
    compress: &C,
    cap_height: usize,
) -> (r: Result<Vec<Vec<[F; DIGEST_ELEMS]>>, MerkleWitnessError>) where
    F: Field,
    EF: ExtensionField<F>,
    H: CryptographicHasher<F, DIGEST_ELEMS>,
    C: PseudoCompressionFunction<F, N, DIGEST_ELEMS>,

    requires
        N >= 2,
        is_pow2(N as int),
        forall|m: int|
            0 <= m < dimensions@.len() ==> (#[trigger] dimensions@[m]).height <= usize::MAX / 2 + 1,
        merkle::schedule_ends(N as nat, merkle::heights_of(dimensions@)),
        forall|m: int|
            0 <= m < dimensions@.len() ==> (#[trigger] dimensions@[m]).width * EF::sp_dimension()
                <= usize::MAX,
        pruned.sibling_hashes@.len() < usize::MAX,
    ensures
        ({
            let opening = extension_opening::<F, EF, DIGEST_ELEMS>(
                dimensions@,
                merkle::nats(indices@),
                seqs::rows(rows@),
                pruned.sibling_hashes@,
            );
            match r {
                Ok(paths) => {
                    &&& opening.failure(N as nat, cap_height as nat) is None
                    &&& paths@.len() == indices@.len()
                    &&& forall|q: int|
                        0 <= q < paths@.len() ==> (#[trigger] paths@[q])@ == opening.path::<
                            H,
                            C,
                            N,
                        >(*hash, *compress, cap_height as nat, q)
                },
                Err(e) => opening.failure(N as nat, cap_height as nat) == Some(e),
            }
        }),
{
    let degree: usize = EF::dimension();
    let mut flat: Vec<Dimensions> = Vec::new();
    let mut m: usize = 0;
    while m < dimensions.len()
        invariant
            m <= dimensions@.len(),
            degree == EF::sp_dimension(),
            forall|m: int|
                0 <= m < dimensions@.len() ==> (#[trigger] dimensions@[m]).height <= usize::MAX / 2
                    + 1,
            forall|m: int|
                0 <= m < dimensions@.len() ==> (#[trigger] dimensions@[m]).width
                    * EF::sp_dimension() <= usize::MAX,
            flat@ == fri_paths::flat_dimensions(dimensions@, EF::sp_dimension()).take(m as int),
        decreases dimensions@.len() - m,
    {
        let d: Dimensions = dimensions[m];
        assert(dimensions@[m as int].width * EF::sp_dimension() <= usize::MAX);
        flat.push(Dimensions { width: d.width * degree, height: d.height });
        m += 1;
        assert(flat@ =~= fri_paths::flat_dimensions(dimensions@, EF::sp_dimension()).take(
            m as int,
        ));
    }
    assert(flat@ =~= fri_paths::flat_dimensions(dimensions@, EF::sp_dimension()));
    let mut opened: Vec<Vec<Vec<F>>> = Vec::new();
    let mut q: usize = 0;
    while q < rows.len()
        invariant
            q <= rows@.len(),
            opened@.len() == q,
            forall|i: int|
                0 <= i < q ==> seqs::rows((#[trigger] opened@[i])@) == seq![
                    fri_paths::flat_row::<F, EF>(rows@[i]@),
                ],
        decreases rows@.len() - q,
    {
        let mut query: Vec<Vec<F>> = Vec::new();
        query.push(flatten_row::<F, EF>(&rows[q]));
        assert(seqs::rows(query@) =~= seq![fri_paths::flat_row::<F, EF>(rows@[q as int]@)]);
        opened.push(query);
        q += 1;
    }
    assert(seqs::tables(opened@) =~= single_matrix(flat_rows::<F, EF>(seqs::rows(rows@))));
    assert forall|m: int| 0 <= m < flat@.len() implies (#[trigger] flat@[m]).height <= usize::MAX
        / 2 + 1 by {
        assert(flat@[m].height == dimensions@[m].height);
    }
    assert(merkle::heights_of(flat@) =~= merkle::heights_of(dimensions@));
    expand_pruned_merkle_paths(
        flat.as_slice(),
        indices,
        opened.as_slice(),
        pruned,
        hash,
        compress,
        cap_height,
    )
}

/// What a round authenticates.
pub open spec fn round_opening<F: Field, EF: ExtensionField<F>, const DIGEST_ELEMS: usize>(
    opening: QueryOpenings<F, EF, DIGEST_ELEMS>,
    dimensions: Seq<Dimensions>,
    indices: Seq<nat>,
) -> SharedOpening<F, DIGEST_ELEMS> {
    match opening {
        QueryOpenings::Base(shared) => base_opening(
            dimensions,
            indices,
            seqs::rows(shared.rows@),
            shared.pruned.sibling_hashes@,
        ),
        QueryOpenings::Extension(shared) => extension_opening::<F, EF, DIGEST_ELEMS>(
            dimensions,
            indices,
            seqs::rows(shared.rows@),
            shared.pruned.sibling_hashes@,
        ),
    }
}

/// The paths of all queries of one multiproof.
pub open spec fn opening_paths<F, H, C, const N: usize, const DIGEST_ELEMS: usize>(
    opening: SharedOpening<F, DIGEST_ELEMS>,
    hash: H,
    compress: C,
    cap_height: nat,
) -> Seq<Seq<[F; DIGEST_ELEMS]>> where
    F: Field,
    H: CryptographicHasher<F, DIGEST_ELEMS>,
    C: PseudoCompressionFunction<F, N, DIGEST_ELEMS>,
 {
    Seq::new(
        opening.indices.len(),
        |q: int| opening.path::<H, C, N>(hash, compress, cap_height, q),
    )
}

/// A WHIR proof with the parameters and indices that it is checked against.
pub struct WhirExpansion<F, EF, const DIGEST_ELEMS: usize> {
    pub whir: WhirProof<F, EF, DIGEST_ELEMS>,
    pub params: WhirVerifierParams<F>,
    pub round_indices: Seq<Seq<nat>>,
    pub final_indices: Seq<nat>,
}

impl<F: Field, EF: ExtensionField<F>, const DIGEST_ELEMS: usize> WhirExpansion<
    F,
    EF,
    DIGEST_ELEMS,
> {
    /// The shape of the matrix that a round opens.
    pub open spec fn dimensions(self, round: int) -> Dimensions {
        if round < self.params.round_params@.len() {
            whir_params::folded_shape(
                self.params.round_params@[round].domain_size,
                self.params.round_params@[round].folding_factor,
            )
        } else {
            whir_params::folded_shape(
                self.params.final_domain_size,
                self.params.final_sumcheck_rounds,
            )
        }
    }

    pub open spec fn openings(self, round: int) -> QueryOpenings<F, EF, DIGEST_ELEMS> {
        if round < self.params.round_params@.len() {
            self.whir.rounds@[round]
        } else {
            self.whir.final_openings
        }
    }

    pub open spec fn indices(self, round: int) -> Seq<nat> {
        if round < self.params.round_params@.len() {
            self.round_indices[round]
        } else {
            self.final_indices
        }
    }

    /// What the multiproof of a round authenticates. The final opening is the last round.
    pub open spec fn opening(self, round: int) -> SharedOpening<F, DIGEST_ELEMS> {
        round_opening::<F, EF, DIGEST_ELEMS>(
            self.openings(round),
            seq![self.dimensions(round)],
            self.indices(round),
        )
    }

    /// Why a round cannot be expanded: only the first round opens base rows.
    pub open spec fn round_failure(
        self,
        arity: nat,
        cap_height: nat,
        round: int,
    ) -> Option<WhirWitnessBuildError> {
        if (self.openings(round) is Base) != (round == 0) {
            Some(
                WhirWitnessBuildError::InvalidShape(
                    if round < self.params.round_params@.len() {
                        "WHIR opening field does not match its round"
                    } else {
                        "WHIR final opening field does not match the round count"
                    },
                ),
            )
        } else {
            match self.opening(round).failure(arity, cap_height) {
                Some(source) => Some(
                    WhirWitnessBuildError::Merkle { round: round as usize, source },
                ),
                None => None,
            }
        }
    }

    /// The failure of the first of `n` rounds that fails.
    pub open spec fn rounds_failure(
        self,
        arity: nat,
        cap_height: nat,
        n: nat,
    ) -> Option<WhirWitnessBuildError>
        decreases n,
    {
        if n == 0 {
            None
        } else {
            match self.rounds_failure(arity, cap_height, (n - 1) as nat) {
                Some(e) => Some(e),
                None => self.round_failure(arity, cap_height, n - 1),
            }
        }
    }

    /// Why the proof cannot be expanded, if it cannot.
    pub open spec fn failure(self, arity: nat, cap_height: nat) -> Option<WhirWitnessBuildError> {
        let rounds = self.params.round_params@.len();
        if self.whir.rounds@.len() != rounds || self.round_indices.len() != rounds {
            Some(
                WhirWitnessBuildError::InvalidShape(
                    "WHIR round count differs between proof, parameters, and transcript",
                ),
            )
        } else {
            self.rounds_failure(arity, cap_height, rounds + 1)
        }
    }

    proof fn lemma_rounds_failure(self, arity: nat, cap_height: nat, k: nat, n: nat)
        requires
            k <= n,
            self.rounds_failure(arity, cap_height, k) is Some,
        ensures
            self.rounds_failure(arity, cap_height, n) == self.rounds_failure(arity, cap_height, k),
        decreases n,
    {
        if k < n {
            self.lemma_rounds_failure(arity, cap_height, k, (n - 1) as nat);
        }
    }

    /// The paths of the first `n` rounds, round after round.
    pub open spec fn paths<H, C, const N: usize>(
        self,
        hash: H,
        compress: C,
        cap_height: nat,
        n: nat,
    ) -> Seq<Seq<[F; DIGEST_ELEMS]>> where
        H: CryptographicHasher<F, DIGEST_ELEMS>,
        C: PseudoCompressionFunction<F, N, DIGEST_ELEMS>,

        decreases n,
    {
        if n == 0 {
            Seq::empty()
        } else {
            self.paths::<H, C, N>(hash, compress, cap_height, (n - 1) as nat) + opening_paths::<
                F,
                H,
                C,
                N,
                DIGEST_ELEMS,
            >(self.opening(n - 1), hash, compress, cap_height)
        }
    }

    /// The shapes that the parameters give fit the machine.
    pub open spec fn representable(self) -> bool {
        &&& forall|i: int|
            0 <= i < self.params.round_params@.len() ==> {
                let rp = #[trigger] self.params.round_params@[i];
                &&& rp.folding_factor < usize::BITS
                &&& rp.domain_size as nat / pow2(rp.folding_factor as nat) <= usize::MAX / 2 + 1
                &&& pow2(rp.folding_factor as nat) * EF::sp_dimension() <= usize::MAX
            }
        &&& self.params.final_sumcheck_rounds < usize::BITS
        &&& self.params.final_domain_size as nat / pow2(self.params.final_sumcheck_rounds as nat)
            <= usize::MAX / 2 + 1
        &&& pow2(self.params.final_sumcheck_rounds as nat) * EF::sp_dimension() <= usize::MAX
        &&& forall|i: int|
            0 <= i < self.whir.rounds@.len() ==> sibling_count(#[trigger] self.whir.rounds@[i])
                < usize::MAX
        &&& sibling_count(self.whir.final_openings) < usize::MAX
    }
}

pub open spec fn sibling_count<F, EF, const DIGEST_ELEMS: usize>(
    opening: QueryOpenings<F, EF, DIGEST_ELEMS>,
) -> nat {
    match opening {
        QueryOpenings::Base(shared) => shared.pruned.sibling_hashes@.len(),
        QueryOpenings::Extension(shared) => shared.pruned.sibling_hashes@.len(),
    }
}

pub open spec fn nat_rows(v: Seq<Vec<usize>>) -> Seq<Seq<nat>> {
    Seq::new(v.len(), |i: int| merkle::nats(v[i]@))
}

/// Expands the opening of one round.
fn expand_round<F, EF, H, C, const N: usize, const DIGEST_ELEMS: usize>(
    opening: &QueryOpenings<F, EF, DIGEST_ELEMS>,
    dimensions: Dimensions,
    indices: &[usize],
    hash: &H,
    compress: &C,
    cap_height: usize,
) -> (r: Result<Vec<Vec<[F; DIGEST_ELEMS]>>, MerkleWitnessError>) where
    F: Field,
    EF: ExtensionField<F>,
    H: CryptographicHasher<F, DIGEST_ELEMS>,
    C: PseudoCompressionFunction<F, N, DIGEST_ELEMS>,

    requires
        N >= 2,
        is_pow2(N as int),
        dimensions.height <= usize::MAX / 2 + 1,
        dimensions.width * EF::sp_dimension() <= usize::MAX,
        sibling_count(*opening) < usize::MAX,
    ensures
        ({
            let shared = round_opening::<F, EF, DIGEST_ELEMS>(
                *opening,
                seq![dimensions],
                merkle::nats(indices@),
            );
            match r {
                Ok(paths) => {
                    &&& shared.failure(N as nat, cap_height as nat) is None
                    &&& seqs::rows(paths@) == opening_paths::<F, H, C, N, DIGEST_ELEMS>(
                        shared,
                        *hash,
                        *compress,
                        cap_height as nat,
                    )
                },
                Err(e) => shared.failure(N as nat, cap_height as nat) == Some(e),
            }
        }),
{
    let shape: [Dimensions; 1] = [dimensions];
    assert(shape@ =~= seq![dimensions]);
    proof {
        merkle::lemma_schedule_ends(N as nat, merkle::heights_of(shape@));
    }
    let ghost model = round_opening::<F, EF, DIGEST_ELEMS>(
        *opening,
        seq![dimensions],
        merkle::nats(indices@),
    );
    let paths = match opening {
        QueryOpenings::Base(shared) => expand_base_opening::<F, H, C, N, DIGEST_ELEMS>(
            &shape,
            indices,
            shared.rows.as_slice(),
            &shared.pruned,
            hash,
            compress,
            cap_height,
        ),
        QueryOpenings::Extension(shared) => expand_extension_opening::<
            F,
            EF,
            H,
            C,
            N,
            DIGEST_ELEMS,
        >(&shape, indices, shared.rows.as_slice(), &shared.pruned, hash, compress, cap_height),
    };
    match paths {
        Err(e) => Err(e),
        Ok(paths) => {
            assert(seqs::rows(paths@) =~= opening_paths::<F, H, C, N, DIGEST_ELEMS>(
                model,
                *hash,
                *compress,
                cap_height as nat,
            ));
            Ok(paths)
        },
    }
}

fn append_paths<T>(dst: &mut Vec<Vec<T>>, src: Vec<Vec<T>>)
    ensures
        seqs::rows(final(dst)@) == seqs::rows(old(dst)@) + seqs::rows(src@),
{
    let mut src = src;
    let ghost added = src@;
    let ghost before = dst@;
    dst.append(&mut src);
    assert(seqs::rows(dst@) =~= seqs::rows(before) + seqs::rows(added));
}

/// Expand every WHIR shared multiproof into the complete paths consumed by the recursive MMCS
/// verifier.
///
/// `round_indices` and `final_indices` must be replayed from the verifier's Fiat-Shamir transcript.
/// The compact frontier is never trusted to choose its own positions or geometry.
pub fn expand_whir_mmcs_paths<F, EF, H, C, const N: usize, const DIGEST_ELEMS: usize>(
    whir: &WhirProof<F, EF, DIGEST_ELEMS>,
    params: &WhirVerifierParams<F>,
    round_indices: &[Vec<usize>],
    final_indices: &[usize],
    hash: &H,
    compress: &C,
    cap_height: usize,
) -> (r: Result<ExpandedWhirMmcsPaths<F, DIGEST_ELEMS>, WhirWitnessBuildError>) where
    F: Field,
    EF: ExtensionField<F>,
    H: CryptographicHasher<F, DIGEST_ELEMS>,
    C: PseudoCompressionFunction<F, N, DIGEST_ELEMS>,

    requires
        N >= 2,
        is_pow2(N as int),
        (WhirExpansion {
            whir: *whir,
            params: *params,
            round_indices: nat_rows(round_indices@),
            final_indices: merkle::nats(final_indices@),
        }).representable(),
    ensures
        ({
            let expansion = (WhirExpansion {
                whir: *whir,
                params: *params,
                round_indices: nat_rows(round_indices@),
                final_indices: merkle::nats(final_indices@),
            });
            match r {
                Ok(expanded) => {
                    &&& expansion.failure(N as nat, cap_height as nat) is None
                    &&& seqs::rows(expanded.paths@) == expansion.paths::<H, C, N>(
                        *hash,
                        *compress,
                        cap_height as nat,
                        params.round_params@.len() + 1,
                    )
                },
                Err(e) => expansion.failure(N as nat, cap_height as nat) == Some(e),
            }
        }),
{
    let ghost expansion = (WhirExpansion {
        whir: *whir,
        params: *params,
        round_indices: nat_rows(round_indices@),
        final_indices: merkle::nats(final_indices@),
    });
    let ghost arity = N as nat;
    let ghost cap = cap_height as nat;
    let rounds: usize = params.round_params.len();
    if whir.rounds.len() != rounds || round_indices.len() != rounds {
        return Err(
            WhirWitnessBuildError::InvalidShape(
                "WHIR round count differs between proof, parameters, and transcript",
            ),
        );
    }
    let mut paths: Vec<Vec<[F; DIGEST_ELEMS]>> = Vec::new();
    let mut round: usize = 0;
    assert(seqs::rows(paths@) =~= expansion.paths::<H, C, N>(*hash, *compress, cap, 0));
    while round < rounds
        invariant
            N >= 2,
            is_pow2(N as int),
            round <= rounds,
            rounds == params.round_params@.len(),
            whir.rounds@.len() == rounds,
            round_indices@.len() == rounds,
            arity == N,
            cap == cap_height,
            expansion == (WhirExpansion {
                whir: *whir,
                params: *params,
                round_indices: nat_rows(round_indices@),
                final_indices: merkle::nats(final_indices@),
            }),
            expansion.representable(),
            expansion.rounds_failure(arity, cap, round as nat) is None,
            seqs::rows(paths@) == expansion.paths::<H, C, N>(
                *hash,
                *compress,
                cap,
                round as nat,
            ),
        decreases rounds - round,
    {
        let rp = &params.round_params[round];
        assert(expansion.params.round_params@[round as int] == *rp);
        assert(sibling_count(expansion.whir.rounds@[round as int]) < usize::MAX);
        let dimensions: Dimensions = folded_dimensions(rp.domain_size, rp.folding_factor);
        let base: bool = match &whir.rounds[round] {
            QueryOpenings::Base(_) => true,
            QueryOpenings::Extension(_) => false,
        };
        if base != (round == 0) {
            proof {
                expansion.lemma_rounds_failure(arity, cap, (round + 1) as nat, (rounds + 1) as nat);
            }
            return Err(
                WhirWitnessBuildError::InvalidShape("WHIR opening field does not match its round"),
            );
        }
        assert(expansion.round_indices[round as int] == merkle::nats(round_indices@[round as int]@));
        match expand_round::<F, EF, H, C, N, DIGEST_ELEMS>(
            &whir.rounds[round],
            dimensions,
            round_indices[round].as_slice(),
            hash,
            compress,
            cap_height,
        ) {
            Err(source) => {
                proof {
                    expansion.lemma_rounds_failure(
                        arity,
                        cap,
                        (round + 1) as nat,
                        (rounds + 1) as nat,
                    );
                }
                return Err(WhirWitnessBuildError::Merkle { round, source });
            },
            Ok(expanded) => {
                append_paths(&mut paths, expanded);
            },
        }
        round += 1;
    }
    let dimensions: Dimensions = folded_dimensions(
        params.final_domain_size,
        params.final_sumcheck_rounds,
    );
    let base: bool = match &whir.final_openings {
        QueryOpenings::Base(_) => true,
        QueryOpenings::Extension(_) => false,
    };
    if base != (rounds == 0) {
        return Err(
            WhirWitnessBuildError::InvalidShape(
                "WHIR final opening field does not match the round count",
            ),
        );
    }
    match expand_round::<F, EF, H, C, N, DIGEST_ELEMS>(
        &whir.final_openings,
        dimensions,
        final_indices,
        hash,
        compress,
        cap_height,
    ) {
        Err(source) => {
            return Err(WhirWitnessBuildError::Merkle { round: rounds, source });
        },
        Ok(expanded) => {
            append_paths(&mut paths, expanded);
        },
    }
    Ok(ExpandedWhirMmcsPaths { paths })
}

/// The expanded paths are one per query, in the order of the rounds.
pub proof fn law_one_path_per_query<
    F: Field,
    EF: ExtensionField<F>,
    H: CryptographicHasher<F, DIGEST_ELEMS>,
    C: PseudoCompressionFunction<F, N, DIGEST_ELEMS>,
    const N: usize,
    const DIGEST_ELEMS: usize,
>(
    expansion: WhirExpansion<F, EF, DIGEST_ELEMS>,
    hash: H,
    compress: C,
    cap_height: nat,
    n: nat,
)
    ensures
        expansion.paths::<H, C, N>(hash, compress, cap_height, n + 1).len() == expansion.paths::<
            H,
            C,
            N,
        >(hash, compress, cap_height, n).len() + expansion.indices(n as int).len(),
{
}

} // verus!
