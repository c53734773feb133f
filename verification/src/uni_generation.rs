//! Replay of the transcript of a single-instance proof.

use vstd::arithmetic::power2::*;
use vstd::prelude::*;

use crate::bits::two_pow;
use crate::challenger;
use crate::challenger::{observe_slice, sample_algebra_element, Challenger, PrimeField64};
use crate::domains;
use crate::domains::{disjoint_domain, natural_domain, next_point, split_domains};
use crate::extension::ExtensionField;
use crate::field::TwoAdicField;
use crate::fri_witness::{FriInputMatrix, TwoAdicMultiplicativeCoset};
use crate::generation;
use crate::generation::{
    BatchFriWitnessContext, Claims, CommitmentWithOpenings, FriGenerationParams, GenerationError,
    PcsGeneration, Round,
};
use crate::stark_generation;
use crate::stark_generation::{claim_one, claim_two, into_batches, push_claim, push_round};

verus! {

/// What a replay reads of the constraints of an instance.
#[derive(Clone, Copy, Debug, PartialEq, Eq)]
pub struct UniAirShape {
    pub preprocessed_width: usize,
    pub num_public_values: usize,
    /// The constraints read the next row of the trace.
    pub reads_next_row: bool,
    /// The constraints read the next row of the preprocessed columns.
    pub reads_next_preprocessed_row: bool,
}

/// The verifier's key for preprocessed columns.
pub struct PreprocessedVerifierKey<F> {
    pub width: usize,
    pub degree_bits: usize,
    pub commitment: Vec<F>,
}

/// The commitments of a single-instance proof.
pub struct UniCommitments<F> {
    pub trace: Vec<F>,
    pub quotient_chunks: Vec<F>,
    pub random: Option<Vec<F>>,
}

/// The values opened of a single-instance proof.
pub struct UniOpenedValues<EF> {
    pub trace_local: Vec<EF>,
    pub trace_next: Option<Vec<EF>>,
    pub preprocessed_local: Option<Vec<EF>>,
    pub preprocessed_next: Option<Vec<EF>>,
    pub quotient_chunks: Vec<Vec<EF>>,
    pub random: Option<Vec<EF>>,
}

/// A single-instance proof, with the opening proof `O`.
pub struct UniProof<F, EF, O> {
    pub commitments: UniCommitments<F>,
    pub opened_values: UniOpenedValues<EF>,
    pub opening_proof: O,
    pub degree_bits: usize,
}

/// A single-instance proof with everything that its transcript is replayed against.
pub struct UniReplay<F, EF, O> {
    pub stark: UniProof<F, EF, O>,
    pub air: UniAirShape,
    pub public_values: Seq<F>,
    pub key: Option<PreprocessedVerifierKey<F>>,
    pub zk: bool,
}

/// The smallest `k` with `n <= 2^k`.
pub open spec fn log_ceil(n: nat) -> nat
    decreases n,
{
    if n <= 1 {
        0
    } else {
        1 + log_ceil(((n + 1) / 2) as nat)
    }
}

proof fn lemma_log_ceil_pow2(k: nat)
    ensures
        log_ceil(pow2(k)) == k,
    decreases k,
{
    lemma2_to64();
    if k > 0 {
        lemma_pow2_unfold(k);
        lemma_pow2_pos((k - 1) as nat);
        lemma_log_ceil_pow2((k - 1) as nat);
        assert((pow2(k) + 1) / 2 == pow2((k - 1) as nat));
    }
}

impl<F: PrimeField64 + TwoAdicField, EF: ExtensionField<F>, O> UniReplay<F, EF, O> {
    pub open spec fn zk_bits(self) -> nat {
        if self.zk {
            1
        } else {
            0
        }
    }

    pub open spec fn degree(self) -> nat {
        self.stark.degree_bits as nat
    }

    pub open spec fn preprocessed_width(self) -> nat {
        match self.key {
            Some(key) => key.width as nat,
            None => self.air.preprocessed_width as nat,
        }
    }

    pub open spec fn chunks(self) -> nat {
        self.stark.opened_values.quotient_chunks@.len()
    }

    /// The size of the domain of the whole quotient.
    pub open spec fn quotient_size(self) -> nat {
        pow2(self.degree()) * self.chunks()
    }

    /// What is wrong with the shape of the proof before any challenge is sampled.
    pub open spec fn shape_failure(self) -> Option<GenerationError> {
        if self.degree() < self.zk_bits() {
            Some(
                GenerationError::InvalidProofShape(
                    "degree bits are smaller than the ZK extension",
                ),
            )
        } else if self.degree() >= usize::BITS {
            Some(GenerationError::InvalidProofShape("trace degree exceeds the platform limit"))
        } else if match self.key {
            Some(key) => key.degree_bits != self.degree(),
            None => self.air.preprocessed_width != 0,
        } {
            Some(
                GenerationError::InvalidProofShape(
                    "preprocessed verifier key does not match the proof",
                ),
            )
        } else if self.public_values.len() != self.air.num_public_values {
            Some(GenerationError::InvalidProofShape("public-value count does not match the AIR"))
        } else if self.quotient_size() > usize::MAX {
            Some(GenerationError::InvalidProofShape("quotient domain size overflow"))
        } else if log_ceil(self.quotient_size()) > F::sp_two_adicity() {
            Some(GenerationError::InvalidProofShape("quotient domain is unavailable"))
        } else {
            None
        }
    }

    pub open spec fn trace_domain(self) -> TwoAdicMultiplicativeCoset<F> {
        domains::natural(self.degree())
    }

    /// The domain on which a quotient chunk is committed.
    pub open spec fn quotient_domain(self, c: nat) -> TwoAdicMultiplicativeCoset<F> {
        let log_chunks = log_ceil(self.chunks());
        let whole = domains::disjoint(self.trace_domain(), log_ceil(self.quotient_size()));
        domains::natural(
            domains::chunk(whole, log_chunks, c).log_size as nat + self.zk_bits(),
        )
    }

    /// The out-of-domain point and the state after it.
    pub open spec fn draw<C: Challenger<F>>(self, s: C::State) -> (EF, C::State) {
        let commitments = self.stark.commitments;
        let s = C::absorbed(s, F::sp_from(self.degree()));
        let s = C::absorbed(s, F::sp_from((self.degree() - self.zk_bits()) as nat));
        let s = C::absorbed(s, F::sp_from(self.preprocessed_width()));
        let s = challenger::absorbed_slice::<F, C>(s, commitments.trace@);
        let s = match self.key {
            Some(key) => challenger::absorbed_slice::<F, C>(s, key.commitment@),
            None => s,
        };
        let s = challenger::absorbed_slice::<F, C>(s, self.public_values);
        let s = challenger::squeezed_element::<F, EF, C>(s).1;
        let s = challenger::absorbed_slice::<F, C>(s, commitments.quotient_chunks@);
        let s = match commitments.random {
            Some(commitment) => challenger::absorbed_slice::<F, C>(s, commitment@),
            None => s,
        };
        challenger::squeezed_element::<F, EF, C>(s)
    }

    pub open spec fn zeta_next(self, zeta: EF) -> EF {
        domains::next(self.trace_domain(), zeta)
    }

    /// The claims of columns opened at `zeta` and, where the next row is read, at the point after
    /// it.
    pub open spec fn column_claims(
        self,
        zeta: EF,
        local: Seq<EF>,
        reads_next: bool,
        next: Seq<EF>,
    ) -> Claims<F, EF> {
        if reads_next {
            stark_generation::two_points(
                self.trace_domain(),
                zeta,
                local,
                self.zeta_next(zeta),
                next,
            )
        } else {
            stark_generation::one_point(self.trace_domain(), zeta, local)
        }
    }

    /// All commitments with their claimed openings: random, trace, quotient and preprocessed.
    pub open spec fn rounds(self, zeta: EF) -> Seq<Round<F, EF>> {
        let commitments = self.stark.commitments;
        let opened = self.stark.opened_values;
        let first: Seq<Round<F, EF>> = match commitments.random {
            Some(commitment) => seq![
                Round {
                    commitment: commitment@,
                    matrices: seq![
                        stark_generation::one_point(
                            self.trace_domain(),
                            zeta,
                            opened.random->0@,
                        ),
                    ],
                },
            ],
            None => Seq::empty(),
        };
        let core = first.push(
            Round {
                commitment: commitments.trace@,
                matrices: seq![
                    self.column_claims(
                        zeta,
                        opened.trace_local@,
                        self.air.reads_next_row,
                        opened.trace_next->0@,
                    ),
                ],
            },
        ).push(
            Round {
                commitment: commitments.quotient_chunks@,
                matrices: Seq::new(
                    self.chunks(),
                    |c: int|
                        stark_generation::one_point(
                            self.quotient_domain(c as nat),
                            zeta,
                            opened.quotient_chunks@[c]@,
                        ),
                ),
            },
        );
        match self.key {
            Some(key) => core.push(
                Round {
                    commitment: key.commitment@,
                    matrices: seq![
                        self.column_claims(
                            zeta,
                            opened.preprocessed_local->0@,
                            self.air.reads_next_preprocessed_row,
                            opened.preprocessed_next->0@,
                        ),
                    ],
                },
            ),
            None => core,
        }
    }

    /// What is wrong with the claimed openings.
    pub open spec fn rounds_failure(self) -> Option<GenerationError> {
        let opened = self.stark.opened_values;
        if (self.stark.commitments.random is Some) != (opened.random is Some) {
            Some(GenerationError::RandomizationError)
        } else if self.air.reads_next_row && opened.trace_next is None {
            Some(GenerationError::InvalidProofShape("next-row trace opening is missing"))
        } else if self.key is Some && opened.preprocessed_local is None {
            Some(GenerationError::InvalidProofShape("preprocessed opening is missing"))
        } else if self.key is Some && self.air.reads_next_preprocessed_row
            && opened.preprocessed_next is None {
            Some(GenerationError::InvalidProofShape("next-row preprocessed opening is missing"))
        } else {
            None
        }
    }

    /// What the machine and the field ask of a proof: its degree is a machine number, and once its
    /// shape is right the number of quotient chunks is a power of two and all domains exist.
    pub open spec fn representable(self) -> bool {
        &&& self.degree() <= u32::MAX
        &&& self.zk_bits() <= self.degree() < usize::BITS ==> self.degree() <= F::sp_two_adicity()
        &&& self.shape_failure() is None ==> {
            &&& is_pow2(self.chunks() as int)
            &&& self.degree() + self.zk_bits() <= F::sp_two_adicity()
            &&& self.degree() + self.zk_bits() < usize::BITS
        }
    }

    /// The openings that the verifier of the scheme observes.
    pub open spec fn prepared<C: Challenger<F>, P: PcsGeneration<F, EF, OpeningProof = O>>(
        self,
        s: C::State,
    ) -> Seq<Round<F, EF>> {
        P::sp_prepared(self.rounds(self.draw::<C>(s).0), self.stark.opening_proof)
    }

    /// Why the FRI proof is not reached, if it is not.
    pub open spec fn early_failure<C: Challenger<F>, P: PcsGeneration<F, EF, OpeningProof = O>>(
        self,
        s: C::State,
    ) -> Option<GenerationError> {
        if self.shape_failure() is Some {
            self.shape_failure()
        } else if self.rounds_failure() is Some {
            self.rounds_failure()
        } else {
            P::sp_preparation_failure(
                self.rounds(self.draw::<C>(s).0),
                self.stark.opening_proof,
            )
        }
    }

    /// The replay of the FRI proof.
    pub open spec fn fri<C: Challenger<F>, P: PcsGeneration<F, EF, OpeningProof = O>>(
        self,
        s: C::State,
        params: FriGenerationParams,
    ) -> generation::FriReplayed<EF, C::State> {
        generation::fri_replayed::<F, EF, C, P::MerkleProof>(
            self.draw::<C>(s).1,
            self.prepared::<C, P>(s),
            P::sp_fri(self.stark.opening_proof),
            params,
        )
    }

    /// Why the transcript cannot be replayed, if it cannot.
    pub open spec fn failure<C: Challenger<F>, P: PcsGeneration<F, EF, OpeningProof = O>>(
        self,
        s: C::State,
        params: FriGenerationParams,
    ) -> Option<GenerationError> {
        match self.early_failure::<C, P>(s) {
            Some(e) => Some(e),
            None => if self.fri::<C, P>(s, params).last.failed {
                Some(GenerationError::InvalidPowWitness)
            } else {
                None
            },
        }
    }
}

pub proof fn lemma_log_ceil_bound(n: nat, k: nat)
    requires
        n <= pow2(k),
    ensures
        log_ceil(n) <= k,
    decreases n,
{
    lemma2_to64();
    if n > 1 {
        if k == 0 {
            assert(false);
        }
        lemma_pow2_unfold(k);
        lemma_log_ceil_bound(((n + 1) / 2) as nat, (k - 1) as nat);
    }
}

/// The smallest `k` with `n <= 2^k`.
fn log_ceil_of(n: usize) -> (r: usize)
    ensures
        r == log_ceil(n as nat),
        r <= 64,
{
    proof {
        lemma2_to64();
        lemma_log_ceil_bound(n as nat, 64);
    }
    let mut k: usize = 0;
    let mut m: usize = n;
    while m > 1
        invariant
            k + log_ceil(m as nat) == log_ceil(n as nat),
            m <= usize::MAX,
            m > 0 || n == 0,
            log_ceil(n as nat) <= 64,
        decreases m,
    {
        let ghost before = m as nat;
        m = m / 2 + m % 2;
        k += 1;
        assert(m as nat == ((before + 1) / 2) as nat);
    }
    k
}

/// The logarithm of a product with a power of two.
pub proof fn lemma_log_ceil_product(a: nat, n: nat)
    requires
        n > 0,
    ensures
        log_ceil(pow2(a) * n) == a + log_ceil(n),
    decreases a,
{
    lemma2_to64();
    if a == 0 {
        assert(1 * n == n);
    } else {
        let m = (a - 1) as nat;
        lemma_pow2_unfold(a);
        lemma_pow2_pos(m);
        lemma_log_ceil_product(m, n);
        let x = pow2(m) * n;
        assert(pow2(a) * n == 2 * x) by (nonlinear_arith)
            requires
                pow2(a) == 2 * pow2(m),
                x == pow2(m) * n,
        ;
        assert(x > 0) by (nonlinear_arith)
            requires
                x == pow2(m) * n,
                pow2(m) > 0,
                n > 0,
        ;
        assert((2 * x + 1) / 2 == x);
    }
}

/// Replay a single-STARK verifier transcript and return the verifier-derived context needed to
/// expand its shared FRI multiproofs.
///
/// The challenger is the one that the verifier starts from.
pub fn generate_uni_fri_witness_context<
    F: PrimeField64 + TwoAdicField,
    EF: ExtensionField<F>,
    C: Challenger<F>,
    P: PcsGeneration<F, EF>,
>(
    air: &UniAirShape,
    pcs: &P,
    challenger: C,
    stark: &UniProof<F, EF, P::OpeningProof>,
    public_values: &[F],
    fri_params: FriGenerationParams,
    preprocessed_vk: &Option<PreprocessedVerifierKey<F>>,
) -> (r: Result<BatchFriWitnessContext<TwoAdicMultiplicativeCoset<F>, EF>, GenerationError>)
    requires
        ({
            let replay = (UniReplay {
                stark: *stark,
                air: *air,
                public_values: public_values@,
                key: *preprocessed_vk,
                zk: P::sp_zk(),
            });
            &&& replay.representable()
            &&& replay.early_failure::<C, P>(challenger.state()) is None
                ==> generation::replayable(P::sp_fri(stark.opening_proof), fri_params)
        }),
    ensures
        ({
            let replay = (UniReplay {
                stark: *stark,
                air: *air,
                public_values: public_values@,
                key: *preprocessed_vk,
                zk: P::sp_zk(),
            });
            match r {
                Ok(context) => {
                    &&& replay.failure::<C, P>(challenger.state(), fri_params) is None
                    &&& stark_generation::context_records(
                        context,
                        replay.fri::<C, P>(challenger.state(), fri_params),
                        replay.prepared::<C, P>(challenger.state()),
                    )
                },
                Err(e) => replay.failure::<C, P>(challenger.state(), fri_params) == Some(e),
            }
        }),
{
    let ghost replay = UniReplay {
        stark: *stark,
        air: *air,
        public_values: public_values@,
        key: *preprocessed_vk,
        zk: P::sp_zk(),
    };
    let ghost s = challenger.state();
    let mut challenger = challenger;
    let zk: usize = if P::zk() {
        1
    } else {
        0
    };
    let degree: usize = stark.degree_bits;
    if degree < zk {
        return Err(
            GenerationError::InvalidProofShape("degree bits are smaller than the ZK extension"),
        );
    }
    if degree >= usize::BITS as usize {
        return Err(GenerationError::InvalidProofShape("trace degree exceeds the platform limit"));
    }
    let trace_domain = natural_domain::<F>(degree);
    let mut width: usize = air.preprocessed_width;
    match preprocessed_vk {
        Some(key) => {
            width = key.width;
            if key.degree_bits != degree {
                return Err(
                    GenerationError::InvalidProofShape(
                        "preprocessed verifier key does not match the proof",
                    ),
                );
            }
        },
        None => {
            if width != 0 {
                return Err(
                    GenerationError::InvalidProofShape(
                        "preprocessed verifier key does not match the proof",
                    ),
                );
            }
        },
    }
    if public_values.len() != air.num_public_values {
        return Err(GenerationError::InvalidProofShape("public-value count does not match the AIR"));
    }
    let chunks: usize = stark.opened_values.quotient_chunks.len();
    let size: usize = two_pow(degree);
    let quotient_size: usize = match size.checked_mul(chunks) {
        Some(product) => product,
        None => {
            return Err(GenerationError::InvalidProofShape("quotient domain size overflow"));
        },
    };
    let quotient_log: usize = log_ceil_of(quotient_size);
    if quotient_log > F::two_adicity() {
        return Err(GenerationError::InvalidProofShape("quotient domain is unavailable"));
    }
    assert(replay.shape_failure() is None);
    let whole = disjoint_domain(trace_domain, quotient_log);
    let log_chunks: usize = log_ceil_of(chunks);
    proof {
        is_pow2_equiv(chunks as int);
        let k = choose|k: nat| vstd::arithmetic::power::pow(2, k) == chunks as int;
        lemma_pow2(k);
        lemma_pow2_pos(k);
        lemma_log_ceil_pow2(k);
        lemma_log_ceil_product(degree as nat, chunks as nat);
        assert(chunks == pow2(log_chunks as nat));
        lemma_chunks_fit(chunks, log_chunks as nat);
    }
    let parts = split_domains(whole, log_chunks);

    challenger.observe(F::from_u64(degree as u64));
    challenger.observe(F::from_u64((degree - zk) as u64));
    challenger.observe(F::from_u64(width as u64));
    observe_slice(&mut challenger, stark.commitments.trace.as_slice());
    if let Some(key) = preprocessed_vk {
        observe_slice(&mut challenger, key.commitment.as_slice());
    }
    observe_slice(&mut challenger, public_values);
    let _alpha: EF = sample_algebra_element(&mut challenger);
    observe_slice(&mut challenger, stark.commitments.quotient_chunks.as_slice());
    if let Some(commitment) = &stark.commitments.random {
        observe_slice(&mut challenger, commitment.as_slice());
    }
    let zeta: EF = sample_algebra_element(&mut challenger);
    assert((zeta, challenger.state()) == replay.draw::<C>(s));
    let after: EF = next_point(trace_domain, zeta);
    let opened = &stark.opened_values;

    let mut rounds: Vec<CommitmentWithOpenings<F, EF>> = Vec::new();
    assert(generation::round_models(rounds@) =~= Seq::<Round<F, EF>>::empty());
    match (&stark.commitments.random, &opened.random) {
        (Some(commitment), Some(values)) => {
            let claims = single(claim_one(trace_domain, zeta, values));
            push_round(&mut rounds, commitment, claims);
            assert(generation::round_models(rounds@) =~= seq![
                Round {
                    commitment: commitment@,
                    matrices: seq![
                        stark_generation::one_point(replay.trace_domain(), zeta, values@),
                    ],
                },
            ]);
        },
        (None, None) => {},
        _ => {
            return Err(GenerationError::RandomizationError);
        },
    }
    let trace_claim = if air.reads_next_row {
        match &opened.trace_next {
            None => {
                return Err(
                    GenerationError::InvalidProofShape("next-row trace opening is missing"),
                );
            },
            Some(next) => claim_two(trace_domain, zeta, &opened.trace_local, after, next),
        }
    } else {
        claim_one(trace_domain, zeta, &opened.trace_local)
    };
    push_round(&mut rounds, &stark.commitments.trace, single(trace_claim));

    let ghost model = Seq::new(
        replay.chunks(),
        |c: int|
            stark_generation::one_point(
                replay.quotient_domain(c as nat),
                zeta,
                opened.quotient_chunks@[c]@,
            ),
    );
    let mut quotient_claims: Vec<FriInputMatrix<TwoAdicMultiplicativeCoset<F>, EF>> = Vec::new();
    let mut c: usize = 0;
    assert(generation::matrix_models(quotient_claims@) =~= model.take(0));
    while c < chunks
        invariant
            c <= chunks,
            chunks == opened.quotient_chunks@.len(),
            *opened == stark.opened_values,
            replay.stark == *stark,
            replay.zk_bits() == zk,
            zk <= 1,
            chunks == replay.chunks(),
            parts@.len() == chunks,
            whole == domains::disjoint(replay.trace_domain(), log_ceil(replay.quotient_size())),
            log_chunks == log_ceil(replay.chunks()),
            log_chunks <= whole.log_size,
            whole.log_size <= 64,
            forall|j: int|
                0 <= j < parts@.len() ==> #[trigger] parts@[j] == domains::chunk(
                    whole,
                    log_chunks as nat,
                    j as nat,
                ),
            model == Seq::new(
                replay.chunks(),
                |c: int|
                    stark_generation::one_point(
                        replay.quotient_domain(c as nat),
                        zeta,
                        opened.quotient_chunks@[c]@,
                    ),
            ),
            generation::matrix_models(quotient_claims@) == model.take(c as int),
        decreases chunks - c,
    {
        assert(parts@[c as int].log_size == whole.log_size - log_chunks);
        let domain = natural_domain::<F>(parts[c].log_size + zk);
        push_claim(
            &mut quotient_claims,
            claim_one(domain, zeta, &opened.quotient_chunks[c]),
        );
        c += 1;
        assert(generation::matrix_models(quotient_claims@) =~= model.take(c as int));
    }
    assert(model.take(c as int) =~= model);
    push_round(&mut rounds, &stark.commitments.quotient_chunks, quotient_claims);

    if let Some(key) = preprocessed_vk {
        let local = match &opened.preprocessed_local {
            None => {
                return Err(GenerationError::InvalidProofShape("preprocessed opening is missing"));
            },
            Some(local) => local,
        };
        let claim = if air.reads_next_preprocessed_row {
            match &opened.preprocessed_next {
                None => {
                    return Err(
                        GenerationError::InvalidProofShape(
                            "next-row preprocessed opening is missing",
                        ),
                    );
                },
                Some(next) => claim_two(trace_domain, zeta, local, after, next),
            }
        } else {
            claim_one(trace_domain, zeta, local)
        };
        push_round(&mut rounds, &key.commitment, single(claim));
    }
    assert(generation::round_models(rounds@) =~= replay.rounds(zeta));
    let prepared = match pcs.prepare_openings(&rounds, &stark.opening_proof) {
        Err(e) => {
            return Err(e);
        },
        Ok(prepared) => prepared,
    };
    let fri = match pcs.generate_challenges(
        &mut challenger,
        &prepared,
        &stark.opening_proof,
        Some(fri_params),
    ) {
        Err(e) => {
            return Err(e);
        },
        Ok(fri) => fri,
    };
    let input_batches = into_batches(prepared);
    Ok(
        BatchFriWitnessContext {
            input_batches,
            alpha: fri.alpha,
            betas: fri.betas,
            query_indices: fri.query_indices,
        },
    )
}

/// The logarithm of a machine number is below the word size.
proof fn lemma_chunks_fit(n: usize, k: nat)
    requires
        n == pow2(k),
    ensures
        k < usize::BITS,
{
    if k >= usize::BITS {
        lemma2_to64();
        if k > usize::BITS {
            lemma_pow2_strictly_increases(usize::BITS as nat, k);
        }
        assert(pow2(usize::BITS as nat) > usize::MAX);
    }
}

/// A round of one matrix.
fn single<F, EF>(claim: FriInputMatrix<TwoAdicMultiplicativeCoset<F>, EF>) -> (r: Vec<
    FriInputMatrix<TwoAdicMultiplicativeCoset<F>, EF>,
>)
    ensures
        generation::matrix_models(r@) == seq![generation::claims_of(claim)],
{
    let mut r: Vec<FriInputMatrix<TwoAdicMultiplicativeCoset<F>, EF>> = Vec::new();
    r.push(claim);
    assert(generation::matrix_models(r@) =~= seq![generation::claims_of(claim)]);
    r
}

} // verus!
