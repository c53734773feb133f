//! Replay of the FRI part of verifier transcripts.

use vstd::prelude::*;

use crate::challenger;
use crate::challenger::{
    check_witness, observe_algebra_slice, observe_slice, sample_algebra_element,
    sample_bits, Challenger, PrimeField64,
};
use crate::extension::ExtensionField;
use crate::field::Field;
use crate::fri_witness::{FriInputMatrix, FriProof, TwoAdicMultiplicativeCoset};
use crate::seqs;
use crate::seqs::{append_copy, copy_vec};

verus! {

/// Failures while a verifier transcript is replayed.
#[derive(Clone, Debug, PartialEq, Eq)]
pub enum GenerationError {
    /// Missing parameter for challenge generation.
    MissingParameterError,
    /// The FRI batch randomization does not correspond to the ZK setting.
    RandomizationError,
    /// Witness check failed during challenge generation.
    InvalidPowWitness,
    InvalidProofShape(&'static str),
    InstanceMetadataLengthMismatch {
        airs: usize,
        opened_values: usize,
        public_values: usize,
        degree_bits: usize,
    },
    HidingRandomOpeningRoundCountMismatch { expected: usize, got: usize },
    HidingRandomOpeningMatrixCountMismatch { round: usize, expected: usize, got: usize },
    HidingRandomOpeningPointCountMismatch {
        round: usize,
        matrix: usize,
        expected: usize,
        got: usize,
    },
}

/// Verifier-known FRI geometry needed to replay query sampling exactly.
#[derive(Clone, Copy, Debug, PartialEq, Eq)]
pub struct FriGenerationParams {
    /// Domain height after every commit-phase fold.
    pub log_final_height: usize,
    /// Number of commit-phase proof-of-work bits required by the verifier.
    pub commit_pow_bits: usize,
    /// Number of query proof-of-work bits required by the verifier.
    pub query_pow_bits: usize,
    /// Consensus query count. The proof cannot choose this value.
    pub num_queries: usize,
}

/// Typed Fiat-Shamir values needed to reconstruct shared FRI multiproofs. Query indices are sampled
/// by the verifier and never read from the proof.
#[derive(Clone, Debug, PartialEq, Eq)]
pub struct FriTranscriptChallenges<EF> {
    pub alpha: EF,
    pub betas: Vec<EF>,
    pub query_indices: Vec<usize>,
    pub public_values: Vec<EF>,
}

/// All verifier-derived values and verifier-known matrix metadata needed to expand shared FRI
/// multiproofs.
pub struct BatchFriWitnessContext<D, EF> {
    pub input_batches: Vec<Vec<FriInputMatrix<D, EF>>>,
    pub alpha: EF,
    pub betas: Vec<EF>,
    pub query_indices: Vec<usize>,
}

/// A commitment with the openings claimed of its matrices. Of the commitment, the elements that a
/// transcript absorbs are kept.
pub struct CommitmentWithOpenings<F, EF> {
    pub commitment: Vec<F>,
    pub matrices: Vec<FriInputMatrix<TwoAdicMultiplicativeCoset<F>, EF>>,
}

/// The openings claimed of one matrix.
#[verifier::ext_equal]
pub struct Claims<F, EF> {
    pub domain: TwoAdicMultiplicativeCoset<F>,
    pub points: Seq<(EF, Seq<EF>)>,
}

/// The openings claimed of the matrices of one commitment.
#[verifier::ext_equal]
pub struct Round<F, EF> {
    pub commitment: Seq<F>,
    pub matrices: Seq<Claims<F, EF>>,
}

pub open spec fn point_models<EF>(points: Seq<(EF, Vec<EF>)>) -> Seq<(EF, Seq<EF>)> {
    Seq::new(points.len(), |p: int| (points[p].0, points[p].1@))
}

pub open spec fn claims_of<F, EF>(
    m: FriInputMatrix<TwoAdicMultiplicativeCoset<F>, EF>,
) -> Claims<F, EF> {
    Claims { domain: m.domain, points: point_models(m.points_and_values@) }
}

pub open spec fn matrix_models<F, EF>(
    matrices: Seq<FriInputMatrix<TwoAdicMultiplicativeCoset<F>, EF>>,
) -> Seq<Claims<F, EF>> {
    Seq::new(matrices.len(), |m: int| claims_of(matrices[m]))
}

impl<F, EF> View for CommitmentWithOpenings<F, EF> {
    type V = Round<F, EF>;

    open spec fn view(&self) -> Round<F, EF> {
        Round { commitment: self.commitment@, matrices: matrix_models(self.matrices@) }
    }
}

pub open spec fn round_models<F, EF>(rounds: Seq<CommitmentWithOpenings<F, EF>>) -> Seq<
    Round<F, EF>,
> {
    Seq::new(rounds.len(), |r: int| rounds[r]@)
}

/// A proof of work replayed: whether the witness passes, the element sampled after it, and the
/// state after it.
pub open spec fn pow_replayed<F: PrimeField64, C: Challenger<F>>(
    s: C::State,
    bits: nat,
    witness: F,
) -> (bool, Option<F>, C::State) {
    if bits == 0 {
        (true, None, s)
    } else {
        let (v, next) = C::squeezed(C::absorbed(s, witness));
        (v.sp_canonical() % vstd::arithmetic::power2::pow2(bits) == 0, Some(v), next)
    }
}

/// Replays a proof of work and returns the element that was sampled for it, if any bits are
/// required.
pub fn replay_pow_witness<F: PrimeField64, C: Challenger<F>>(
    challenger: &mut C,
    bits: usize,
    witness: F,
) -> (r: Result<Option<F>, GenerationError>)
    requires
        bits > 0 ==> challenger::samplable::<F>(bits as nat),
    ensures
        ({
            let (ok, v, next) = pow_replayed::<F, C>(
                old(challenger).state(),
                bits as nat,
                witness,
            );
            &&& final(challenger).state() == next
            &&& match r {
                Ok(sampled) => ok && sampled == v,
                Err(e) => !ok && e == GenerationError::InvalidPowWitness,
            }
        }),
{
    if bits == 0 {
        return Ok(None);
    }
    let mut copy = challenger.fork();
    copy.observe(witness);
    let sampled: F = copy.sample();
    if !check_witness(challenger, bits, witness) {
        return Err(GenerationError::InvalidPowWitness);
    }
    Ok(Some(sampled))
}

/// The public value of an element sampled for a proof of work.
pub open spec fn pow_value<F: PrimeField64, EF: Field>(v: Option<F>) -> Seq<EF> {
    match v {
        Some(v) => seq![EF::sp_from((v.sp_canonical() as u64 as usize) as nat)],
        None => Seq::empty(),
    }
}

fn push_pow_value<F: PrimeField64, EF: Field>(challenges: &mut Vec<EF>, v: Option<F>)
    ensures
        final(challenges)@ == old(challenges)@ + pow_value::<F, EF>(v),
{
    if let Some(v) = v {
        let word: usize = v.canonical() as usize;
        challenges.push(EF::from_u64(word as u64));
    }
    assert(challenges@ =~= old(challenges)@ + pow_value::<F, EF>(v));
}

/// The number of commit phases that are replayed: each needs a commitment and a witness.
pub open spec fn phase_count<F, EF, P>(fri: FriProof<F, EF, Vec<F>, P>) -> nat {
    if fri.commit_phase_commits@.len() <= fri.commit_pow_witnesses@.len() {
        fri.commit_phase_commits@.len()
    } else {
        fri.commit_pow_witnesses@.len()
    }
}

/// A transcript during the replay of a FRI proof.
#[verifier::ext_equal]
pub struct FriReplayState<EF, S> {
    pub state: S,
    pub public_values: Seq<EF>,
    pub betas: Seq<EF>,
    pub query_indices: Seq<nat>,
    pub failed: bool,
}

/// The state after the openings of the first `n` points are absorbed.
pub open spec fn absorbed_points<F: PrimeField64, EF: ExtensionField<F>, C: Challenger<F>>(
    s: C::State,
    points: Seq<(EF, Seq<EF>)>,
    n: nat,
) -> C::State
    decreases n,
{
    if n == 0 {
        s
    } else {
        challenger::absorbed_elements::<F, EF, C>(
            absorbed_points::<F, EF, C>(s, points, (n - 1) as nat),
            points[n - 1].1,
            points[n - 1].1.len(),
        )
    }
}

/// The state after the openings of the first `n` matrices are absorbed.
pub open spec fn absorbed_matrices<F: PrimeField64, EF: ExtensionField<F>, C: Challenger<F>>(
    s: C::State,
    matrices: Seq<Claims<F, EF>>,
    n: nat,
) -> C::State
    decreases n,
{
    if n == 0 {
        s
    } else {
        absorbed_points::<F, EF, C>(
            absorbed_matrices::<F, EF, C>(s, matrices, (n - 1) as nat),
            matrices[n - 1].points,
            matrices[n - 1].points.len(),
        )
    }
}

/// The state after the openings of the first `n` rounds are absorbed.
pub open spec fn absorbed_rounds<F: PrimeField64, EF: ExtensionField<F>, C: Challenger<F>>(
    s: C::State,
    rounds: Seq<Round<F, EF>>,
    n: nat,
) -> C::State
    decreases n,
{
    if n == 0 {
        s
    } else {
        absorbed_matrices::<F, EF, C>(
            absorbed_rounds::<F, EF, C>(s, rounds, (n - 1) as nat),
            rounds[n - 1].matrices,
            rounds[n - 1].matrices.len(),
        )
    }
}

/// Absorbs all claimed openings, round by round, matrix by matrix and point by point.
fn observe_openings<F: PrimeField64, EF: ExtensionField<F>, C: Challenger<F>>(
    challenger: &mut C,
    rounds: &Vec<CommitmentWithOpenings<F, EF>>,
)
    ensures
        final(challenger).state() == absorbed_rounds::<F, EF, C>(
            old(challenger).state(),
            round_models(rounds@),
            rounds@.len(),
        ),
{
    let ghost start = challenger.state();
    let ghost models = round_models(rounds@);
    let mut r: usize = 0;
    while r < rounds.len()
        invariant
            r <= rounds@.len(),
            models == round_models(rounds@),
            challenger.state() == absorbed_rounds::<F, EF, C>(start, models, r as nat),
        decreases rounds@.len() - r,
    {
        let ghost before_round = challenger.state();
        let ghost matrices = models[r as int].matrices;
        let mut m: usize = 0;
        while m < rounds[r].matrices.len()
            invariant
                r < rounds@.len(),
                m <= rounds@[r as int].matrices@.len(),
                matrices == matrix_models(rounds@[r as int].matrices@),
                challenger.state() == absorbed_matrices::<F, EF, C>(
                    before_round,
                    matrices,
                    m as nat,
                ),
            decreases rounds@[r as int].matrices@.len() - m,
        {
            let ghost before_matrix = challenger.state();
            let points = &rounds[r].matrices[m].points_and_values;
            let ghost point_seq = matrices[m as int].points;
            let mut p: usize = 0;
            while p < points.len()
                invariant
                    p <= points@.len(),
                    point_seq == point_models(points@),
                    challenger.state() == absorbed_points::<F, EF, C>(
                        before_matrix,
                        point_seq,
                        p as nat,
                    ),
                decreases points@.len() - p,
            {
                observe_algebra_slice(challenger, points[p].1.as_slice());
                p += 1;
            }
            m += 1;
        }
        r += 1;
    }
}

/// The replay after the first `n` commit phases: each commitment is absorbed before its challenge is
/// sampled.
pub open spec fn phases_replayed<F: PrimeField64, EF: ExtensionField<F>, C: Challenger<F>, P>(
    start: FriReplayState<EF, C::State>,
    fri: FriProof<F, EF, Vec<F>, P>,
    bits: nat,
    n: nat,
) -> FriReplayState<EF, C::State>
    decreases n,
{
    if n == 0 {
        start
    } else {
        let prev = phases_replayed::<F, EF, C, P>(start, fri, bits, (n - 1) as nat);
        if prev.failed {
            prev
        } else {
            let committed = challenger::absorbed_slice::<F, C>(
                prev.state,
                fri.commit_phase_commits@[n - 1]@,
            );
            let (ok, v, ground) = pow_replayed::<F, C>(
                committed,
                bits,
                fri.commit_pow_witnesses@[n - 1],
            );
            if !ok {
                FriReplayState { state: ground, failed: true, ..prev }
            } else {
                let (beta, next) = challenger::squeezed_element::<F, EF, C>(ground);
                FriReplayState {
                    state: next,
                    public_values: (prev.public_values + pow_value::<F, EF>(v)).push(beta),
                    betas: prev.betas.push(beta),
                    ..prev
                }
            }
        }
    }
}

proof fn lemma_phases_failed<F: PrimeField64, EF: ExtensionField<F>, C: Challenger<F>, P>(
    start: FriReplayState<EF, C::State>,
    fri: FriProof<F, EF, Vec<F>, P>,
    bits: nat,
    k: nat,
    n: nat,
)
    requires
        k <= n,
        phases_replayed::<F, EF, C, P>(start, fri, bits, k).failed,
    ensures
        phases_replayed::<F, EF, C, P>(start, fri, bits, n) == phases_replayed::<F, EF, C, P>(
            start,
            fri,
            bits,
            k,
        ),
    decreases n,
{
    if k < n {
        lemma_phases_failed::<F, EF, C, P>(start, fri, bits, k, (n - 1) as nat);
    }
}

/// The state after the first `n` folding arities are absorbed.
pub open spec fn absorbed_arities<F: PrimeField64, EF, C: Challenger<F>, P>(
    s: C::State,
    fri: FriProof<F, EF, Vec<F>, P>,
    n: nat,
) -> C::State
    decreases n,
{
    if n == 0 {
        s
    } else {
        C::absorbed(
            absorbed_arities::<F, EF, C, P>(s, fri, (n - 1) as nat),
            F::sp_from(fri.commit_phase_openings@[n - 1].log_arity as nat),
        )
    }
}

/// The sum of the first `n` folding arities.
pub open spec fn log_reduction<F, EF, P>(fri: FriProof<F, EF, Vec<F>, P>, n: nat) -> nat
    decreases n,
{
    if n == 0 {
        0
    } else {
        log_reduction(fri, (n - 1) as nat) + fri.commit_phase_openings@[n - 1].log_arity as nat
    }
}

proof fn lemma_log_reduction<F, EF, P>(fri: FriProof<F, EF, Vec<F>, P>, k: nat, n: nat)
    requires
        k <= n,
    ensures
        log_reduction(fri, k) <= log_reduction(fri, n),
    decreases n,
{
    if k < n {
        lemma_log_reduction(fri, k, (n - 1) as nat);
    }
}

/// The number of bits of a query index.
pub open spec fn query_bits<F, EF, P>(
    fri: FriProof<F, EF, Vec<F>, P>,
    params: FriGenerationParams,
) -> nat {
    log_reduction(fri, fri.commit_phase_openings@.len()) + params.log_final_height as nat
}

/// The replay after `n` query indices are sampled.
pub open spec fn queries_replayed<F: PrimeField64, EF: Field, C: Challenger<F>>(
    start: FriReplayState<EF, C::State>,
    bits: nat,
    n: nat,
) -> FriReplayState<EF, C::State>
    decreases n,
{
    if n == 0 {
        start
    } else {
        let prev = queries_replayed::<F, EF, C>(start, bits, (n - 1) as nat);
        let (index, next) = challenger::squeezed_bits::<F, C>(prev.state, bits);
        FriReplayState {
            state: next,
            public_values: prev.public_values.push(EF::sp_from(index)),
            query_indices: prev.query_indices.push(index),
            ..prev
        }
    }
}

/// The replay of a FRI proof.
pub struct FriReplayed<EF, S> {
    pub alpha: EF,
    pub last: FriReplayState<EF, S>,
}

/// The replay of a FRI proof: the openings, the batching challenge, the commit phases, the final
/// polynomial and the arities, the query proof of work, and the queries.
pub open spec fn fri_replayed<F: PrimeField64, EF: ExtensionField<F>, C: Challenger<F>, P>(
    s: C::State,
    rounds: Seq<Round<F, EF>>,
    fri: FriProof<F, EF, Vec<F>, P>,
    params: FriGenerationParams,
) -> FriReplayed<EF, C::State> {
    let opened = absorbed_rounds::<F, EF, C>(s, rounds, rounds.len());
    let (alpha, batched) = challenger::squeezed_element::<F, EF, C>(opened);
    let start = FriReplayState {
        state: batched,
        public_values: seq![alpha],
        betas: Seq::empty(),
        query_indices: Seq::empty(),
        failed: false,
    };
    let folded = phases_replayed::<F, EF, C, P>(
        start,
        fri,
        params.commit_pow_bits as nat,
        phase_count(fri),
    );
    if folded.failed {
        FriReplayed { alpha, last: folded }
    } else {
        let finished = challenger::absorbed_elements::<F, EF, C>(
            folded.state,
            fri.final_poly@,
            fri.final_poly@.len(),
        );
        let bound = absorbed_arities::<F, EF, C, P>(
            finished,
            fri,
            fri.commit_phase_openings@.len(),
        );
        let (ok, v, ground) = pow_replayed::<F, C>(
            bound,
            params.query_pow_bits as nat,
            fri.query_pow_witness,
        );
        let before = FriReplayState {
            state: ground,
            public_values: folded.public_values + (if ok {
                pow_value::<F, EF>(v)
            } else {
                Seq::empty()
            }),
            failed: !ok,
            ..folded
        };
        if !ok {
            FriReplayed { alpha, last: before }
        } else {
            FriReplayed {
                alpha,
                last: queries_replayed::<F, EF, C>(
                    before,
                    query_bits(fri, params),
                    params.num_queries as nat,
                ),
            }
        }
    }
}

/// What the machine and the field ask of the parameters of a replay.
pub open spec fn replayable<F: PrimeField64, EF, P>(
    fri: FriProof<F, EF, Vec<F>, P>,
    params: FriGenerationParams,
) -> bool {
    &&& params.commit_pow_bits > 0 ==> challenger::samplable::<F>(params.commit_pow_bits as nat)
    &&& params.query_pow_bits > 0 ==> challenger::samplable::<F>(params.query_pow_bits as nat)
    &&& query_bits(fri, params) <= usize::MAX
    &&& params.num_queries > 0 ==> challenger::samplable::<F>(query_bits(fri, params))
    &&& challenge_count(fri, params) <= usize::MAX
}

/// The number of public values of a replay.
pub open spec fn challenge_count<F, EF, P>(
    fri: FriProof<F, EF, Vec<F>, P>,
    params: FriGenerationParams,
) -> nat {
    let phases = fri.commit_phase_commits@.len();
    1 + phases + params.num_queries as nat + (if params.commit_pow_bits > 0 {
        phases
    } else {
        0
    }) + (if params.query_pow_bits > 0 {
        1nat
    } else {
        0nat
    })
}

/// The number of challenges that the replay of a FRI proof yields.
pub fn fri_num_challenges<F, EF, P>(
    fri: &FriProof<F, EF, Vec<F>, P>,
    fri_params: Option<FriGenerationParams>,
) -> (r: Result<usize, GenerationError>)
    requires
        fri_params is Some ==> challenge_count(*fri, fri_params->0) <= usize::MAX,
    ensures
        match r {
            Ok(n) => fri_params is Some && n == challenge_count(*fri, fri_params->0),
            Err(e) => fri_params is None && e == GenerationError::MissingParameterError,
        },
{
    match fri_params {
        None => Err(GenerationError::MissingParameterError),
        Some(params) => {
            let phases: usize = fri.commit_phase_commits.len();
            let mut n: usize = 1 + phases + params.num_queries;
            if params.commit_pow_bits > 0 {
                n += phases;
            }
            if params.query_pow_bits > 0 {
                n += 1;
            }
            Ok(n)
        },
    }
}

pub open spec fn nat_indices(indices: Seq<usize>) -> Seq<nat> {
    Seq::new(indices.len(), |i: int| indices[i] as nat)
}

/// The challenges are those of the replay.
pub open spec fn records<EF, S>(
    r: FriTranscriptChallenges<EF>,
    replay: FriReplayed<EF, S>,
) -> bool {
    &&& r.alpha == replay.alpha
    &&& r.betas@ == replay.last.betas
    &&& nat_indices(r.query_indices@) == replay.last.query_indices
    &&& r.public_values@ == replay.last.public_values
}

/// Replays the FRI part of a verifier transcript.
///
/// The openings are absorbed before the batching challenge is sampled, each commitment before its
/// folding challenge, and the folding arities before the query proof of work.
pub fn fri_challenges<F: PrimeField64, EF: ExtensionField<F>, C: Challenger<F>, P>(
    challenger: &mut C,
    rounds: &Vec<CommitmentWithOpenings<F, EF>>,
    fri: &FriProof<F, EF, Vec<F>, P>,
    fri_params: Option<FriGenerationParams>,
) -> (r: Result<FriTranscriptChallenges<EF>, GenerationError>)
    requires
        fri_params is Some ==> replayable(*fri, fri_params->0),
    ensures
        match fri_params {
            None => {
                &&& r == Err::<FriTranscriptChallenges<EF>, GenerationError>(
                    GenerationError::MissingParameterError,
                )
                &&& final(challenger).state() == old(challenger).state()
            },
            Some(params) => {
                let replay = fri_replayed::<F, EF, C, P>(
                    old(challenger).state(),
                    round_models(rounds@),
                    *fri,
                    params,
                );
                &&& final(challenger).state() == replay.last.state
                &&& match r {
                    Ok(challenges) => !replay.last.failed && records(challenges, replay),
                    Err(e) => replay.last.failed && e == GenerationError::InvalidPowWitness,
                }
            },
        },
{
    let params: FriGenerationParams = match fri_params {
        None => {
            return Err(GenerationError::MissingParameterError);
        },
        Some(params) => params,
    };
    let ghost replay = fri_replayed::<F, EF, C, P>(
        challenger.state(),
        round_models(rounds@),
        *fri,
        params,
    );
    let mut challenges: Vec<EF> = Vec::new();
    observe_openings(challenger, rounds);
    let alpha: EF = sample_algebra_element(challenger);
    challenges.push(alpha);
    let mut betas: Vec<EF> = Vec::new();
    let ghost start = FriReplayState {
        state: challenger.state(),
        public_values: seq![alpha],
        betas: Seq::empty(),
        query_indices: Seq::empty(),
        failed: false,
    };
    assert(challenges@ =~= seq![alpha]);
    let mut phases: usize = fri.commit_phase_commits.len();
    if phases > fri.commit_pow_witnesses.len() {
        phases = fri.commit_pow_witnesses.len();
    }
    let ghost bits = params.commit_pow_bits as nat;
    let mut k: usize = 0;
    while k < phases
        invariant
            k <= phases,
            phases == phase_count(*fri),
            bits == params.commit_pow_bits,
            replayable(*fri, params),
            fri_params == Some(params),
            replay == fri_replayed::<F, EF, C, P>(
                old(challenger).state(),
                round_models(rounds@),
                *fri,
                params,
            ),
            !start.failed,
            phases_replayed::<F, EF, C, P>(start, *fri, bits, phases as nat).failed ==> {
                &&& replay.last == phases_replayed::<F, EF, C, P>(
                    start,
                    *fri,
                    bits,
                    phases as nat,
                )
            },
            ({
                let now = phases_replayed::<F, EF, C, P>(start, *fri, bits, k as nat);
                &&& !now.failed
                &&& now.state == challenger.state()
                &&& now.public_values == challenges@
                &&& now.betas == betas@
                &&& now.query_indices == Seq::<nat>::empty()
            }),
        decreases phases - k,
    {
        observe_slice(challenger, fri.commit_phase_commits[k].as_slice());
        let v: Option<F> = match replay_pow_witness(
            challenger,
            params.commit_pow_bits,
            fri.commit_pow_witnesses[k],
        ) {
            Err(e) => {
                proof {
                    lemma_phases_failed::<F, EF, C, P>(
                        start,
                        *fri,
                        bits,
                        (k + 1) as nat,
                        phases as nat,
                    );
                }
                return Err(e);
            },
            Ok(v) => v,
        };
        push_pow_value(&mut challenges, v);
        let beta: EF = sample_algebra_element(challenger);
        challenges.push(beta);
        betas.push(beta);
        k += 1;
    }
    observe_algebra_slice(challenger, fri.final_poly.as_slice());
    let ghost finished = challenger.state();
    let mut total: usize = 0;
    let mut j: usize = 0;
    while j < fri.commit_phase_openings.len()
        invariant
            j <= fri.commit_phase_openings@.len(),
            replayable(*fri, params),
            total == log_reduction(*fri, j as nat),
            challenger.state() == absorbed_arities::<F, EF, C, P>(finished, *fri, j as nat),
        decreases fri.commit_phase_openings@.len() - j,
    {
        let log_arity: usize = fri.commit_phase_openings[j].log_arity as usize;
        challenger.observe(F::from_u64(log_arity as u64));
        proof {
            lemma_log_reduction(*fri, (j + 1) as nat, fri.commit_phase_openings@.len());
        }
        total += log_arity;
        j += 1;
    }
    let v: Option<F> = match replay_pow_witness(
        challenger,
        params.query_pow_bits,
        fri.query_pow_witness,
    ) {
        Err(e) => {
            return Err(e);
        },
        Ok(v) => v,
    };
    push_pow_value(&mut challenges, v);
    let height: usize = total + params.log_final_height;
    let ghost before = FriReplayState {
        state: challenger.state(),
        public_values: challenges@,
        betas: betas@,
        query_indices: Seq::empty(),
        failed: false,
    };
    let mut query_indices: Vec<usize> = Vec::new();
    assert(nat_indices(query_indices@) =~= Seq::<nat>::empty());
    let mut q: usize = 0;
    while q < params.num_queries
        invariant
            q <= params.num_queries,
            height == query_bits(*fri, params),
            params.num_queries > 0 ==> challenger::samplable::<F>(height as nat),
            ({
                let now = queries_replayed::<F, EF, C>(before, height as nat, q as nat);
                &&& !now.failed
                &&& now.state == challenger.state()
                &&& now.public_values == challenges@
                &&& now.betas == betas@
                &&& now.query_indices == nat_indices(query_indices@)
            }),
        decreases params.num_queries - q,
    {
        let ghost earlier = query_indices@;
        let index: usize = sample_bits(challenger, height);
        query_indices.push(index);
        challenges.push(EF::from_u64(index as u64));
        q += 1;
        assert(nat_indices(query_indices@) =~= nat_indices(earlier).push(index as nat));
    }
    Ok(FriTranscriptChallenges { alpha, betas, query_indices, public_values: challenges })
}

// Openings of hiding and of other commitments.

/// Values opened at random codewords: `[round][matrix][point]` is a list of values.
pub type OpenedValues<EF> = Vec<Vec<Vec<Vec<EF>>>>;

pub open spec fn opened_models<EF>(v: Seq<Vec<Vec<Vec<EF>>>>) -> Seq<Seq<Seq<Seq<EF>>>> {
    Seq::new(v.len(), |r: int| seqs::tables(v[r]@))
}

fn copy_points<EF: Copy>(points: &Vec<(EF, Vec<EF>)>) -> (r: Vec<(EF, Vec<EF>)>)
    ensures
        point_models(r@) == point_models(points@),
{
    let mut r: Vec<(EF, Vec<EF>)> = Vec::new();
    let mut p: usize = 0;
    while p < points.len()
        invariant
            p <= points@.len(),
            r@.len() == p,
            forall|i: int| 0 <= i < p ==> (#[trigger] r@[i]).0 == points@[i].0,
            forall|i: int| 0 <= i < p ==> (#[trigger] r@[i]).1@ == points@[i].1@,
        decreases points@.len() - p,
    {
        r.push((points[p].0, copy_vec(&points[p].1)));
        p += 1;
    }
    assert(point_models(r@) =~= point_models(points@));
    r
}

fn copy_rounds<F: Copy, EF: Copy>(rounds: &Vec<CommitmentWithOpenings<F, EF>>) -> (r: Vec<
    CommitmentWithOpenings<F, EF>,
>)
    ensures
        round_models(r@) == round_models(rounds@),
{
    let mut r: Vec<CommitmentWithOpenings<F, EF>> = Vec::new();
    let mut k: usize = 0;
    while k < rounds.len()
        invariant
            k <= rounds@.len(),
            r@.len() == k,
            forall|i: int| 0 <= i < k ==> (#[trigger] r@[i])@ == rounds@[i]@,
        decreases rounds@.len() - k,
    {
        let mut matrices: Vec<FriInputMatrix<TwoAdicMultiplicativeCoset<F>, EF>> = Vec::new();
        let mut m: usize = 0;
        while m < rounds[k].matrices.len()
            invariant
                k < rounds@.len(),
                m <= rounds@[k as int].matrices@.len(),
                matrices@.len() == m,
                forall|i: int|
                    0 <= i < m ==> claims_of(#[trigger] matrices@[i]) == claims_of(
                        rounds@[k as int].matrices@[i],
                    ),
            decreases rounds@[k as int].matrices@.len() - m,
        {
            let matrix = FriInputMatrix {
                domain: rounds[k].matrices[m].domain,
                points_and_values: copy_points(&rounds[k].matrices[m].points_and_values),
            };
            assert(claims_of(matrix) =~= claims_of(rounds@[k as int].matrices@[m as int]));
            matrices.push(matrix);
            m += 1;
        }
        assert(matrix_models(matrices@) =~= matrix_models(rounds@[k as int].matrices@));
        r.push(CommitmentWithOpenings { commitment: copy_vec(&rounds[k].commitment), matrices });
        k += 1;
    }
    assert(round_models(r@) =~= round_models(rounds@));
    r
}

/// Claimed openings with the random ones appended.
pub open spec fn merged_points<EF>(points: Seq<(EF, Seq<EF>)>, random: Seq<Seq<EF>>) -> Seq<
    (EF, Seq<EF>),
> {
    Seq::new(points.len(), |p: int| (points[p].0, points[p].1 + random[p]))
}

pub open spec fn merged_claims<F, EF>(
    claims: Claims<F, EF>,
    random: Seq<Seq<EF>>,
) -> Claims<F, EF> {
    Claims { domain: claims.domain, points: merged_points(claims.points, random) }
}

pub open spec fn merged_round<F, EF>(
    round: Round<F, EF>,
    random: Seq<Seq<Seq<EF>>>,
) -> Round<F, EF> {
    Round {
        commitment: round.commitment,
        matrices: Seq::new(
            round.matrices.len(),
            |m: int| merged_claims(round.matrices[m], random[m]),
        ),
    }
}

pub open spec fn merged_rounds<F, EF>(
    rounds: Seq<Round<F, EF>>,
    random: Seq<Seq<Seq<Seq<EF>>>>,
) -> Seq<Round<F, EF>> {
    Seq::new(rounds.len(), |r: int| merged_round(rounds[r], random[r]))
}

pub open spec fn point_counts_differ<F, EF>(
    matrices: Seq<Claims<F, EF>>,
    random: Seq<Seq<Seq<EF>>>,
) -> spec_fn(int) -> bool {
    |m: int| random[m].len() != matrices[m].points.len()
}

/// What is wrong with the random openings of one round.
pub open spec fn merge_round_failure<F, EF>(
    rounds: Seq<Round<F, EF>>,
    random: Seq<Seq<Seq<Seq<EF>>>>,
    r: int,
) -> Option<GenerationError> {
    let matrices = rounds[r].matrices;
    if random[r].len() != matrices.len() {
        Some(
            GenerationError::HidingRandomOpeningMatrixCountMismatch {
                round: r as usize,
                expected: matrices.len() as usize,
                got: random[r].len() as usize,
            },
        )
    } else {
        match seqs::least(matrices.len(), point_counts_differ(matrices, random[r])) {
            Some(m) => Some(
                GenerationError::HidingRandomOpeningPointCountMismatch {
                    round: r as usize,
                    matrix: m as usize,
                    expected: matrices[m].points.len() as usize,
                    got: random[r][m].len() as usize,
                },
            ),
            None => None,
        }
    }
}

/// The failure of the first of `n` rounds whose random openings do not fit.
pub open spec fn merge_rounds_failure<F, EF>(
    rounds: Seq<Round<F, EF>>,
    random: Seq<Seq<Seq<Seq<EF>>>>,
    n: nat,
) -> Option<GenerationError>
    decreases n,
{
    if n == 0 {
        None
    } else {
        match merge_rounds_failure(rounds, random, (n - 1) as nat) {
            Some(e) => Some(e),
            None => merge_round_failure(rounds, random, n - 1),
        }
    }
}

/// Why random openings cannot be merged, if they cannot.
pub open spec fn merge_failure<F, EF>(
    rounds: Seq<Round<F, EF>>,
    random: Seq<Seq<Seq<Seq<EF>>>>,
) -> Option<GenerationError> {
    if random.len() != rounds.len() {
        Some(
            GenerationError::HidingRandomOpeningRoundCountMismatch {
                expected: rounds.len() as usize,
                got: random.len() as usize,
            },
        )
    } else {
        merge_rounds_failure(rounds, random, rounds.len())
    }
}

proof fn lemma_merge_failure<F, EF>(
    rounds: Seq<Round<F, EF>>,
    random: Seq<Seq<Seq<Seq<EF>>>>,
    k: nat,
    n: nat,
)
    requires
        k <= n,
        merge_rounds_failure(rounds, random, k) is Some,
    ensures
        merge_rounds_failure(rounds, random, n) == merge_rounds_failure(rounds, random, k),
    decreases n,
{
    if k < n {
        lemma_merge_failure(rounds, random, k, (n - 1) as nat);
    }
}

/// Appends the random openings of one matrix to the claimed ones.
fn merge_matrix<F: Copy, EF: Copy>(
    matrix: &FriInputMatrix<TwoAdicMultiplicativeCoset<F>, EF>,
    random: &Vec<Vec<EF>>,
) -> (r: FriInputMatrix<TwoAdicMultiplicativeCoset<F>, EF>)
    requires
        random@.len() == matrix.points_and_values@.len(),
    ensures
        claims_of(r) == merged_claims(claims_of(*matrix), seqs::rows(random@)),
{
    let points = &matrix.points_and_values;
    let mut merged: Vec<(EF, Vec<EF>)> = Vec::new();
    let mut p: usize = 0;
    while p < points.len()
        invariant
            p <= points@.len(),
            random@.len() == points@.len(),
            merged@.len() == p,
            forall|i: int| 0 <= i < p ==> (#[trigger] merged@[i]).0 == points@[i].0,
            forall|i: int|
                0 <= i < p ==> (#[trigger] merged@[i]).1@ == points@[i].1@ + random@[i]@,
        decreases points@.len() - p,
    {
        let mut values: Vec<EF> = copy_vec(&points[p].1);
        append_copy(&mut values, &random[p]);
        merged.push((points[p].0, values));
        p += 1;
    }
    let r = FriInputMatrix { domain: matrix.domain, points_and_values: merged };
    assert(claims_of(r).points =~= merged_claims(claims_of(*matrix), seqs::rows(random@)).points);
    r
}

/// Appends the private random-codeword openings to the claimed ones after validating every round,
/// matrix and point boundary.
pub fn merge_random_openings<F: Copy, EF: Copy>(
    rounds: &Vec<CommitmentWithOpenings<F, EF>>,
    random: &OpenedValues<EF>,
) -> (r: Result<Vec<CommitmentWithOpenings<F, EF>>, GenerationError>)
    ensures
        match r {
            Ok(merged) => {
                &&& merge_failure(round_models(rounds@), opened_models(random@)) is None
                &&& round_models(merged@) == merged_rounds(
                    round_models(rounds@),
                    opened_models(random@),
                )
            },
            Err(e) => merge_failure(round_models(rounds@), opened_models(random@)) == Some(e),
        },
{
    let ghost models = round_models(rounds@);
    let ghost opened = opened_models(random@);
    if random.len() != rounds.len() {
        return Err(
            GenerationError::HidingRandomOpeningRoundCountMismatch {
                expected: rounds.len(),
                got: random.len(),
            },
        );
    }
    let mut merged: Vec<CommitmentWithOpenings<F, EF>> = Vec::new();
    let mut round: usize = 0;
    while round < rounds.len()
        invariant
            round <= rounds@.len(),
            random@.len() == rounds@.len(),
            models == round_models(rounds@),
            opened == opened_models(random@),
            merge_rounds_failure(models, opened, round as nat) is None,
            merged@.len() == round,
            forall|i: int|
                0 <= i < round ==> (#[trigger] merged@[i])@ == merged_round(models[i], opened[i]),
        decreases rounds@.len() - round,
    {
        let matrices = &rounds[round].matrices;
        let randoms = &random[round];
        let ghost claims = models[round as int].matrices;
        let ghost differ = point_counts_differ(claims, opened[round as int]);
        if randoms.len() != matrices.len() {
            proof {
                lemma_merge_failure(models, opened, (round + 1) as nat, models.len());
            }
            return Err(
                GenerationError::HidingRandomOpeningMatrixCountMismatch {
                    round,
                    expected: matrices.len(),
                    got: randoms.len(),
                },
            );
        }
        let mut merged_matrices: Vec<FriInputMatrix<TwoAdicMultiplicativeCoset<F>, EF>> =
            Vec::new();
        let mut m: usize = 0;
        while m < matrices.len()
            invariant
                round < rounds@.len(),
                random@.len() == rounds@.len(),
                models == round_models(rounds@),
                opened == opened_models(random@),
                *matrices == rounds@[round as int].matrices,
                *randoms == random@[round as int],
                randoms@.len() == matrices@.len(),
                claims == models[round as int].matrices,
                differ == point_counts_differ(claims, opened[round as int]),
                merge_rounds_failure(models, opened, round as nat) is None,
                m <= matrices@.len(),
                merged_matrices@.len() == m,
                forall|i: int| 0 <= i < m ==> !#[trigger] differ(i),
                forall|i: int|
                    0 <= i < m ==> claims_of(#[trigger] merged_matrices@[i]) == merged_claims(
                        claims[i],
                        opened[round as int][i],
                    ),
            decreases matrices@.len() - m,
        {
            if randoms[m].len() != matrices[m].points_and_values.len() {
                proof {
                    assert(differ(m as int));
                    seqs::lemma_least_some(claims.len(), differ, m as int);
                    lemma_merge_failure(models, opened, (round + 1) as nat, models.len());
                }
                return Err(
                    GenerationError::HidingRandomOpeningPointCountMismatch {
                        round,
                        matrix: m,
                        expected: matrices[m].points_and_values.len(),
                        got: randoms[m].len(),
                    },
                );
            }
            assert(!differ(m as int));
            merged_matrices.push(merge_matrix(&matrices[m], &randoms[m]));
            m += 1;
        }
        let next = CommitmentWithOpenings {
            commitment: copy_vec(&rounds[round].commitment),
            matrices: merged_matrices,
        };
        proof {
            seqs::lemma_least_none(claims.len(), differ);
            assert(next@.matrices =~= merged_round(
                models[round as int],
                opened[round as int],
            ).matrices);
        }
        merged.push(next);
        round += 1;
    }
    assert(round_models(merged@) =~= merged_rounds(models, opened));
    Ok(merged)
}

/// The claims `full` are those of `public`, each list of values possibly followed by more.
pub open spec fn extends_claims<F, EF>(public: Seq<Claims<F, EF>>, full: Seq<Claims<F, EF>>) -> bool {
    &&& full.len() == public.len()
    &&& forall|m: int|
        0 <= m < public.len() ==> {
            &&& (#[trigger] full[m]).domain == public[m].domain
            &&& full[m].points.len() == public[m].points.len()
        }
    &&& forall|m: int, p: int|
        #![trigger full[m].points[p]]
        0 <= m < public.len() && 0 <= p < public[m].points.len() ==> {
            &&& full[m].points[p].0 == public[m].points[p].0
            &&& public[m].points[p].1.is_prefix_of(full[m].points[p].1)
        }
}

/// The methods that a polynomial commitment scheme needs for the replay of its challenges.
pub trait PcsGeneration<F: PrimeField64, EF: ExtensionField<F>> {
    /// The opening proof of the scheme.
    type OpeningProof;

    /// The Merkle proofs inside the FRI proof.
    type MerkleProof;

    /// Whether the scheme hides what it commits to.
    spec fn sp_zk() -> bool;

    /// The FRI proof inside an opening proof.
    spec fn sp_fri(opening: Self::OpeningProof) -> FriProof<F, EF, Vec<F>, Self::MerkleProof>;

    /// Why openings cannot be prepared, if they cannot.
    spec fn sp_preparation_failure(
        rounds: Seq<Round<F, EF>>,
        opening: Self::OpeningProof,
    ) -> Option<GenerationError>;

    /// The opening claims that the verifier of the scheme observes.
    spec fn sp_prepared(rounds: Seq<Round<F, EF>>, opening: Self::OpeningProof) -> Seq<
        Round<F, EF>,
    >;

    /// Preparation keeps every commitment, domain, point and value, and only appends values.
    proof fn preparation_extends(rounds: Seq<Round<F, EF>>, opening: Self::OpeningProof)
        ensures
            Self::sp_prepared(rounds, opening).len() == rounds.len(),
            forall|r: int|
                0 <= r < rounds.len() ==> {
                    &&& (#[trigger] Self::sp_prepared(rounds, opening)[r]).commitment
                        == rounds[r].commitment
                    &&& extends_claims(
                        rounds[r].matrices,
                        Self::sp_prepared(rounds, opening)[r].matrices,
                    )
                },
    ;

    fn zk() -> (r: bool)
        ensures
            r == Self::sp_zk(),
    ;

    fn fri(opening: &Self::OpeningProof) -> (r: &FriProof<F, EF, Vec<F>, Self::MerkleProof>)
        ensures
            *r == Self::sp_fri(*opening),
    ;

    /// Reconstructs the exact opening claims observed by the verifier of the scheme.
    fn prepare_openings(
        &self,
        rounds: &Vec<CommitmentWithOpenings<F, EF>>,
        opening: &Self::OpeningProof,
    ) -> (r: Result<Vec<CommitmentWithOpenings<F, EF>>, GenerationError>)
        ensures
            match r {
                Ok(prepared) => {
                    &&& Self::sp_preparation_failure(round_models(rounds@), *opening) is None
                    &&& round_models(prepared@) == Self::sp_prepared(
                        round_models(rounds@),
                        *opening,
                    )
                },
                Err(e) => Self::sp_preparation_failure(round_models(rounds@), *opening) == Some(e),
            },
    ;

    fn generate_challenges<C: Challenger<F>>(
        &self,
        challenger: &mut C,
        rounds: &Vec<CommitmentWithOpenings<F, EF>>,
        opening: &Self::OpeningProof,
        fri_params: Option<FriGenerationParams>,
    ) -> (r: Result<FriTranscriptChallenges<EF>, GenerationError>)
        requires
            fri_params is Some ==> replayable(Self::sp_fri(*opening), fri_params->0),
        ensures
            match fri_params {
                None => {
                    &&& r == Err::<FriTranscriptChallenges<EF>, GenerationError>(
                        GenerationError::MissingParameterError,
                    )
                    &&& final(challenger).state() == old(challenger).state()
                },
                Some(params) => {
                    let replay = fri_replayed::<F, EF, C, Self::MerkleProof>(
                        old(challenger).state(),
                        round_models(rounds@),
                        Self::sp_fri(*opening),
                        params,
                    );
                    &&& final(challenger).state() == replay.last.state
                    &&& match r {
                        Ok(challenges) => !replay.last.failed && records(challenges, replay),
                        Err(e) => replay.last.failed && e == GenerationError::InvalidPowWitness,
                    }
                },
            },
    {
        fri_challenges(challenger, rounds, Self::fri(opening), fri_params)
    }

    fn num_challenges(
        opening: &Self::OpeningProof,
        fri_params: Option<FriGenerationParams>,
    ) -> (r: Result<usize, GenerationError>)
        requires
            fri_params is Some ==> challenge_count(Self::sp_fri(*opening), fri_params->0)
                <= usize::MAX,
        ensures
            match r {
                Ok(n) => fri_params is Some && n == challenge_count(
                    Self::sp_fri(*opening),
                    fri_params->0,
                ),
                Err(e) => fri_params is None && e == GenerationError::MissingParameterError,
            },
    {
        fri_num_challenges(Self::fri(opening), fri_params)
    }
}

/// The two-adic FRI commitment scheme with Merkle proofs `P`.
pub struct TwoAdicFriPcs<P> {
    pub merkle: core::marker::PhantomData<P>,
}

impl<F: PrimeField64, EF: ExtensionField<F>, P> PcsGeneration<F, EF> for TwoAdicFriPcs<P> {
    type OpeningProof = FriProof<F, EF, Vec<F>, P>;

    type MerkleProof = P;

    open spec fn sp_zk() -> bool {
        false
    }

    open spec fn sp_fri(opening: FriProof<F, EF, Vec<F>, P>) -> FriProof<F, EF, Vec<F>, P> {
        opening
    }

    open spec fn sp_preparation_failure(
        rounds: Seq<Round<F, EF>>,
        opening: FriProof<F, EF, Vec<F>, P>,
    ) -> Option<GenerationError> {
        None
    }

    /// The public claims, unchanged.
    open spec fn sp_prepared(
        rounds: Seq<Round<F, EF>>,
        opening: FriProof<F, EF, Vec<F>, P>,
    ) -> Seq<Round<F, EF>> {
        rounds
    }

    proof fn preparation_extends(
        rounds: Seq<Round<F, EF>>,
        opening: FriProof<F, EF, Vec<F>, P>,
    ) {
    }

    fn zk() -> (r: bool) {
        false
    }

    fn fri(opening: &FriProof<F, EF, Vec<F>, P>) -> (r: &FriProof<F, EF, Vec<F>, P>) {
        opening
    }

    fn prepare_openings(
        &self,
        rounds: &Vec<CommitmentWithOpenings<F, EF>>,
        opening: &FriProof<F, EF, Vec<F>, P>,
    ) -> (r: Result<Vec<CommitmentWithOpenings<F, EF>>, GenerationError>) {
        Ok(copy_rounds(rounds))
    }
}

/// The opening proof of a hiding scheme: the values opened at random codewords, and the FRI proof.
pub struct HidingOpeningProof<F, EF, P> {
    pub random_openings: OpenedValues<EF>,
    pub fri: FriProof<F, EF, Vec<F>, P>,
}

/// The hiding FRI commitment scheme with Merkle proofs `P`.
pub struct HidingFriPcs<P> {
    pub merkle: core::marker::PhantomData<P>,
}

impl<F: PrimeField64, EF: ExtensionField<F>, P> PcsGeneration<F, EF> for HidingFriPcs<P> {
    type OpeningProof = HidingOpeningProof<F, EF, P>;

    type MerkleProof = P;

    open spec fn sp_zk() -> bool {
        true
    }

    open spec fn sp_fri(opening: HidingOpeningProof<F, EF, P>) -> FriProof<F, EF, Vec<F>, P> {
        opening.fri
    }

    open spec fn sp_preparation_failure(
        rounds: Seq<Round<F, EF>>,
        opening: HidingOpeningProof<F, EF, P>,
    ) -> Option<GenerationError> {
        merge_failure(rounds, opened_models(opening.random_openings@))
    }

    /// The public claims with the random openings appended.
    open spec fn sp_prepared(
        rounds: Seq<Round<F, EF>>,
        opening: HidingOpeningProof<F, EF, P>,
    ) -> Seq<Round<F, EF>> {
        merged_rounds(rounds, opened_models(opening.random_openings@))
    }

    proof fn preparation_extends(
        rounds: Seq<Round<F, EF>>,
        opening: HidingOpeningProof<F, EF, P>,
    ) {
    }

    fn zk() -> (r: bool) {
        true
    }

    fn fri(opening: &HidingOpeningProof<F, EF, P>) -> (r: &FriProof<F, EF, Vec<F>, P>) {
        &opening.fri
    }

    fn prepare_openings(
        &self,
        rounds: &Vec<CommitmentWithOpenings<F, EF>>,
        opening: &HidingOpeningProof<F, EF, P>,
    ) -> (r: Result<Vec<CommitmentWithOpenings<F, EF>>, GenerationError>) {
        merge_random_openings(rounds, &opening.random_openings)
    }
}

proof fn lemma_phase_values<F: PrimeField64, EF: ExtensionField<F>, C: Challenger<F>, P>(
    start: FriReplayState<EF, C::State>,
    fri: FriProof<F, EF, Vec<F>, P>,
    bits: nat,
    n: nat,
)
    requires
        !phases_replayed::<F, EF, C, P>(start, fri, bits, n).failed,
    ensures
        phases_replayed::<F, EF, C, P>(start, fri, bits, n).public_values.len()
            == start.public_values.len() + n + (if bits > 0 {
            n
        } else {
            0
        }),
        phases_replayed::<F, EF, C, P>(start, fri, bits, n).betas.len() == start.betas.len() + n,
        phases_replayed::<F, EF, C, P>(start, fri, bits, n).query_indices == start.query_indices,
    decreases n,
{
    if n > 0 {
        let m = (n - 1) as nat;
        if phases_replayed::<F, EF, C, P>(start, fri, bits, m).failed {
            lemma_phases_failed::<F, EF, C, P>(start, fri, bits, m, n);
        }
        lemma_phase_values::<F, EF, C, P>(start, fri, bits, m);
    }
}

proof fn lemma_query_values<F: PrimeField64, EF: Field, C: Challenger<F>>(
    start: FriReplayState<EF, C::State>,
    bits: nat,
    n: nat,
)
    ensures
        queries_replayed::<F, EF, C>(start, bits, n).public_values.len()
            == start.public_values.len() + n,
        queries_replayed::<F, EF, C>(start, bits, n).query_indices.len()
            == start.query_indices.len() + n,
        queries_replayed::<F, EF, C>(start, bits, n).betas == start.betas,
        queries_replayed::<F, EF, C>(start, bits, n).failed == start.failed,
        forall|i: int|
            start.query_indices.len() <= i < start.query_indices.len() + n
                ==> #[trigger] queries_replayed::<F, EF, C>(start, bits, n).query_indices[i]
                < vstd::arithmetic::power2::pow2(bits),
    decreases n,
{
    if n > 0 {
        lemma_query_values::<F, EF, C>(start, bits, (n - 1) as nat);
        vstd::arithmetic::power2::lemma_pow2_pos(bits);
    }
}

/// A successful replay yields exactly as many public values as announced, one folding challenge per
/// commit phase, and as many query indices as the verifier asks for, each of the announced number
/// of bits. Each commit phase must bring its proof-of-work witness.
pub proof fn law_replay_yields_announced_challenges<
    F: PrimeField64,
    EF: ExtensionField<F>,
    C: Challenger<F>,
    P,
>(
    s: C::State,
    rounds: Seq<Round<F, EF>>,
    fri: FriProof<F, EF, Vec<F>, P>,
    params: FriGenerationParams,
)
    requires
        fri.commit_pow_witnesses@.len() == fri.commit_phase_commits@.len(),
        !fri_replayed::<F, EF, C, P>(s, rounds, fri, params).last.failed,
    ensures
        ({
            let last = fri_replayed::<F, EF, C, P>(s, rounds, fri, params).last;
            &&& last.public_values.len() == challenge_count(fri, params)
            &&& last.betas.len() == fri.commit_phase_commits@.len()
            &&& last.query_indices.len() == params.num_queries
            &&& forall|i: int|
                0 <= i < last.query_indices.len() ==> #[trigger] last.query_indices[i]
                    < vstd::arithmetic::power2::pow2(query_bits(fri, params))
        }),
{
    let opened = absorbed_rounds::<F, EF, C>(s, rounds, rounds.len());
    let (alpha, batched) = challenger::squeezed_element::<F, EF, C>(opened);
    let start = FriReplayState {
        state: batched,
        public_values: seq![alpha],
        betas: Seq::empty(),
        query_indices: Seq::empty(),
        failed: false,
    };
    let bits = params.commit_pow_bits as nat;
    let folded = phases_replayed::<F, EF, C, P>(start, fri, bits, phase_count(fri));
    lemma_phase_values::<F, EF, C, P>(start, fri, bits, phase_count(fri));
    let finished = challenger::absorbed_elements::<F, EF, C>(
        folded.state,
        fri.final_poly@,
        fri.final_poly@.len(),
    );
    let bound = absorbed_arities::<F, EF, C, P>(finished, fri, fri.commit_phase_openings@.len());
    let (ok, v, ground) = pow_replayed::<F, C>(
        bound,
        params.query_pow_bits as nat,
        fri.query_pow_witness,
    );
    let before = FriReplayState {
        state: ground,
        public_values: folded.public_values + (if ok {
            pow_value::<F, EF>(v)
        } else {
            Seq::empty()
        }),
        failed: !ok,
        ..folded
    };
    lemma_query_values::<F, EF, C>(
        before,
        query_bits(fri, params),
        params.num_queries as nat,
    );
}

} // verus!
