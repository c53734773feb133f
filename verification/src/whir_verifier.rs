//! The WHIR verifier inside a circuit.

use vstd::arithmetic::power2::*;
use vstd::prelude::*;

use crate::bits::log2_strict;
use crate::circuit::{CircuitBuilder, CircuitBuilderError};
use crate::config::PermConfig;
use crate::extension::ExtensionField;
use crate::field::Field;
use crate::merkle::Dimensions;
use crate::path_checks::{DeferredPaths, PathCheck, PathVerifier};
use crate::seqs;
use crate::session;
use crate::session::Session;
use crate::transcript;
use crate::transcript::{
    observe_ext_slice, observe_slice, InputChallenger, RecursiveChallenger, TranscriptStep,
};
use crate::types::{ExprId, NonPrimitiveOpId, Target};
use crate::whir_gadgets;
use crate::whir_gadgets::{
    eval_constraints_poly_circuit, eval_multilinear, eval_powers_combination,
    expand_from_univariate, horner_eval, last_challenges, pow_const_base, ConstraintWeightData,
};
use crate::whir_params;
use crate::whir_params::{folded_dimensions, VariableOrder, WhirRoundParams, WhirVerifierParams};
use crate::whir_sumcheck::{verify_sumcheck_rounds, SumcheckTargets};

verus! {

/// The leaf that answers one query.
#[derive(Clone, Debug, PartialEq, Eq)]
pub enum QueryOpeningTargets {
    Base { leaf_values: Vec<Target> },
    Extension { leaf_values: Vec<Target> },
}

impl QueryOpeningTargets {
    pub open spec fn leaf(self) -> Seq<Target> {
        match self {
            QueryOpeningTargets::Base { leaf_values } => leaf_values@,
            QueryOpeningTargets::Extension { leaf_values } => leaf_values@,
        }
    }

    pub fn leaf_values(&self) -> (r: &Vec<Target>)
        ensures
            r@ == self.leaf(),
    {
        match self {
            QueryOpeningTargets::Base { leaf_values } => leaf_values,
            QueryOpeningTargets::Extension { leaf_values } => leaf_values,
        }
    }
}

/// The part of a WHIR proof that belongs to one intermediate round.
#[derive(Clone, Debug, PartialEq, Eq)]
pub struct WhirRoundTargets {
    pub commitment_cap: Vec<Vec<Target>>,
    pub ood_answers: Vec<Target>,
    pub pow_witness: Target,
    pub queries: Vec<QueryOpeningTargets>,
    pub sumcheck: SumcheckTargets,
}

/// A WHIR proof as expressions of a circuit.
#[derive(Clone, Debug, PartialEq, Eq)]
pub struct WhirProofTargets {
    pub initial_sumcheck: SumcheckTargets,
    pub rounds: Vec<WhirRoundTargets>,
    pub final_poly: Vec<Target>,
    pub final_pow_witness: Target,
    pub final_queries: Vec<QueryOpeningTargets>,
    pub final_sumcheck: Option<SumcheckTargets>,
}

/// The value that a leaf folds to at a point.
pub open spec fn fold_at<F: Field>(
    circuit: CircuitBuilder<F>,
    env: spec_fn(int) -> F,
    leaf: Seq<Target>,
    point: Seq<Target>,
) -> F {
    whir_gadgets::multilinear(circuit.values(env, leaf), circuit.values(env, point))
}

/// The domain point with the given index.
pub open spec fn domain_point<F: Field>(
    circuit: CircuitBuilder<F>,
    env: spec_fn(int) -> F,
    generator: F,
    index_bits: Seq<Target>,
) -> F {
    whir_gadgets::power_by_bits(generator, circuit.values(env, index_bits))
}

/// Squeezes the index of a query and folds the leaf that answers it. Returns the bits of the index,
/// the domain point and the folded value.
fn sample_query<F: Field, Ch: RecursiveChallenger<F>>(
    circuit: &mut CircuitBuilder<F>,
    challenger: &mut Ch,
    bits: usize,
    generator: F,
    leaf: &Vec<Target>,
    point: &Vec<Target>,
) -> (r: Result<(Vec<Target>, Target, Target), CircuitBuilderError>)
    requires
        old(circuit).wf(),
        old(circuit).has_all(leaf@),
        old(circuit).has_all(point@),
        leaf@.len() == pow2(point@.len()),
    ensures
        match r {
            Ok((index_bits, at, fold)) => {
                &&& index_bits@.len() == bits
                &&& final(circuit).has_all(index_bits@)
                &&& final(circuit).has(at)
                &&& final(circuit).has(fold)
                &&& transcript::replays(
                    old(challenger).log(),
                    final(challenger).log(),
                    *old(circuit),
                    *final(circuit),
                    seq![TranscriptStep::SampleBits(index_bits@)],
                )
                &&& forall|later: CircuitBuilder<F>, env: spec_fn(int) -> F|
                    final(circuit).grows_to(later) ==> #[trigger] later.value(env, at)
                        == domain_point(later, env, generator, index_bits@)
                &&& forall|later: CircuitBuilder<F>, env: spec_fn(int) -> F|
                    final(circuit).grows_to(later) ==> #[trigger] later.value(env, fold) == fold_at(
                        later,
                        env,
                        leaf@,
                        point@,
                    )
            },
            Err(e) => final(challenger).log().failures == old(challenger).log().failures.push(e),
        },
{
    let ghost ch0 = challenger.log();
    let ghost c0 = *circuit;
    let index_bits: Vec<Target> = match challenger.sample_bits(circuit, bits) {
        Ok(index_bits) => index_bits,
        Err(e) => {
            return Err(e);
        },
    };
    let ghost c1 = *circuit;
    let at: Target = pow_const_base(circuit, generator, index_bits.as_slice());
    let ghost c2 = *circuit;
    proof {
        c0.lemma_grows_on(c1, c2);
        let env: spec_fn(int) -> F = |i: int| F::sp_zero();
        whir_gadgets::lemma_values_kept(c0, c2, env, leaf@);
        whir_gadgets::lemma_values_kept(c0, c2, env, point@);
    }
    let fold: Target = eval_multilinear(circuit, leaf.as_slice(), point.as_slice());
    proof {
        let steps = seq![TranscriptStep::SampleBits(index_bits@)];
        transcript::lemma_replays_computed(ch0, challenger.log(), c0, c1, c2, steps);
        transcript::lemma_replays_computed(ch0, challenger.log(), c0, c2, *circuit, steps);
        let env: spec_fn(int) -> F = |i: int| F::sp_zero();
        c1.lemma_grows_on(c2, *circuit);
        whir_gadgets::lemma_values_kept(c1, *circuit, env, index_bits@);
        assert forall|later: CircuitBuilder<F>, env: spec_fn(int) -> F| circuit.grows_to(
            later,
        ) implies #[trigger] later.value(env, at) == domain_point(
            later,
            env,
            generator,
            index_bits@,
        ) by {
            c2.lemma_grows_on(*circuit, later);
            c1.lemma_grows_on(c2, later);
            assert(later.value(env, at) == c2.value(env, at));
            whir_gadgets::lemma_values_kept(c1, later, env, index_bits@);
        }
        assert forall|later: CircuitBuilder<F>, env: spec_fn(int) -> F| circuit.grows_to(
            later,
        ) implies #[trigger] later.value(env, fold) == fold_at(later, env, leaf@, point@) by {
            c2.lemma_grows_on(*circuit, later);
            assert(later.value(env, fold) == circuit.value(env, fold));
            whir_gadgets::lemma_values_kept(c2, later, env, leaf@);
            whir_gadgets::lemma_values_kept(c2, later, env, point@);
        }
    }
    Ok((index_bits, at, fold))
}

/// The opening that a query hands over: none without a permutation.
pub open spec fn query_check(
    permutation: Option<PermConfig>,
    cap: Seq<Seq<Target>>,
    dimensions: Dimensions,
    index_bits: Seq<Target>,
    opening: QueryOpeningTargets,
) -> Seq<PathCheck> {
    match permutation {
        None => Seq::empty(),
        Some(permutation) => seq![
            PathCheck {
                permutation,
                cap,
                dimensions: seq![dimensions],
                index_bits,
                leaf: opening.leaf(),
                extension: opening is Extension,
            },
        ],
    }
}

/// Hands over the opening of a query.
fn check_path<F: Field, P: PathVerifier<F>>(
    circuit: &mut CircuitBuilder<F>,
    paths: &mut P,
    permutation: Option<PermConfig>,
    cap: &[Vec<Target>],
    dimensions: &Vec<Dimensions>,
    index_bits: &Vec<Target>,
    opening: &QueryOpeningTargets,
    ops: &mut Vec<NonPrimitiveOpId>,
    Ghost(log): Ghost<transcript::TranscriptLog>,
) -> (r: Result<(), CircuitBuilderError>)
    requires
        old(circuit).wf(),
        whir_gadgets::has_rows(*old(circuit), cap@),
        old(circuit).has_all(index_bits@),
        old(circuit).has_all(opening.leaf()),
        dimensions@.len() == 1,
    ensures
        match r {
            Ok(_) => {
                &&& session::proceeds(
                    Session { transcript: log, paths: old(paths).log() },
                    Session { transcript: log, paths: final(paths).log() },
                    *old(circuit),
                    *final(circuit),
                    Seq::empty(),
                    query_check(
                        permutation,
                        seqs::rows(cap@),
                        dimensions@[0],
                        index_bits@,
                        *opening,
                    ),
                    Seq::empty(),
                )
                &&& final(ops)@ == old(ops)@ + transcript::beyond(
                    old(paths).log().issued,
                    final(paths).log().issued,
                )
            },
            Err(e) => final(paths).log().failures == old(paths).log().failures.push(e),
        },
{
    let ghost p0 = paths.log();
    let ghost c0 = *circuit;
    let ghost ops0 = ops@;
    assert(dimensions@ =~= seq![dimensions@[0]]);
    match permutation {
        None => {
            proof {
                c0.lemma_grows_to_itself();
                session::lemma_connect_proceeds(
                    Session { transcript: log, paths: p0 },
                    c0,
                    c0,
                    Seq::empty(),
                );
                session::lemma_beyond_nothing(p0.issued);
                assert(ops0 + transcript::beyond(p0.issued, p0.issued) =~= ops0);
            }
        },
        Some(perm) => {
            let issued: Result<Vec<NonPrimitiveOpId>, CircuitBuilderError> = match opening {
                QueryOpeningTargets::Base { leaf_values } => paths.verify_batch_circuit(
                    circuit,
                    perm,
                    cap,
                    dimensions,
                    index_bits,
                    leaf_values,
                ),
                QueryOpeningTargets::Extension { leaf_values } =>
                    paths.verify_batch_circuit_from_extension_opened(
                    circuit,
                    perm,
                    cap,
                    dimensions,
                    index_bits,
                    leaf_values,
                ),
            };
            match issued {
                Ok(new_ops) => {
                    proof {
                        session::lemma_check_proceeds(
                            log,
                            p0,
                            paths.log(),
                            c0,
                            *circuit,
                            query_check(
                                permutation,
                                seqs::rows(cap@),
                                dimensions@[0],
                                index_bits@,
                                *opening,
                            )[0],
                            new_ops@,
                        );
                    }
                    seqs::append_copy(ops, &new_ops);
                },
                Err(e) => {
                    return Err(e);
                },
            }
        },
    }
    Ok(())
}

/// The absorption of the first `n` digests of a cap.
pub open spec fn cap_steps(cap: Seq<Seq<Target>>, n: nat) -> Seq<TranscriptStep>
    decreases n,
{
    if n == 0 {
        Seq::empty()
    } else {
        cap_steps(cap, (n - 1) as nat) + transcript::observed(cap[n - 1])
    }
}

/// Absorbs a cap.
fn observe_cap<F: Field, Ch: RecursiveChallenger<F>>(
    circuit: &mut CircuitBuilder<F>,
    challenger: &mut Ch,
    cap: &Vec<Vec<Target>>,
)
    requires
        old(circuit).wf(),
        whir_gadgets::has_rows(*old(circuit), cap@),
    ensures
        transcript::replays(
            old(challenger).log(),
            final(challenger).log(),
            *old(circuit),
            *final(circuit),
            cap_steps(seqs::rows(cap@), cap@.len()),
        ),
{
    let ghost ch0 = challenger.log();
    let ghost c0 = *circuit;
    let ghost rows = seqs::rows(cap@);
    proof {
        transcript::lemma_replays_nothing(ch0, c0);
    }
    let mut i: usize = 0;
    while i < cap.len()
        invariant
            i <= cap@.len(),
            rows == seqs::rows(cap@),
            c0.wf(),
            whir_gadgets::has_rows(c0, cap@),
            transcript::replays(ch0, challenger.log(), c0, *circuit, cap_steps(rows, i as nat)),
        decreases cap@.len() - i,
    {
        let ghost ch1 = challenger.log();
        let ghost c1 = *circuit;
        proof {
            assert(c0.has_all(cap@[i as int]@));
            let env: spec_fn(int) -> F = |i: int| F::sp_zero();
            whir_gadgets::lemma_values_kept(c0, c1, env, cap@[i as int]@);
        }
        observe_slice(challenger, circuit, cap[i].as_slice());
        proof {
            transcript::lemma_replays_on(
                ch0,
                ch1,
                challenger.log(),
                c0,
                c1,
                *circuit,
                cap_steps(rows, i as nat),
                transcript::observed(rows[i as int]),
            );
        }
        i += 1;
    }
}

/// The first `n` out-of-domain samples, each followed by the absorption of its answer.
pub open spec fn ood_steps(samples: Seq<Target>, answers: Seq<Target>, n: nat) -> Seq<
    TranscriptStep,
>
    decreases n,
{
    if n == 0 {
        Seq::empty()
    } else {
        ood_steps(samples, answers, (n - 1) as nat) + seq![
            TranscriptStep::SampleExt(samples[n - 1]),
            TranscriptStep::ObserveExt(answers[n - 1]),
        ]
    }
}

proof fn lemma_ood_prefix(earlier: Seq<Target>, now: Seq<Target>, answers: Seq<Target>, n: nat)
    requires
        n <= earlier.len(),
        earlier.is_prefix_of(now),
    ensures
        ood_steps(now, answers, n) == ood_steps(earlier, answers, n),
    decreases n,
{
    if n > 0 {
        lemma_ood_prefix(earlier, now, answers, (n - 1) as nat);
        assert(earlier[n - 1] == now[n - 1]);
    }
}

/// The rows are the multilinear points of the samples.
pub open spec fn points_of<F: Field>(
    circuit: CircuitBuilder<F>,
    points: Seq<Vec<Target>>,
    samples: Seq<Target>,
    num_variables: usize,
) -> bool {
    forall|later: CircuitBuilder<F>, env: spec_fn(int) -> F, j: int|
        circuit.grows_to(later) && 0 <= j < points.len() ==> #[trigger] later.values(
            env,
            points[j]@,
        ) == whir_gadgets::expanded(later.value(env, samples[j]), num_variables as nat)
}

/// Squeezes out-of-domain points, expands them, and absorbs their answers.
fn sample_ood<F: Field, Ch: RecursiveChallenger<F>>(
    circuit: &mut CircuitBuilder<F>,
    challenger: &mut Ch,
    answers: &Vec<Target>,
    count: usize,
    num_variables: usize,
) -> (r: (Vec<Vec<Target>>, Ghost<Seq<Target>>))
    requires
        old(circuit).wf(),
        count <= answers@.len(),
        old(circuit).has_all(answers@),
    ensures
        r.0@.len() == count,
        r.1@.len() == count,
        whir_gadgets::has_rows(*final(circuit), r.0@),
        forall|j: int| 0 <= j < count ==> (#[trigger] r.0@[j])@.len() == num_variables,
        transcript::replays(
            old(challenger).log(),
            final(challenger).log(),
            *old(circuit),
            *final(circuit),
            ood_steps(r.1@, answers@, count as nat),
        ),
        points_of(*final(circuit), r.0@, r.1@, num_variables),
{
    let ghost ch0 = challenger.log();
    let ghost c0 = *circuit;
    let mut points: Vec<Vec<Target>> = Vec::new();
    let ghost mut samples: Seq<Target> = Seq::empty();
    proof {
        transcript::lemma_replays_nothing(ch0, c0);
    }
    let mut i: usize = 0;
    while i < count
        invariant
            i <= count <= answers@.len(),
            c0.wf(),
            c0.has_all(answers@),
            points@.len() == i,
            samples.len() == i,
            whir_gadgets::has_rows(*circuit, points@),
            forall|j: int| 0 <= j < i ==> (#[trigger] points@[j])@.len() == num_variables,
            transcript::replays(
                ch0,
                challenger.log(),
                c0,
                *circuit,
                ood_steps(samples, answers@, i as nat),
            ),
            points_of(*circuit, points@, samples, num_variables),
        decreases count - i,
    {
        let ghost ch1 = challenger.log();
        let ghost c1 = *circuit;
        let ghost earlier = samples;
        let ghost old_points = points@;
        let sample: Target = challenger.sample_ext(circuit);
        let ghost ch2 = challenger.log();
        let ghost c2 = *circuit;
        let point: Vec<Target> = expand_from_univariate(circuit, sample, num_variables);
        let ghost c3 = *circuit;
        proof {
            c0.lemma_grows_on(c1, c2);
            c0.lemma_grows_on(c2, c3);
            assert(c0.has(answers@[i as int]));
        }
        challenger.observe_ext(circuit, answers[i]);
        points.push(point);
        proof {
            samples = earlier.push(sample);
            let s1 = seq![TranscriptStep::SampleExt(sample)];
            let s2 = seq![TranscriptStep::ObserveExt(answers@[i as int])];
            transcript::lemma_replays_computed(ch1, ch2, c1, c2, c3, s1);
            transcript::lemma_replays_on(ch1, ch2, challenger.log(), c1, c3, *circuit, s1, s2);
            lemma_ood_prefix(earlier, samples, answers@, i as nat);
            transcript::lemma_replays_on(
                ch0,
                ch1,
                challenger.log(),
                c0,
                c1,
                *circuit,
                ood_steps(earlier, answers@, i as nat),
                s1 + s2,
            );
            assert(s1 + s2 =~= seq![
                TranscriptStep::SampleExt(sample),
                TranscriptStep::ObserveExt(answers@[i as int]),
            ]);
            let zero: spec_fn(int) -> F = |i: int| F::sp_zero();
            assert(c3.values(zero, point@).len() == num_variables);
            assert forall|j: int| 0 <= j < points@.len() implies circuit.has_all(
                (#[trigger] points@[j])@,
            ) by {
                if j < i {
                    assert(c1.has_all(old_points[j]@));
                    whir_gadgets::lemma_values_kept(c1, *circuit, zero, old_points[j]@);
                } else {
                    whir_gadgets::lemma_values_kept(c3, *circuit, zero, point@);
                }
            }
            assert forall|later: CircuitBuilder<F>, env: spec_fn(int) -> F, j: int|
                circuit.grows_to(later) && 0 <= j < points@.len() implies #[trigger] later.values(
                env,
                points@[j]@,
            ) == whir_gadgets::expanded(later.value(env, samples[j]), num_variables as nat) by {
                c3.lemma_grows_on(*circuit, later);
                c2.lemma_grows_on(c3, later);
                c1.lemma_grows_on(c2, later);
                if j < i {
                    assert(later.values(env, old_points[j]@) == whir_gadgets::expanded(
                        later.value(env, earlier[j]),
                        num_variables as nat,
                    ));
                } else {
                    whir_gadgets::lemma_values_kept(c3, later, env, point@);
                    assert(c3.values(env, point@) == whir_gadgets::expanded(
                        c2.value(env, sample),
                        num_variables as nat,
                    ));
                    assert(later.value(env, sample) == c2.value(env, sample));
                }
            }
        }
        i += 1;
    }
    (points, Ghost(samples))
}

/// The squeezing of query indices.
pub open spec fn index_steps(indices: Seq<Seq<Target>>) -> Seq<TranscriptStep> {
    Seq::new(indices.len(), |q: int| TranscriptStep::SampleBits(indices[q]))
}

/// The openings that the first `n` queries hand over.
pub open spec fn query_checks(
    permutation: Option<PermConfig>,
    cap: Seq<Seq<Target>>,
    dimensions: Dimensions,
    indices: Seq<Seq<Target>>,
    queries: Seq<QueryOpeningTargets>,
    n: nat,
) -> Seq<PathCheck>
    decreases n,
{
    if n == 0 {
        Seq::empty()
    } else {
        query_checks(permutation, cap, dimensions, indices, queries, (n - 1) as nat) + query_check(
            permutation,
            cap,
            dimensions,
            indices[n - 1],
            queries[n - 1],
        )
    }
}

proof fn lemma_checks_prefix(
    permutation: Option<PermConfig>,
    cap: Seq<Seq<Target>>,
    dimensions: Dimensions,
    earlier: Seq<Seq<Target>>,
    now: Seq<Seq<Target>>,
    queries: Seq<QueryOpeningTargets>,
    n: nat,
)
    requires
        n <= earlier.len(),
        earlier.is_prefix_of(now),
    ensures
        query_checks(permutation, cap, dimensions, now, queries, n) == query_checks(
            permutation,
            cap,
            dimensions,
            earlier,
            queries,
            n,
        ),
    decreases n,
{
    if n > 0 {
        lemma_checks_prefix(permutation, cap, dimensions, earlier, now, queries, (n - 1) as nat);
        assert(earlier[n - 1] == now[n - 1]);
    }
}

/// The leaves of the first `n` queries are expressions of the circuit, with one element for each
/// corner of the folding cube.
pub open spec fn queries_within<F: Field>(
    circuit: CircuitBuilder<F>,
    queries: Seq<QueryOpeningTargets>,
    n: nat,
    folded: nat,
) -> bool {
    &&& n <= queries.len()
    &&& forall|q: int|
        0 <= q < n ==> {
            &&& circuit.has_all((#[trigger] queries[q]).leaf())
            &&& queries[q].leaf().len() == pow2(folded)
        }
}

/// The scalars are the domain points of the indices.
pub open spec fn domain_points_of<F: Field>(
    circuit: CircuitBuilder<F>,
    scalars: Seq<Target>,
    generator: F,
    indices: Seq<Seq<Target>>,
) -> bool {
    forall|later: CircuitBuilder<F>, env: spec_fn(int) -> F, q: int|
        circuit.grows_to(later) && 0 <= q < scalars.len() ==> #[trigger] later.value(
            env,
            scalars[q],
        ) == domain_point(later, env, generator, indices[q])
}

/// The expressions are the folded leaves.
pub open spec fn folds_of<F: Field>(
    circuit: CircuitBuilder<F>,
    folds: Seq<Target>,
    queries: Seq<QueryOpeningTargets>,
    point: Seq<Target>,
) -> bool {
    forall|later: CircuitBuilder<F>, env: spec_fn(int) -> F, q: int|
        circuit.grows_to(later) && 0 <= q < folds.len() ==> #[trigger] later.value(env, folds[q])
            == fold_at(later, env, queries[q].leaf(), point)
}

proof fn lemma_has_all_kept<F: Field>(
    circuit: CircuitBuilder<F>,
    later: CircuitBuilder<F>,
    ids: Seq<Target>,
)
    requires
        circuit.grows_to(later),
        circuit.has_all(ids),
    ensures
        later.has_all(ids),
{
    let zero: spec_fn(int) -> F = |i: int| F::sp_zero();
    whir_gadgets::lemma_values_kept(circuit, later, zero, ids);
}

proof fn lemma_has_rows_kept<F: Field>(
    circuit: CircuitBuilder<F>,
    later: CircuitBuilder<F>,
    rows: Seq<Vec<Target>>,
)
    requires
        circuit.grows_to(later),
        whir_gadgets::has_rows(circuit, rows),
    ensures
        whir_gadgets::has_rows(later, rows),
{
    assert forall|i: int| 0 <= i < rows.len() implies later.has_all((#[trigger] rows[i])@) by {
        lemma_has_all_kept(circuit, later, rows[i]@);
    }
}

/// Answers the queries of an intermediate round. Returns the domain points and the folded leaves.
fn run_queries<F: Field, Ch: RecursiveChallenger<F>, P: PathVerifier<F>>(
    circuit: &mut CircuitBuilder<F>,
    challenger: &mut Ch,
    paths: &mut P,
    permutation: Option<PermConfig>,
    cap: &[Vec<Target>],
    dimensions: &Vec<Dimensions>,
    bits: usize,
    generator: F,
    queries: &Vec<QueryOpeningTargets>,
    count: usize,
    point: &Vec<Target>,
    ops: &mut Vec<NonPrimitiveOpId>,
) -> (r: Result<(Vec<Target>, Vec<Target>, Ghost<Seq<Seq<Target>>>), CircuitBuilderError>)
    requires
        old(circuit).wf(),
        whir_gadgets::has_rows(*old(circuit), cap@),
        dimensions@.len() == 1,
        queries_within(*old(circuit), queries@, count as nat, point@.len()),
        old(circuit).has_all(point@),
    ensures
        match r {
            Ok((scalars, folds, indices)) => {
                &&& scalars@.len() == count
                &&& folds@.len() == count
                &&& indices@.len() == count
                &&& forall|q: int| 0 <= q < count ==> (#[trigger] indices@[q]).len() == bits
                &&& final(circuit).has_all(scalars@)
                &&& final(circuit).has_all(folds@)
                &&& session::proceeds(
                    Session { transcript: old(challenger).log(), paths: old(paths).log() },
                    Session { transcript: final(challenger).log(), paths: final(paths).log() },
                    *old(circuit),
                    *final(circuit),
                    index_steps(indices@),
                    query_checks(
                        permutation,
                        seqs::rows(cap@),
                        dimensions@[0],
                        indices@,
                        queries@,
                        count as nat,
                    ),
                    Seq::empty(),
                )
                &&& final(ops)@ == old(ops)@ + transcript::beyond(
                    old(paths).log().issued,
                    final(paths).log().issued,
                )
                &&& domain_points_of(*final(circuit), scalars@, generator, indices@)
                &&& folds_of(*final(circuit), folds@, queries@, point@)
            },
            Err(e) => session::failed(
                Session { transcript: old(challenger).log(), paths: old(paths).log() },
                Session { transcript: final(challenger).log(), paths: final(paths).log() },
                e,
            ),
        },
{
    let ghost s0 = Session { transcript: challenger.log(), paths: paths.log() };
    let ghost c0 = *circuit;
    let ghost ops0 = ops@;
    let ghost rows = seqs::rows(cap@);
    let mut scalars: Vec<Target> = Vec::new();
    let mut folds: Vec<Target> = Vec::new();
    let ghost mut indices: Seq<Seq<Target>> = Seq::empty();
    let mut q: usize = 0;
    proof {
        c0.lemma_grows_to_itself();
        assert(c0.connections@ =~= c0.connections@ + Seq::<(ExprId, ExprId)>::empty());
        session::lemma_connect_proceeds(s0, c0, c0, Seq::empty());
        assert(index_steps(indices) =~= Seq::empty());
        session::lemma_beyond_nothing(s0.paths.issued);
        assert(ops0 =~= ops0 + transcript::beyond(s0.paths.issued, s0.paths.issued));
    }
    while q < count
        invariant
            q <= count,
            s0 == (Session { transcript: old(challenger).log(), paths: old(paths).log() }),
            c0.wf(),
            rows == seqs::rows(cap@),
            whir_gadgets::has_rows(c0, cap@),
            dimensions@.len() == 1,
            queries_within(c0, queries@, count as nat, point@.len()),
            c0.has_all(point@),
            scalars@.len() == q,
            folds@.len() == q,
            indices.len() == q,
            forall|j: int| 0 <= j < q ==> (#[trigger] indices[j]).len() == bits,
            circuit.has_all(scalars@),
            circuit.has_all(folds@),
            session::proceeds(
                s0,
                Session { transcript: challenger.log(), paths: paths.log() },
                c0,
                *circuit,
                index_steps(indices),
                query_checks(permutation, rows, dimensions@[0], indices, queries@, q as nat),
                Seq::empty(),
            ),
            ops@ == ops0 + transcript::beyond(s0.paths.issued, paths.log().issued),
            domain_points_of(*circuit, scalars@, generator, indices),
            folds_of(*circuit, folds@, queries@, point@),
        decreases count - q,
    {
        let ghost s1 = Session { transcript: challenger.log(), paths: paths.log() };
        let ghost c1 = *circuit;
        let ghost earlier = indices;
        let ghost old_scalars = scalars@;
        let ghost old_folds = folds@;
        proof {
            assert(c0.has_all(queries@[q as int].leaf()));
            lemma_has_all_kept(c0, c1, queries@[q as int].leaf());
            lemma_has_all_kept(c0, c1, point@);
        }
        let leaf: &Vec<Target> = queries[q].leaf_values();
        let (index_bits, at, fold) = match sample_query(
            circuit,
            challenger,
            bits,
            generator,
            leaf,
            point,
        ) {
            Ok(answer) => answer,
            Err(e) => {
                return Err(e);
            },
        };
        let ghost s2 = Session { transcript: challenger.log(), paths: paths.log() };
        let ghost c2 = *circuit;
        proof {
            c0.lemma_grows_on(c1, c2);
            lemma_has_rows_kept(c0, c2, cap@);
            lemma_has_all_kept(c0, c2, queries@[q as int].leaf());
        }
        match check_path(
            circuit,
            paths,
            permutation,
            cap,
            dimensions,
            &index_bits,
            &queries[q],
            ops,
            Ghost(challenger.log()),
        ) {
            Ok(_) => {},
            Err(e) => {
                return Err(e);
            },
        }
        scalars.push(at);
        folds.push(fold);
        proof {
            indices = earlier.push(index_bits@);
            let s3 = Session { transcript: challenger.log(), paths: paths.log() };
            let sample = seq![TranscriptStep::SampleBits(index_bits@)];
            let check = query_check(
                permutation,
                rows,
                dimensions@[0],
                index_bits@,
                queries@[q as int],
            );
            let none = Seq::<(ExprId, ExprId)>::empty();
            session::lemma_replay_proceeds(
                s1.transcript,
                s2.transcript,
                s1.paths,
                c1,
                c2,
                sample,
            );
            session::lemma_proceeds_on(
                s1,
                s2,
                s3,
                c1,
                c2,
                *circuit,
                (sample, Seq::empty(), none),
                (Seq::empty(), check, none),
            );
            assert(sample + Seq::<TranscriptStep>::empty() =~= sample);
            assert(Seq::<PathCheck>::empty() + check =~= check);
            assert(none + none =~= none);
            lemma_checks_prefix(
                permutation,
                rows,
                dimensions@[0],
                earlier,
                indices,
                queries@,
                q as nat,
            );
            session::lemma_proceeds_on(
                s0,
                s1,
                s3,
                c0,
                c1,
                *circuit,
                (
                    index_steps(earlier),
                    query_checks(permutation, rows, dimensions@[0], earlier, queries@, q as nat),
                    none,
                ),
                (sample, check, none),
            );
            assert(index_steps(indices) =~= index_steps(earlier) + sample);
            session::lemma_beyond_on(s0.paths.issued, s1.paths.issued, s3.paths.issued);
            assert(ops@ =~= ops0 + transcript::beyond(s0.paths.issued, s3.paths.issued));
            c1.lemma_grows_on(c2, *circuit);
            assert forall|j: int| 0 <= j < scalars@.len() implies circuit.has(
                #[trigger] scalars@[j],
            ) by {
                if j < q {
                    assert(c1.has(old_scalars[j]));
                }
            }
            assert forall|j: int| 0 <= j < folds@.len() implies circuit.has(
                #[trigger] folds@[j],
            ) by {
                if j < q {
                    assert(c1.has(old_folds[j]));
                }
            }
            assert forall|later: CircuitBuilder<F>, env: spec_fn(int) -> F, j: int|
                circuit.grows_to(later) && 0 <= j < scalars@.len() implies #[trigger] later.value(
                env,
                scalars@[j],
            ) == domain_point(later, env, generator, indices[j]) by {
                c1.lemma_grows_on(*circuit, later);
                c2.lemma_grows_on(*circuit, later);
                if j < q {
                    assert(later.value(env, old_scalars[j]) == domain_point(
                        later,
                        env,
                        generator,
                        earlier[j],
                    ));
                }
            }
            assert forall|later: CircuitBuilder<F>, env: spec_fn(int) -> F, j: int|
                circuit.grows_to(later) && 0 <= j < folds@.len() implies #[trigger] later.value(
                env,
                folds@[j],
            ) == fold_at(later, env, queries@[j].leaf(), point@) by {
                c1.lemma_grows_on(*circuit, later);
                c2.lemma_grows_on(*circuit, later);
                if j < q {
                    assert(later.value(env, old_folds[j]) == fold_at(
                        later,
                        env,
                        queries@[j].leaf(),
                        point@,
                    ));
                }
            }
        }
        q += 1;
    }
    Ok((scalars, folds, Ghost(indices)))
}

/// The challenges of one intermediate round.
#[verifier::ext_equal]
pub struct RoundRun {
    /// The univariate out-of-domain points.
    pub univariate: Seq<Target>,
    pub checkpoint: Target,
    /// The bits of each query index.
    pub indices: Seq<Seq<Target>>,
    pub gamma: Target,
    /// The folding challenges of the sumcheck.
    pub folding: Seq<Target>,
}

/// The steps of an intermediate round.
pub open spec fn round_steps<BF>(
    params: WhirRoundParams<BF>,
    round: WhirRoundTargets,
    run: RoundRun,
) -> Seq<TranscriptStep> {
    cap_steps(seqs::rows(round.commitment_cap@), round.commitment_cap@.len()) + ood_steps(
        run.univariate,
        round.ood_answers@,
        params.ood_samples as nat,
    ) + pow_steps(params.pow_bits, round.pow_witness) + seq![
        TranscriptStep::Sample(run.checkpoint),
    ] + index_steps(run.indices) + seq![TranscriptStep::SampleExt(run.gamma)] + round.sumcheck.steps(
        params.folding_pow_bits,
        run.folding,
        run.folding.len(),
    )
}

/// The check of a proof-of-work witness, if there is work to prove.
pub open spec fn pow_steps(bits: usize, witness: Target) -> Seq<TranscriptStep> {
    if bits > 0 {
        seq![TranscriptStep::CheckPow(bits, witness)]
    } else {
        Seq::empty()
    }
}

/// The proof parts of a round are expressions of the circuit, and their lengths fit the parameters.
pub open spec fn round_within<BF, F: Field>(
    circuit: CircuitBuilder<F>,
    params: WhirRoundParams<BF>,
    round: WhirRoundTargets,
    folded: nat,
) -> bool {
    &&& whir_gadgets::has_rows(circuit, round.commitment_cap@)
    &&& params.ood_samples <= round.ood_answers@.len()
    &&& circuit.has_all(round.ood_answers@)
    &&& params.pow_bits > 0 ==> circuit.has(round.pow_witness)
    &&& params.folding_factor < usize::BITS
    &&& is_pow2(
        whir_params::folded_shape(params.domain_size, params.folding_factor).height as int,
    )
    &&& queries_within(circuit, round.queries@, params.num_queries as nat, folded)
    &&& round.sumcheck.within(circuit, params.folding_pow_bits)
}

/// What a round adds to the claim: the out-of-domain answers and the folded leaves, combined with
/// powers of the batching challenge.
pub open spec fn round_sum<BF, F: Field>(
    circuit: CircuitBuilder<F>,
    env: spec_fn(int) -> F,
    params: WhirRoundParams<BF>,
    round: WhirRoundTargets,
    run: RoundRun,
    point: Seq<Target>,
) -> F {
    whir_gadgets::horner(
        circuit.values(env, round.ood_answers@) + Seq::new(
            params.num_queries as nat,
            |q: int| fold_at(circuit, env, round.queries@[q].leaf(), point),
        ),
        circuit.value(env, run.gamma),
    )
}

/// The claim that a round leaves.
pub open spec fn round_result<BF, F: Field>(
    circuit: CircuitBuilder<F>,
    env: spec_fn(int) -> F,
    params: WhirRoundParams<BF>,
    round: WhirRoundTargets,
    run: RoundRun,
    point: Seq<Target>,
    claim: F,
) -> F {
    round.sumcheck.claim(
        circuit,
        env,
        claim.sp_add(round_sum(circuit, env, params, round, run, point)),
        run.folding,
        run.folding.len(),
    )
}

/// The challenges of a round have the lengths that the parameters ask for.
pub open spec fn round_run_fits<BF>(
    params: WhirRoundParams<BF>,
    round: WhirRoundTargets,
    run: RoundRun,
) -> bool {
    &&& run.univariate.len() == params.ood_samples
    &&& run.indices.len() == params.num_queries
    &&& forall|q: int|
        0 <= q < run.indices.len() ==> pow2((#[trigger] run.indices[q]).len())
            == whir_params::folded_shape(params.domain_size, params.folding_factor).height
    &&& run.folding.len() == round.sumcheck.round_polys@.len()
}

/// The constraint that a round leaves is made of its challenges.
pub open spec fn constraint_of<BF, F: ExtensionField<BF>>(
    circuit: CircuitBuilder<F>,
    params: WhirRoundParams<BF>,
    run: RoundRun,
    constraint: ConstraintWeightData,
) -> bool where BF: Field {
    &&& constraint.within(circuit)
    &&& constraint.num_variables == params.num_variables
    &&& constraint.gamma == run.gamma
    &&& constraint.eq_points@.len() == params.ood_samples
    &&& forall|j: int|
        0 <= j < constraint.eq_points@.len() ==> (#[trigger] constraint.eq_points@[j])@.len()
            == params.num_variables
    &&& points_of(circuit, constraint.eq_points@, run.univariate, params.num_variables)
    &&& constraint.sel_scalars@.len() == params.num_queries
    &&& domain_points_of(
        circuit,
        constraint.sel_scalars@,
        F::sp_from_base(params.folded_domain_gen),
        run.indices,
    )
}

/// Replays an intermediate round. Returns the claim that it leaves, its constraint and its folding
/// challenges.
#[verifier::rlimit(40)]
fn verify_round<BF: Field, F: ExtensionField<BF>, Ch: RecursiveChallenger<F>, P: PathVerifier<F>>(
    circuit: &mut CircuitBuilder<F>,
    challenger: &mut Ch,
    paths: &mut P,
    permutation: Option<PermConfig>,
    params: &WhirRoundParams<BF>,
    round: &WhirRoundTargets,
    cap: &[Vec<Target>],
    point: &Vec<Target>,
    claim: Target,
    ops: &mut Vec<NonPrimitiveOpId>,
) -> (r: Result<
    (Target, ConstraintWeightData, Vec<Target>, Ghost<RoundRun>),
    CircuitBuilderError,
>)
    requires
        old(circuit).wf(),
        round_within(*old(circuit), *params, *round, point@.len()),
        whir_gadgets::has_rows(*old(circuit), cap@),
        old(circuit).has_all(point@),
        old(circuit).has(claim),
    ensures
        match r {
            Ok((next, constraint, folding, run)) => {
                &&& round_run_fits(*params, *round, run@)
                &&& run@.folding == folding@
                &&& final(circuit).has(next)
                &&& final(circuit).has_all(folding@)
                &&& session::proceeds(
                    Session { transcript: old(challenger).log(), paths: old(paths).log() },
                    Session { transcript: final(challenger).log(), paths: final(paths).log() },
                    *old(circuit),
                    *final(circuit),
                    round_steps(*params, *round, run@),
                    query_checks(
                        permutation,
                        seqs::rows(cap@),
                        whir_params::folded_shape(params.domain_size, params.folding_factor),
                        run@.indices,
                        round.queries@,
                        params.num_queries as nat,
                    ),
                    Seq::empty(),
                )
                &&& final(ops)@ == old(ops)@ + transcript::beyond(
                    old(paths).log().issued,
                    final(paths).log().issued,
                )
                &&& constraint_of(*final(circuit), *params, run@, constraint)
                &&& forall|later: CircuitBuilder<F>, env: spec_fn(int) -> F|
                    final(circuit).grows_to(later) ==> #[trigger] later.value(env, next)
                        == round_result(
                        later,
                        env,
                        *params,
                        *round,
                        run@,
                        point@,
                        later.value(env, claim),
                    )
            },
            Err(e) => session::failed(
                Session { transcript: old(challenger).log(), paths: old(paths).log() },
                Session { transcript: final(challenger).log(), paths: final(paths).log() },
                e,
            ),
        },
{
    let ghost c0 = *circuit;
    let ghost t0 = challenger.log();
    let ghost p0 = paths.log();
    observe_cap(circuit, challenger, &round.commitment_cap);
    let ghost c1 = *circuit;
    let ghost t1 = challenger.log();
    proof {
        lemma_has_all_kept(c0, c1, round.ood_answers@);
    }
    let (eq_points, univariate) = sample_ood(
        circuit,
        challenger,
        &round.ood_answers,
        params.ood_samples,
        params.num_variables,
    );
    let ghost c2 = *circuit;
    let ghost t2 = challenger.log();
    let ghost cap_part = cap_steps(
        seqs::rows(round.commitment_cap@),
        round.commitment_cap@.len(),
    );
    let ghost ood_part = ood_steps(univariate@, round.ood_answers@, params.ood_samples as nat);
    let ghost pow_part = pow_steps(params.pow_bits, round.pow_witness);
    proof {
        transcript::lemma_replays_on(t0, t1, t2, c0, c1, c2, cap_part, ood_part);
    }
    if params.pow_bits > 0 {
        match challenger.check_pow_witness(circuit, params.pow_bits, round.pow_witness) {
            Ok(_) => {},
            Err(e) => {
                return Err(e);
            },
        }
    } else {
        proof {
            transcript::lemma_replays_nothing(t2, c2);
        }
    }
    let ghost c3 = *circuit;
    let ghost t3 = challenger.log();
    assert(transcript::replays(t2, t3, c2, c3, pow_part));
    let checkpoint: Target = challenger.sample(circuit);
    let ghost c4 = *circuit;
    let ghost t4 = challenger.log();
    let ghost to_checkpoint = cap_part + ood_part + pow_part + seq![
        TranscriptStep::Sample(checkpoint),
    ];
    proof {
        transcript::lemma_replays_on(t0, t2, t3, c0, c2, c3, cap_part + ood_part, pow_part);
        transcript::lemma_replays_on(
            t0,
            t3,
            t4,
            c0,
            c3,
            c4,
            cap_part + ood_part + pow_part,
            seq![TranscriptStep::Sample(checkpoint)],
        );
        lemma_has_rows_kept(c0, c4, cap@);
        lemma_has_all_kept(c0, c4, point@);
        assert forall|q: int| 0 <= q < params.num_queries implies {
            &&& c4.has_all((#[trigger] round.queries@[q]).leaf())
            &&& round.queries@[q].leaf().len() == pow2(point@.len())
        } by {
            lemma_has_all_kept(c0, c4, round.queries@[q].leaf());
        }
        session::lemma_replay_proceeds(t0, t4, p0, c0, c4, to_checkpoint);
    }
    let shape: Dimensions = folded_dimensions(params.domain_size, params.folding_factor);
    let index_width: usize = log2_strict(shape.height);
    let mut dimensions: Vec<Dimensions> = Vec::new();
    dimensions.push(shape);
    let generator: F = F::from_base(params.folded_domain_gen);
    let (sel_scalars, folds, indices) = match run_queries(
        circuit,
        challenger,
        paths,
        permutation,
        cap,
        &dimensions,
        index_width,
        generator,
        &round.queries,
        params.num_queries,
        point,
        ops,
    ) {
        Ok(answers) => answers,
        Err(e) => {
            return Err(e);
        },
    };
    let ghost c5 = *circuit;
    let ghost t5 = challenger.log();
    let ghost p5 = paths.log();
    let gamma: Target = challenger.sample_ext(circuit);
    let ghost c6 = *circuit;
    let ghost t6 = challenger.log();
    let mut combined: Vec<Target> = seqs::copy_vec(&round.ood_answers);
    seqs::append_copy(&mut combined, &folds);
    proof {
        c0.lemma_grows_on(c4, c5);
        c0.lemma_grows_on(c5, c6);
        lemma_has_all_kept(c0, c6, round.ood_answers@);
        lemma_has_all_kept(c5, c6, folds@);
        assert forall|j: int| 0 <= j < combined@.len() implies c6.has(#[trigger] combined@[j]) by {
            if j < round.ood_answers@.len() {
                assert(c6.has(round.ood_answers@[j]));
            } else {
                assert(c6.has(folds@[j - round.ood_answers@.len()]));
            }
        }
    }
    let sum: Target = eval_powers_combination(circuit, combined.as_slice(), gamma);
    let ghost c7 = *circuit;
    proof {
        c0.lemma_grows_on(c6, c7);
    }
    let raised: Target = circuit.add(claim, sum);
    let ghost c8 = *circuit;
    proof {
        c0.lemma_grows_on(c7, c8);
        lemma_sumcheck_kept(c0, c8, round.sumcheck, params.folding_pow_bits);
    }
    let (next, folding) = match verify_sumcheck_rounds(
        circuit,
        challenger,
        raised,
        &round.sumcheck,
        params.folding_pow_bits,
    ) {
        Ok(result) => result,
        Err(e) => {
            return Err(e);
        },
    };
    let ghost c9 = *circuit;
    let ghost t9 = challenger.log();
    let ghost run = RoundRun {
        univariate: univariate@,
        checkpoint,
        indices: indices@,
        gamma,
        folding: folding@,
    };
    let constraint = ConstraintWeightData {
        num_variables: params.num_variables,
        eq_points,
        sel_scalars,
        gamma,
    };
    proof {
        let none = Seq::<(ExprId, ExprId)>::empty();
        let checks = query_checks(
            permutation,
            seqs::rows(cap@),
            shape,
            indices@,
            round.queries@,
            params.num_queries as nat,
        );
        let s0 = Session { transcript: t0, paths: p0 };
        let s4 = Session { transcript: t4, paths: p0 };
        let s5 = Session { transcript: t5, paths: p5 };
        let s6 = Session { transcript: t6, paths: p5 };
        let s9 = Session { transcript: t9, paths: p5 };
        let gamma_part = seq![TranscriptStep::SampleExt(gamma)];
        let sum_part = round.sumcheck.steps(params.folding_pow_bits, folding@, folding@.len());
        session::lemma_proceeds_on(
            s0,
            s4,
            s5,
            c0,
            c4,
            c5,
            (to_checkpoint, Seq::empty(), none),
            (index_steps(indices@), checks, none),
        );
        assert(Seq::<PathCheck>::empty() + checks =~= checks);
        assert(none + none =~= none);
        session::lemma_replay_proceeds(t5, t6, p5, c5, c6, gamma_part);
        session::lemma_proceeds_on(
            s0,
            s5,
            s6,
            c0,
            c5,
            c6,
            (to_checkpoint + index_steps(indices@), checks, none),
            (gamma_part, Seq::empty(), none),
        );
        assert(checks + Seq::<PathCheck>::empty() =~= checks);
        let to_gamma = to_checkpoint + index_steps(indices@) + gamma_part;
        session::lemma_proceeds_computed(s0, s6, c0, c6, c7, to_gamma, checks, none);
        session::lemma_proceeds_computed(s0, s6, c0, c7, c8, to_gamma, checks, none);
        session::lemma_replay_proceeds(t6, t9, p5, c8, c9, sum_part);
        session::lemma_proceeds_on(
            s0,
            s6,
            s9,
            c0,
            c8,
            c9,
            (to_gamma, checks, none),
            (sum_part, Seq::empty(), none),
        );
        assert(round_steps(*params, *round, run) == to_gamma + sum_part);
        c8.lemma_grows_to_itself();
        c7.lemma_grows_on(c8, c9);
        c6.lemma_grows_on(c7, c9);
        c5.lemma_grows_on(c6, c9);
        c4.lemma_grows_on(c5, c9);
        c3.lemma_grows_on(c4, c9);
        c2.lemma_grows_on(c3, c9);
        lemma_has_rows_kept(c2, c9, eq_points@);
        lemma_has_all_kept(c5, c9, sel_scalars@);
        assert(constraint_of(c9, *params, run, constraint)) by {
            assert forall|later: CircuitBuilder<F>, env: spec_fn(int) -> F, j: int|
                c9.grows_to(later) && 0 <= j < eq_points@.len() implies #[trigger] later.values(
                env,
                eq_points@[j]@,
            ) == whir_gadgets::expanded(
                later.value(env, univariate@[j]),
                params.num_variables as nat,
            ) by {
                c2.lemma_grows_on(c9, later);
            }
            assert forall|later: CircuitBuilder<F>, env: spec_fn(int) -> F, q: int|
                c9.grows_to(later) && 0 <= q < sel_scalars@.len() implies #[trigger] later.value(
                env,
                sel_scalars@[q],
            ) == domain_point(later, env, generator, indices@[q]) by {
                c5.lemma_grows_on(c9, later);
            }
        }
        assert forall|later: CircuitBuilder<F>, env: spec_fn(int) -> F| c9.grows_to(
            later,
        ) implies #[trigger] later.value(env, next) == round_result(
            later,
            env,
            *params,
            *round,
            run,
            point@,
            later.value(env, claim),
        ) by {
            c8.lemma_grows_on(c9, later);
            c7.lemma_grows_on(c9, later);
            c6.lemma_grows_on(c9, later);
            c5.lemma_grows_on(c9, later);
            c0.lemma_grows_on(c6, later);
            assert(later.value(env, raised) == c8.value(env, raised));
            assert(later.value(env, claim) == c0.value(env, claim));
            assert(c7.value(env, claim) == c0.value(env, claim));
            assert(later.value(env, sum) == c7.value(env, sum));
            assert(later.value(env, gamma) == c6.value(env, gamma));
            whir_gadgets::lemma_values_kept(c6, later, env, combined@);
            assert(later.values(env, combined@) =~= later.values(env, round.ood_answers@)
                + Seq::new(
                params.num_queries as nat,
                |q: int| fold_at(later, env, round.queries@[q].leaf(), point@),
            )) by {
                assert forall|q: int| 0 <= q < folds@.len() implies later.value(
                    env,
                    #[trigger] folds@[q],
                ) == fold_at(later, env, round.queries@[q].leaf(), point@) by {}
            }
            assert(later.value(env, sum) == round_sum(later, env, *params, *round, run, point@));
        }
    }
    Ok((next, constraint, folding, Ghost(run)))
}

proof fn lemma_sumcheck_kept<F: Field>(
    circuit: CircuitBuilder<F>,
    later: CircuitBuilder<F>,
    data: SumcheckTargets,
    pow_bits: usize,
)
    requires
        circuit.grows_to(later),
        data.within(circuit, pow_bits),
    ensures
        data.within(later, pow_bits),
{
    assert forall|i: int| 0 <= i < data.round_polys@.len() implies {
        &&& later.has((#[trigger] data.round_polys@[i])[0])
        &&& later.has(data.round_polys@[i][1])
    } by {
        assert(circuit.has(data.round_polys@[i][0]));
    }
    if pow_bits > 0 {
        lemma_has_all_kept(circuit, later, data.pow_witnesses@);
    }
}

/// The challenges of a whole run.
#[verifier::ext_equal]
pub struct WhirRun {
    /// The folding challenges of the initial sumcheck.
    pub initial: Seq<Target>,
    pub rounds: Seq<RoundRun>,
    /// The bits of each final query index.
    pub final_indices: Seq<Seq<Target>>,
    /// The challenges of the final sumcheck.
    pub last: Seq<Target>,
}

impl WhirRun {
    /// The folding challenges that come just before round `n`.
    pub open spec fn folding_before(self, n: nat) -> Seq<Target> {
        if n == 0 {
            self.initial
        } else {
            self.rounds[n - 1].folding
        }
    }

    /// All folding challenges up to the end of round `n`.
    pub open spec fn challenges(self, n: nat) -> Seq<Target>
        decreases n,
    {
        if n == 0 {
            self.initial
        } else {
            self.challenges((n - 1) as nat) + self.rounds[n - 1].folding
        }
    }
}

/// A list in folding order: reversed if suffix variables are bound first.
pub open spec fn ordered_point<T>(challenges: Seq<T>, is_suffix: bool) -> Seq<T> {
    whir_gadgets::local_point(challenges, challenges.len(), is_suffix)
}

impl WhirProofTargets {
    /// The number of folding challenges that come just before round `n`.
    pub open spec fn folded_before(self, n: nat) -> nat {
        if n == 0 {
            self.initial_sumcheck.round_polys@.len()
        } else {
            self.rounds@[n - 1].sumcheck.round_polys@.len()
        }
    }

    /// The number of folding challenges up to the end of round `n`.
    pub open spec fn folded_in_all(self, n: nat) -> nat
        decreases n,
    {
        if n == 0 {
            self.initial_sumcheck.round_polys@.len()
        } else {
            self.folded_in_all((n - 1) as nat) + self.rounds@[n - 1].sumcheck.round_polys@.len()
        }
    }

    /// The cap that the queries of round `n` open.
    pub open spec fn cap_before(self, initial: Seq<Seq<Target>>, n: nat) -> Seq<Seq<Target>> {
        if n == 0 {
            initial
        } else {
            seqs::rows(self.rounds@[n - 1].commitment_cap@)
        }
    }

    /// Whether there is a final sumcheck.
    pub open spec fn ends_in_sumcheck<BF>(self, params: WhirVerifierParams<BF>) -> bool {
        params.final_sumcheck_rounds > 0 && self.final_sumcheck is Some
    }

    /// The number of coordinates of the point at which the final polynomial is evaluated.
    pub open spec fn folded_at_end<BF>(self, params: WhirVerifierParams<BF>) -> nat {
        if self.ends_in_sumcheck(params) {
            self.final_sumcheck->0.round_polys@.len()
        } else {
            self.folded_before(params.round_params@.len())
        }
    }

    /// The number of all folding challenges.
    pub open spec fn challenge_count<BF>(self, params: WhirVerifierParams<BF>) -> nat {
        self.folded_in_all(params.round_params@.len()) + if self.ends_in_sumcheck(params) {
            self.final_sumcheck->0.round_polys@.len()
        } else {
            0
        }
    }

    /// All parts of the proof are expressions of the circuit, and their lengths fit the parameters.
    pub open spec fn within<BF, F: Field>(
        self,
        circuit: CircuitBuilder<F>,
        params: WhirVerifierParams<BF>,
    ) -> bool {
        let rounds = params.round_params@.len();
        &&& self.initial_sumcheck.within(circuit, params.starting_folding_pow_bits)
        &&& rounds <= self.rounds@.len()
        &&& forall|i: int|
            0 <= i < rounds ==> {
                &&& round_within(
                    circuit,
                    #[trigger] params.round_params@[i],
                    self.rounds@[i],
                    self.folded_before(i as nat),
                )
                &&& params.round_params@[i].ood_samples > 0
                    ==> params.round_params@[i].num_variables <= self.challenge_count(params)
            }
        &&& circuit.has_all(self.final_poly@)
        &&& self.final_poly@.len() == pow2(self.folded_at_end(params))
        &&& params.final_pow_bits > 0 ==> circuit.has(self.final_pow_witness)
        &&& params.final_sumcheck_rounds < usize::BITS
        &&& is_pow2(
            whir_params::folded_shape(
                params.final_domain_size,
                params.final_sumcheck_rounds,
            ).height as int,
        )
        &&& queries_within(
            circuit,
            self.final_queries@,
            params.final_queries as nat,
            self.folded_before(rounds),
        )
        &&& self.ends_in_sumcheck(params) ==> self.final_sumcheck->0.within(
            circuit,
            params.final_folding_pow_bits,
        )
    }
}

/// The steps of the first `n` rounds.
pub open spec fn rounds_steps<BF>(
    params: WhirVerifierParams<BF>,
    pieces: WhirProofTargets,
    run: WhirRun,
    n: nat,
) -> Seq<TranscriptStep>
    decreases n,
{
    if n == 0 {
        pieces.initial_sumcheck.steps(
            params.starting_folding_pow_bits,
            run.initial,
            run.initial.len(),
        )
    } else {
        rounds_steps(params, pieces, run, (n - 1) as nat) + round_steps(
            params.round_params@[n - 1],
            pieces.rounds@[n - 1],
            run.rounds[n - 1],
        )
    }
}

/// The openings that the first `n` rounds hand over.
pub open spec fn rounds_checks<BF>(
    params: WhirVerifierParams<BF>,
    pieces: WhirProofTargets,
    cap: Seq<Seq<Target>>,
    run: WhirRun,
    n: nat,
) -> Seq<PathCheck>
    decreases n,
{
    if n == 0 {
        Seq::empty()
    } else {
        let round = params.round_params@[n - 1];
        rounds_checks(params, pieces, cap, run, (n - 1) as nat) + query_checks(
            params.permutation_config,
            pieces.cap_before(cap, (n - 1) as nat),
            whir_params::folded_shape(round.domain_size, round.folding_factor),
            run.rounds[n - 1].indices,
            pieces.rounds@[n - 1].queries@,
            round.num_queries as nat,
        )
    }
}

/// The claim after the first `n` rounds.
pub open spec fn rounds_claim<BF, F: Field>(
    circuit: CircuitBuilder<F>,
    env: spec_fn(int) -> F,
    params: WhirVerifierParams<BF>,
    pieces: WhirProofTargets,
    run: WhirRun,
    claim: F,
    n: nat,
) -> F
    decreases n,
{
    if n == 0 {
        pieces.initial_sumcheck.claim(circuit, env, claim, run.initial, run.initial.len())
    } else {
        round_result(
            circuit,
            env,
            params.round_params@[n - 1],
            pieces.rounds@[n - 1],
            run.rounds[n - 1],
            ordered_point(
                run.folding_before((n - 1) as nat),
                params.variable_order == VariableOrder::Suffix,
            ),
            rounds_claim(circuit, env, params, pieces, run, claim, (n - 1) as nat),
        )
    }
}

/// The weight of the constraint that a round leaves, given all folding challenges.
pub open spec fn round_weight<BF: Field, F: ExtensionField<BF>>(
    circuit: CircuitBuilder<F>,
    env: spec_fn(int) -> F,
    params: WhirRoundParams<BF>,
    run: RoundRun,
    challenges: Seq<F>,
    is_suffix: bool,
) -> F {
    whir_gadgets::weight(
        whir_gadgets::local_point(challenges, params.num_variables as nat, is_suffix),
        Seq::new(
            params.ood_samples as nat,
            |j: int|
                whir_gadgets::expanded(
                    circuit.value(env, run.univariate[j]),
                    params.num_variables as nat,
                ),
        ),
        Seq::new(
            params.num_queries as nat,
            |q: int|
                domain_point(
                    circuit,
                    env,
                    F::sp_from_base(params.folded_domain_gen),
                    run.indices[q],
                ),
        ),
        circuit.value(env, run.gamma),
    )
}

/// The sum of the weights of the initial constraint and of the first `n` rounds.
pub open spec fn total_weight<BF: Field, F: ExtensionField<BF>>(
    circuit: CircuitBuilder<F>,
    env: spec_fn(int) -> F,
    params: WhirVerifierParams<BF>,
    initial: ConstraintWeightData,
    run: WhirRun,
    challenges: Seq<F>,
    n: nat,
) -> F
    decreases n,
{
    let is_suffix = params.variable_order == VariableOrder::Suffix;
    if n == 0 {
        F::sp_zero().sp_add(initial.weight_at(circuit, env, challenges, is_suffix))
    } else {
        total_weight(circuit, env, params, initial, run, challenges, (n - 1) as nat).sp_add(
            round_weight(
                circuit,
                env,
                params.round_params@[n - 1],
                run.rounds[n - 1],
                challenges,
                is_suffix,
            ),
        )
    }
}

/// The challenges of the first `n` rounds have the lengths that the parameters ask for.
pub open spec fn rounds_fit<BF>(
    params: WhirVerifierParams<BF>,
    pieces: WhirProofTargets,
    run: WhirRun,
    n: nat,
) -> bool {
    &&& run.initial.len() == pieces.initial_sumcheck.round_polys@.len()
    &&& run.rounds.len() == n
    &&& forall|i: int|
        0 <= i < n ==> round_run_fits(
            params.round_params@[i],
            pieces.rounds@[i],
            #[trigger] run.rounds[i],
        )
}

/// `now` continues `earlier` by one round.
pub open spec fn extends(earlier: WhirRun, now: WhirRun) -> bool {
    &&& now.initial == earlier.initial
    &&& earlier.rounds.is_prefix_of(now.rounds)
}

proof fn lemma_extended<BF>(
    params: WhirVerifierParams<BF>,
    pieces: WhirProofTargets,
    cap: Seq<Seq<Target>>,
    earlier: WhirRun,
    now: WhirRun,
    n: nat,
)
    requires
        extends(earlier, now),
        n <= earlier.rounds.len(),
    ensures
        rounds_steps(params, pieces, now, n) == rounds_steps(params, pieces, earlier, n),
        rounds_checks(params, pieces, cap, now, n) == rounds_checks(params, pieces, cap, earlier, n),
        now.challenges(n) == earlier.challenges(n),
        now.folding_before(n) == earlier.folding_before(n),
    decreases n,
{
    if n > 0 {
        lemma_extended(params, pieces, cap, earlier, now, (n - 1) as nat);
        assert(now.rounds[n - 1] == earlier.rounds[n - 1]);
    }
}

proof fn lemma_extended_claim<BF, F: Field>(
    circuit: CircuitBuilder<F>,
    env: spec_fn(int) -> F,
    params: WhirVerifierParams<BF>,
    pieces: WhirProofTargets,
    earlier: WhirRun,
    now: WhirRun,
    claim: F,
    n: nat,
)
    requires
        extends(earlier, now),
        n <= earlier.rounds.len(),
    ensures
        rounds_claim(circuit, env, params, pieces, now, claim, n) == rounds_claim(
            circuit,
            env,
            params,
            pieces,
            earlier,
            claim,
            n,
        ),
    decreases n,
{
    if n > 0 {
        lemma_extended_claim(circuit, env, params, pieces, earlier, now, claim, (n - 1) as nat);
        assert(now.rounds[n - 1] == earlier.rounds[n - 1]);
        if n > 1 {
            assert(now.rounds[n - 2] == earlier.rounds[n - 2]);
        }
    }
}

proof fn lemma_challenge_count<BF>(
    params: WhirVerifierParams<BF>,
    pieces: WhirProofTargets,
    run: WhirRun,
    n: nat,
)
    requires
        n <= run.rounds.len(),
        rounds_fit(params, pieces, run, run.rounds.len()),
    ensures
        run.challenges(n).len() == pieces.folded_in_all(n),
        run.folding_before(n).len() == pieces.folded_before(n),
    decreases n,
{
    if n > 0 {
        lemma_challenge_count(params, pieces, run, (n - 1) as nat);
        assert(round_run_fits(
            params.round_params@[n - 1],
            pieces.rounds@[n - 1],
            run.rounds[n - 1],
        ));
    }
}

proof fn lemma_round_kept<BF, F: Field>(
    circuit: CircuitBuilder<F>,
    later: CircuitBuilder<F>,
    params: WhirRoundParams<BF>,
    round: WhirRoundTargets,
    folded: nat,
)
    requires
        circuit.grows_to(later),
        round_within(circuit, params, round, folded),
    ensures
        round_within(later, params, round, folded),
{
    lemma_has_rows_kept(circuit, later, round.commitment_cap@);
    lemma_has_all_kept(circuit, later, round.ood_answers@);
    lemma_queries_kept(circuit, later, round.queries@, params.num_queries as nat, folded);
    lemma_sumcheck_kept(circuit, later, round.sumcheck, params.folding_pow_bits);
}

proof fn lemma_queries_kept<F: Field>(
    circuit: CircuitBuilder<F>,
    later: CircuitBuilder<F>,
    queries: Seq<QueryOpeningTargets>,
    n: nat,
    folded: nat,
)
    requires
        circuit.grows_to(later),
        queries_within(circuit, queries, n, folded),
    ensures
        queries_within(later, queries, n, folded),
{
    assert forall|q: int| 0 <= q < n implies {
        &&& later.has_all((#[trigger] queries[q]).leaf())
        &&& queries[q].leaf().len() == pow2(folded)
    } by {
        lemma_has_all_kept(circuit, later, queries[q].leaf());
    }
}

proof fn lemma_constraint_kept<BF: Field, F: ExtensionField<BF>>(
    circuit: CircuitBuilder<F>,
    later: CircuitBuilder<F>,
    params: WhirRoundParams<BF>,
    run: RoundRun,
    constraint: ConstraintWeightData,
)
    requires
        circuit.wf(),
        circuit.grows_to(later),
        constraint_of(circuit, params, run, constraint),
    ensures
        constraint_of(later, params, run, constraint),
{
    lemma_has_rows_kept(circuit, later, constraint.eq_points@);
    lemma_has_all_kept(circuit, later, constraint.sel_scalars@);
    assert forall|last: CircuitBuilder<F>, env: spec_fn(int) -> F, j: int|
        later.grows_to(last) && 0 <= j < constraint.eq_points@.len() implies #[trigger] last.values(
        env,
        constraint.eq_points@[j]@,
    ) == whir_gadgets::expanded(
        last.value(env, run.univariate[j]),
        params.num_variables as nat,
    ) by {
        circuit.lemma_grows_on(later, last);
    }
    assert forall|last: CircuitBuilder<F>, env: spec_fn(int) -> F, q: int|
        later.grows_to(last) && 0 <= q < constraint.sel_scalars@.len() implies #[trigger] last.value(
        env,
        constraint.sel_scalars@[q],
    ) == domain_point(
        last,
        env,
        F::sp_from_base(params.folded_domain_gen),
        run.indices[q],
    ) by {
        circuit.lemma_grows_on(later, last);
    }
}

/// The initial sumcheck and the first `n` rounds have been replayed.
pub open spec fn rounds_done<BF: Field, F: ExtensionField<BF>>(
    before: Session,
    after: Session,
    start: CircuitBuilder<F>,
    circuit: CircuitBuilder<F>,
    params: WhirVerifierParams<BF>,
    pieces: WhirProofTargets,
    cap: Seq<Seq<Target>>,
    initial: ConstraintWeightData,
    initial_claim: Target,
    run: WhirRun,
    claim: Target,
    constraints: Seq<ConstraintWeightData>,
    n: nat,
) -> bool {
    &&& rounds_fit(params, pieces, run, n)
    &&& circuit.has(claim)
    &&& circuit.has_all(run.challenges(n))
    &&& circuit.has_all(run.folding_before(n))
    &&& session::proceeds(
        before,
        after,
        start,
        circuit,
        rounds_steps(params, pieces, run, n),
        rounds_checks(params, pieces, cap, run, n),
        Seq::empty(),
    )
    &&& constraints.len() == n + 1
    &&& constraints[0] == initial
    &&& forall|i: int|
        0 <= i < n ==> constraint_of(
            circuit,
            params.round_params@[i],
            #[trigger] run.rounds[i],
            constraints[i + 1],
        )
    &&& forall|later: CircuitBuilder<F>, env: spec_fn(int) -> F|
        circuit.grows_to(later) ==> #[trigger] later.value(env, claim) == rounds_claim(
            later,
            env,
            params,
            pieces,
            run,
            later.value(env, initial_claim),
            n,
        )
}

/// Replays the initial sumcheck and all intermediate rounds. Returns the claim, the constraints,
/// all folding challenges and those of the last sumcheck.
#[verifier::rlimit(60)]
fn run_rounds<BF: Field, F: ExtensionField<BF>, Ch: RecursiveChallenger<F>, P: PathVerifier<F>>(
    circuit: &mut CircuitBuilder<F>,
    challenger: &mut Ch,
    paths: &mut P,
    params: &WhirVerifierParams<BF>,
    pieces: &WhirProofTargets,
    initial_cap: &[Vec<Target>],
    initial_constraint: ConstraintWeightData,
    initial_claim: Target,
    ops: &mut Vec<NonPrimitiveOpId>,
) -> (r: Result<
    (Target, Vec<ConstraintWeightData>, Vec<Target>, Vec<Target>, Ghost<WhirRun>),
    CircuitBuilderError,
>)
    requires
        old(circuit).wf(),
        pieces.within(*old(circuit), *params),
        whir_gadgets::has_rows(*old(circuit), initial_cap@),
        old(circuit).has(initial_claim),
    ensures
        match r {
            Ok((claim, constraints, all_r, last_r, run)) => {
                &&& rounds_done(
                    Session { transcript: old(challenger).log(), paths: old(paths).log() },
                    Session { transcript: final(challenger).log(), paths: final(paths).log() },
                    *old(circuit),
                    *final(circuit),
                    *params,
                    *pieces,
                    seqs::rows(initial_cap@),
                    initial_constraint,
                    initial_claim,
                    run@,
                    claim,
                    constraints@,
                    params.round_params@.len(),
                )
                &&& all_r@ == run@.challenges(params.round_params@.len())
                &&& last_r@ == run@.folding_before(params.round_params@.len())
                &&& final(ops)@ == old(ops)@ + transcript::beyond(
                    old(paths).log().issued,
                    final(paths).log().issued,
                )
            },
            Err(e) => session::failed(
                Session { transcript: old(challenger).log(), paths: old(paths).log() },
                Session { transcript: final(challenger).log(), paths: final(paths).log() },
                e,
            ),
        },
{
    let is_suffix: bool = match params.variable_order {
        VariableOrder::Suffix => true,
        VariableOrder::Prefix => false,
    };
    let ghost c0 = *circuit;
    let ghost s0 = Session { transcript: challenger.log(), paths: paths.log() };
    let ghost ops0 = ops@;
    let ghost cap_rows = seqs::rows(initial_cap@);
    let (first_claim, initial_r) = match verify_sumcheck_rounds(
        circuit,
        challenger,
        initial_claim,
        &pieces.initial_sumcheck,
        params.starting_folding_pow_bits,
    ) {
        Ok(result) => result,
        Err(e) => {
            return Err(e);
        },
    };
    let mut claim: Target = first_claim;
    let mut all_r: Vec<Target> = seqs::copy_vec(&initial_r);
    let mut last_r: Vec<Target> = initial_r;
    let mut constraints: Vec<ConstraintWeightData> = Vec::new();
    constraints.push(initial_constraint);
    let ghost mut run = WhirRun {
        initial: last_r@,
        rounds: Seq::empty(),
        final_indices: Seq::empty(),
        last: Seq::empty(),
    };
    proof {
        session::lemma_replay_proceeds(
            s0.transcript,
            challenger.log(),
            s0.paths,
            c0,
            *circuit,
            pieces.initial_sumcheck.steps(
                params.starting_folding_pow_bits,
                last_r@,
                last_r@.len(),
            ),
        );
        session::lemma_beyond_nothing(s0.paths.issued);
        assert(ops0 =~= ops0 + transcript::beyond(s0.paths.issued, s0.paths.issued));
    }
    let mut i: usize = 0;
    while i < params.round_params.len()
        invariant
            i <= params.round_params@.len(),
            s0 == (Session { transcript: old(challenger).log(), paths: old(paths).log() }),
            is_suffix == (params.variable_order == VariableOrder::Suffix),
            c0.wf(),
            pieces.within(c0, *params),
            cap_rows == seqs::rows(initial_cap@),
            whir_gadgets::has_rows(c0, initial_cap@),
            rounds_done(
                s0,
                Session { transcript: challenger.log(), paths: paths.log() },
                c0,
                *circuit,
                *params,
                *pieces,
                cap_rows,
                initial_constraint,
                initial_claim,
                run,
                claim,
                constraints@,
                i as nat,
            ),
            all_r@ == run.challenges(i as nat),
            last_r@ == run.folding_before(i as nat),
            ops@ == ops0 + transcript::beyond(s0.paths.issued, paths.log().issued),
        decreases params.round_params@.len() - i,
    {
        let ghost c1 = *circuit;
        let ghost s1 = Session { transcript: challenger.log(), paths: paths.log() };
        let ghost earlier = run;
        let ghost old_constraints = constraints@;
        let ghost old_claim = claim;
        let point: Vec<Target> = last_challenges(last_r.as_slice(), last_r.len(), is_suffix);
        let cap: &[Vec<Target>] = if i == 0 {
            initial_cap
        } else {
            pieces.rounds[i - 1].commitment_cap.as_slice()
        };
        proof {
            lemma_challenge_count(*params, *pieces, run, i as nat);
            assert(round_within(
                c0,
                params.round_params@[i as int],
                pieces.rounds@[i as int],
                pieces.folded_before(i as nat),
            ));
            lemma_round_kept(
                c0,
                c1,
                params.round_params@[i as int],
                pieces.rounds@[i as int],
                pieces.folded_before(i as nat),
            );
            if i == 0 {
                lemma_has_rows_kept(c0, c1, initial_cap@);
            } else {
                assert(round_within(
                    c0,
                    params.round_params@[i - 1],
                    pieces.rounds@[i - 1],
                    pieces.folded_before((i - 1) as nat),
                ));
                lemma_has_rows_kept(c0, c1, pieces.rounds@[i - 1].commitment_cap@);
            }
            assert(seqs::rows(cap@) == pieces.cap_before(cap_rows, i as nat));
            assert forall|j: int| 0 <= j < point@.len() implies c1.has(#[trigger] point@[j]) by {
                let k = choose|k: int| 0 <= k < last_r@.len() && last_r@[k] == point@[j];
                assert(c1.has(last_r@[k]));
            }
            assert(point@.len() == last_r@.len());
        }
        let (next, constraint, folding, round_run) = match verify_round(
            circuit,
            challenger,
            paths,
            params.permutation_config,
            &params.round_params[i],
            &pieces.rounds[i],
            cap,
            &point,
            claim,
            ops,
        ) {
            Ok(result) => result,
            Err(e) => {
                return Err(e);
            },
        };
        claim = next;
        seqs::append_copy(&mut all_r, &folding);
        last_r = folding;
        constraints.push(constraint);
        proof {
            run = WhirRun {
                initial: earlier.initial,
                rounds: earlier.rounds.push(round_run@),
                final_indices: earlier.final_indices,
                last: earlier.last,
            };
            let s2 = Session { transcript: challenger.log(), paths: paths.log() };
            lemma_extended(*params, *pieces, cap_rows, earlier, run, i as nat);
            let none = Seq::<(ExprId, ExprId)>::empty();
            let round = params.round_params@[i as int];
            let more_checks = query_checks(
                params.permutation_config,
                pieces.cap_before(cap_rows, i as nat),
                whir_params::folded_shape(round.domain_size, round.folding_factor),
                round_run@.indices,
                pieces.rounds@[i as int].queries@,
                round.num_queries as nat,
            );
            session::lemma_proceeds_on(
                s0,
                s1,
                s2,
                c0,
                c1,
                *circuit,
                (
                    rounds_steps(*params, *pieces, earlier, i as nat),
                    rounds_checks(*params, *pieces, cap_rows, earlier, i as nat),
                    none,
                ),
                (round_steps(round, pieces.rounds@[i as int], round_run@), more_checks, none),
            );
            assert(none + none =~= none);
            session::lemma_beyond_on(s0.paths.issued, s1.paths.issued, s2.paths.issued);
            assert(ops@ =~= ops0 + transcript::beyond(s0.paths.issued, s2.paths.issued));
            lemma_has_all_kept(c1, *circuit, earlier.challenges(i as nat));
            assert forall|j: int| 0 <= j < run.challenges((i + 1) as nat).len() implies circuit.has(
                #[trigger] run.challenges((i + 1) as nat)[j],
            ) by {
                let before = earlier.challenges(i as nat);
                if j < before.len() {
                    assert(circuit.has(before[j]));
                } else {
                    assert(circuit.has(last_r@[j - before.len()]));
                }
            }
            assert forall|j: int| 0 <= j < i + 1 implies constraint_of(
                *circuit,
                params.round_params@[j],
                #[trigger] run.rounds[j],
                constraints@[j + 1],
            ) by {
                if j < i {
                    assert(constraint_of(
                        c1,
                        params.round_params@[j],
                        earlier.rounds[j],
                        old_constraints[j + 1],
                    ));
                    lemma_constraint_kept(
                        c1,
                        *circuit,
                        params.round_params@[j],
                        run.rounds[j],
                        constraints@[j + 1],
                    );
                }
            }
            assert forall|j: int| 0 <= j < i + 1 implies round_run_fits(
                params.round_params@[j],
                pieces.rounds@[j],
                #[trigger] run.rounds[j],
            ) by {
                if j < i {
                    assert(round_run_fits(
                        params.round_params@[j],
                        pieces.rounds@[j],
                        earlier.rounds[j],
                    ));
                }
            }
            assert forall|later: CircuitBuilder<F>, env: spec_fn(int) -> F| circuit.grows_to(
                later,
            ) implies #[trigger] later.value(env, claim) == rounds_claim(
                later,
                env,
                *params,
                *pieces,
                run,
                later.value(env, initial_claim),
                (i + 1) as nat,
            ) by {
                c1.lemma_grows_on(*circuit, later);
                lemma_extended_claim(
                    later,
                    env,
                    *params,
                    *pieces,
                    earlier,
                    run,
                    later.value(env, initial_claim),
                    i as nat,
                );
                assert(later.value(env, old_claim) == rounds_claim(
                    later,
                    env,
                    *params,
                    *pieces,
                    earlier,
                    later.value(env, initial_claim),
                    i as nat,
                ));
            }
        }
        i += 1;
    }
    Ok((claim, constraints, all_r, last_r, Ghost(run)))
}

/// The connections compare the folded leaf of each final query with the final polynomial at its
/// domain point.
pub open spec fn final_pairs<F: Field>(
    circuit: CircuitBuilder<F>,
    pairs: Seq<(ExprId, ExprId)>,
    queries: Seq<QueryOpeningTargets>,
    point: Seq<Target>,
    final_poly: Seq<Target>,
    generator: F,
    indices: Seq<Seq<Target>>,
) -> bool {
    &&& forall|later: CircuitBuilder<F>, env: spec_fn(int) -> F, q: int|
        circuit.grows_to(later) && 0 <= q < pairs.len() ==> #[trigger] later.value(env, pairs[q].0)
            == fold_at(later, env, queries[q].leaf(), point)
    &&& forall|later: CircuitBuilder<F>, env: spec_fn(int) -> F, q: int|
        circuit.grows_to(later) && 0 <= q < pairs.len() ==> #[trigger] later.value(env, pairs[q].1)
            == final_value(later, env, final_poly, generator, indices[q])
}

/// The final polynomial, its evaluations read as coefficients, at a domain point.
pub open spec fn final_value<F: Field>(
    circuit: CircuitBuilder<F>,
    env: spec_fn(int) -> F,
    final_poly: Seq<Target>,
    generator: F,
    index_bits: Seq<Target>,
) -> F {
    whir_gadgets::horner(
        circuit.values(env, final_poly),
        domain_point(circuit, env, generator, index_bits),
    )
}

/// Answers the final queries and connects each folded leaf with the final polynomial.
#[verifier::rlimit(60)]
fn run_final_queries<F: Field, Ch: RecursiveChallenger<F>, P: PathVerifier<F>>(
    circuit: &mut CircuitBuilder<F>,
    challenger: &mut Ch,
    paths: &mut P,
    permutation: Option<PermConfig>,
    cap: &[Vec<Target>],
    dimensions: &Vec<Dimensions>,
    bits: usize,
    generator: F,
    queries: &Vec<QueryOpeningTargets>,
    count: usize,
    point: &Vec<Target>,
    final_poly: &Vec<Target>,
    ops: &mut Vec<NonPrimitiveOpId>,
) -> (r: Result<(Ghost<Seq<Seq<Target>>>, Ghost<Seq<(ExprId, ExprId)>>), CircuitBuilderError>)
    requires
        old(circuit).wf(),
        whir_gadgets::has_rows(*old(circuit), cap@),
        dimensions@.len() == 1,
        queries_within(*old(circuit), queries@, count as nat, point@.len()),
        old(circuit).has_all(point@),
        old(circuit).has_all(final_poly@),
    ensures
        match r {
            Ok((indices, pairs)) => {
                &&& indices@.len() == count
                &&& pairs@.len() == count
                &&& forall|q: int| 0 <= q < count ==> (#[trigger] indices@[q]).len() == bits
                &&& session::proceeds(
                    Session { transcript: old(challenger).log(), paths: old(paths).log() },
                    Session { transcript: final(challenger).log(), paths: final(paths).log() },
                    *old(circuit),
                    *final(circuit),
                    index_steps(indices@),
                    query_checks(
                        permutation,
                        seqs::rows(cap@),
                        dimensions@[0],
                        indices@,
                        queries@,
                        count as nat,
                    ),
                    pairs@,
                )
                &&& final(ops)@ == old(ops)@ + transcript::beyond(
                    old(paths).log().issued,
                    final(paths).log().issued,
                )
                &&& final_pairs(
                    *final(circuit),
                    pairs@,
                    queries@,
                    point@,
                    final_poly@,
                    generator,
                    indices@,
                )
            },
            Err(e) => session::failed(
                Session { transcript: old(challenger).log(), paths: old(paths).log() },
                Session { transcript: final(challenger).log(), paths: final(paths).log() },
                e,
            ),
        },
{
    let ghost s0 = Session { transcript: challenger.log(), paths: paths.log() };
    let ghost c0 = *circuit;
    let ghost ops0 = ops@;
    let ghost rows = seqs::rows(cap@);
    let ghost mut indices: Seq<Seq<Target>> = Seq::empty();
    let ghost mut pairs: Seq<(ExprId, ExprId)> = Seq::empty();
    let mut q: usize = 0;
    proof {
        c0.lemma_grows_to_itself();
        assert(c0.connections@ =~= c0.connections@ + pairs);
        session::lemma_connect_proceeds(s0, c0, c0, pairs);
        assert(index_steps(indices) =~= Seq::empty());
        session::lemma_beyond_nothing(s0.paths.issued);
        assert(ops0 =~= ops0 + transcript::beyond(s0.paths.issued, s0.paths.issued));
    }
    while q < count
        invariant
            q <= count,
            s0 == (Session { transcript: old(challenger).log(), paths: old(paths).log() }),
            c0.wf(),
            rows == seqs::rows(cap@),
            whir_gadgets::has_rows(c0, cap@),
            dimensions@.len() == 1,
            queries_within(c0, queries@, count as nat, point@.len()),
            c0.has_all(point@),
            c0.has_all(final_poly@),
            indices.len() == q,
            pairs.len() == q,
            forall|j: int| 0 <= j < q ==> (#[trigger] indices[j]).len() == bits,
            session::proceeds(
                s0,
                Session { transcript: challenger.log(), paths: paths.log() },
                c0,
                *circuit,
                index_steps(indices),
                query_checks(permutation, rows, dimensions@[0], indices, queries@, q as nat),
                pairs,
            ),
            ops@ == ops0 + transcript::beyond(s0.paths.issued, paths.log().issued),
            final_pairs(
                *circuit,
                pairs,
                queries@,
                point@,
                final_poly@,
                generator,
                indices,
            ),
        decreases count - q,
    {
        let ghost s1 = Session { transcript: challenger.log(), paths: paths.log() };
        let ghost c1 = *circuit;
        let ghost earlier = indices;
        let ghost old_pairs = pairs;
        proof {
            assert(c0.has_all(queries@[q as int].leaf()));
            lemma_has_all_kept(c0, c1, queries@[q as int].leaf());
            lemma_has_all_kept(c0, c1, point@);
        }
        let leaf: &Vec<Target> = queries[q].leaf_values();
        let (index_bits, at, fold) = match sample_query(
            circuit,
            challenger,
            bits,
            generator,
            leaf,
            point,
        ) {
            Ok(answer) => answer,
            Err(e) => {
                return Err(e);
            },
        };
        let ghost s2 = Session { transcript: challenger.log(), paths: paths.log() };
        let ghost c2 = *circuit;
        proof {
            c0.lemma_grows_on(c1, c2);
            lemma_has_all_kept(c0, c2, final_poly@);
        }
        let expected: Target = horner_eval(circuit, final_poly.as_slice(), at);
        let ghost c3 = *circuit;
        circuit.connect(fold, expected);
        let ghost c4 = *circuit;
        proof {
            c2.lemma_grows_on(c3, c4);
            c0.lemma_grows_on(c2, c4);
            lemma_has_rows_kept(c0, c4, cap@);
            lemma_has_all_kept(c0, c4, queries@[q as int].leaf());
            lemma_has_all_kept(c2, c4, index_bits@);
        }
        match check_path(
            circuit,
            paths,
            permutation,
            cap,
            dimensions,
            &index_bits,
            &queries[q],
            ops,
            Ghost(challenger.log()),
        ) {
            Ok(_) => {},
            Err(e) => {
                return Err(e);
            },
        }
        proof {
            indices = earlier.push(index_bits@);
            pairs = old_pairs.push((fold, expected));
            let s5 = Session { transcript: challenger.log(), paths: paths.log() };
            let sample = seq![TranscriptStep::SampleBits(index_bits@)];
            let check = query_check(
                permutation,
                rows,
                dimensions@[0],
                index_bits@,
                queries@[q as int],
            );
            let none = Seq::<(ExprId, ExprId)>::empty();
            let pair = seq![(fold, expected)];
            session::lemma_replay_proceeds(
                s1.transcript,
                s2.transcript,
                s1.paths,
                c1,
                c2,
                sample,
            );
            session::lemma_proceeds_computed(s1, s2, c1, c2, c3, sample, Seq::empty(), none);
            assert(c4.connections@ =~= c3.connections@ + pair);
            session::lemma_connect_proceeds(s2, c3, c4, pair);
            session::lemma_proceeds_on(
                s1,
                s2,
                s2,
                c1,
                c3,
                c4,
                (sample, Seq::empty(), none),
                (Seq::empty(), Seq::empty(), pair),
            );
            assert(sample + Seq::<TranscriptStep>::empty() =~= sample);
            assert(Seq::<PathCheck>::empty() + Seq::<PathCheck>::empty() =~= Seq::<
                PathCheck,
            >::empty());
            assert(none + pair =~= pair);
            session::lemma_proceeds_on(
                s1,
                s2,
                s5,
                c1,
                c4,
                *circuit,
                (sample, Seq::empty(), pair),
                (Seq::empty(), check, none),
            );
            assert(Seq::<PathCheck>::empty() + check =~= check);
            assert(pair + none =~= pair);
            lemma_checks_prefix(
                permutation,
                rows,
                dimensions@[0],
                earlier,
                indices,
                queries@,
                q as nat,
            );
            session::lemma_proceeds_on(
                s0,
                s1,
                s5,
                c0,
                c1,
                *circuit,
                (
                    index_steps(earlier),
                    query_checks(permutation, rows, dimensions@[0], earlier, queries@, q as nat),
                    old_pairs,
                ),
                (sample, check, pair),
            );
            assert(index_steps(indices) =~= index_steps(earlier) + sample);
            assert(pairs =~= old_pairs + pair);
            session::lemma_beyond_on(s0.paths.issued, s1.paths.issued, s5.paths.issued);
            assert(ops@ =~= ops0 + transcript::beyond(s0.paths.issued, s5.paths.issued));
            c1.lemma_grows_on(c2, c4);
            c1.lemma_grows_on(c4, *circuit);
            c2.lemma_grows_on(c4, *circuit);
            c3.lemma_grows_on(c4, *circuit);
            assert forall|later: CircuitBuilder<F>, env: spec_fn(int) -> F, j: int|
                circuit.grows_to(later) && 0 <= j < pairs.len() implies #[trigger] later.value(
                env,
                pairs[j].0,
            ) == fold_at(later, env, queries@[j].leaf(), point@) by {
                c1.lemma_grows_on(*circuit, later);
                c2.lemma_grows_on(*circuit, later);
                if j < q {
                    assert(later.value(env, old_pairs[j].0) == fold_at(
                        later,
                        env,
                        queries@[j].leaf(),
                        point@,
                    ));
                }
            }
            assert forall|later: CircuitBuilder<F>, env: spec_fn(int) -> F, j: int|
                circuit.grows_to(later) && 0 <= j < pairs.len() implies #[trigger] later.value(
                env,
                pairs[j].1,
            ) == final_value(later, env, final_poly@, generator, indices[j]) by {
                c1.lemma_grows_on(*circuit, later);
                c2.lemma_grows_on(*circuit, later);
                c3.lemma_grows_on(*circuit, later);
                if j < q {
                    assert(later.value(env, old_pairs[j].1) == final_value(
                        later,
                        env,
                        final_poly@,
                        generator,
                        earlier[j],
                    ));
                } else {
                    assert(later.value(env, expected) == c3.value(env, expected));
                    assert(later.value(env, at) == c2.value(env, at));
                    whir_gadgets::lemma_values_kept(c2, later, env, final_poly@);
                }
            }
        }
        q += 1;
    }
    Ok((Ghost(indices), Ghost(pairs)))
}

/// The pairs of expressions have equal values.
pub open spec fn agree<F: Field>(
    circuit: CircuitBuilder<F>,
    env: spec_fn(int) -> F,
    pairs: Seq<(ExprId, ExprId)>,
) -> bool {
    forall|k: int|
        0 <= k < pairs.len() ==> circuit.value(env, (#[trigger] pairs[k]).0) == circuit.value(
            env,
            pairs[k].1,
        )
}

/// The challenges of a run have the lengths that the parameters ask for.
pub open spec fn run_fits<BF>(
    params: WhirVerifierParams<BF>,
    pieces: WhirProofTargets,
    run: WhirRun,
) -> bool {
    &&& rounds_fit(params, pieces, run, params.round_params@.len())
    &&& run.final_indices.len() == params.final_queries
    &&& forall|q: int|
        0 <= q < run.final_indices.len() ==> pow2((#[trigger] run.final_indices[q]).len())
            == whir_params::folded_shape(
            params.final_domain_size,
            params.final_sumcheck_rounds,
        ).height
    &&& run.last.len() == if pieces.ends_in_sumcheck(params) {
        pieces.final_sumcheck->0.round_polys@.len()
    } else {
        0
    }
}

/// The steps of the whole verification.
pub open spec fn whir_steps<BF>(
    params: WhirVerifierParams<BF>,
    pieces: WhirProofTargets,
    run: WhirRun,
) -> Seq<TranscriptStep> {
    rounds_steps(params, pieces, run, params.round_params@.len()) + transcript::observed_ext(
        pieces.final_poly@,
    ) + pow_steps(params.final_pow_bits, pieces.final_pow_witness) + index_steps(
        run.final_indices,
    ) + if pieces.ends_in_sumcheck(params) {
        pieces.final_sumcheck->0.steps(params.final_folding_pow_bits, run.last, run.last.len())
    } else {
        Seq::empty()
    }
}

/// The openings that the whole verification hands over.
pub open spec fn whir_checks<BF>(
    params: WhirVerifierParams<BF>,
    pieces: WhirProofTargets,
    cap: Seq<Seq<Target>>,
    run: WhirRun,
) -> Seq<PathCheck> {
    let rounds = params.round_params@.len();
    rounds_checks(params, pieces, cap, run, rounds) + query_checks(
        params.permutation_config,
        pieces.cap_before(cap, rounds),
        whir_params::folded_shape(params.final_domain_size, params.final_sumcheck_rounds),
        run.final_indices,
        pieces.final_queries@,
        params.final_queries as nat,
    )
}

proof fn lemma_no_query_checks(
    cap: Seq<Seq<Target>>,
    dimensions: Dimensions,
    indices: Seq<Seq<Target>>,
    queries: Seq<QueryOpeningTargets>,
    n: nat,
)
    ensures
        query_checks(None, cap, dimensions, indices, queries, n).len() == 0,
    decreases n,
{
    if n > 0 {
        lemma_no_query_checks(cap, dimensions, indices, queries, (n - 1) as nat);
    }
}

proof fn lemma_no_round_checks<BF>(
    params: WhirVerifierParams<BF>,
    pieces: WhirProofTargets,
    cap: Seq<Seq<Target>>,
    run: WhirRun,
    n: nat,
)
    requires
        params.permutation_config is None,
    ensures
        rounds_checks(params, pieces, cap, run, n).len() == 0,
    decreases n,
{
    if n > 0 {
        let round = params.round_params@[n - 1];
        lemma_no_round_checks(params, pieces, cap, run, (n - 1) as nat);
        lemma_no_query_checks(
            pieces.cap_before(cap, (n - 1) as nat),
            whir_params::folded_shape(round.domain_size, round.folding_factor),
            run.rounds[n - 1].indices,
            pieces.rounds@[n - 1].queries@,
            round.num_queries as nat,
        );
    }
}

/// Without a permutation no opening is handed over.
pub proof fn law_no_permutation_no_checks<BF>(
    params: WhirVerifierParams<BF>,
    pieces: WhirProofTargets,
    cap: Seq<Seq<Target>>,
    run: WhirRun,
)
    requires
        params.permutation_config is None,
    ensures
        whir_checks(params, pieces, cap, run).len() == 0,
{
    let rounds = params.round_params@.len();
    lemma_no_round_checks(params, pieces, cap, run, rounds);
    lemma_no_query_checks(
        pieces.cap_before(cap, rounds),
        whir_params::folded_shape(params.final_domain_size, params.final_sumcheck_rounds),
        run.final_indices,
        pieces.final_queries@,
        params.final_queries as nat,
    );
}

/// The claim that all sumchecks leave.
pub open spec fn final_claim<BF, F: Field>(
    circuit: CircuitBuilder<F>,
    env: spec_fn(int) -> F,
    params: WhirVerifierParams<BF>,
    pieces: WhirProofTargets,
    run: WhirRun,
    claim: F,
) -> F {
    let folded = rounds_claim(
        circuit,
        env,
        params,
        pieces,
        run,
        claim,
        params.round_params@.len(),
    );
    if pieces.ends_in_sumcheck(params) {
        pieces.final_sumcheck->0.claim(circuit, env, folded, run.last, run.last.len())
    } else {
        folded
    }
}

/// The folding challenges at which the final polynomial is evaluated.
pub open spec fn end_challenges<BF>(
    params: WhirVerifierParams<BF>,
    pieces: WhirProofTargets,
    run: WhirRun,
) -> Seq<Target> {
    if pieces.ends_in_sumcheck(params) {
        run.last
    } else {
        run.folding_before(params.round_params@.len())
    }
}

/// The arithmetic that a WHIR proof has to satisfy: every final query folds to the final polynomial
/// at its domain point, and the final claim is `W(r)·f(r)`, where `W` is the sum of the constraint
/// weights and `f` the final polynomial.
pub open spec fn accepts<BF: Field, F: ExtensionField<BF>>(
    circuit: CircuitBuilder<F>,
    env: spec_fn(int) -> F,
    params: WhirVerifierParams<BF>,
    pieces: WhirProofTargets,
    initial: ConstraintWeightData,
    initial_claim: Target,
    run: WhirRun,
) -> bool {
    let rounds = params.round_params@.len();
    let is_suffix = params.variable_order == VariableOrder::Suffix;
    &&& forall|q: int|
        0 <= q < params.final_queries ==> fold_at(
            circuit,
            env,
            (#[trigger] pieces.final_queries@[q]).leaf(),
            ordered_point(run.folding_before(rounds), is_suffix),
        ) == final_value(
            circuit,
            env,
            pieces.final_poly@,
            F::sp_from_base(params.final_folded_domain_gen),
            run.final_indices[q],
        )
    &&& final_claim(circuit, env, params, pieces, run, circuit.value(env, initial_claim))
        == total_weight(
        circuit,
        env,
        params,
        initial,
        run,
        circuit.values(env, run.challenges(rounds) + run.last),
        rounds,
    ).sp_mul(
        whir_gadgets::multilinear(
            circuit.values(env, pieces.final_poly@),
            circuit.values(
                env,
                ordered_point(end_challenges(params, pieces, run), is_suffix),
            ),
        ),
    )
}

/// The verification has been laid out in the circuit: exactly the steps and openings of a WHIR
/// verification have happened, and the circuit is satisfied exactly if it was before, the
/// connections of the transcript and of the path verifier hold, and the proof is accepted.
pub open spec fn laid_out<BF: Field, F: ExtensionField<BF>>(
    before: Session,
    after: Session,
    start: CircuitBuilder<F>,
    circuit: CircuitBuilder<F>,
    params: WhirVerifierParams<BF>,
    pieces: WhirProofTargets,
    cap: Seq<Seq<Target>>,
    initial: ConstraintWeightData,
    initial_claim: Target,
    run: WhirRun,
) -> bool {
    &&& run_fits(params, pieces, run)
    &&& start.grows_to(circuit)
    &&& after.transcript.steps == before.transcript.steps + whir_steps(params, pieces, run)
    &&& after.transcript.failures == before.transcript.failures
    &&& before.transcript.asserted.is_prefix_of(after.transcript.asserted)
    &&& after.paths.checks == before.paths.checks + whir_checks(params, pieces, cap, run)
    &&& after.paths.failures == before.paths.failures
    &&& before.paths.issued.is_prefix_of(after.paths.issued)
    &&& before.paths.asserted.is_prefix_of(after.paths.asserted)
    &&& forall|env: spec_fn(int) -> F| #[trigger]
        circuit.satisfied(env) <==> start.satisfied(env) && agree(
            circuit,
            env,
            transcript::beyond(before.transcript.asserted, after.transcript.asserted),
        ) && agree(
            circuit,
            env,
            transcript::beyond(before.paths.asserted, after.paths.asserted),
        ) && accepts(circuit, env, params, pieces, initial, initial_claim, run)
}

proof fn lemma_satisfied<F: Field>(
    start: CircuitBuilder<F>,
    circuit: CircuitBuilder<F>,
    env: spec_fn(int) -> F,
    a: Seq<(ExprId, ExprId)>,
    b: Seq<(ExprId, ExprId)>,
    own: Seq<(ExprId, ExprId)>,
)
    requires
        start.wf(),
        start.grows_to(circuit),
        session::joined(circuit.connections@, start.connections@, a, b, own),
    ensures
        circuit.satisfied(env) <==> start.satisfied(env) && agree(circuit, env, a) && agree(
            circuit,
            env,
            b,
        ) && agree(circuit, env, own),
{
    let all = circuit.connections@;
    assert forall|k: int| 0 <= k < start.connections@.len() implies {
        let pair = #[trigger] start.connections@[k];
        &&& circuit.value(env, pair.0) == start.value(env, pair.0)
        &&& circuit.value(env, pair.1) == start.value(env, pair.1)
    } by {
        assert(start.has(start.connections@[k].0) && start.has(start.connections@[k].1));
    }
    if circuit.satisfied(env) {
        assert forall|pair: (ExprId, ExprId)| all.contains(pair) implies #[trigger] circuit.value(
            env,
            pair.0,
        ) == circuit.value(env, pair.1) by {
            let i = choose|i: int| 0 <= i < all.len() && all[i] == pair;
            assert(circuit.value(env, all[i].0) == circuit.value(env, all[i].1));
        }
        assert forall|k: int| 0 <= k < start.connections@.len() implies start.value(
            env,
            (#[trigger] start.connections@[k]).0,
        ) == start.value(env, start.connections@[k].1) by {
            let pair = start.connections@[k];
            assert(start.connections@.contains(pair));
            assert(all.contains(pair));
            assert(circuit.value(env, pair.0) == circuit.value(env, pair.1));
        }
        assert forall|k: int| 0 <= k < a.len() implies circuit.value(env, (#[trigger] a[k]).0)
            == circuit.value(env, a[k].1) by {
            assert(a.contains(a[k]));
            assert(all.contains(a[k]));
        }
        assert forall|k: int| 0 <= k < b.len() implies circuit.value(env, (#[trigger] b[k]).0)
            == circuit.value(env, b[k].1) by {
            assert(b.contains(b[k]));
            assert(all.contains(b[k]));
        }
        assert forall|k: int| 0 <= k < own.len() implies circuit.value(env, (#[trigger] own[k]).0)
            == circuit.value(env, own[k].1) by {
            assert(own.contains(own[k]));
            assert(all.contains(own[k]));
        }
    }
    if start.satisfied(env) && agree(circuit, env, a) && agree(circuit, env, b) && agree(
        circuit,
        env,
        own,
    ) {
        assert forall|i: int| 0 <= i < all.len() implies circuit.value(env, (#[trigger] all[i]).0)
            == circuit.value(env, all[i].1) by {
            let pair = all[i];
            assert(all.contains(pair));
            if start.connections@.contains(pair) {
                let k = choose|k: int|
                    0 <= k < start.connections@.len() && start.connections@[k] == pair;
                assert(start.value(env, start.connections@[k].0) == start.value(
                    env,
                    start.connections@[k].1,
                ));
            } else if a.contains(pair) {
                let k = choose|k: int| 0 <= k < a.len() && a[k] == pair;
                assert(circuit.value(env, a[k].0) == circuit.value(env, a[k].1));
            } else if b.contains(pair) {
                let k = choose|k: int| 0 <= k < b.len() && b[k] == pair;
                assert(circuit.value(env, b[k].0) == circuit.value(env, b[k].1));
            } else {
                let k = choose|k: int| 0 <= k < own.len() && own[k] == pair;
                assert(circuit.value(env, own[k].0) == circuit.value(env, own[k].1));
            }
        }
    }
}

/// The weights that the circuit sums are those of the initial constraint and of the rounds.
proof fn lemma_total_weight<BF: Field, F: ExtensionField<BF>>(
    circuit: CircuitBuilder<F>,
    later: CircuitBuilder<F>,
    env: spec_fn(int) -> F,
    params: WhirVerifierParams<BF>,
    initial: ConstraintWeightData,
    run: WhirRun,
    constraints: Seq<ConstraintWeightData>,
    challenges: Seq<F>,
    n: nat,
)
    requires
        circuit.grows_to(later),
        n < constraints.len(),
        constraints[0] == initial,
        initial.within(circuit),
        forall|i: int|
            0 <= i < n ==> constraint_of(
                circuit,
                params.round_params@[i],
                #[trigger] run.rounds[i],
                constraints[i + 1],
            ),
    ensures
        whir_gadgets::weight_sum(
            circuit,
            env,
            constraints,
            challenges,
            params.variable_order == VariableOrder::Suffix,
            n + 1,
        ) == total_weight(later, env, params, initial, run, challenges, n),
    decreases n,
{
    let constraint = constraints[n as int];
    if n > 0 {
        assert(constraint_of(
            circuit,
            params.round_params@[n - 1],
            run.rounds[n - 1],
            constraints[n - 1 + 1],
        ));
    }
    assert(constraint.within(circuit));
    whir_gadgets::lemma_row_values_kept(circuit, later, env, constraint.eq_points@);
    whir_gadgets::lemma_values_kept(circuit, later, env, constraint.sel_scalars@);
    assert(later.value(env, constraint.gamma) == circuit.value(env, constraint.gamma));
    if n == 0 {
        reveal_with_fuel(whir_gadgets::weight_sum, 2);
    } else {
        lemma_total_weight(
            circuit,
            later,
            env,
            params,
            initial,
            run,
            constraints,
            challenges,
            (n - 1) as nat,
        );
        let round = params.round_params@[n - 1];
        let round_run = run.rounds[n - 1];
        assert(constraint_of(circuit, round, round_run, constraint));
        assert(whir_gadgets::value_rows(later, env, constraint.eq_points@) =~= Seq::new(
            round.ood_samples as nat,
            |j: int|
                whir_gadgets::expanded(
                    later.value(env, round_run.univariate[j]),
                    round.num_variables as nat,
                ),
        )) by {
            assert forall|j: int| 0 <= j < constraint.eq_points@.len() implies #[trigger] later.values(
                env,
                constraint.eq_points@[j]@,
            ) == whir_gadgets::expanded(
                later.value(env, round_run.univariate[j]),
                round.num_variables as nat,
            ) by {}
        }
        assert(later.values(env, constraint.sel_scalars@) =~= Seq::new(
            round.num_queries as nat,
            |q: int|
                domain_point(
                    later,
                    env,
                    F::sp_from_base(round.folded_domain_gen),
                    round_run.indices[q],
                ),
        ));
    }
}

/// Verifies a WHIR proof in a circuit: replays the transcript, hands over the opening of each
/// query, folds leaves, runs all sumchecks, and connects the final claim with `W(r)·f(r)`.
///
/// The initial commitment, the initial constraint and the initial claim come from the caller.
/// Returns the operations that wait for private path data, in the order of the queries. Without a
/// permutation no opening is handed over and the list is empty.
#[verifier::rlimit(80)]
pub fn verify_whir_circuit<
    BF: Field,
    F: ExtensionField<BF>,
    Ch: RecursiveChallenger<F>,
    P: PathVerifier<F>,
>(
    circuit: &mut CircuitBuilder<F>,
    challenger: &mut Ch,
    paths: &mut P,
    params: &WhirVerifierParams<BF>,
    pieces: &WhirProofTargets,
    initial_commitment_cap: &[Vec<Target>],
    initial_constraint: ConstraintWeightData,
    initial_claimed_eval: Target,
) -> (r: Result<Vec<NonPrimitiveOpId>, CircuitBuilderError>)
    requires
        old(circuit).wf(),
        pieces.within(*old(circuit), *params),
        whir_gadgets::has_rows(*old(circuit), initial_commitment_cap@),
        initial_constraint.within(*old(circuit)),
        initial_constraint.fits(pieces.challenge_count(*params)),
        old(circuit).has(initial_claimed_eval),
    ensures
        match r {
            Ok(ops) => {
                &&& exists|run: WhirRun| #[trigger]
                    laid_out(
                        Session { transcript: old(challenger).log(), paths: old(paths).log() },
                        Session { transcript: final(challenger).log(), paths: final(paths).log() },
                        *old(circuit),
                        *final(circuit),
                        *params,
                        *pieces,
                        seqs::rows(initial_commitment_cap@),
                        initial_constraint,
                        initial_claimed_eval,
                        run,
                    )
                &&& ops@ == transcript::beyond(
                    old(paths).log().issued,
                    final(paths).log().issued,
                )
                &&& params.permutation_config is None ==> {
                    &&& ops@.len() == 0
                    &&& final(paths).log() == old(paths).log()
                }
            },
            Err(e) => session::failed(
                Session { transcript: old(challenger).log(), paths: old(paths).log() },
                Session { transcript: final(challenger).log(), paths: final(paths).log() },
                e,
            ),
        },
{
    let is_suffix: bool = match params.variable_order {
        VariableOrder::Suffix => true,
        VariableOrder::Prefix => false,
    };
    let ghost c0 = *circuit;
    let ghost s0 = Session { transcript: challenger.log(), paths: paths.log() };
    let ghost cap_rows = seqs::rows(initial_commitment_cap@);
    let rounds: usize = params.round_params.len();
    let mut ops: Vec<NonPrimitiveOpId> = Vec::new();
    let (round_claim, constraints, round_challenges, round_last, partial) = match run_rounds(
        circuit,
        challenger,
        paths,
        params,
        pieces,
        initial_commitment_cap,
        initial_constraint,
        initial_claimed_eval,
        &mut ops,
    ) {
        Ok(result) => result,
        Err(e) => {
            return Err(e);
        },
    };
    let mut claim: Target = round_claim;
    let mut all_r: Vec<Target> = round_challenges;
    let mut last_r: Vec<Target> = round_last;
    let ghost c1 = *circuit;
    let ghost s1 = Session { transcript: challenger.log(), paths: paths.log() };
    proof {
        lemma_has_all_kept(c0, c1, pieces.final_poly@);
        lemma_challenge_count(*params, *pieces, partial@, rounds as nat);
    }
    observe_ext_slice(challenger, circuit, pieces.final_poly.as_slice());
    let ghost c2 = *circuit;
    let ghost t2 = challenger.log();
    proof {
        c0.lemma_grows_on(c1, c2);
    }
    if params.final_pow_bits > 0 {
        match challenger.check_pow_witness(
            circuit,
            params.final_pow_bits,
            pieces.final_pow_witness,
        ) {
            Ok(_) => {},
            Err(e) => {
                return Err(e);
            },
        }
    } else {
        proof {
            transcript::lemma_replays_nothing(t2, c2);
        }
    }
    let ghost c3 = *circuit;
    let ghost t3 = challenger.log();
    let ghost poly_part = transcript::observed_ext(pieces.final_poly@);
    let ghost pow_part = pow_steps(params.final_pow_bits, pieces.final_pow_witness);
    assert(transcript::replays(t2, t3, c2, c3, pow_part));
    proof {
        c0.lemma_grows_on(c2, c3);
        c1.lemma_grows_on(c2, c3);
    }
    let shape: Dimensions = folded_dimensions(
        params.final_domain_size,
        params.final_sumcheck_rounds,
    );
    let index_width: usize = log2_strict(shape.height);
    let mut dimensions: Vec<Dimensions> = Vec::new();
    dimensions.push(shape);
    let generator: F = F::from_base(params.final_folded_domain_gen);
    let point: Vec<Target> = last_challenges(last_r.as_slice(), last_r.len(), is_suffix);
    let cap: &[Vec<Target>] = if rounds == 0 {
        initial_commitment_cap
    } else {
        pieces.rounds[rounds - 1].commitment_cap.as_slice()
    };
    proof {
        if rounds == 0 {
            lemma_has_rows_kept(c0, c3, initial_commitment_cap@);
        } else {
            assert(round_within(
                c0,
                params.round_params@[rounds - 1],
                pieces.rounds@[rounds - 1],
                pieces.folded_before((rounds - 1) as nat),
            ));
            lemma_has_rows_kept(c0, c3, pieces.rounds@[rounds - 1].commitment_cap@);
        }
        assert(seqs::rows(cap@) == pieces.cap_before(cap_rows, rounds as nat));
        lemma_has_all_kept(c1, c3, last_r@);
        assert forall|j: int| 0 <= j < point@.len() implies c3.has(#[trigger] point@[j]) by {
            let k = choose|k: int| 0 <= k < last_r@.len() && last_r@[k] == point@[j];
            assert(c3.has(last_r@[k]));
        }
        assert(point@.len() == last_r@.len());
        lemma_queries_kept(
            c0,
            c3,
            pieces.final_queries@,
            params.final_queries as nat,
            pieces.folded_before(rounds as nat),
        );
        lemma_has_all_kept(c0, c3, pieces.final_poly@);
    }
    let (final_indices, pairs) = match run_final_queries(
        circuit,
        challenger,
        paths,
        params.permutation_config,
        cap,
        &dimensions,
        index_width,
        generator,
        &pieces.final_queries,
        params.final_queries,
        &point,
        &pieces.final_poly,
        &mut ops,
    ) {
        Ok(answers) => answers,
        Err(e) => {
            return Err(e);
        },
    };
    let ghost c4 = *circuit;
    let ghost s4 = Session { transcript: challenger.log(), paths: paths.log() };
    let ghost round_end = claim;
    let ghost before_last = last_r@;
    let ghost before_all = all_r@;
    proof {
        c0.lemma_grows_on(c3, c4);
        c1.lemma_grows_on(c3, c4);
        if pieces.ends_in_sumcheck(*params) {
            lemma_sumcheck_kept(
                c0,
                c4,
                pieces.final_sumcheck->0,
                params.final_folding_pow_bits,
            );
        }
    }
    let (next, final_r) = match run_final_sumcheck(
        circuit,
        challenger,
        claim,
        &pieces.final_sumcheck,
        params.final_sumcheck_rounds,
        params.final_folding_pow_bits,
    ) {
        Ok(result) => result,
        Err(e) => {
            return Err(e);
        },
    };
    claim = next;
    let ghost last = if final_r is Some {
        (final_r->0)@
    } else {
        Seq::empty()
    };
    match final_r {
        Some(challenges) => {
            seqs::append_copy(&mut all_r, &challenges);
            last_r = challenges;
        },
        None => {},
    }
    let ghost sum_part = if pieces.ends_in_sumcheck(*params) {
        pieces.final_sumcheck->0.steps(params.final_folding_pow_bits, last, last.len())
    } else {
        Seq::empty()
    };
    let ghost c5 = *circuit;
    let ghost t5 = challenger.log();
    let ghost run = WhirRun {
        initial: partial@.initial,
        rounds: partial@.rounds,
        final_indices: final_indices@,
        last,
    };
    proof {
        assert(transcript::replays(s4.transcript, t5, c4, c5, sum_part));
        c0.lemma_grows_on(c4, c5);
        c1.lemma_grows_on(c4, c5);
        lemma_extended(*params, *pieces, cap_rows, partial@, run, rounds as nat);
        lemma_challenge_count(*params, *pieces, run, rounds as nat);
        assert(all_r@ =~= run.challenges(rounds as nat) + run.last);
        assert(last_r@ == end_challenges(*params, *pieces, run));
        lemma_has_all_kept(c0, c5, pieces.final_poly@);
        lemma_has_all_kept(c1, c5, before_all);
        lemma_has_all_kept(c1, c5, before_last);
        assert forall|j: int| 0 <= j < all_r@.len() implies c5.has(#[trigger] all_r@[j]) by {
            if j < before_all.len() {
                assert(c5.has(before_all[j]));
            } else {
                assert(c5.has(last[j - before_all.len()]));
            }
        }
        assert forall|c: int| 0 <= c < constraints@.len() implies {
            &&& (#[trigger] constraints@[c]).within(c5)
            &&& constraints@[c].fits(all_r@.len())
        } by {
            if c == 0 {
                lemma_has_rows_kept(c0, c5, initial_constraint.eq_points@);
                lemma_has_all_kept(c0, c5, initial_constraint.sel_scalars@);
            } else {
                assert(constraint_of(
                    c1,
                    params.round_params@[c - 1],
                    partial@.rounds[c - 1],
                    constraints@[c - 1 + 1],
                ));
                lemma_constraint_kept(
                    c1,
                    c5,
                    params.round_params@[c - 1],
                    partial@.rounds[c - 1],
                    constraints@[c],
                );
                let round = params.round_params@[c - 1];
                assert(round.ood_samples > 0 ==> round.num_variables <= pieces.challenge_count(
                    *params,
                ));
            }
        }
    }
    let expected = close(circuit, &pieces.final_poly, &all_r, &constraints, &last_r, is_suffix, claim);
    let ghost c9 = *circuit;
    proof {
        let none = Seq::<(ExprId, ExprId)>::empty();
        let no_checks = Seq::<PathCheck>::empty();
        let pair = seq![(claim, expected@)];
        let round_part = rounds_steps(*params, *pieces, run, rounds as nat);
        let round_checks = rounds_checks(*params, *pieces, cap_rows, run, rounds as nat);
        let final_checks = query_checks(
            params.permutation_config,
            pieces.cap_before(cap_rows, rounds as nat),
            shape,
            final_indices@,
            pieces.final_queries@,
            params.final_queries as nat,
        );
        let s3 = Session { transcript: t3, paths: s1.paths };
        let s5 = Session { transcript: t5, paths: s4.paths };
        let index_part = index_steps(final_indices@);
        session::lemma_replay_proceeds(s1.transcript, t2, s1.paths, c1, c2, poly_part);
        let s2 = Session { transcript: t2, paths: s1.paths };
        session::lemma_proceeds_on(
            s0,
            s1,
            s2,
            c0,
            c1,
            c2,
            (round_part, round_checks, none),
            (poly_part, no_checks, none),
        );
        assert(round_checks + no_checks =~= round_checks);
        assert(none + none =~= none);
        session::lemma_replay_proceeds(t2, t3, s1.paths, c2, c3, pow_part);
        session::lemma_proceeds_on(
            s0,
            s2,
            s3,
            c0,
            c2,
            c3,
            (round_part + poly_part, round_checks, none),
            (pow_part, no_checks, none),
        );
        session::lemma_proceeds_on(
            s0,
            s3,
            s4,
            c0,
            c3,
            c4,
            (round_part + poly_part + pow_part, round_checks, none),
            (index_part, final_checks, pairs@),
        );
        assert(none + pairs@ =~= pairs@);
        session::lemma_replay_proceeds(s4.transcript, t5, s4.paths, c4, c5, sum_part);
        let steps4 = round_part + poly_part + pow_part + index_part;
        let checks = round_checks + final_checks;
        session::lemma_proceeds_on(
            s0,
            s4,
            s5,
            c0,
            c4,
            c5,
            (steps4, checks, pairs@),
            (sum_part, no_checks, none),
        );
        assert(checks + no_checks =~= checks);
        assert(pairs@ + none =~= pairs@);
        let steps = steps4 + sum_part;
        session::lemma_connect_proceeds(s5, c5, c9, pair);
        session::lemma_proceeds_on(
            s0,
            s5,
            s5,
            c0,
            c5,
            c9,
            (steps, checks, pairs@),
            (Seq::empty(), no_checks, pair),
        );
        assert(steps + Seq::<TranscriptStep>::empty() =~= steps);
        assert(steps == whir_steps(*params, *pieces, run));
        assert(checks == whir_checks(*params, *pieces, cap_rows, run));
        let own = pairs@ + pair;
        c4.lemma_grows_on(c5, c9);
        c1.lemma_grows_on(c5, c9);
        c0.lemma_grows_on(c5, c9);
        c9.lemma_grows_to_itself();
        assert forall|env: spec_fn(int) -> F| #[trigger] c9.satisfied(env) <==> c0.satisfied(env)
            && agree(
            c9,
            env,
            transcript::beyond(s0.transcript.asserted, s5.transcript.asserted),
        ) && agree(c9, env, transcript::beyond(s0.paths.asserted, s5.paths.asserted)) && accepts(
            c9,
            env,
            *params,
            *pieces,
            initial_constraint,
            initial_claimed_eval,
            run,
        ) by {
            lemma_satisfied(
                c0,
                c9,
                env,
                transcript::beyond(s0.transcript.asserted, s5.transcript.asserted),
                transcript::beyond(s0.paths.asserted, s5.paths.asserted),
                own,
            );
            lemma_accepts(
                c1,
                c4,
                c5,
                c9,
                env,
                *params,
                *pieces,
                initial_constraint,
                initial_claimed_eval,
                run,
                partial@,
                constraints@,
                pairs@,
                round_end,
                claim,
                expected@,
            );
        }
        session::lemma_beyond_on(s0.paths.issued, s1.paths.issued, s4.paths.issued);
        assert(ops@ =~= transcript::beyond(s0.paths.issued, s4.paths.issued));
        if params.permutation_config is None {
            law_no_permutation_no_checks(*params, *pieces, cap_rows, run);
            assert(s5.paths == s0.paths);
        }
        assert(laid_out(
            s0,
            s5,
            c0,
            c9,
            *params,
            *pieces,
            cap_rows,
            initial_constraint,
            initial_claimed_eval,
            run,
        ));
    }
    assert(laid_out(
        Session { transcript: old(challenger).log(), paths: old(paths).log() },
        Session { transcript: challenger.log(), paths: paths.log() },
        *old(circuit),
        *circuit,
        *params,
        *pieces,
        seqs::rows(initial_commitment_cap@),
        initial_constraint,
        initial_claimed_eval,
        run,
    ));
    Ok(ops)
}

/// Replays the final sumcheck, if there is one. Returns the claim and the challenges.
fn run_final_sumcheck<F: Field, Ch: RecursiveChallenger<F>>(
    circuit: &mut CircuitBuilder<F>,
    challenger: &mut Ch,
    claim: Target,
    data: &Option<SumcheckTargets>,
    rounds: usize,
    pow_bits: usize,
) -> (r: Result<(Target, Option<Vec<Target>>), CircuitBuilderError>)
    requires
        old(circuit).wf(),
        old(circuit).has(claim),
        rounds > 0 && *data is Some ==> (data->0).within(*old(circuit), pow_bits),
    ensures
        match r {
            Ok((next, None)) => {
                &&& rounds == 0 || *data is None
                &&& next == claim
                &&& *final(circuit) == *old(circuit)
                &&& transcript::replays(
                    old(challenger).log(),
                    final(challenger).log(),
                    *old(circuit),
                    *final(circuit),
                    Seq::empty(),
                )
            },
            Ok((next, Some(challenges))) => {
                &&& rounds > 0
                &&& *data is Some
                &&& challenges@.len() == (data->0).round_polys@.len()
                &&& final(circuit).has(next)
                &&& final(circuit).has_all(challenges@)
                &&& transcript::replays(
                    old(challenger).log(),
                    final(challenger).log(),
                    *old(circuit),
                    *final(circuit),
                    (data->0).steps(pow_bits, challenges@, challenges@.len()),
                )
                &&& forall|later: CircuitBuilder<F>, env: spec_fn(int) -> F|
                    final(circuit).grows_to(later) ==> #[trigger] later.value(env, next) == (
                    data->0).claim(
                        later,
                        env,
                        later.value(env, claim),
                        challenges@,
                        challenges@.len(),
                    )
            },
            Err(e) => final(challenger).log().failures == old(challenger).log().failures.push(e),
        },
{
    proof {
        transcript::lemma_replays_nothing(challenger.log(), *circuit);
    }
    if rounds == 0 {
        return Ok((claim, None));
    }
    match data {
        Some(data) => match verify_sumcheck_rounds(circuit, challenger, claim, data, pow_bits) {
            Ok((next, challenges)) => Ok((next, Some(challenges))),
            Err(e) => Err(e),
        },
        None => Ok((claim, None)),
    }
}

/// Connects the claim with `W(r)·f(r)`. Returns the expression of the latter.
fn close<F: Field>(
    circuit: &mut CircuitBuilder<F>,
    final_poly: &Vec<Target>,
    all_r: &Vec<Target>,
    constraints: &Vec<ConstraintWeightData>,
    last_r: &Vec<Target>,
    is_suffix: bool,
    claim: Target,
) -> (r: Ghost<Target>)
    requires
        old(circuit).wf(),
        old(circuit).has_all(final_poly@),
        old(circuit).has_all(all_r@),
        old(circuit).has_all(last_r@),
        final_poly@.len() == pow2(last_r@.len()),
        old(circuit).has(claim),
        forall|c: int|
            0 <= c < constraints@.len() ==> {
                &&& (#[trigger] constraints@[c]).within(*old(circuit))
                &&& constraints@[c].fits(all_r@.len())
            },
    ensures
        old(circuit).grows_to(*final(circuit)),
        final(circuit).connections@ == old(circuit).connections@ + seq![(claim, r@)],
        forall|env: spec_fn(int) -> F| #[trigger]
            final(circuit).value(env, r@) == whir_gadgets::weight_sum(
                *old(circuit),
                env,
                constraints@,
                final(circuit).values(env, all_r@),
                is_suffix,
                constraints@.len(),
            ).sp_mul(
                whir_gadgets::multilinear(
                    final(circuit).values(env, final_poly@),
                    final(circuit).values(env, ordered_point(last_r@, is_suffix)),
                ),
            ),
{
    let ghost c5 = *circuit;
    let weights: Target = eval_constraints_poly_circuit(
        circuit,
        all_r.as_slice(),
        constraints.as_slice(),
        is_suffix,
    );
    let ghost c6 = *circuit;
    let end_point: Vec<Target> = last_challenges(last_r.as_slice(), last_r.len(), is_suffix);
    proof {
        lemma_has_all_kept(c5, c6, final_poly@);
        lemma_has_all_kept(c5, c6, last_r@);
        assert forall|j: int| 0 <= j < end_point@.len() implies c6.has(#[trigger] end_point@[j]) by {
            let k = choose|k: int| 0 <= k < last_r@.len() && last_r@[k] == end_point@[j];
            assert(c6.has(last_r@[k]));
        }
        assert(end_point@.len() == last_r@.len());
    }
    let value: Target = eval_multilinear(circuit, final_poly.as_slice(), end_point.as_slice());
    let ghost c7 = *circuit;
    let expected: Target = circuit.mul(weights, value);
    let ghost c8 = *circuit;
    proof {
        c6.lemma_grows_on(c7, c8);
        c5.lemma_grows_on(c6, c8);
    }
    circuit.connect(claim, expected);
    proof {
        let c9 = *circuit;
        assert(c9.connections@ =~= c5.connections@ + seq![(claim, expected)]);
        c7.lemma_grows_on(c8, c9);
        c6.lemma_grows_on(c7, c9);
        c5.lemma_grows_on(c6, c9);
        assert forall|env: spec_fn(int) -> F| #[trigger]
            c9.value(env, expected) == whir_gadgets::weight_sum(
                c5,
                env,
                constraints@,
                c9.values(env, all_r@),
                is_suffix,
                constraints@.len(),
            ).sp_mul(
                whir_gadgets::multilinear(
                    c9.values(env, final_poly@),
                    c9.values(env, end_point@),
                ),
            ) by {
            whir_gadgets::lemma_values_kept(c5, c9, env, all_r@);
            whir_gadgets::lemma_values_kept(c6, c9, env, final_poly@);
            whir_gadgets::lemma_values_kept(c6, c9, env, end_point@);
            assert(c7.value(env, weights) == c6.value(env, weights));
            assert(c9.value(env, expected) == c8.value(env, expected));
        }
    }
    Ghost(expected)
}

/// The connections that the verifier makes hold exactly if the proof is accepted.
proof fn lemma_accepts<BF: Field, F: ExtensionField<BF>>(
    c1: CircuitBuilder<F>,
    c4: CircuitBuilder<F>,
    c5: CircuitBuilder<F>,
    c9: CircuitBuilder<F>,
    env: spec_fn(int) -> F,
    params: WhirVerifierParams<BF>,
    pieces: WhirProofTargets,
    initial: ConstraintWeightData,
    initial_claim: Target,
    run: WhirRun,
    partial: WhirRun,
    constraints: Seq<ConstraintWeightData>,
    pairs: Seq<(ExprId, ExprId)>,
    round_end: Target,
    claim: Target,
    expected: Target,
)
    requires
        c1.grows_to(c9),
        c4.grows_to(c9),
        c5.grows_to(c9),
        extends(partial, run),
        partial.rounds == run.rounds,
        run.rounds.len() == params.round_params@.len(),
        constraints.len() == params.round_params@.len() + 1,
        constraints[0] == initial,
        initial.within(c5),
        forall|i: int|
            0 <= i < params.round_params@.len() ==> constraint_of(
                c5,
                params.round_params@[i],
                #[trigger] run.rounds[i],
                constraints[i + 1],
            ),
        pairs.len() == params.final_queries,
        final_pairs(
            c4,
            pairs,
            pieces.final_queries@,
            ordered_point(
                run.folding_before(params.round_params@.len()),
                params.variable_order == VariableOrder::Suffix,
            ),
            pieces.final_poly@,
            F::sp_from_base(params.final_folded_domain_gen),
            run.final_indices,
        ),
        c9.value(env, round_end) == rounds_claim(
            c9,
            env,
            params,
            pieces,
            partial,
            c9.value(env, initial_claim),
            params.round_params@.len(),
        ),
        c9.value(env, claim) == (if pieces.ends_in_sumcheck(params) {
            pieces.final_sumcheck->0.claim(
                c9,
                env,
                c9.value(env, round_end),
                run.last,
                run.last.len(),
            )
        } else {
            c9.value(env, round_end)
        }),
        c9.value(env, expected) == whir_gadgets::weight_sum(
            c5,
            env,
            constraints,
            c9.values(env, run.challenges(params.round_params@.len()) + run.last),
            params.variable_order == VariableOrder::Suffix,
            constraints.len(),
        ).sp_mul(
            whir_gadgets::multilinear(
                c9.values(env, pieces.final_poly@),
                c9.values(
                    env,
                    ordered_point(
                        end_challenges(params, pieces, run),
                        params.variable_order == VariableOrder::Suffix,
                    ),
                ),
            ),
        ),
    ensures
        agree(c9, env, pairs + seq![(claim, expected)]) <==> accepts(
            c9,
            env,
            params,
            pieces,
            initial,
            initial_claim,
            run,
        ),
{
    let rounds = params.round_params@.len();
    let own = pairs + seq![(claim, expected)];
    let is_suffix = params.variable_order == VariableOrder::Suffix;
    let point = ordered_point(run.folding_before(rounds), is_suffix);
    lemma_extended_claim(
        c9,
        env,
        params,
        pieces,
        partial,
        run,
        c9.value(env, initial_claim),
        rounds,
    );
    lemma_total_weight(
        c5,
        c9,
        env,
        params,
        initial,
        run,
        constraints,
        c9.values(env, run.challenges(rounds) + run.last),
        rounds,
    );
    let generator = F::sp_from_base(params.final_folded_domain_gen);
    assert forall|q: int| 0 <= q < pairs.len() implies {
        &&& c9.value(env, (#[trigger] own[q]).0) == fold_at(
            c9,
            env,
            pieces.final_queries@[q].leaf(),
            point,
        )
        &&& c9.value(env, own[q].1) == final_value(
            c9,
            env,
            pieces.final_poly@,
            generator,
            run.final_indices[q],
        )
    } by {
        assert(own[q] == pairs[q]);
        assert(c9.value(env, pairs[q].0) == fold_at(
            c9,
            env,
            pieces.final_queries@[q].leaf(),
            point,
        ));
        assert(c9.value(env, pairs[q].1) == final_value(
            c9,
            env,
            pieces.final_poly@,
            generator,
            run.final_indices[q],
        ));
    }
    assert(own[pairs.len() as int] == (claim, expected));
    if agree(c9, env, own) {
        assert forall|q: int| 0 <= q < params.final_queries implies fold_at(
            c9,
            env,
            (#[trigger] pieces.final_queries@[q]).leaf(),
            point,
        ) == final_value(c9, env, pieces.final_poly@, generator, run.final_indices[q]) by {
            assert(c9.value(env, own[q].0) == c9.value(env, own[q].1));
        }
    }
    if accepts(c9, env, params, pieces, initial, initial_claim, run) {
        assert forall|k: int| 0 <= k < own.len() implies c9.value(env, (#[trigger] own[k]).0)
            == c9.value(env, own[k].1) by {
            if k < pairs.len() {
                assert(fold_at(c9, env, pieces.final_queries@[k].leaf(), point) == final_value(
                    c9,
                    env,
                    pieces.final_poly@,
                    generator,
                    run.final_indices[k],
                ));
            }
        }
    }
}

/// With challenges from public inputs and deferred openings, the circuit decides exactly what the
/// verification decides: an assignment satisfies it if and only if it satisfied the circuit before
/// and the proof is accepted.
pub proof fn law_circuit_decides_acceptance<BF: Field, F: ExtensionField<BF>>(
    transcript: InputChallenger,
    paths: DeferredPaths,
    later_transcript: InputChallenger,
    later_paths: DeferredPaths,
    start: CircuitBuilder<F>,
    circuit: CircuitBuilder<F>,
    params: WhirVerifierParams<BF>,
    pieces: WhirProofTargets,
    cap: Seq<Seq<Target>>,
    initial: ConstraintWeightData,
    initial_claim: Target,
    run: WhirRun,
    env: spec_fn(int) -> F,
)
    requires
        laid_out(
            Session { transcript: transcript.account(), paths: paths.account() },
            Session { transcript: later_transcript.account(), paths: later_paths.account() },
            start,
            circuit,
            params,
            pieces,
            cap,
            initial,
            initial_claim,
            run,
        ),
    ensures
        circuit.satisfied(env) <==> start.satisfied(env) && accepts(
            circuit,
            env,
            params,
            pieces,
            initial,
            initial_claim,
            run,
        ),
{
    transcript.lemma_account();
    later_transcript.lemma_account();
}

} // verus!
