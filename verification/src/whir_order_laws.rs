//! The order of the transcript and of the openings of a WHIR verification.

use vstd::arithmetic::power2::*;
use vstd::prelude::*;

use crate::config::PermConfig;
use crate::merkle::Dimensions;
use crate::path_checks::PathCheck;
use crate::replay_laws::joined;
use crate::seqs;
use crate::transcript;
use crate::transcript::TranscriptStep;
use crate::types::Target;
use crate::whir_params::{WhirRoundParams, WhirVerifierParams};
use crate::whir_sumcheck::SumcheckTargets;
use crate::whir_verifier;
use crate::whir_verifier::{
    QueryOpeningTargets, RoundRun, WhirProofTargets, WhirRoundTargets, WhirRun,
};

verus! {

/// The digests of a cap are absorbed element by element.
pub open spec fn cap_absorbed(cap: Seq<Vec<Target>>) -> Seq<TranscriptStep> {
    let elements = joined(cap.len(), |d: int| cap[d]@);
    Seq::new(elements.len(), |e: int| TranscriptStep::Observe(elements[e]))
}

/// Samples and answers take turns.
pub open spec fn sampled_and_answered(samples: Seq<Target>, answers: Seq<Target>, n: nat) -> Seq<
    TranscriptStep,
> {
    Seq::new(
        2 * n,
        |k: int|
            if k % 2 == 0 {
                TranscriptStep::SampleExt(samples[k / 2])
            } else {
                TranscriptStep::ObserveExt(answers[k / 2])
            },
    )
}

/// Each round of a sumcheck absorbs two messages, checks its work where there is any, and draws a
/// challenge.
pub open spec fn sumcheck_turns(
    sumcheck: SumcheckTargets,
    bits: usize,
    challenges: Seq<Target>,
) -> Seq<TranscriptStep> {
    if bits > 0 {
        Seq::new(
            4 * challenges.len(),
            |k: int|
                if k % 4 == 0 {
                    TranscriptStep::ObserveExt(sumcheck.round_polys@[k / 4][0])
                } else if k % 4 == 1 {
                    TranscriptStep::ObserveExt(sumcheck.round_polys@[k / 4][1])
                } else if k % 4 == 2 {
                    TranscriptStep::CheckPow(bits, sumcheck.pow_witnesses@[k / 4])
                } else {
                    TranscriptStep::SampleExt(challenges[k / 4])
                },
        )
    } else {
        Seq::new(
            3 * challenges.len(),
            |k: int|
                if k % 3 == 0 {
                    TranscriptStep::ObserveExt(sumcheck.round_polys@[k / 3][0])
                } else if k % 3 == 1 {
                    TranscriptStep::ObserveExt(sumcheck.round_polys@[k / 3][1])
                } else {
                    TranscriptStep::SampleExt(challenges[k / 3])
                },
        )
    }
}

/// A proof of work, where there is any.
pub open spec fn worked(bits: usize, witness: Target) -> Seq<TranscriptStep> {
    if bits == 0 {
        Seq::empty()
    } else {
        Seq::new(1, |k: int| TranscriptStep::CheckPow(bits, witness))
    }
}

/// Query indices are drawn one by one.
pub open spec fn indices_drawn(indices: Seq<Seq<Target>>) -> Seq<TranscriptStep> {
    Seq::new(indices.len(), |q: int| TranscriptStep::SampleBits(indices[q]))
}

/// A round absorbs its commitment before anything is drawn against it, takes turns with the
/// out-of-domain answers, checks its work before the query indices are drawn, draws the batching
/// challenge after the indices, and ends with its sumcheck.
pub open spec fn round_turns<BF>(
    shape: WhirRoundParams<BF>,
    round: WhirRoundTargets,
    run: RoundRun,
) -> Seq<TranscriptStep> {
    cap_absorbed(round.commitment_cap@) + sampled_and_answered(
        run.univariate,
        round.ood_answers@,
        shape.ood_samples as nat,
    ) + worked(shape.pow_bits, round.pow_witness) + Seq::new(
        1,
        |k: int| TranscriptStep::Sample(run.checkpoint),
    ) + indices_drawn(run.indices) + Seq::new(
        1,
        |k: int| TranscriptStep::SampleExt(run.gamma),
    ) + sumcheck_turns(round.sumcheck, shape.folding_pow_bits, run.folding)
}

proof fn lemma_cap(cap: Seq<Vec<Target>>, n: nat)
    requires
        n <= cap.len(),
    ensures
        whir_verifier::cap_steps(seqs::rows(cap), n) == ({
            let elements = joined(n, |d: int| cap[d]@);
            Seq::new(elements.len(), |e: int| TranscriptStep::Observe(elements[e]))
        }),
    decreases n,
{
    let f = |d: int| cap[d]@;
    let elements = joined(n, f);
    let all = Seq::new(elements.len(), |e: int| TranscriptStep::Observe(elements[e]));
    if n > 0 {
        lemma_cap(cap, (n - 1) as nat);
        assert(whir_verifier::cap_steps(seqs::rows(cap), n) =~= all);
    } else {
        assert(whir_verifier::cap_steps(seqs::rows(cap), n) =~= all);
    }
}

proof fn lemma_ood(samples: Seq<Target>, answers: Seq<Target>, n: nat)
    ensures
        whir_verifier::ood_steps(samples, answers, n) == sampled_and_answered(samples, answers, n),
    decreases n,
{
    if n > 0 {
        lemma_ood(samples, answers, (n - 1) as nat);
    }
    assert(whir_verifier::ood_steps(samples, answers, n) =~= sampled_and_answered(
        samples,
        answers,
        n,
    ));
}

proof fn lemma_turns(sumcheck: SumcheckTargets, bits: usize, challenges: Seq<Target>, n: nat)
    requires
        n <= challenges.len(),
    ensures
        sumcheck.steps(bits, challenges, n) == sumcheck_turns(
            sumcheck,
            bits,
            challenges.take(n as int),
        ),
    decreases n,
{
    if n > 0 {
        lemma_turns(sumcheck, bits, challenges, (n - 1) as nat);
    }
    assert(sumcheck.steps(bits, challenges, n) =~= sumcheck_turns(
        sumcheck,
        bits,
        challenges.take(n as int),
    ));
}

proof fn lemma_round_turns<BF>(
    shape: WhirRoundParams<BF>,
    round: WhirRoundTargets,
    run: RoundRun,
)
    ensures
        whir_verifier::round_steps(shape, round, run) == round_turns(shape, round, run),
{
    lemma_cap(round.commitment_cap@, round.commitment_cap@.len());
    lemma_ood(run.univariate, round.ood_answers@, shape.ood_samples as nat);
    lemma_turns(round.sumcheck, shape.folding_pow_bits, run.folding, run.folding.len());
    assert(run.folding.take(run.folding.len() as int) =~= run.folding);
    assert(whir_verifier::pow_steps(shape.pow_bits, round.pow_witness) =~= worked(
        shape.pow_bits,
        round.pow_witness,
    ));
    assert(seq![TranscriptStep::Sample(run.checkpoint)] =~= Seq::new(
        1,
        |k: int| TranscriptStep::Sample(run.checkpoint),
    ));
    assert(seq![TranscriptStep::SampleExt(run.gamma)] =~= Seq::new(
        1,
        |k: int| TranscriptStep::SampleExt(run.gamma),
    ));
    assert(whir_verifier::index_steps(run.indices) =~= indices_drawn(run.indices));
}

proof fn lemma_rounds<BF>(
    params: WhirVerifierParams<BF>,
    pieces: WhirProofTargets,
    run: WhirRun,
    n: nat,
)
    ensures
        whir_verifier::rounds_steps(params, pieces, run, n) == sumcheck_turns(
            pieces.initial_sumcheck,
            params.starting_folding_pow_bits,
            run.initial,
        ) + joined(
            n,
            |i: int| round_turns(params.round_params@[i], pieces.rounds@[i], run.rounds[i]),
        ),
    decreases n,
{
    let f = |i: int| round_turns(params.round_params@[i], pieces.rounds@[i], run.rounds[i]);
    let first = sumcheck_turns(
        pieces.initial_sumcheck,
        params.starting_folding_pow_bits,
        run.initial,
    );
    if n == 0 {
        lemma_turns(
            pieces.initial_sumcheck,
            params.starting_folding_pow_bits,
            run.initial,
            run.initial.len(),
        );
        assert(run.initial.take(run.initial.len() as int) =~= run.initial);
        assert(first + joined(0, f) =~= first);
    } else {
        lemma_rounds(params, pieces, run, (n - 1) as nat);
        lemma_round_turns(params.round_params@[n - 1], pieces.rounds@[n - 1], run.rounds[n - 1]);
        assert(first + joined(n, f) =~= first + joined((n - 1) as nat, f) + f(n - 1));
    }
}

/// The transcript of a WHIR verification: the initial sumcheck, the rounds one after the other, the
/// final polynomial, the final proof of work, the final query indices, and the final sumcheck where
/// there is one.
pub proof fn law_whir_transcript<BF>(
    params: WhirVerifierParams<BF>,
    pieces: WhirProofTargets,
    run: WhirRun,
)
    ensures
        whir_verifier::whir_steps(params, pieces, run) == sumcheck_turns(
            pieces.initial_sumcheck,
            params.starting_folding_pow_bits,
            run.initial,
        ) + joined(
            params.round_params@.len(),
            |i: int| round_turns(params.round_params@[i], pieces.rounds@[i], run.rounds[i]),
        ) + Seq::new(
            pieces.final_poly@.len(),
            |k: int| TranscriptStep::ObserveExt(pieces.final_poly@[k]),
        ) + worked(params.final_pow_bits, pieces.final_pow_witness) + indices_drawn(
            run.final_indices,
        ) + (if params.final_sumcheck_rounds > 0 && pieces.final_sumcheck is Some {
            sumcheck_turns(pieces.final_sumcheck->0, params.final_folding_pow_bits, run.last)
        } else {
            Seq::empty()
        }),
{
    lemma_rounds(params, pieces, run, params.round_params@.len());
    assert(transcript::observed_ext(pieces.final_poly@) =~= Seq::new(
        pieces.final_poly@.len(),
        |k: int| TranscriptStep::ObserveExt(pieces.final_poly@[k]),
    ));
    assert(whir_verifier::pow_steps(params.final_pow_bits, pieces.final_pow_witness) =~= worked(
        params.final_pow_bits,
        pieces.final_pow_witness,
    ));
    assert(whir_verifier::index_steps(run.final_indices) =~= indices_drawn(run.final_indices));
    if pieces.ends_in_sumcheck(params) {
        lemma_turns(
            pieces.final_sumcheck->0,
            params.final_folding_pow_bits,
            run.last,
            run.last.len(),
        );
        assert(run.last.take(run.last.len() as int) =~= run.last);
    }
}

/// The commitment that is opened once `n` rounds are over: that of the last of them, or the initial
/// one.
pub open spec fn newest_cap(
    pieces: WhirProofTargets,
    initial: Seq<Seq<Target>>,
    n: nat,
) -> Seq<Seq<Target>> {
    if n == 0 {
        initial
    } else {
        Seq::new(
            pieces.rounds@[n - 1].commitment_cap@.len(),
            |d: int| pieces.rounds@[n - 1].commitment_cap@[d]@,
        )
    }
}

/// The opening of one query: a leaf of `2^folding` elements in a matrix with one row for each
/// folded domain point.
pub open spec fn opening_of(
    permutation: PermConfig,
    cap: Seq<Seq<Target>>,
    domain_size: usize,
    folding: usize,
    index_bits: Seq<Target>,
    query: QueryOpeningTargets,
) -> PathCheck {
    PathCheck {
        permutation,
        cap,
        dimensions: seq![
            Dimensions {
                width: pow2(folding as nat) as usize,
                height: (domain_size as nat / pow2(folding as nat)) as usize,
            },
        ],
        index_bits,
        leaf: match query {
            QueryOpeningTargets::Base { leaf_values } => leaf_values@,
            QueryOpeningTargets::Extension { leaf_values } => leaf_values@,
        },
        extension: query is Extension,
    }
}

/// How many queries the first `n` rounds make.
pub open spec fn queries_before<BF>(params: WhirVerifierParams<BF>, n: nat) -> nat
    decreases n,
{
    if n == 0 {
        0
    } else {
        queries_before(params, (n - 1) as nat) + params.round_params@[n - 1].num_queries as nat
    }
}

proof fn lemma_query_checks(
    permutation: PermConfig,
    cap: Seq<Seq<Target>>,
    domain_size: usize,
    folding: usize,
    indices: Seq<Seq<Target>>,
    queries: Seq<QueryOpeningTargets>,
    n: nat,
)
    ensures
        ({
            let checks = whir_verifier::query_checks(
                Some(permutation),
                cap,
                crate::whir_params::folded_shape(domain_size, folding),
                indices,
                queries,
                n,
            );
            &&& checks.len() == n
            &&& forall|q: int|
                0 <= q < n ==> #[trigger] checks[q] == opening_of(
                    permutation,
                    cap,
                    domain_size,
                    folding,
                    indices[q],
                    queries[q],
                )
        }),
    decreases n,
{
    if n > 0 {
        lemma_query_checks(
            permutation,
            cap,
            domain_size,
            folding,
            indices,
            queries,
            (n - 1) as nat,
        );
    }
}

/// The opening of query `q` of round `i` stands at its place.
pub open spec fn round_query_opened<BF>(
    params: WhirVerifierParams<BF>,
    pieces: WhirProofTargets,
    cap: Seq<Seq<Target>>,
    run: WhirRun,
    checks: Seq<PathCheck>,
    i: int,
    q: int,
) -> bool {
    let shape = params.round_params@[i];
    let place = queries_before(params, i as nat) + q;
    &&& 0 <= place < checks.len()
    &&& checks[place] == opening_of(
        params.permutation_config->0,
        newest_cap(pieces, cap, i as nat),
        shape.domain_size,
        shape.folding_factor,
        run.rounds[i].indices[q],
        pieces.rounds@[i].queries@[q],
    )
}

proof fn lemma_round_checks<BF>(
    params: WhirVerifierParams<BF>,
    pieces: WhirProofTargets,
    cap: Seq<Seq<Target>>,
    run: WhirRun,
    n: nat,
)
    requires
        params.permutation_config is Some,
    ensures
        ({
            let checks = whir_verifier::rounds_checks(params, pieces, cap, run, n);
            &&& checks.len() == queries_before(params, n)
            &&& forall|i: int, q: int|
                0 <= i < n && 0 <= q < params.round_params@[i].num_queries
                    ==> #[trigger] round_query_opened(params, pieces, cap, run, checks, i, q)
        }),
    decreases n,
{
    if n > 0 {
        let k = n - 1;
        lemma_round_checks(params, pieces, cap, run, k as nat);
        let shape = params.round_params@[k];
        let before = whir_verifier::rounds_checks(params, pieces, cap, run, k as nat);
        let checks = whir_verifier::rounds_checks(params, pieces, cap, run, n);
        assert(pieces.cap_before(cap, k as nat) =~= newest_cap(pieces, cap, k as nat));
        lemma_query_checks(
            params.permutation_config->0,
            newest_cap(pieces, cap, k as nat),
            shape.domain_size,
            shape.folding_factor,
            run.rounds[k].indices,
            pieces.rounds@[k].queries@,
            shape.num_queries as nat,
        );
        assert forall|i: int, q: int|
            0 <= i < n && 0 <= q
                < params.round_params@[i].num_queries implies #[trigger] round_query_opened(
            params,
            pieces,
            cap,
            run,
            checks,
            i,
            q,
        ) by {
            if i < k {
                assert(round_query_opened(params, pieces, cap, run, before, i, q));
            }
        }
    }
}

/// Each query hands over one opening, in the order of the rounds and queries, the final queries
/// last. It opens the newest commitment at the index drawn for the query.
pub proof fn law_whir_openings<BF>(
    params: WhirVerifierParams<BF>,
    pieces: WhirProofTargets,
    cap: Seq<Seq<Target>>,
    run: WhirRun,
)
    requires
        params.permutation_config is Some,
    ensures
        ({
            let checks = whir_verifier::whir_checks(params, pieces, cap, run);
            let n = params.round_params@.len();
            let made = queries_before(params, n) as int;
            &&& checks.len() == made + params.final_queries
            &&& forall|i: int, q: int|
                0 <= i < n && 0 <= q < params.round_params@[i].num_queries
                    ==> #[trigger] round_query_opened(params, pieces, cap, run, checks, i, q)
            &&& forall|q: int|
                0 <= q < params.final_queries ==> checks[made + q] == opening_of(
                    params.permutation_config->0,
                    newest_cap(pieces, cap, n),
                    params.final_domain_size,
                    params.final_sumcheck_rounds,
                    run.final_indices[q],
                    #[trigger] pieces.final_queries@[q],
                )
        }),
{
    let n = params.round_params@.len();
    lemma_round_checks(params, pieces, cap, run, n);
    assert(pieces.cap_before(cap, n) =~= newest_cap(pieces, cap, n));
    lemma_query_checks(
        params.permutation_config->0,
        newest_cap(pieces, cap, n),
        params.final_domain_size,
        params.final_sumcheck_rounds,
        run.final_indices,
        pieces.final_queries@,
        params.final_queries as nat,
    );
    let before = whir_verifier::rounds_checks(params, pieces, cap, run, n);
    let checks = whir_verifier::whir_checks(params, pieces, cap, run);
    assert forall|i: int, q: int|
        0 <= i < n && 0 <= q
            < params.round_params@[i].num_queries implies #[trigger] round_query_opened(
        params,
        pieces,
        cap,
        run,
        checks,
        i,
        q,
    ) by {
        assert(round_query_opened(params, pieces, cap, run, before, i, q));
    }
}

} // verus!
