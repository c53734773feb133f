//! What a replay hands back: every challenge and claim, each in its place.

use vstd::prelude::*;

use crate::fri_witness::TwoAdicMultiplicativeCoset;
use crate::generation;
use crate::generation::{
    BatchFriWitnessContext, CommitmentWithOpenings, FriReplayed, FriTranscriptChallenges, Round,
};
use crate::stark_generation;

verus! {

/// The handed back values are the replayed ones, place by place.
pub open spec fn hands_back<EF, S>(
    alpha: EF,
    betas: Seq<EF>,
    query_indices: Seq<usize>,
    replay: FriReplayed<EF, S>,
) -> bool {
    &&& alpha == replay.alpha
    &&& betas.len() == replay.last.betas.len()
    &&& forall|i: int| 0 <= i < betas.len() ==> #[trigger] betas[i] == replay.last.betas[i]
    &&& query_indices.len() == replay.last.query_indices.len()
    &&& forall|q: int|
        0 <= q < query_indices.len() ==> (#[trigger] query_indices[q]) as nat
            == replay.last.query_indices[q]
}

/// The challenges of a FRI replay are the batching challenge, the folding challenges in the order of
/// their phases, the queries in drawing order, and the values for the circuit in the same order.
pub proof fn law_challenges_are_handed_back<EF, S>(
    r: FriTranscriptChallenges<EF>,
    replay: FriReplayed<EF, S>,
)
    ensures
        generation::records(r, replay) <==> {
            &&& hands_back(r.alpha, r.betas@, r.query_indices@, replay)
            &&& r.public_values@.len() == replay.last.public_values.len()
            &&& forall|i: int|
                0 <= i < r.public_values@.len() ==> #[trigger] r.public_values@[i]
                    == replay.last.public_values[i]
        },
{
    let indices = generation::nat_indices(r.query_indices@);
    if generation::records(r, replay) {
        assert forall|q: int| 0 <= q < r.query_indices@.len() implies (
        #[trigger] r.query_indices@[q]) as nat == replay.last.query_indices[q] by {
            assert(indices[q] == r.query_indices@[q] as nat);
        }
    } else if hands_back(r.alpha, r.betas@, r.query_indices@, replay) {
        assert(r.betas@ =~= replay.last.betas);
        assert(indices =~= replay.last.query_indices);
        if r.public_values@.len() == replay.last.public_values.len() && forall|i: int|
            0 <= i < r.public_values@.len() ==> #[trigger] r.public_values@[i]
                == replay.last.public_values[i] {
            assert(r.public_values@ =~= replay.last.public_values);
        }
    }
}

/// A matrix of a context claims what a matrix of a round claims: the domain, the points in order, and
/// the values at each.
pub open spec fn same_claims<F, EF>(
    context: BatchFriWitnessContext<TwoAdicMultiplicativeCoset<F>, EF>,
    rounds: Seq<Round<F, EF>>,
    b: int,
    m: int,
) -> bool {
    let matrix = context.input_batches@[b]@[m];
    let claims = rounds[b].matrices[m];
    &&& matrix.domain == claims.domain
    &&& matrix.points_and_values@.len() == claims.points.len()
    &&& forall|p: int|
        0 <= p < claims.points.len() ==> {
            &&& (#[trigger] matrix.points_and_values@[p]).0 == claims.points[p].0
            &&& matrix.points_and_values@[p].1@ == claims.points[p].1
        }
}

/// The context for expanding multiproofs holds the challenges of the replay and, batch by batch and
/// matrix by matrix in the order of the rounds, what the rounds claim.
pub proof fn law_context_is_handed_back<F, EF, S>(
    context: BatchFriWitnessContext<TwoAdicMultiplicativeCoset<F>, EF>,
    fri: FriReplayed<EF, S>,
    rounds: Seq<Round<F, EF>>,
)
    requires
        stark_generation::context_records(context, fri, rounds),
    ensures
        hands_back(context.alpha, context.betas@, context.query_indices@, fri),
        context.input_batches@.len() == rounds.len(),
        forall|b: int|
            0 <= b < rounds.len() ==> (#[trigger] context.input_batches@[b])@.len()
                == rounds[b].matrices.len(),
        forall|b: int, m: int|
            0 <= b < rounds.len() && 0 <= m < rounds[b].matrices.len() ==> #[trigger] same_claims(
                context,
                rounds,
                b,
                m,
            ),
{
    let indices = generation::nat_indices(context.query_indices@);
    assert forall|q: int| 0 <= q < context.query_indices@.len() implies (
    #[trigger] context.query_indices@[q]) as nat == fri.last.query_indices[q] by {
        assert(indices[q] == context.query_indices@[q] as nat);
    }
    let models = stark_generation::batch_models(context.input_batches@);
    let batches = stark_generation::batches_of(rounds);
    assert(models.len() == batches.len());
    assert forall|b: int| 0 <= b < rounds.len() implies (
    #[trigger] context.input_batches@[b])@.len() == rounds[b].matrices.len() by {
        assert(models[b] == batches[b]);
        assert(models[b] == generation::matrix_models(context.input_batches@[b]@));
    }
    assert forall|b: int, m: int|
        0 <= b < rounds.len() && 0 <= m < rounds[b].matrices.len() implies #[trigger] same_claims(
        context,
        rounds,
        b,
        m,
    ) by {
        assert(models[b] == batches[b]);
        assert(models[b] == generation::matrix_models(context.input_batches@[b]@));
        let matrix = context.input_batches@[b]@[m];
        assert(models[b][m] == generation::claims_of(matrix));
        assert forall|p: int| 0 <= p < rounds[b].matrices[m].points.len() implies {
            &&& (#[trigger] matrix.points_and_values@[p]).0 == rounds[b].matrices[m].points[p].0
            &&& matrix.points_and_values@[p].1@ == rounds[b].matrices[m].points[p].1
        } by {
            assert(generation::point_models(matrix.points_and_values@)[p] == (
                matrix.points_and_values@[p].0,
                matrix.points_and_values@[p].1@,
            ));
        }
    }
}

/// The model of a list of rounds keeps each commitment and the claims of each of its matrices.
pub proof fn law_rounds_are_modelled<F, EF>(
    rounds: Seq<CommitmentWithOpenings<F, EF>>,
    r: int,
    m: int,
    p: int,
)
    requires
        0 <= r < rounds.len(),
    ensures
        ({
            let models = generation::round_models(rounds);
            &&& models.len() == rounds.len()
            &&& models[r].commitment == rounds[r].commitment@
            &&& models[r].matrices.len() == rounds[r].matrices@.len()
            &&& 0 <= m < rounds[r].matrices@.len() ==> {
                let matrix = rounds[r].matrices@[m];
                let claims = models[r].matrices[m];
                &&& claims.domain == matrix.domain
                &&& claims.points.len() == matrix.points_and_values@.len()
                &&& 0 <= p < matrix.points_and_values@.len() ==> claims.points[p] == (
                    matrix.points_and_values@[p].0,
                    matrix.points_and_values@[p].1@,
                )
            }
        }),
{
}

} // verus!
