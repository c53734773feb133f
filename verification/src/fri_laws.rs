//! What holds of the replay of a FRI transcript and of the rows that a query folds through.

use vstd::prelude::*;
use vstd::arithmetic::power2::pow2;

use crate::challenger;
use crate::challenger::{Challenger, PrimeField64};
use crate::extension::ExtensionField;
use crate::field;
use crate::field::{CommutativeRing, Field, TwoAdicField};
use crate::fri_witness;
use crate::fri_witness::{FriProof, QueryFold};
use crate::generation;
use crate::generation::{FriGenerationParams, FriReplayState, Round};
use crate::seqs;

verus! {

/// Two proofs agree on everything that a transcript absorbs. They may differ in their openings.
pub open spec fn same_transcript<F, EF, P, Q>(
    a: FriProof<F, EF, Vec<F>, P>,
    b: FriProof<F, EF, Vec<F>, Q>,
) -> bool {
    &&& seqs::rows(a.commit_phase_commits@) == seqs::rows(b.commit_phase_commits@)
    &&& a.commit_pow_witnesses@ == b.commit_pow_witnesses@
    &&& a.final_poly@ == b.final_poly@
    &&& a.query_pow_witness == b.query_pow_witness
    &&& a.commit_phase_openings@.len() == b.commit_phase_openings@.len()
    &&& forall|k: int|
        0 <= k < a.commit_phase_openings@.len() ==> (
        #[trigger] a.commit_phase_openings@[k]).log_arity == b.commit_phase_openings@[k].log_arity
}

proof fn lemma_same_phases<F: PrimeField64, EF: ExtensionField<F>, C: Challenger<F>, P, Q>(
    start: FriReplayState<EF, C::State>,
    a: FriProof<F, EF, Vec<F>, P>,
    b: FriProof<F, EF, Vec<F>, Q>,
    bits: nat,
    n: nat,
)
    requires
        same_transcript(a, b),
        n <= generation::phase_count(a),
    ensures
        generation::phases_replayed::<F, EF, C, P>(start, a, bits, n)
            == generation::phases_replayed::<F, EF, C, Q>(start, b, bits, n),
    decreases n,
{
    if n > 0 {
        lemma_same_phases::<F, EF, C, P, Q>(start, a, b, bits, (n - 1) as nat);
        let commits = seqs::rows(a.commit_phase_commits@);
        assert(commits.len() == a.commit_phase_commits@.len() == b.commit_phase_commits@.len());
        assert(commits[n - 1] == a.commit_phase_commits@[n - 1]@);
        assert(commits[n - 1] == b.commit_phase_commits@[n - 1]@);
    }
}

proof fn lemma_same_arities<F: PrimeField64, EF, C: Challenger<F>, P, Q>(
    s: C::State,
    a: FriProof<F, EF, Vec<F>, P>,
    b: FriProof<F, EF, Vec<F>, Q>,
    n: nat,
)
    requires
        same_transcript(a, b),
        n <= a.commit_phase_openings@.len(),
    ensures
        generation::absorbed_arities::<F, EF, C, P>(s, a, n) == generation::absorbed_arities::<
            F,
            EF,
            C,
            Q,
        >(s, b, n),
        generation::log_reduction(a, n) == generation::log_reduction(b, n),
    decreases n,
{
    if n > 0 {
        lemma_same_arities::<F, EF, C, P, Q>(s, a, b, (n - 1) as nat);
        assert(a.commit_phase_openings@[n - 1].log_arity == b.commit_phase_openings@[n
            - 1].log_arity);
    }
}

/// The openings of a proof have no influence on its replay: proofs that agree on what the
/// transcript absorbs get the same challenges and the same query indices.
pub proof fn law_openings_do_not_steer_queries<
    F: PrimeField64,
    EF: ExtensionField<F>,
    C: Challenger<F>,
    P,
    Q,
>(
    s: C::State,
    rounds: Seq<Round<F, EF>>,
    a: FriProof<F, EF, Vec<F>, P>,
    b: FriProof<F, EF, Vec<F>, Q>,
    params: FriGenerationParams,
)
    requires
        same_transcript(a, b),
    ensures
        generation::fri_replayed::<F, EF, C, P>(s, rounds, a, params) == generation::fri_replayed::<
            F,
            EF,
            C,
            Q,
        >(s, rounds, b, params),
{
    let opened = generation::absorbed_rounds::<F, EF, C>(s, rounds, rounds.len());
    let (alpha, batched) = challenger::squeezed_element::<F, EF, C>(opened);
    let start = FriReplayState {
        state: batched,
        public_values: seq![alpha],
        betas: Seq::empty(),
        query_indices: Seq::empty(),
        failed: false,
    };
    let bits = params.commit_pow_bits as nat;
    assert(a.commit_phase_commits@.len() == seqs::rows(a.commit_phase_commits@).len());
    assert(b.commit_phase_commits@.len() == seqs::rows(b.commit_phase_commits@).len());
    lemma_same_phases::<F, EF, C, P, Q>(start, a, b, bits, generation::phase_count(a));
    let folded = generation::phases_replayed::<F, EF, C, P>(
        start,
        a,
        bits,
        generation::phase_count(a),
    );
    let finished = challenger::absorbed_elements::<F, EF, C>(
        folded.state,
        a.final_poly@,
        a.final_poly@.len(),
    );
    lemma_same_arities::<F, EF, C, P, Q>(finished, a, b, a.commit_phase_openings@.len());
}

proof fn lemma_merge_ok<F, EF>(
    rounds: Seq<Round<F, EF>>,
    random: Seq<Seq<Seq<Seq<EF>>>>,
    r: int,
    n: nat,
)
    requires
        generation::merge_rounds_failure(rounds, random, n) is None,
        0 <= r < n,
    ensures
        generation::merge_round_failure(rounds, random, r) is None,
    decreases n,
{
    if r < n - 1 {
        lemma_merge_ok(rounds, random, r, (n - 1) as nat);
    }
}

/// Merging random openings changes no commitment, no domain and no opening point, keeps the public
/// values of each point in front, and puts exactly the random ones behind them.
pub proof fn law_random_openings_follow_public_ones<F, EF>(
    rounds: Seq<Round<F, EF>>,
    random: Seq<Seq<Seq<Seq<EF>>>>,
    r: int,
    m: int,
    p: int,
)
    requires
        generation::merge_failure(rounds, random) is None,
        0 <= r < rounds.len(),
        0 <= m < rounds[r].matrices.len(),
        0 <= p < rounds[r].matrices[m].points.len(),
    ensures
        ({
            let merged = generation::merged_rounds(rounds, random);
            let public = rounds[r].matrices[m].points[p];
            let point = merged[r].matrices[m].points[p];
            &&& merged.len() == rounds.len() == random.len()
            &&& merged[r].commitment == rounds[r].commitment
            &&& merged[r].matrices.len() == rounds[r].matrices.len() == random[r].len()
            &&& merged[r].matrices[m].domain == rounds[r].matrices[m].domain
            &&& merged[r].matrices[m].points.len() == rounds[r].matrices[m].points.len()
                == random[r][m].len()
            &&& point.0 == public.0
            &&& point.1.take(public.1.len() as int) == public.1
            &&& point.1.skip(public.1.len() as int) == random[r][m][p]
        }),
{
    lemma_merge_ok(rounds, random, r, rounds.len());
    let matrices = rounds[r].matrices;
    let differ = generation::point_counts_differ(matrices, random[r]);
    seqs::lemma_least(matrices.len(), differ);
    assert(!differ(m));
    let public = rounds[r].matrices[m].points[p];
    let point = generation::merged_rounds(rounds, random)[r].matrices[m].points[p];
    assert(point.1.take(public.1.len() as int) =~= public.1);
    assert(point.1.skip(public.1.len() as int) =~= random[r][m][p]);
}

/// The row opened in a round holds the running evaluation at the query's own position, and without
/// it the row is the list of sibling values.
pub proof fn law_row_completes_siblings<F: TwoAdicField, EF: ExtensionField<F>>(
    fold: QueryFold<EF>,
    round: nat,
)
    requires
        round < fold.siblings.len(),
        fold.siblings[round as int].len() + 1 == pow2(fold.log_arities[round as int]),
    ensures
        ({
            let own = fold.state::<F>(round).index % pow2(fold.log_arities[round as int]);
            let row = fold.row::<F>(round);
            &&& row.len() == pow2(fold.log_arities[round as int])
            &&& (own as int) < row.len()
            &&& row[own as int] == fold.state::<F>(round).evaluation
            &&& row.remove(own as int) == fold.siblings[round as int]
        }),
{
    let size = pow2(fold.log_arities[round as int]);
    vstd::arithmetic::power2::lemma_pow2_pos(fold.log_arities[round as int]);
    let own = fold.state::<F>(round).index % size;
    assert(fold.row::<F>(round).remove(own as int) =~= fold.siblings[round as int]);
}

/// Each round drops from the query index as many low bits as the round folds, and lowers the height
/// by as many.
pub proof fn law_folding_shifts_the_index<F: TwoAdicField, EF: ExtensionField<F>>(
    fold: QueryFold<EF>,
    round: nat,
)
    ensures
        fold.state::<F>(round).index == fold.index / pow2(
            fri_witness::sum(fold.log_arities, round),
        ),
        fold.state::<F>(round).log_height == fold.log_global - fri_witness::sum(
            fold.log_arities,
            round,
        ),
    decreases round,
{
    if round == 0 {
        vstd::arithmetic::power2::lemma2_to64();
        assert(fold.index / 1 == fold.index);
    } else {
        let before = (round - 1) as nat;
        law_folding_shifts_the_index::<F, EF>(fold, before);
        let low = fri_witness::sum(fold.log_arities, before);
        let high = fold.log_arities[before as int];
        vstd::arithmetic::power2::lemma_pow2_pos(low);
        vstd::arithmetic::power2::lemma_pow2_pos(high);
        vstd::arithmetic::power2::lemma_pow2_adds(low, high);
        vstd::arithmetic::div_mod::lemma_div_denominator(
            fold.index as int,
            pow2(low) as int,
            pow2(high) as int,
        );
        assert(pow2(fri_witness::sum(fold.log_arities, round)) == pow2(low) * pow2(high));
        assert(fold.state::<F>(round).index == fold.state::<F>(before).index / pow2(high));
    }
}

/// Interpolation passes through every point of a row whose points are distinct.
pub proof fn law_interpolation_meets_points<F: Field, EF: ExtensionField<F> + CommutativeRing>(
    points: Seq<F>,
    evaluations: Seq<EF>,
    log_arity: nat,
    i: int,
)
    requires
        0 <= i < points.len(),
        evaluations.len() == points.len(),
        forall|j: int| 0 <= j < points.len() ==> EF::sp_from_base(#[trigger] points[j]).wf(),
        forall|j: int, k: int|
            #![trigger points[j], points[k]]
            0 <= j < k < points.len() ==> EF::sp_from_base(points[j]) != EF::sp_from_base(
                points[k],
            ),
    ensures
        fri_witness::interpolated(points, evaluations, log_arity, EF::sp_from_base(points[i]))
            == evaluations[i],
{
    let point = EF::sp_from_base(points[i]);
    let hit = fri_witness::hits::<F, EF>(points, point);
    assert forall|j: int| 0 <= j <= i implies #[trigger] hit(j) == (j == i) by {
        field::lemma_difference(point, EF::sp_from_base(points[j]));
    }
    seqs::lemma_least_some(points.len(), hit, i);
}

} // verus!
