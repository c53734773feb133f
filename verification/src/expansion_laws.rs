//! Which FRI and WHIR proofs expand, and what is reported of those that do not.

use vstd::prelude::*;

use crate::extension::ExtensionField;
use crate::field::{Field, TwoAdicField};
use crate::fri_paths;
use crate::fri_paths::FriWitnessBuildError;
use crate::fri_witness::FriReplay;
use crate::merkle::PrunedMerklePaths;
use crate::whir_witness::{WhirExpansion, WhirWitnessBuildError};

verus! {

/// What is wrong with the first of `n` items that has a fault, or nothing if none has.
pub open spec fn first_fault<E>(
    n: nat,
    fault: spec_fn(int) -> Option<E>,
    r: Option<E>,
) -> bool {
    ||| r is None && forall|i: int| 0 <= i < n ==> #[trigger] fault(i) is None
    ||| r is Some && exists|i: int|
        {
            &&& 0 <= i < n
            &&& #[trigger] fault(i) == r
            &&& forall|j: int| 0 <= j < i ==> #[trigger] fault(j) is None
        }
}

/// A step of `first_fault`.
proof fn lemma_next_fault<E>(
    n: nat,
    fault: spec_fn(int) -> Option<E>,
    before: Option<E>,
)
    requires
        first_fault(n, fault, before),
    ensures
        first_fault(
            n + 1,
            fault,
            if before is Some {
                before
            } else {
                fault(n as int)
            },
        ),
{
    if before is Some {
        let i = choose|i: int|
            {
                &&& 0 <= i < n
                &&& #[trigger] fault(i) == before
                &&& forall|j: int| 0 <= j < i ==> #[trigger] fault(j) is None
            };
        assert(fault(i) == before);
    } else if fault(n as int) is Some {
        assert(fault(n as int) == fault(n as int));
        assert(forall|j: int| 0 <= j < n ==> #[trigger] fault(j) is None);
    }
}

/// What is wrong with the multiproof of an input batch: its Merkle fault, with the number of the
/// batch.
pub open spec fn batch_fault<F: TwoAdicField, EF: ExtensionField<F>, Cm, const DIGEST_ELEMS: usize>(
    r: FriReplay<F, EF, Cm, PrunedMerklePaths<F, DIGEST_ELEMS>>,
    arity: nat,
    cap_height: nat,
) -> spec_fn(int) -> Option<FriWitnessBuildError> {
    |b: int|
        match fri_paths::plain_input(r, b).failure(arity, cap_height) {
            Some(source) => Some(FriWitnessBuildError::InputMerkle { batch: b as usize, source }),
            None => None,
        }
}

/// What is wrong with the multiproof of a commit phase: its Merkle fault, with the number of the
/// phase.
pub open spec fn phase_fault<F: TwoAdicField, EF: ExtensionField<F>, Cm, const DIGEST_ELEMS: usize>(
    r: FriReplay<F, EF, Cm, PrunedMerklePaths<F, DIGEST_ELEMS>>,
    arity: nat,
    cap_height: nat,
) -> spec_fn(int) -> Option<FriWitnessBuildError> {
    |k: int|
        match fri_paths::plain_phase(r, k).failure(arity, cap_height) {
            Some(source) => Some(
                FriWitnessBuildError::CommitPhaseMerkle { phase: k as usize, source },
            ),
            None => None,
        }
}

/// What is wrong with an input batch of a hiding proof: a salt that does not fit, or else the Merkle
/// fault of the salted rows.
pub open spec fn salted_batch_fault<
    F: TwoAdicField,
    EF: ExtensionField<F>,
    Cm,
    const DIGEST_ELEMS: usize,
>(
    r: FriReplay<F, EF, Cm, (Vec<Vec<Vec<F>>>, PrunedMerklePaths<F, DIGEST_ELEMS>)>,
    salt: nat,
    arity: nat,
    cap_height: nat,
) -> spec_fn(int) -> Option<FriWitnessBuildError> {
    |b: int|
        if r.input_salts_failure(b, salt) is Some {
            r.input_salts_failure(b, salt)
        } else {
            match fri_paths::hiding_input(r, salt, b).failure(arity, cap_height) {
                Some(source) => Some(
                    FriWitnessBuildError::InputMerkle { batch: b as usize, source },
                ),
                None => None,
            }
        }
}

/// What is wrong with a commit phase of a hiding proof: a salt that does not fit, or else the Merkle
/// fault of the salted rows.
pub open spec fn salted_phase_fault<
    F: TwoAdicField,
    EF: ExtensionField<F>,
    Cm,
    const DIGEST_ELEMS: usize,
>(
    r: FriReplay<F, EF, Cm, (Vec<Vec<Vec<F>>>, PrunedMerklePaths<F, DIGEST_ELEMS>)>,
    salt: nat,
    arity: nat,
    cap_height: nat,
) -> spec_fn(int) -> Option<FriWitnessBuildError> {
    |k: int|
        if r.phase_salts_failure(k, salt) is Some {
            r.phase_salts_failure(k, salt)
        } else {
            match fri_paths::hiding_phase(r, salt, k).failure(arity, cap_height) {
                Some(source) => Some(
                    FriWitnessBuildError::CommitPhaseMerkle { phase: k as usize, source },
                ),
                None => None,
            }
        }
}

/// Either list of items is without fault and `r` is nothing, or `r` is the first fault of the first
/// list, or of the second where the first has none.
pub open spec fn first_of_two(
    n: nat,
    first: spec_fn(int) -> Option<FriWitnessBuildError>,
    m: nat,
    second: spec_fn(int) -> Option<FriWitnessBuildError>,
    r: Option<FriWitnessBuildError>,
) -> bool {
    ||| r is Some && first_fault(n, first, r)
    ||| first_fault(n, first, None) && first_fault(m, second, r)
}

proof fn lemma_inputs<F: TwoAdicField, EF: ExtensionField<F>, Cm, const DIGEST_ELEMS: usize>(
    r: FriReplay<F, EF, Cm, PrunedMerklePaths<F, DIGEST_ELEMS>>,
    arity: nat,
    cap_height: nat,
    n: nat,
)
    ensures
        first_fault(
            n,
            batch_fault(r, arity, cap_height),
            fri_paths::input_failure(r, arity, cap_height, n),
        ),
    decreases n,
{
    if n > 0 {
        let m = (n - 1) as nat;
        lemma_inputs(r, arity, cap_height, m);
        lemma_next_fault(
            m,
            batch_fault(r, arity, cap_height),
            fri_paths::input_failure(r, arity, cap_height, m),
        );
    }
}

proof fn lemma_phases<F: TwoAdicField, EF: ExtensionField<F>, Cm, const DIGEST_ELEMS: usize>(
    r: FriReplay<F, EF, Cm, PrunedMerklePaths<F, DIGEST_ELEMS>>,
    arity: nat,
    cap_height: nat,
    n: nat,
)
    ensures
        first_fault(
            n,
            phase_fault(r, arity, cap_height),
            fri_paths::phase_failure(r, arity, cap_height, n),
        ),
    decreases n,
{
    if n > 0 {
        let m = (n - 1) as nat;
        lemma_phases(r, arity, cap_height, m);
        lemma_next_fault(
            m,
            phase_fault(r, arity, cap_height),
            fri_paths::phase_failure(r, arity, cap_height, m),
        );
    }
}

proof fn lemma_salted_inputs<
    F: TwoAdicField,
    EF: ExtensionField<F>,
    Cm,
    const DIGEST_ELEMS: usize,
>(
    r: FriReplay<F, EF, Cm, (Vec<Vec<Vec<F>>>, PrunedMerklePaths<F, DIGEST_ELEMS>)>,
    salt: nat,
    arity: nat,
    cap_height: nat,
    n: nat,
)
    ensures
        first_fault(
            n,
            salted_batch_fault(r, salt, arity, cap_height),
            fri_paths::hiding_input_failure(r, salt, arity, cap_height, n),
        ),
    decreases n,
{
    if n > 0 {
        let m = (n - 1) as nat;
        lemma_salted_inputs(r, salt, arity, cap_height, m);
        lemma_next_fault(
            m,
            salted_batch_fault(r, salt, arity, cap_height),
            fri_paths::hiding_input_failure(r, salt, arity, cap_height, m),
        );
    }
}

proof fn lemma_salted_phases<
    F: TwoAdicField,
    EF: ExtensionField<F>,
    Cm,
    const DIGEST_ELEMS: usize,
>(
    r: FriReplay<F, EF, Cm, (Vec<Vec<Vec<F>>>, PrunedMerklePaths<F, DIGEST_ELEMS>)>,
    salt: nat,
    arity: nat,
    cap_height: nat,
    n: nat,
)
    ensures
        first_fault(
            n,
            salted_phase_fault(r, salt, arity, cap_height),
            fri_paths::hiding_phase_failure(r, salt, arity, cap_height, n),
        ),
    decreases n,
{
    if n > 0 {
        let m = (n - 1) as nat;
        lemma_salted_phases(r, salt, arity, cap_height, m);
        lemma_next_fault(
            m,
            salted_phase_fault(r, salt, arity, cap_height),
            fri_paths::hiding_phase_failure(r, salt, arity, cap_height, m),
        );
    }
}

/// A FRI proof expands exactly if its rows can be reconstructed and every multiproof expands: those
/// of the input batches up to the input cap, those of the commit phases up to the FRI cap. What is
/// reported of a proof that does not expand is the first fault: of the rows, then of the batches, then
/// of the phases.
pub proof fn law_proof_expands<
    F: TwoAdicField,
    EF: ExtensionField<F>,
    Cm,
    const DIGEST_ELEMS: usize,
>(
    r: FriReplay<F, EF, Cm, PrunedMerklePaths<F, DIGEST_ELEMS>>,
    arity: nat,
    input_cap_height: nat,
    fri_cap_height: nat,
)
    ensures
        ({
            let failure = fri_paths::fri_failure(r, arity, input_cap_height, fri_cap_height);
            &&& r.failure() matches Some(e) ==> failure == Some(FriWitnessBuildError::Arithmetic(e))
            &&& r.failure() is None ==> first_of_two(
                r.batches.len(),
                batch_fault(r, arity, input_cap_height),
                r.fri.commit_phase_openings@.len(),
                phase_fault(r, arity, fri_cap_height),
                failure,
            )
        }),
{
    lemma_inputs(r, arity, input_cap_height, r.batches.len());
    lemma_phases(r, arity, fri_cap_height, r.fri.commit_phase_openings@.len());
}

/// A hiding FRI proof expands exactly if its rows can be reconstructed, every salt fits, and every
/// multiproof expands with the salted rows. What is reported of a proof that does not expand is the
/// first fault: of the rows, then of the batches, then of the phases.
pub proof fn law_hiding_proof_expands<
    F: TwoAdicField,
    EF: ExtensionField<F>,
    Cm,
    const DIGEST_ELEMS: usize,
>(
    r: FriReplay<F, EF, Cm, (Vec<Vec<Vec<F>>>, PrunedMerklePaths<F, DIGEST_ELEMS>)>,
    salt: nat,
    arity: nat,
    input_cap_height: nat,
    fri_cap_height: nat,
)
    ensures
        ({
            let failure = fri_paths::hiding_fri_failure(
                r,
                salt,
                arity,
                input_cap_height,
                fri_cap_height,
            );
            &&& r.failure() matches Some(e) ==> failure == Some(FriWitnessBuildError::Arithmetic(e))
            &&& r.failure() is None ==> first_of_two(
                r.batches.len(),
                salted_batch_fault(r, salt, arity, input_cap_height),
                r.fri.commit_phase_openings@.len(),
                salted_phase_fault(r, salt, arity, fri_cap_height),
                failure,
            )
        }),
{
    lemma_salted_inputs(r, salt, arity, input_cap_height, r.batches.len());
    lemma_salted_phases(r, salt, arity, fri_cap_height, r.fri.commit_phase_openings@.len());
}

/// What is wrong with a round of a WHIR proof: base rows after the first round, extension rows in the
/// first, or else the Merkle fault of its multiproof.
pub open spec fn round_fault<F: Field, EF: ExtensionField<F>, const DIGEST_ELEMS: usize>(
    e: WhirExpansion<F, EF, DIGEST_ELEMS>,
    arity: nat,
    cap_height: nat,
) -> spec_fn(int) -> Option<WhirWitnessBuildError> {
    |i: int|
        if i == 0 && !(e.openings(i) is Base) || i > 0 && e.openings(i) is Base {
            if i == e.params.round_params@.len() {
                Some(
                    WhirWitnessBuildError::InvalidShape(
                        "WHIR final opening field does not match the round count",
                    ),
                )
            } else {
                Some(
                    WhirWitnessBuildError::InvalidShape(
                        "WHIR opening field does not match its round",
                    ),
                )
            }
        } else {
            match e.opening(i).failure(arity, cap_height) {
                Some(source) => Some(WhirWitnessBuildError::Merkle { round: i as usize, source }),
                None => None,
            }
        }
}

proof fn lemma_rounds<F: Field, EF: ExtensionField<F>, const DIGEST_ELEMS: usize>(
    e: WhirExpansion<F, EF, DIGEST_ELEMS>,
    arity: nat,
    cap_height: nat,
    n: nat,
)
    requires
        n <= e.params.round_params@.len() + 1,
    ensures
        first_fault(
            n,
            round_fault(e, arity, cap_height),
            e.rounds_failure(arity, cap_height, n),
        ),
    decreases n,
{
    if n > 0 {
        let m = (n - 1) as nat;
        lemma_rounds(e, arity, cap_height, m);
        lemma_next_fault(
            m,
            round_fault(e, arity, cap_height),
            e.rounds_failure(arity, cap_height, m),
        );
    }
}

/// A WHIR proof expands exactly if proof, parameters and transcript have equally many rounds, only
/// the first opens base rows, and the multiproof of every round and of the final opening expands.
/// What is reported of a proof that does not expand is the fault of the first round that has one.
pub proof fn law_whir_proof_expands<F: Field, EF: ExtensionField<F>, const DIGEST_ELEMS: usize>(
    e: WhirExpansion<F, EF, DIGEST_ELEMS>,
    arity: nat,
    cap_height: nat,
)
    ensures
        ({
            let rounds = e.params.round_params@.len();
            let counted = e.whir.rounds@.len() == rounds && e.round_indices.len() == rounds;
            let failure = e.failure(arity, cap_height);
            &&& !counted ==> failure == Some(
                WhirWitnessBuildError::InvalidShape(
                    "WHIR round count differs between proof, parameters, and transcript",
                ),
            )
            &&& counted ==> first_fault(rounds + 1, round_fault(e, arity, cap_height), failure)
        }),
{
    lemma_rounds(e, arity, cap_height, e.params.round_params@.len() + 1);
}

} // verus!
