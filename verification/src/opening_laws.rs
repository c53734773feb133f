//! What the shared multiproofs of FRI and WHIR proofs authenticate.

use vstd::arithmetic::power2::*;
use vstd::prelude::*;

use crate::extension::ExtensionField;
use crate::field::{Field, TwoAdicField};
use crate::fri_laws;
use crate::fri_paths;
use crate::fri_paths::SharedOpening;
use crate::fri_witness;
use crate::fri_witness::{FriReplay, ReconstructedFriRows};
use crate::merkle::{
    CryptographicHasher, Dimensions, PrunedMerklePaths, PseudoCompressionFunction,
};
use crate::replay_laws::{flattened, joined};
use crate::seqs;
use crate::whir_witness::{QueryOpenings, WhirExpansion};

verus! {

/// Every matrix is opened somewhere.
pub open spec fn claimed<F: TwoAdicField, EF: ExtensionField<F>, Cm, P>(
    r: FriReplay<F, EF, Cm, P>,
) -> bool {
    forall|b: int, m: int|
        #![trigger r.batches[b]@[m]]
        0 <= b < r.batches.len() && 0 <= m < r.batches[b]@.len()
            ==> r.batches[b]@[m].points_and_values@.len() > 0
}

/// The greatest of the log heights of a batch is `top`.
pub open spec fn tallest<F: TwoAdicField, EF: ExtensionField<F>, Cm, P>(
    r: FriReplay<F, EF, Cm, P>,
    b: int,
    top: nat,
) -> bool {
    let matrices = r.batches[b]@;
    &&& forall|m: int|
        0 <= m < matrices.len() ==> (#[trigger] matrices[m]).domain.log_size + r.log_blowup <= top
    &&& matrices.len() == 0 ==> top == 0
    &&& matrices.len() > 0 ==> exists|m: int|
        0 <= m < matrices.len() && (#[trigger] matrices[m]).domain.log_size + r.log_blowup == top
}

proof fn lemma_tallest<EF>(matrices: Seq<fri_witness::MatrixClaims<EF>>, n: nat)
    requires
        n <= matrices.len(),
    ensures
        forall|m: int|
            0 <= m < n ==> (#[trigger] matrices[m]).log_height <= fri_witness::max_log_height(
                matrices,
                n,
            ),
        n > 0 ==> exists|m: int|
            0 <= m < n && (#[trigger] matrices[m]).log_height == fri_witness::max_log_height(
                matrices,
                n,
            ),
        n == 0 ==> fri_witness::max_log_height(matrices, n) == 0,
    decreases n,
{
    if n > 0 {
        lemma_tallest(matrices, (n - 1) as nat);
        let top = fri_witness::max_log_height(matrices, n);
        if matrices[n - 1].log_height == top {
        } else if n > 1 {
            let m = choose|m: int|
                0 <= m < n - 1 && (#[trigger] matrices[m]).log_height
                    == fri_witness::max_log_height(matrices, (n - 1) as nat);
            assert(matrices[m].log_height == top);
        }
    }
}

/// The opening of an input batch: the widths of the claims and `salt` more columns, the heights of
/// the domains times the blowup, the query indices without the bits above the tallest matrix, and
/// the opened rows, each followed by its salt where there are salts.
pub open spec fn input_authenticated<
    F: TwoAdicField,
    EF: ExtensionField<F>,
    Cm,
    P,
    const DIGEST_ELEMS: usize,
>(
    r: FriReplay<F, EF, Cm, P>,
    b: int,
    opening: SharedOpening<F, DIGEST_ELEMS>,
    salts: Option<Seq<Vec<Vec<F>>>>,
    salt: nat,
) -> bool {
    let matrices = r.batches[b]@;
    let rows = r.fri.input_openings@[b].opened_values@;
    &&& opening.dimensions.len() == matrices.len()
    &&& forall|m: int|
        0 <= m < matrices.len() ==> {
            &&& (#[trigger] opening.dimensions[m]).width
                == matrices[m].points_and_values@[0].1@.len() + salt
            &&& opening.dimensions[m].height == pow2(
                matrices[m].domain.log_size as nat + r.log_blowup,
            )
        }
    &&& opening.indices.len() == r.indices.len()
    &&& forall|q: int, top: nat|
        0 <= q < r.indices.len() && tallest(r, b, top) && top <= r.log_global()
            ==> #[trigger] opening.indices[q] == r.indices[q] / #[trigger] pow2(
            (r.log_global() - top) as nat,
        )
    &&& opening.rows.len() == rows.len()
    &&& forall|q: int|
        0 <= q < rows.len() ==> (#[trigger] opening.rows[q]).len() == rows[q]@.len()
    &&& forall|q: int, m: int|
        #![trigger opening.rows[q][m]]
        0 <= q < rows.len() && 0 <= m < rows[q]@.len() ==> opening.rows[q][m] == match salts {
            Some(salts) => rows[q]@[m]@ + salts[q]@[m]@,
            None => rows[q]@[m]@,
        }
}

/// The opening of a commit phase: one matrix whose rows hold the coefficients of `2^arity`
/// elements and `salt` more columns, with as many rows as the height that the phase folds to; the
/// query indices without the bits folded so far; and the rows around the running evaluations, each
/// followed by its salt where there are salts.
pub open spec fn phase_authenticated<
    F: TwoAdicField,
    EF: ExtensionField<F>,
    Cm,
    P,
    const DIGEST_ELEMS: usize,
>(
    r: FriReplay<F, EF, Cm, P>,
    k: int,
    opening: SharedOpening<F, DIGEST_ELEMS>,
    salts: Option<Seq<Vec<Vec<F>>>>,
    salt: nat,
) -> bool {
    let steps = r.fri.commit_phase_openings@;
    let arities = fri_witness::log_arities_of(steps);
    let folded = fri_witness::sum(arities, (k + 1) as nat);
    &&& opening.dimensions.len() == 1
    &&& opening.dimensions[0].width == pow2(steps[k].log_arity as nat) * EF::sp_dimension() + salt
    &&& opening.dimensions[0].height == pow2((r.log_global() - folded) as nat)
    &&& opening.indices.len() == r.indices.len()
    &&& forall|q: int|
        0 <= q < r.indices.len() ==> #[trigger] opening.indices[q] == r.indices[q] / pow2(folded)
    &&& opening.rows.len() == r.indices.len()
    &&& forall|q: int|
        0 <= q < r.indices.len() ==> {
            let row = flattened::<F, EF>(r.fold(q).row::<F>(k as nat));
            &&& (#[trigger] opening.rows[q]).len() == 1
            &&& opening.rows[q][0] == match salts {
                Some(salts) => row + salts[q]@[0]@,
                None => row,
            }
        }
}

proof fn lemma_flat<F: Field, EF: ExtensionField<F>>(row: Seq<EF>, n: nat)
    requires
        n <= row.len(),
    ensures
        fri_paths::flat::<F, EF>(row, n) == joined(n, |i: int| row[i].sp_coefficients()),
    decreases n,
{
    if n > 0 {
        lemma_flat::<F, EF>(row, (n - 1) as nat);
    }
}

proof fn lemma_input<F: TwoAdicField, EF: ExtensionField<F>, Cm, P, const DIGEST_ELEMS: usize>(
    r: FriReplay<F, EF, Cm, P>,
    b: int,
    siblings: Seq<[F; DIGEST_ELEMS]>,
    salt: nat,
)
    requires
        0 <= b < r.batches.len(),
        r.heights_fit(),
        r.countable(salt),
        claimed(r),
    ensures
        input_authenticated(r, b, r.input_opening(b, siblings), None, 0),
{
    let opening = r.input_opening(b, siblings);
    let matrices = r.batches[b]@;
    let claims = r.claims()[b];
    assert forall|m: int| 0 <= m < matrices.len() implies {
        &&& (#[trigger] opening.dimensions[m]).width
            == matrices[m].points_and_values@[0].1@.len()
        &&& opening.dimensions[m].height == pow2(
            matrices[m].domain.log_size as nat + r.log_blowup,
        )
    } by {
        assert(r.batches[b]@[m].domain.log_size + r.log_blowup < usize::BITS);
        fri_paths::lemma_half_word(claims[m].log_height);
        assert(r.batches[b]@[m].points_and_values@.len() > 0);
        assert(r.claims()[b][m].claims.len() > 0);
    }
    lemma_tallest(claims, claims.len());
    assert forall|q: int, top: nat|
        0 <= q < r.indices.len() && tallest(r, b, top) && top
            <= r.log_global() implies #[trigger] opening.indices[q] == r.indices[q]
        / #[trigger] pow2((r.log_global() - top) as nat) by {
        let max = fri_witness::max_log_height(claims, claims.len());
        if matrices.len() > 0 {
            let m = choose|m: int|
                0 <= m < claims.len() && (#[trigger] claims[m]).log_height == max;
            assert(matrices[m].domain.log_size + r.log_blowup == max);
            let j = choose|j: int|
                0 <= j < matrices.len() && (#[trigger] matrices[j]).domain.log_size + r.log_blowup
                    == top;
            assert(claims[j].log_height == top);
        }
        assert(top == max);
        lemma_pow2_pos((r.log_global() - top) as nat);
        vstd::arithmetic::div_mod::lemma_div_pos_is_pos(
            r.indices[q] as int,
            pow2((r.log_global() - top) as nat) as int,
        );
    }
}

proof fn lemma_phase<F: TwoAdicField, EF: ExtensionField<F>, Cm, P, const DIGEST_ELEMS: usize>(
    r: FriReplay<F, EF, Cm, P>,
    k: int,
    siblings: Seq<[F; DIGEST_ELEMS]>,
)
    requires
        0 <= k < r.fri.commit_phase_openings@.len(),
        r.heights_fit(),
        pow2(r.fri.commit_phase_openings@[k].log_arity as nat) * EF::sp_dimension() <= usize::MAX,
    ensures
        phase_authenticated(r, k, r.phase_opening(k, siblings), None, 0),
{
    let opening = r.phase_opening(k, siblings);
    let arities = fri_witness::log_arities_of(r.fri.commit_phase_openings@);
    fri_witness::lemma_sum_monotone(arities, (k + 1) as nat, arities.len());
    let h = (r.log_global() - fri_witness::sum(arities, (k + 1) as nat)) as nat;
    fri_paths::lemma_half_word(h);
    fri_paths::lemma_half_word(arities[k]);
    assert forall|q: int| 0 <= q < r.indices.len() implies #[trigger] opening.indices[q]
        == r.indices[q] / pow2(fri_witness::sum(arities, (k + 1) as nat)) by {
        fri_laws::law_folding_shifts_the_index::<F, EF>(r.fold(q), (k + 1) as nat);
    }
    assert forall|q: int| 0 <= q < r.indices.len() implies {
        &&& (#[trigger] opening.rows[q]).len() == 1
        &&& opening.rows[q][0] == flattened::<F, EF>(r.fold(q).row::<F>(k as nat))
    } by {
        let row = r.fold(q).row::<F>(k as nat);
        lemma_flat::<F, EF>(row, row.len());
    }
}

/// The rows reconstructed from a proof are those that its multiproofs authenticate: the same shapes
/// and query indices, and in a commit phase the row around the running evaluation.
pub proof fn law_reconstructed_rows<F: TwoAdicField, EF: ExtensionField<F>, Cm, P>(
    r: FriReplay<F, EF, Cm, P>,
    rows: ReconstructedFriRows<F, EF>,
)
    requires
        r.heights_fit(),
        r.countable(0),
        claimed(r),
        r.describes(rows),
    ensures
        rows.input_dimensions@.len() == r.batches.len(),
        rows.input_indices@.len() == r.batches.len(),
        forall|b: int, m: int|
            #![trigger rows.input_dimensions@[b]@[m]]
            0 <= b < r.batches.len() && 0 <= m < r.batches[b]@.len() ==> {
                let matrix = r.batches[b]@[m];
                &&& rows.input_dimensions@[b]@.len() == r.batches[b]@.len()
                &&& rows.input_dimensions@[b]@[m].width == matrix.points_and_values@[0].1@.len()
                &&& rows.input_dimensions@[b]@[m].height == pow2(
                    matrix.domain.log_size as nat + r.log_blowup,
                )
            },
        forall|b: int, q: int, top: nat|
            0 <= b < r.batches.len() && 0 <= q < r.indices.len() && #[trigger] tallest(r, b, top)
                && top <= r.log_global() ==> (#[trigger] rows.input_indices@[b]@[q]) as nat
                == r.indices[q] / pow2((r.log_global() - top) as nat),
        forall|k: int|
            0 <= k < r.fri.commit_phase_openings@.len() ==> phase_described(
                r,
                #[trigger] rows.commit_phase_dimensions@[k]@,
                rows.commit_phase_indices@[k]@,
                k,
            ),
        forall|k: int, q: int|
            #![trigger rows.commit_phase_rows@[k]@[q]]
            0 <= k < r.fri.commit_phase_openings@.len() && 0 <= q < r.indices.len() ==> {
                &&& rows.commit_phase_rows@[k]@[q]@.len() == 1
                &&& rows.commit_phase_rows@[k]@[q]@[0]@ == r.fold(q).row::<F>(k as nat)
            },
{
    let none: Seq<[F; 0]> = Seq::empty();
    assert forall|b: int, m: int|
        #![trigger rows.input_dimensions@[b]@[m]]
        0 <= b < r.batches.len() && 0 <= m < r.batches[b]@.len() implies {
        let matrix = r.batches[b]@[m];
        &&& rows.input_dimensions@[b]@.len() == r.batches[b]@.len()
        &&& rows.input_dimensions@[b]@[m].width == matrix.points_and_values@[0].1@.len()
        &&& rows.input_dimensions@[b]@[m].height == pow2(
            matrix.domain.log_size as nat + r.log_blowup,
        )
    } by {
        lemma_input(r, b, none, 0);
        let opening = r.input_opening(b, none);
        assert(rows.input_dimensions@[b]@ == opening.dimensions);
        assert(opening.dimensions[m].width == r.batches[b]@[m].points_and_values@[0].1@.len());
    }
    assert forall|b: int, q: int, top: nat|
        0 <= b < r.batches.len() && 0 <= q < r.indices.len() && #[trigger] tallest(r, b, top)
            && top <= r.log_global() implies (#[trigger] rows.input_indices@[b]@[q]) as nat
        == r.indices[q] / pow2((r.log_global() - top) as nat) by {
        lemma_input(r, b, none, 0);
        let opening = r.input_opening(b, none);
        assert(opening.indices[q] == r.indices[q] / pow2((r.log_global() - top) as nat));
        assert(rows.input_indices@[b]@[q] as nat == opening.indices[q]);
    }
    assert forall|k: int| 0 <= k < r.fri.commit_phase_openings@.len() implies phase_described(
        r,
        #[trigger] rows.commit_phase_dimensions@[k]@,
        rows.commit_phase_indices@[k]@,
        k,
    ) by {
        let arities = fri_witness::log_arities_of(r.fri.commit_phase_openings@);
        fri_witness::lemma_sum_monotone(arities, (k + 1) as nat, arities.len());
        let h = (r.log_global() - fri_witness::sum(arities, (k + 1) as nat)) as nat;
        fri_paths::lemma_half_word(h);
        fri_paths::lemma_half_word(arities[k]);
        assert forall|q: int| 0 <= q < r.indices.len() implies (
        #[trigger] rows.commit_phase_indices@[k]@[q]) as nat == r.indices[q] / pow2(
            fri_witness::sum(arities, (k + 1) as nat),
        ) by {
            fri_laws::law_folding_shifts_the_index::<F, EF>(r.fold(q), (k + 1) as nat);
        }
    }
}

/// The shape and the query indices of a commit phase: one matrix of `2^arity` columns with as many
/// rows as the height that the phase folds to, and the indices without the bits folded so far.
pub open spec fn phase_described<F: TwoAdicField, EF: ExtensionField<F>, Cm, P>(
    r: FriReplay<F, EF, Cm, P>,
    dimensions: Seq<Dimensions>,
    indices: Seq<usize>,
    k: int,
) -> bool {
    let steps = r.fri.commit_phase_openings@;
    let folded = fri_witness::sum(fri_witness::log_arities_of(steps), (k + 1) as nat);
    &&& dimensions.len() == 1
    &&& dimensions[0].width == pow2(steps[k].log_arity as nat)
    &&& dimensions[0].height == pow2((r.log_global() - folded) as nat)
    &&& indices.len() == r.indices.len()
    &&& forall|q: int|
        0 <= q < r.indices.len() ==> (#[trigger] indices[q]) as nat == r.indices[q] / pow2(folded)
}

/// The multiproofs of a FRI proof authenticate the opened rows of every batch and the rows around
/// the running evaluations of every commit phase.
pub proof fn law_plain_openings<
    F: TwoAdicField,
    EF: ExtensionField<F>,
    Cm,
    const DIGEST_ELEMS: usize,
>(r: FriReplay<F, EF, Cm, PrunedMerklePaths<F, DIGEST_ELEMS>>)
    requires
        r.heights_fit(),
        r.countable(0),
        claimed(r),
    ensures
        forall|b: int|
            0 <= b < r.batches.len() ==> {
                &&& input_authenticated(r, b, #[trigger] fri_paths::plain_input(r, b), None, 0)
                &&& fri_paths::plain_input(r, b).siblings
                    == r.fri.input_openings@[b].opening_proof.sibling_hashes@
            },
        forall|k: int|
            0 <= k < r.fri.commit_phase_openings@.len() ==> {
                &&& phase_authenticated(r, k, #[trigger] fri_paths::plain_phase(r, k), None, 0)
                &&& fri_paths::plain_phase(r, k).siblings
                    == r.fri.commit_phase_openings@[k].opening_proof.sibling_hashes@
            },
{
    assert forall|b: int| 0 <= b < r.batches.len() implies input_authenticated(
        r,
        b,
        #[trigger] fri_paths::plain_input(r, b),
        None,
        0,
    ) by {
        lemma_input(r, b, r.fri.input_openings@[b].opening_proof.sibling_hashes@, 0);
    }
    assert forall|k: int|
        0 <= k < r.fri.commit_phase_openings@.len() implies phase_authenticated(
        r,
        k,
        #[trigger] fri_paths::plain_phase(r, k),
        None,
        0,
    ) by {
        assert(pow2(r.fri.commit_phase_openings@[k].log_arity as nat) * EF::sp_dimension() + 0
            <= usize::MAX);
        lemma_phase(r, k, r.fri.commit_phase_openings@[k].opening_proof.sibling_hashes@);
    }
}

/// A query opens the right number of matrices and has one salt of the right length for each.
pub open spec fn query_salted<F>(
    matrices: nat,
    rows: Seq<Seq<Seq<F>>>,
    salts: Seq<Seq<Seq<F>>>,
    salt: nat,
    q: int,
) -> bool {
    &&& rows[q].len() == matrices
    &&& salts[q].len() == matrices
    &&& forall|m: int| 0 <= m < matrices ==> (#[trigger] salts[q][m]).len() == salt
}

/// Salts fit exactly if there is one list for each query, with one salt of the right length for each
/// matrix that the query opens.
pub proof fn law_salts_fit<F>(
    matrices: nat,
    rows: Seq<Seq<Seq<F>>>,
    salts: Seq<Seq<Seq<F>>>,
    salt: nat,
    location: &'static str,
)
    ensures
        fri_paths::salt_failure(matrices, rows, salts, salt, location) is None <==> {
            &&& salts.len() == rows.len()
            &&& forall|q: int|
                0 <= q < rows.len() ==> #[trigger] query_salted(matrices, rows, salts, salt, q)
        },
{
    lemma_salts(matrices, rows, salts, salt, location, rows.len());
}

proof fn lemma_salts<F>(
    matrices: nat,
    rows: Seq<Seq<Seq<F>>>,
    salts: Seq<Seq<Seq<F>>>,
    salt: nat,
    location: &'static str,
    n: nat,
)
    ensures
        fri_paths::queries_salt_failure(matrices, rows, salts, salt, location, n) is None <==> {
            forall|q: int|
                0 <= q < n ==> #[trigger] query_salted(matrices, rows, salts, salt, q)
        },
    decreases n,
{
    if n > 0 {
        lemma_salts(matrices, rows, salts, salt, location, (n - 1) as nat);
        let list = salts[n - 1];
        let wrong = fri_paths::wrong_salt_width(list, salt);
        seqs::lemma_least(matrices, wrong);
        match seqs::least(matrices, wrong) {
            Some(m) => {
                assert(list[m].len() != salt);
            },
            None => {
                assert forall|m: int| 0 <= m < matrices implies (#[trigger] list[m]).len()
                    == salt by {
                    assert(!wrong(m));
                }
            },
        }
        let now = fri_paths::queries_salt_failure(matrices, rows, salts, salt, location, n);
        if now is None {
            assert(query_salted(matrices, rows, salts, salt, n - 1));
        } else if forall|q: int|
            0 <= q < n ==> #[trigger] query_salted(matrices, rows, salts, salt, q) {
            assert(query_salted(matrices, rows, salts, salt, n - 1));
            assert(forall|q: int|
                0 <= q < n - 1 ==> #[trigger] query_salted(matrices, rows, salts, salt, q));
        }
    }
}

/// The multiproofs of a hiding FRI proof authenticate the same rows, each followed by its salt.
pub proof fn law_hiding_openings<
    F: TwoAdicField,
    EF: ExtensionField<F>,
    Cm,
    const DIGEST_ELEMS: usize,
>(
    r: FriReplay<F, EF, Cm, (Vec<Vec<Vec<F>>>, PrunedMerklePaths<F, DIGEST_ELEMS>)>,
    salt: nat,
)
    requires
        r.heights_fit(),
        r.countable(salt),
        claimed(r),
        forall|b: int|
            0 <= b < r.batches.len() ==> #[trigger] r.input_salts_failure(b, salt) is None,
        forall|k: int|
            0 <= k < r.fri.commit_phase_openings@.len() ==> #[trigger] r.phase_salts_failure(
                k,
                salt,
            ) is None,
    ensures
        forall|b: int|
            0 <= b < r.batches.len() ==> {
                &&& input_authenticated(
                    r,
                    b,
                    #[trigger] fri_paths::hiding_input(r, salt, b),
                    Some(r.fri.input_openings@[b].opening_proof.0@),
                    salt,
                )
                &&& fri_paths::hiding_input(r, salt, b).siblings
                    == r.fri.input_openings@[b].opening_proof.1.sibling_hashes@
            },
        forall|k: int|
            0 <= k < r.fri.commit_phase_openings@.len() ==> {
                &&& phase_authenticated(
                    r,
                    k,
                    #[trigger] fri_paths::hiding_phase(r, salt, k),
                    Some(r.fri.commit_phase_openings@[k].opening_proof.0@),
                    salt,
                )
                &&& fri_paths::hiding_phase(r, salt, k).siblings
                    == r.fri.commit_phase_openings@[k].opening_proof.1.sibling_hashes@
            },
{
    assert forall|b: int| 0 <= b < r.batches.len() implies input_authenticated(
        r,
        b,
        #[trigger] fri_paths::hiding_input(r, salt, b),
        Some(r.fri.input_openings@[b].opening_proof.0@),
        salt,
    ) by {
        let siblings = r.fri.input_openings@[b].opening_proof.1.sibling_hashes@;
        lemma_input(r, b, siblings, salt);
        let plain = r.input_opening(b, siblings);
        let opening = fri_paths::hiding_input(r, salt, b);
        let matrices = r.batches[b]@;
        assert forall|m: int| 0 <= m < matrices.len() implies {
            &&& (#[trigger] opening.dimensions[m]).width
                == matrices[m].points_and_values@[0].1@.len() + salt
            &&& opening.dimensions[m].height == pow2(
                matrices[m].domain.log_size as nat + r.log_blowup,
            )
        } by {
            assert(r.batches[b]@[m].points_and_values@.len() > 0);
            assert(r.claims()[b][m].claims.len() > 0);
            assert(plain.dimensions[m].height == pow2(
                matrices[m].domain.log_size as nat + r.log_blowup,
            ));
        }
        assert forall|q: int, top: nat|
            0 <= q < r.indices.len() && tallest(r, b, top) && top
                <= r.log_global() implies #[trigger] opening.indices[q] == r.indices[q]
            / #[trigger] pow2((r.log_global() - top) as nat) by {
            assert(plain.indices[q] == r.indices[q] / pow2((r.log_global() - top) as nat));
        }
        assert(r.input_salts_failure(b, salt) is None);
        law_salts_fit(
            r.claims()[b].len(),
            r.opened(b),
            seqs::tables(r.fri.input_openings@[b].opening_proof.0@),
            salt,
            "input batch",
        );
        let rows = r.fri.input_openings@[b].opened_values@;
        let salts = r.fri.input_openings@[b].opening_proof.0@;
        assert forall|q: int| 0 <= q < rows.len() implies (#[trigger] opening.rows[q]).len()
            == rows[q]@.len() by {
            assert(plain.rows[q].len() == rows[q]@.len());
        }
        assert forall|q: int, m: int|
            #![trigger opening.rows[q][m]]
            0 <= q < rows.len() && 0 <= m < rows[q]@.len() implies opening.rows[q][m]
            == rows[q]@[m]@ + salts[q]@[m]@ by {
            assert(plain.rows[q].len() == rows[q]@.len());
            assert(plain.rows[q][m] == rows[q]@[m]@);
            assert(query_salted(
                r.claims()[b].len(),
                r.opened(b),
                seqs::tables(salts),
                salt,
                q,
            ));
            assert(seqs::tables(salts)[q][m] == salts[q]@[m]@);
        }
    }
    assert forall|k: int|
        0 <= k < r.fri.commit_phase_openings@.len() implies phase_authenticated(
        r,
        k,
        #[trigger] fri_paths::hiding_phase(r, salt, k),
        Some(r.fri.commit_phase_openings@[k].opening_proof.0@),
        salt,
    ) by {
        let siblings = r.fri.commit_phase_openings@[k].opening_proof.1.sibling_hashes@;
        assert(pow2(r.fri.commit_phase_openings@[k].log_arity as nat) * EF::sp_dimension() + salt
            <= usize::MAX);
        lemma_phase(r, k, siblings);
        let plain = r.phase_opening(k, siblings);
        let salts = r.fri.commit_phase_openings@[k].opening_proof.0@;
        let flat = fri_paths::flat_tables::<F, EF>(r.phase_rows(k));
        assert(r.phase_salts_failure(k, salt) is None);
        law_salts_fit(1, flat, seqs::tables(salts), salt, "commit phase");
        let opening = fri_paths::hiding_phase(r, salt, k);
        assert forall|q: int| 0 <= q < r.indices.len() implies {
            &&& (#[trigger] opening.rows[q]).len() == 1
            &&& opening.rows[q][0] == flattened::<F, EF>(r.fold(q).row::<F>(k as nat))
                + r.fri.commit_phase_openings@[k].opening_proof.0@[q]@[0]@
        } by {
            assert(plain.rows[q].len() == 1);
            assert(query_salted(1, flat, seqs::tables(salts), salt, q));
            assert(seqs::tables(salts)[q][0] == salts[q]@[0]@);
            assert(plain.rows[q][0] == flattened::<F, EF>(r.fold(q).row::<F>(k as nat)));
        }
        assert forall|q: int| 0 <= q < r.indices.len() implies #[trigger] opening.indices[q]
            == plain.indices[q] by {}
    }
}

/// What the multiproof of a WHIR round authenticates: one matrix, whose rows are those that the
/// round opens, as base elements. Only the first round opens rows over the base field; the rows of
/// all others hold the coefficients of extension elements. The final opening is the last round.
pub proof fn law_whir_opening<F: Field, EF: ExtensionField<F>, const DIGEST_ELEMS: usize>(
    x: WhirExpansion<F, EF, DIGEST_ELEMS>,
    round: int,
)
    requires
        x.representable(),
        x.whir.rounds@.len() == x.params.round_params@.len(),
        0 <= round <= x.params.round_params@.len(),
    ensures
        ({
            let opening = x.opening(round);
            let last = round == x.params.round_params@.len();
            let (domain_size, folding) = if last {
                (x.params.final_domain_size, x.params.final_sumcheck_rounds)
            } else {
                (
                    x.params.round_params@[round].domain_size,
                    x.params.round_params@[round].folding_factor,
                )
            };
            let opened = if last {
                x.whir.final_openings
            } else {
                x.whir.rounds@[round]
            };
            &&& opening.indices == if last {
                x.final_indices
            } else {
                x.round_indices[round]
            }
            &&& opening.dimensions.len() == 1
            &&& opening.dimensions[0].height == domain_size as nat / pow2(folding as nat)
            &&& match opened {
                QueryOpenings::Base(shared) => {
                    &&& opening.dimensions[0].width == pow2(folding as nat)
                    &&& opening.siblings == shared.pruned.sibling_hashes@
                    &&& opening.rows.len() == shared.rows@.len()
                    &&& forall|q: int|
                        0 <= q < shared.rows@.len() ==> {
                            &&& (#[trigger] opening.rows[q]).len() == 1
                            &&& opening.rows[q][0] == shared.rows@[q]@
                        }
                },
                QueryOpenings::Extension(shared) => {
                    &&& opening.dimensions[0].width == pow2(folding as nat) * EF::sp_dimension()
                    &&& opening.siblings == shared.pruned.sibling_hashes@
                    &&& opening.rows.len() == shared.rows@.len()
                    &&& forall|q: int|
                        0 <= q < shared.rows@.len() ==> {
                            &&& (#[trigger] opening.rows[q]).len() == 1
                            &&& opening.rows[q][0] == flattened::<F, EF>(shared.rows@[q]@)
                        }
                },
            }
        }),
{
    let last = round == x.params.round_params@.len();
    let opened = x.openings(round);
    let folding = if last {
        x.params.final_sumcheck_rounds
    } else {
        x.params.round_params@[round].folding_factor
    };
    fri_paths::lemma_half_word(folding as nat);
    let domain_size = if last {
        x.params.final_domain_size
    } else {
        x.params.round_params@[round].domain_size
    };
    lemma_pow2_pos(folding as nat);
    vstd::arithmetic::div_mod::lemma_div_is_ordered_by_denominator(
        domain_size as int,
        1,
        pow2(folding as nat) as int,
    );
    match opened {
        QueryOpenings::Base(shared) => {},
        QueryOpenings::Extension(shared) => {
            assert forall|q: int| 0 <= q < shared.rows@.len() implies {
                &&& (#[trigger] x.opening(round).rows[q]).len() == 1
                &&& x.opening(round).rows[q][0] == flattened::<F, EF>(shared.rows@[q]@)
            } by {
                lemma_flat::<F, EF>(shared.rows@[q]@, shared.rows@[q]@.len());
            }
        },
    }
}

/// A WHIR proof expands only if all three give the same number of rounds, and the first round alone
/// opens rows over the base field.
pub proof fn law_whir_expansion_shape<F: Field, EF: ExtensionField<F>, const DIGEST_ELEMS: usize>(
    x: WhirExpansion<F, EF, DIGEST_ELEMS>,
    arity: nat,
    cap_height: nat,
)
    ensures
        ({
            let n = x.params.round_params@.len();
            x.failure(arity, cap_height) is None <==> {
                &&& x.whir.rounds@.len() == n
                &&& x.round_indices.len() == n
                &&& forall|i: int|
                    0 <= i < n ==> ((#[trigger] x.whir.rounds@[i]) is Base <==> i == 0)
                &&& (x.whir.final_openings is Base <==> n == 0)
                &&& forall|i: int|
                    0 <= i <= n ==> (#[trigger] x.opening(i)).failure(arity, cap_height) is None
            }
        }),
{
    let n = x.params.round_params@.len();
    lemma_whir_rounds(x, arity, cap_height, n + 1);
    if x.whir.rounds@.len() == n && x.round_indices.len() == n {
        if x.failure(arity, cap_height) is None {
            assert forall|i: int| 0 <= i < n implies ((#[trigger] x.whir.rounds@[i]) is Base <==> i
                == 0) by {
                assert(x.round_failure(arity, cap_height, i) is None);
                assert(x.openings(i) == x.whir.rounds@[i]);
            }
            assert(x.round_failure(arity, cap_height, n as int) is None);
            assert forall|i: int| 0 <= i <= n implies (#[trigger] x.opening(i)).failure(
                arity,
                cap_height,
            ) is None by {
                assert(x.round_failure(arity, cap_height, i) is None);
            }
        } else {
            let i = choose|i: int|
                0 <= i < n + 1 && #[trigger] x.round_failure(arity, cap_height, i) is Some;
            if x.opening(i).failure(arity, cap_height) is None && i < n {
                assert(x.openings(i) == x.whir.rounds@[i]);
            }
        }
    }
}

proof fn lemma_whir_rounds<F: Field, EF: ExtensionField<F>, const DIGEST_ELEMS: usize>(
    x: WhirExpansion<F, EF, DIGEST_ELEMS>,
    arity: nat,
    cap_height: nat,
    n: nat,
)
    ensures
        x.rounds_failure(arity, cap_height, n) is None ==> forall|i: int|
            0 <= i < n ==> #[trigger] x.round_failure(arity, cap_height, i) is None,
        x.rounds_failure(arity, cap_height, n) is Some ==> exists|i: int|
            0 <= i < n && #[trigger] x.round_failure(arity, cap_height, i) is Some,
    decreases n,
{
    if n > 0 {
        lemma_whir_rounds(x, arity, cap_height, (n - 1) as nat);
        if x.rounds_failure(arity, cap_height, n) is Some && x.rounds_failure(
            arity,
            cap_height,
            (n - 1) as nat,
        ) is None {
            assert(x.round_failure(arity, cap_height, n - 1) is Some);
        }
    }
}

/// How many queries the first `n` rounds answer.
pub open spec fn answered<F, EF, const DIGEST_ELEMS: usize>(
    x: WhirExpansion<F, EF, DIGEST_ELEMS>,
    n: nat,
) -> nat
    decreases n,
{
    if n == 0 {
        0
    } else {
        answered(x, (n - 1) as nat) + if n - 1 < x.params.round_params@.len() {
            x.round_indices[n - 1].len()
        } else {
            x.final_indices.len()
        }
    }
}

/// The paths stand round after round and query after query, the final queries last.
pub proof fn law_whir_paths_in_order<
    F: Field,
    EF: ExtensionField<F>,
    H: CryptographicHasher<F, DIGEST_ELEMS>,
    C: PseudoCompressionFunction<F, N, DIGEST_ELEMS>,
    const N: usize,
    const DIGEST_ELEMS: usize,
>(
    x: WhirExpansion<F, EF, DIGEST_ELEMS>,
    hash: H,
    compress: C,
    cap_height: nat,
    n: nat,
    round: int,
    q: int,
)
    requires
        0 <= round < n,
        0 <= q < (if round < x.params.round_params@.len() {
            x.round_indices[round].len()
        } else {
            x.final_indices.len()
        }),
    ensures
        ({
            let paths = x.paths::<H, C, N>(hash, compress, cap_height, n);
            let place = answered(x, round as nat) + q;
            &&& paths.len() == answered(x, n)
            &&& 0 <= place < paths.len()
            &&& paths[place] == x.opening(round).path::<H, C, N>(hash, compress, cap_height, q)
        }),
    decreases n,
{
    lemma_path_count::<F, EF, H, C, N, DIGEST_ELEMS>(x, hash, compress, cap_height, n);
    lemma_path_count::<F, EF, H, C, N, DIGEST_ELEMS>(
        x,
        hash,
        compress,
        cap_height,
        (n - 1) as nat,
    );
    if round < n - 1 {
        law_whir_paths_in_order::<F, EF, H, C, N, DIGEST_ELEMS>(
            x,
            hash,
            compress,
            cap_height,
            (n - 1) as nat,
            round,
            q,
        );
    }
}

proof fn lemma_path_count<
    F: Field,
    EF: ExtensionField<F>,
    H: CryptographicHasher<F, DIGEST_ELEMS>,
    C: PseudoCompressionFunction<F, N, DIGEST_ELEMS>,
    const N: usize,
    const DIGEST_ELEMS: usize,
>(
    x: WhirExpansion<F, EF, DIGEST_ELEMS>,
    hash: H,
    compress: C,
    cap_height: nat,
    n: nat,
)
    ensures
        x.paths::<H, C, N>(hash, compress, cap_height, n).len() == answered(x, n),
    decreases n,
{
    if n > 0 {
        lemma_path_count::<F, EF, H, C, N, DIGEST_ELEMS>(
            x,
            hash,
            compress,
            cap_height,
            (n - 1) as nat,
        );
        assert(x.opening(n - 1).indices.len() == x.indices(n - 1).len());
    }
}

} // verus!
