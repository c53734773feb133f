//! What the replays claim of the committed matrices, matrix by matrix and point by point.

use vstd::arithmetic::power2::pow2;
use vstd::prelude::*;

use crate::challenger::{Challenger, PrimeField64};
use crate::extension::ExtensionField;
use crate::field::{Field, TwoAdicField};
use crate::generation;
use crate::generation::{Claims, FriGenerationParams, PcsGeneration, Round};
use crate::replay_laws;
use crate::replay_laws::{absorbs, all_openings, draws, if_any, is_drawn, uni_opening};
use crate::seqs;
use crate::stark_generation;
use crate::stark_generation::BatchReplay;
use crate::uni_generation;
use crate::uni_generation::UniReplay;

verus! {

/// A matrix over the subgroup of order `2^log_size` is opened at `zeta`, and at one more point where
/// one is given.
pub open spec fn opened_at<F: Field, EF>(
    claims: Claims<F, EF>,
    log_size: nat,
    zeta: EF,
    local: Seq<EF>,
    next: Option<(EF, Seq<EF>)>,
) -> bool {
    &&& claims.domain.shift == F::sp_one()
    &&& claims.domain.log_size == log_size
    &&& claims.points.len() == if next is Some {
        2int
    } else {
        1
    }
    &&& claims.points[0] == (zeta, local)
    &&& next is Some ==> claims.points[1] == next->0
}

/// `zeta` times the generator of the subgroup of order `2^log_size`.
pub open spec fn advanced<F: TwoAdicField, EF: ExtensionField<F>>(zeta: EF, log_size: nat) -> EF {
    zeta.sp_mul(EF::sp_from_base(F::sp_two_adic_generator(log_size)))
}

/// How many quotient chunks the first `n` instances have.
pub open spec fn chunks_before<F, EF, O>(r: BatchReplay<F, EF, O>, n: nat) -> nat
    decreases n,
{
    if n == 0 {
        0
    } else {
        chunks_before(r, (n - 1) as nat) + r.stark.instances@[n - 1].quotient_chunks@.len()
    }
}

/// How many of the first `n` instances have permutation columns.
pub open spec fn permuted_before<F, EF, O>(r: BatchReplay<F, EF, O>, n: nat) -> nat
    decreases n,
{
    if n == 0 {
        0
    } else {
        permuted_before(r, (n - 1) as nat) + if r.stark.instances@[n - 1].permutation_local@.len()
            > 0 {
            1nat
        } else {
            0
        }
    }
}

/// The subgroup of each instance, extended by the hiding bit, and its length.
pub open spec fn log_extended<F, EF, O>(r: BatchReplay<F, EF, O>, i: int) -> nat {
    r.stark.degree_bits@[i] as nat
}

pub open spec fn log_trace<F, EF, O>(r: BatchReplay<F, EF, O>, i: int) -> nat {
    (r.stark.degree_bits@[i] - (if r.zk {
        1int
    } else {
        0
    })) as nat
}

/// A quotient chunk of an instance is claimed at its place.
pub open spec fn chunk_claimed<F: Field, EF, O>(
    r: BatchReplay<F, EF, O>,
    zeta: EF,
    matrices: Seq<Claims<F, EF>>,
    i: int,
    c: int,
) -> bool {
    let place = chunks_before(r, i as nat) + c;
    &&& 0 <= place < matrices.len()
    &&& opened_at(
        matrices[place],
        log_extended(r, i),
        zeta,
        r.stark.instances@[i].quotient_chunks@[c]@,
        None,
    )
}

/// The permutation columns of an instance are claimed at its place.
pub open spec fn permutation_claimed<F: TwoAdicField, EF: ExtensionField<F>, O>(
    r: BatchReplay<F, EF, O>,
    zeta: EF,
    matrices: Seq<Claims<F, EF>>,
    i: int,
) -> bool {
    let place = permuted_before(r, i as nat) as int;
    &&& place < matrices.len()
    &&& opened_at(
        matrices[place],
        log_extended(r, i),
        zeta,
        r.stark.instances@[i].permutation_local@,
        Some(
            (
                advanced::<F, EF>(zeta, log_trace(r, i)),
                r.stark.instances@[i].permutation_next@,
            ),
        ),
    )
}

proof fn lemma_quotient_places<F: PrimeField64 + TwoAdicField, EF: ExtensionField<F>, O>(
    r: BatchReplay<F, EF, O>,
    zeta: EF,
    n: nat,
)
    requires
        n <= r.count(),
        r.shape_failure() is None,
        r.representable(),
    ensures
        r.quotient_round(zeta, n).len() == chunks_before(r, n),
        forall|i: int, c: int|
            0 <= i < n && 0 <= c < r.stark.instances@[i].quotient_chunks@.len()
                ==> #[trigger] chunk_claimed(r, zeta, r.quotient_round(zeta, n), i, c),
    decreases n,
{
    if n > 0 {
        lemma_quotient_places(r, zeta, (n - 1) as nat);
        let k = n - 1;
        r.lemma_degrees_ok(k, r.count());
        assert(r.degree(k) <= F::sp_two_adicity());
        let before = r.quotient_round(zeta, (n - 1) as nat);
        assert forall|i: int, c: int|
            0 <= i < n && 0 <= c
                < r.stark.instances@[i].quotient_chunks@.len() implies #[trigger] chunk_claimed(
            r,
            zeta,
            r.quotient_round(zeta, n),
            i,
            c,
        ) by {
            if i < k {
                assert(chunk_claimed(r, zeta, before, i, c));
            }
        }
    }
}

proof fn lemma_permutation_places<F: PrimeField64 + TwoAdicField, EF: ExtensionField<F>, O>(
    r: BatchReplay<F, EF, O>,
    zeta: EF,
    n: nat,
)
    requires
        n <= r.count(),
        r.shape_failure() is None,
    ensures
        r.permutation_round(zeta, n).len() == permuted_before(r, n),
        forall|i: int|
            0 <= i < n && r.stark.instances@[i].permutation_local@.len() > 0
                ==> #[trigger] permutation_claimed(r, zeta, r.permutation_round(zeta, n), i),
    decreases n,
{
    if n > 0 {
        lemma_permutation_places(r, zeta, (n - 1) as nat);
        let before = r.permutation_round(zeta, (n - 1) as nat);
        assert forall|i: int|
            0 <= i < n
                && r.stark.instances@[i].permutation_local@.len()
                > 0 implies #[trigger] permutation_claimed(
            r,
            zeta,
            r.permutation_round(zeta, n),
            i,
        ) by {
            if i < n - 1 {
                assert(permutation_claimed(r, zeta, before, i));
            } else {
                r.lemma_degrees_ok(i, r.count());
                assert(r.base_degree(i) as usize == log_trace(r, i));
            }
        }
    }
}

/// The claims of a batch proof. Of every instance the trace is opened at the out-of-domain point,
/// and at the point after it in the trace domain exactly if the proof holds next-row values. The
/// random and quotient matrices are opened at the out-of-domain point, the preprocessed and
/// permutation matrices at both points. The rounds come in the order random, trace, quotient,
/// preprocessed, permutation, each under its own commitment.
pub proof fn law_batch_claims<F: PrimeField64 + TwoAdicField, EF: ExtensionField<F>, O>(
    r: BatchReplay<F, EF, O>,
    zeta: EF,
)
    requires
        r.shape_failure() is None,
        r.representable(),
    ensures
        ({
            let rounds = r.rounds(zeta);
            let n = r.airs.len() as int;
            let commitments = r.stark.commitments;
            let main: int = if commitments.random is Some {
                1
            } else {
                0
            };
            let fixed = main + 2;
            let permuted = fixed + if r.preprocessed is Some {
                1int
            } else {
                0
            };
            &&& rounds.len() == permuted + if commitments.permutation is Some {
                1int
            } else {
                0
            }
            &&& commitments.random is Some ==> {
                &&& rounds[0].commitment == commitments.random->0@
                &&& rounds[0].matrices.len() == n
                &&& forall|i: int|
                    0 <= i < n ==> opened_at(
                        #[trigger] rounds[0].matrices[i],
                        log_extended(r, i),
                        zeta,
                        r.stark.instances@[i].random->0@,
                        None,
                    )
            }
            &&& rounds[main].commitment == commitments.main@
            &&& rounds[main].matrices.len() == n
            &&& forall|i: int|
                0 <= i < n ==> opened_at(
                    #[trigger] rounds[main].matrices[i],
                    log_extended(r, i),
                    zeta,
                    r.stark.instances@[i].trace_local@,
                    match r.stark.instances@[i].trace_next {
                        Some(next) => Some((advanced::<F, EF>(zeta, log_trace(r, i)), next@)),
                        None => None,
                    },
                )
            &&& rounds[main + 1].commitment == commitments.quotient_chunks@
            &&& rounds[main + 1].matrices.len() == chunks_before(r, n as nat)
            &&& forall|i: int, c: int|
                0 <= i < n && 0 <= c < r.stark.instances@[i].quotient_chunks@.len()
                    ==> #[trigger] chunk_claimed(r, zeta, rounds[main + 1].matrices, i, c)
            &&& r.preprocessed is Some ==> {
                let global = r.preprocessed->0;
                &&& rounds[fixed].commitment == global.commitment@
                &&& rounds[fixed].matrices.len() == global.matrix_to_instance@.len()
                &&& forall|m: int|
                    0 <= m < global.matrix_to_instance@.len() ==> {
                        let i = global.matrix_to_instance@[m] as int;
                        opened_at(
                            #[trigger] rounds[fixed].matrices[m],
                            global.instances@[i]->0.degree_bits as nat,
                            zeta,
                            r.stark.instances@[i].preprocessed_local->0@,
                            Some(
                                (
                                    advanced::<F, EF>(zeta, log_trace(r, i)),
                                    r.stark.instances@[i].preprocessed_next->0@,
                                ),
                            ),
                        )
                    }
            }
            &&& commitments.permutation is Some ==> {
                &&& rounds[permuted].commitment == commitments.permutation->0@
                &&& rounds[permuted].matrices.len() == permuted_before(r, n as nat)
                &&& forall|i: int|
                    0 <= i < n && r.stark.instances@[i].permutation_local@.len() > 0
                        ==> #[trigger] permutation_claimed(
                        r,
                        zeta,
                        rounds[permuted].matrices,
                        i,
                    )
            }
        }),
{
    let n = r.count();
    lemma_quotient_places(r, zeta, n);
    lemma_permutation_places(r, zeta, n);
    let rounds = r.rounds(zeta);
    let main: int = if r.stark.commitments.random is Some {
        1
    } else {
        0
    };
    if r.stark.commitments.random is Some {
        assert(rounds[0].matrices == r.random_round(zeta));
    }
    assert(rounds[main].matrices == r.trace_round(zeta));
    assert(rounds[main + 1].matrices == r.quotient_round(zeta, n));
    assert forall|i: int| 0 <= i < n implies r.base_degree(i) as usize == log_trace(r, i) by {}
    if r.preprocessed is Some {
        assert(rounds[main + 2].matrices == r.preprocessed_round(zeta));
    }
}

/// The claims of a single proof. The trace is opened at the out-of-domain point, and at the point
/// after it exactly if the constraints read the next row; likewise the preprocessed columns. The
/// random matrix and the quotient chunks are opened at the out-of-domain point.
pub proof fn law_uni_claims<F: PrimeField64 + TwoAdicField, EF: ExtensionField<F>, O>(
    r: UniReplay<F, EF, O>,
    zeta: EF,
)
    requires
        r.shape_failure() is None,
        r.representable(),
    ensures
        ({
            let rounds = r.rounds(zeta);
            let degree = r.stark.degree_bits as nat;
            let commitments = r.stark.commitments;
            let opened = r.stark.opened_values;
            let next = advanced::<F, EF>(zeta, degree);
            let main: int = if commitments.random is Some {
                1
            } else {
                0
            };
            &&& rounds.len() == main + 2 + if r.key is Some {
                1int
            } else {
                0
            }
            &&& commitments.random is Some ==> {
                &&& rounds[0].commitment == commitments.random->0@
                &&& rounds[0].matrices.len() == 1
                &&& opened_at(rounds[0].matrices[0], degree, zeta, opened.random->0@, None)
            }
            &&& rounds[main].commitment == commitments.trace@
            &&& rounds[main].matrices.len() == 1
            &&& opened_at(
                rounds[main].matrices[0],
                degree,
                zeta,
                opened.trace_local@,
                if r.air.reads_next_row {
                    Some((next, opened.trace_next->0@))
                } else {
                    None
                },
            )
            &&& rounds[main + 1].commitment == commitments.quotient_chunks@
            &&& rounds[main + 1].matrices.len() == opened.quotient_chunks@.len()
            &&& forall|c: int|
                0 <= c < opened.quotient_chunks@.len() ==> opened_at(
                    #[trigger] rounds[main + 1].matrices[c],
                    degree + if r.zk {
                        1nat
                    } else {
                        0
                    },
                    zeta,
                    opened.quotient_chunks@[c]@,
                    None,
                )
            &&& r.key is Some ==> {
                &&& rounds[main + 2].commitment == r.key->0.commitment@
                &&& rounds[main + 2].matrices.len() == 1
                &&& opened_at(
                    rounds[main + 2].matrices[0],
                    degree,
                    zeta,
                    opened.preprocessed_local->0@,
                    if r.air.reads_next_preprocessed_row {
                        Some((next, opened.preprocessed_next->0@))
                    } else {
                        None
                    },
                )
            }
        }),
{
    let chunks = r.chunks();
    if chunks > 0 {
        uni_generation::lemma_log_ceil_product(r.degree(), chunks);
        vstd::arithmetic::power2::lemma2_to64();
        uni_generation::lemma_log_ceil_bound(r.quotient_size(), 64);
    }
    let rounds = r.rounds(zeta);
    let main: int = if r.stark.commitments.random is Some {
        1
    } else {
        0
    };
    assert forall|c: int| 0 <= c < chunks implies opened_at(
        #[trigger] rounds[main + 1].matrices[c],
        r.degree() + r.zk_bits(),
        zeta,
        r.stark.opened_values.quotient_chunks@[c]@,
        None,
    ) by {
        assert(uni_generation::log_ceil(r.quotient_size()) == r.degree()
            + uni_generation::log_ceil(chunks));
    }
}

// Acceptance.

/// The values opened of an instance have the right lengths: every quotient chunk, and the random
/// values where there are any, hold one value for each coefficient.
pub open spec fn values_fit<F: Field, EF: ExtensionField<F>, O>(
    r: BatchReplay<F, EF, O>,
    i: int,
) -> bool {
    let opened = r.stark.instances@[i];
    &&& forall|c: int|
        0 <= c < opened.quotient_chunks@.len() ==> (#[trigger] opened.quotient_chunks@[c])@.len()
            == EF::sp_dimension()
    &&& opened.random matches Some(random) ==> random@.len() == EF::sp_dimension()
}

/// The degree of an instance holds the hiding bit and is below the word size without it.
pub open spec fn degree_fits<F, EF, O>(r: BatchReplay<F, EF, O>, i: int) -> bool {
    let degree = r.stark.degree_bits@[i] as int;
    let zk: int = if r.zk {
        1
    } else {
        0
    };
    0 <= degree - zk < usize::BITS
}

proof fn lemma_values_fit<F: PrimeField64 + TwoAdicField, EF: ExtensionField<F>, O>(
    r: BatchReplay<F, EF, O>,
    n: nat,
)
    ensures
        r.all_values_failure(n) is None <==> forall|i: int|
            0 <= i < n ==> #[trigger] values_fit(r, i),
    decreases n,
{
    if n > 0 {
        lemma_values_fit(r, (n - 1) as nat);
        let opened = r.stark.instances@[n - 1];
        let wrong = stark_generation::wrong_length(opened.quotient_chunks@, EF::sp_dimension());
        let chunks = opened.quotient_chunks@;
        seqs::lemma_least(chunks.len(), wrong);
        match seqs::least(chunks.len(), wrong) {
            Some(c) => {
                assert(chunks[c]@.len() != EF::sp_dimension());
                assert(!values_fit(r, n - 1));
            },
            None => {
                assert forall|c: int| 0 <= c < chunks.len() implies (#[trigger] chunks[c])@.len()
                    == EF::sp_dimension() by {
                    assert(!wrong(c));
                }
            },
        }
        assert(values_fit(r, n - 1) == (r.values_failure(n - 1) is None));
        if forall|i: int| 0 <= i < n ==> #[trigger] values_fit(r, i) {
            assert(forall|i: int| 0 <= i < n - 1 ==> #[trigger] values_fit(r, i));
        }
    }
}

proof fn lemma_degrees_fit<F: PrimeField64 + TwoAdicField, EF: ExtensionField<F>, O>(
    r: BatchReplay<F, EF, O>,
    n: nat,
)
    ensures
        r.all_degrees_failure(n) is None <==> forall|i: int|
            0 <= i < n ==> #[trigger] degree_fits(r, i),
    decreases n,
{
    if n > 0 {
        lemma_degrees_fit(r, (n - 1) as nat);
        assert(degree_fits(r, n - 1) == (r.degree_failure(n - 1) is None));
        if forall|i: int| 0 <= i < n ==> #[trigger] degree_fits(r, i) {
            assert(forall|i: int| 0 <= i < n - 1 ==> #[trigger] degree_fits(r, i));
        }
    }
}

/// The shape of a batch proof is right exactly if each instance that declares lookups brings a
/// terminal and no other does, all lists have one entry for each of at least one instance, the
/// proof is randomized throughout or nowhere as the scheme asks, and all values and degrees fit.
pub proof fn law_batch_shape<F: PrimeField64 + TwoAdicField, EF: ExtensionField<F>, O>(
    r: BatchReplay<F, EF, O>,
)
    ensures
        ({
            let n = r.airs.len();
            r.shape_failure() is None <==> {
                &&& forall|j: int|
                    0 <= j < r.lookups.len() && j < r.stark.lookup_terminals@.len()
                        ==> r.lookups[j] == (#[trigger] r.stark.lookup_terminals@[j] is Some)
                &&& n > 0
                &&& r.stark.instances@.len() == n
                &&& r.public_values.len() == n
                &&& r.stark.degree_bits@.len() == n
                &&& (r.stark.commitments.random is Some) == r.zk
                &&& forall|i: int|
                    0 <= i < n ==> ((#[trigger] r.stark.instances@[i]).random is Some) == r.zk
                &&& forall|i: int| 0 <= i < n ==> #[trigger] values_fit(r, i)
                &&& forall|i: int| 0 <= i < n ==> #[trigger] degree_fits(r, i)
            }
        }),
{
    let n = r.airs.len();
    let terminals = r.stark.lookup_terminals@;
    let shorter = stark_generation::smaller_of(r.lookups.len(), terminals.len());
    let mismatch = stark_generation::terminal_mismatch(r.lookups, terminals);
    seqs::lemma_least(shorter, mismatch);
    match seqs::least(shorter, mismatch) {
        Some(j) => {
            assert(r.lookups[j] != (terminals[j] is Some));
        },
        None => {
            assert forall|j: int|
                0 <= j < r.lookups.len() && j < terminals.len() implies r.lookups[j] == (
            #[trigger] terminals[j] is Some) by {
                assert(!mismatch(j));
            }
        },
    }
    lemma_values_fit(r, n);
    lemma_degrees_fit(r, n);
    let differs = exists|i: int| 0 <= i < r.count() && #[trigger] r.hides(i) != r.zk;
    if differs {
        let i = choose|i: int| 0 <= i < r.count() && #[trigger] r.hides(i) != r.zk;
        assert((r.stark.instances@[i].random is Some) != r.zk);
    } else {
        assert forall|i: int| 0 <= i < n implies ((#[trigger] r.stark.instances@[i]).random is Some)
            == r.zk by {
            assert(r.hides(i) == r.zk);
        }
    }
}

/// A preprocessed matrix belongs to an instance with preprocessed columns, whose values are opened
/// at both points, and whose metadata name the matrix and the degree of the instance.
pub open spec fn matrix_fits<F, EF, O>(r: BatchReplay<F, EF, O>, m: int) -> bool {
    let global = r.preprocessed->0;
    let i = global.matrix_to_instance@[m] as int;
    &&& global.instances@[i] is Some
    &&& global.instances@[i]->0.width > 0
    &&& r.stark.instances@[i].preprocessed_local is Some
    &&& r.stark.instances@[i].preprocessed_next is Some
    &&& global.instances@[i]->0.matrix_index == m
    &&& global.instances@[i]->0.degree_bits == r.stark.degree_bits@[i]
}

proof fn lemma_matrices_fit<F: PrimeField64 + TwoAdicField, EF: ExtensionField<F>, O>(
    r: BatchReplay<F, EF, O>,
    n: nat,
)
    requires
        r.preprocessed is Some,
    ensures
        r.matrices_failure(n) is None <==> forall|m: int|
            0 <= m < n ==> #[trigger] matrix_fits(r, m),
    decreases n,
{
    if n > 0 {
        lemma_matrices_fit(r, (n - 1) as nat);
        assert(matrix_fits(r, n - 1) == (r.matrix_failure(n - 1) is None));
        if forall|m: int| 0 <= m < n ==> #[trigger] matrix_fits(r, m) {
            assert(forall|m: int| 0 <= m < n - 1 ==> #[trigger] matrix_fits(r, m));
        }
    }
}

/// The claimed openings of a batch proof are right exactly if each instance opens as many quotient
/// chunks as its constraints need, every preprocessed matrix fits, and, where there is a permutation
/// commitment, each instance opens as many permutation columns at both points.
pub proof fn law_batch_openings<F: PrimeField64 + TwoAdicField, EF: ExtensionField<F>, O>(
    r: BatchReplay<F, EF, O>,
)
    ensures
        ({
            let n = r.airs.len();
            r.rounds_failure() is None <==> {
                &&& forall|i: int|
                    0 <= i < n ==> (#[trigger] r.stark.instances@[i]).quotient_chunks@.len()
                        == pow2(
                        r.airs[i].log_quotient_chunks as nat + if r.zk {
                            1nat
                        } else {
                            0
                        },
                    )
                &&& r.preprocessed matches Some(global) ==> forall|m: int|
                    0 <= m < global.matrix_to_instance@.len() ==> #[trigger] matrix_fits(r, m)
                &&& r.stark.commitments.permutation is Some ==> forall|i: int|
                    0 <= i < n ==> (#[trigger] r.stark.instances@[i]).permutation_local@.len()
                        == r.stark.instances@[i].permutation_next@.len()
            }
        }),
{
    let n = r.airs.len();
    let chunks = r.chunk_count_differs();
    let columns = r.permutation_length_differs();
    seqs::lemma_least(n, chunks);
    seqs::lemma_least(n, columns);
    if let Some(global) = r.preprocessed {
        lemma_matrices_fit(r, global.matrix_to_instance@.len());
    }
    match seqs::least(n, chunks) {
        Some(i) => {
            assert(r.stark.instances@[i].quotient_chunks@.len() != pow2(r.log_chunks(i)));
        },
        None => {
            assert forall|i: int| 0 <= i < n implies (
            #[trigger] r.stark.instances@[i]).quotient_chunks@.len() == pow2(r.log_chunks(i)) by {
                assert(!chunks(i));
            }
        },
    }
    match seqs::least(n, columns) {
        Some(i) => {
            assert(r.stark.instances@[i].permutation_local@.len()
                != r.stark.instances@[i].permutation_next@.len());
        },
        None => {
            assert forall|i: int| 0 <= i < n implies (
            #[trigger] r.stark.instances@[i]).permutation_local@.len()
                == r.stark.instances@[i].permutation_next@.len() by {
                assert(!columns(i));
            }
        },
    }
}

/// The rounded logarithm is the least exponent whose power of two reaches the number.
pub proof fn law_log_ceil(n: nat, k: nat)
    ensures
        uni_generation::log_ceil(n) <= k <==> n <= pow2(k),
    decreases n,
{
    vstd::arithmetic::power2::lemma2_to64();
    vstd::arithmetic::power2::lemma_pow2_pos(k);
    if n > 1 && k > 0 {
        vstd::arithmetic::power2::lemma_pow2_unfold(k);
        law_log_ceil(((n + 1) / 2) as nat, (k - 1) as nat);
    }
}

/// The shape of a single proof is right exactly if its degree holds the hiding bit and is below the
/// word size, a key is given for preprocessed columns and has the degree of the proof, there are as
/// many public values as the constraints read, and a domain for the whole quotient exists.
pub proof fn law_uni_shape<F: PrimeField64 + TwoAdicField, EF: ExtensionField<F>, O>(
    r: UniReplay<F, EF, O>,
)
    ensures
        ({
            let degree = r.stark.degree_bits as nat;
            let size = pow2(degree) * r.stark.opened_values.quotient_chunks@.len();
            r.shape_failure() is None <==> {
                &&& r.zk ==> degree > 0
                &&& degree < usize::BITS
                &&& r.key matches Some(key) ==> key.degree_bits == degree
                &&& r.key is None ==> r.air.preprocessed_width == 0
                &&& r.public_values.len() == r.air.num_public_values
                &&& size <= usize::MAX
                &&& size <= pow2(F::sp_two_adicity())
            }
        }),
{
    law_log_ceil(r.quotient_size(), F::sp_two_adicity());
}

/// The claimed openings of a single proof are right exactly if the proof is randomized in its
/// commitments and its values alike, and every opening that the constraints or a key ask for is
/// there.
pub proof fn law_uni_openings<F: PrimeField64 + TwoAdicField, EF: ExtensionField<F>, O>(
    r: UniReplay<F, EF, O>,
)
    ensures
        r.rounds_failure() is None <==> {
            let opened = r.stark.opened_values;
            &&& r.stark.commitments.random is Some <==> opened.random is Some
            &&& r.air.reads_next_row ==> opened.trace_next is Some
            &&& r.key is Some ==> opened.preprocessed_local is Some
            &&& r.key is Some && r.air.reads_next_preprocessed_row
                ==> opened.preprocessed_next is Some
        },
{
}

/// A single proof is replayed from the transcript that its out-of-domain point leaves: the batching
/// challenge of its FRI proof is drawn after all that came before and after all its openings.
pub proof fn law_uni_replay_continues<
    F: PrimeField64 + TwoAdicField,
    EF: ExtensionField<F>,
    C: Challenger<F>,
    P: PcsGeneration<F, EF>,
>(r: UniReplay<F, EF, P::OpeningProof>, s: C::State, params: FriGenerationParams)
    requires
        P::sp_fri(r.stark.opening_proof).commit_pow_witnesses@.len() == P::sp_fri(
            r.stark.opening_proof,
        ).commit_phase_commits@.len(),
    ensures
        ({
            let element = draws::<F>(EF::sp_dimension());
            let claims = P::sp_prepared(r.rounds(r.draw::<C>(s).0), r.stark.opening_proof);
            let events = absorbs(uni_opening(r)) + element + absorbs(
                r.stark.commitments.quotient_chunks@ + if_any(r.stark.commitments.random),
            ) + element + absorbs(all_openings(claims));
            &&& r.prepared::<C, P>(s) == claims
            &&& forall|x: EF| #[trigger]
                is_drawn::<F, EF, C>(s, events, x) ==> x == r.fri::<C, P>(s, params).alpha
        }),
{
    replay_laws::law_uni_transcript::<F, EF, C, P::OpeningProof>(r, s);
    let element = draws::<F>(EF::sp_dimension());
    let before = absorbs(uni_opening(r)) + element + absorbs(
        r.stark.commitments.quotient_chunks@ + if_any(r.stark.commitments.random),
    ) + element;
    let claims = r.prepared::<C, P>(s);
    lemma_batching_challenge::<F, EF, C, P::MerkleProof>(
        s,
        before,
        claims,
        P::sp_fri(r.stark.opening_proof),
        params,
    );
}

proof fn lemma_batching_challenge<
    F: PrimeField64 + TwoAdicField,
    EF: ExtensionField<F>,
    C: Challenger<F>,
    M,
>(
    s: C::State,
    before: Seq<replay_laws::Event<F>>,
    claims: Seq<Round<F, EF>>,
    fri: crate::fri_witness::FriProof<F, EF, Vec<F>, M>,
    params: FriGenerationParams,
)
    requires
        fri.commit_pow_witnesses@.len() == fri.commit_phase_commits@.len(),
    ensures
        forall|x: EF| #[trigger]
            is_drawn::<F, EF, C>(s, before + absorbs(all_openings(claims)), x) ==> x
                == generation::fri_replayed::<F, EF, C, M>(
                replay_laws::after::<F, C>(s, before),
                claims,
                fri,
                params,
            ).alpha,
{
    let t = replay_laws::after::<F, C>(s, before);
    let opened = absorbs(all_openings(claims));
    replay_laws::law_fri_transcript::<F, EF, C, M>(t, claims, fri, params);
    assert forall|x: EF| #[trigger] is_drawn::<F, EF, C>(s, before + opened, x) implies x
        == generation::fri_replayed::<F, EF, C, M>(t, claims, fri, params).alpha by {
        assert forall|i: int| 0 <= i < EF::sp_dimension() implies #[trigger] x.sp_coefficients()[i]
            == replay_laws::next_draw::<F, C>(t, opened + draws(i as nat)) by {
            let more = draws::<F>(i as nat);
            assert(before + opened + more =~= before + (opened + more));
            replay_laws::lemma_after_joined::<F, C>(s, before, opened + more);
        }
        assert(is_drawn::<F, EF, C>(t, opened, x));
    }
}

/// A batch proof is replayed from the transcript that its out-of-domain point leaves: the batching
/// challenge of its FRI proof is drawn after all that came before and after all its openings.
pub proof fn law_batch_replay_continues<
    F: PrimeField64 + TwoAdicField,
    EF: ExtensionField<F>,
    C: Challenger<F>,
    P: PcsGeneration<F, EF>,
>(r: BatchReplay<F, EF, P::OpeningProof>, s: C::State, params: FriGenerationParams)
    requires
        P::sp_fri(r.stark.opening_proof).commit_pow_witnesses@.len() == P::sp_fri(
            r.stark.opening_proof,
        ).commit_phase_commits@.len(),
    ensures
        ({
            let element = draws::<F>(EF::sp_dimension());
            let claims = P::sp_prepared(r.rounds(r.draws::<C>(s).zeta), r.stark.opening_proof);
            let pair = if r.lookups.contains(true) {
                element + element
            } else {
                Seq::empty()
            };
            let events = absorbs(replay_laws::batch_opening(r)) + pair + absorbs(
                replay_laws::batch_permuted(r),
            ) + element + absorbs(
                r.stark.commitments.quotient_chunks@ + if_any(r.stark.commitments.random),
            ) + element + absorbs(all_openings(claims));
            &&& r.prepared::<C, P>(s) == claims
            &&& forall|x: EF| #[trigger]
                is_drawn::<F, EF, C>(s, events, x) ==> x == r.fri::<C, P>(s, params).alpha
        }),
{
    replay_laws::law_batch_transcript::<F, EF, C, P::OpeningProof>(r, s);
    let element = draws::<F>(EF::sp_dimension());
    let pair = if r.lookups.contains(true) {
        element + element
    } else {
        Seq::empty()
    };
    let before = absorbs(replay_laws::batch_opening(r)) + pair + absorbs(
        replay_laws::batch_permuted(r),
    ) + element + absorbs(
        r.stark.commitments.quotient_chunks@ + if_any(r.stark.commitments.random),
    ) + element;
    lemma_batching_challenge::<F, EF, C, P::MerkleProof>(
        s,
        before,
        r.prepared::<C, P>(s),
        P::sp_fri(r.stark.opening_proof),
        params,
    );
}

} // verus!
