//! What the rows of a FRI query are made of.

use vstd::arithmetic::power2::*;
use vstd::prelude::*;

use crate::bits;
use crate::extension::ExtensionField;
use crate::field;
use crate::field::{CommutativeRing, Field, TwoAdicField};
use crate::fri_witness;
use crate::fri_witness::{FriReplay, MatrixClaims, QueryFold, QueryOpening};
use crate::replay_laws::joined;
use crate::seqs;

verus! {

/// The reversal puts bit `k` at place `n - 1 - k`.
pub proof fn law_reversal_mirrors_bits(x: nat, n: nat, k: nat)
    requires
        k < n,
    ensures
        (bits::reversed_bits(x, n) / pow2((n - 1 - k) as nat)) % 2 == (x / pow2(k)) % 2,
    decreases n,
{
    let m = (n - 1) as nat;
    let rest = bits::reversed_bits(x / 2, m);
    let bit = x % 2;
    bits::lemma_reversed_bits(x / 2, m);
    lemma_pow2_pos(m);
    lemma2_to64();
    if k == 0 {
        // (bit·2^m + rest) / 2^m = bit
        vstd::arithmetic::div_mod::lemma_fundamental_div_mod_converse(
            (bit * pow2(m) + rest) as int,
            pow2(m) as int,
            bit as int,
            rest as int,
        );
        assert(x / 1 == x);
    } else {
        let j = (k - 1) as nat;
        law_reversal_mirrors_bits(x / 2, m, j);
        let e = (n - 1 - k) as nat;
        assert(e == (m - 1 - j) as nat);
        // 2^m is an even multiple of 2^e
        lemma_pow2_pos(e);
        lemma_pow2_adds(e, k);
        lemma_pow2_unfold(k);
        let half = pow2(j);
        let c = bit * half;
        assert(bit * pow2(m) == pow2(e) * (2 * c)) by (nonlinear_arith)
            requires
                pow2(m) == pow2(e) * pow2(k),
                pow2(k) == 2 * half,
                c == bit * half,
        ;
        vstd::arithmetic::div_mod::lemma_div_multiples_vanish_fancy(
            (2 * c) as int,
            0,
            pow2(e) as int,
        );
        vstd::arithmetic::div_mod::lemma_fundamental_div_mod(rest as int, pow2(e) as int);
        vstd::arithmetic::div_mod::lemma_mod_bound(rest as int, pow2(e) as int);
        let q = rest as int / pow2(e) as int;
        let r = rest as int % pow2(e) as int;
        assert((bit * pow2(m) + rest) as int == (2 * c + q) * pow2(e) as int + r)
            by (nonlinear_arith)
            requires
                bit * pow2(m) == pow2(e) * (2 * c),
                rest as int == pow2(e) as int * q + r,
        ;
        vstd::arithmetic::div_mod::lemma_fundamental_div_mod_converse(
            (bit * pow2(m) + rest) as int,
            pow2(e) as int,
            2 * c + q,
            r,
        );
        // x / 2^k = (x / 2) / 2^(k-1)
        lemma_pow2_pos(j);
        vstd::arithmetic::div_mod::lemma_div_denominator(x as int, 2, pow2(j) as int);
    }
}

/// The quotients that a matrix contributes: for each opening point and each column, the claimed
/// value minus the opened one, over the distance between the opening point and the query point.
pub open spec fn quotients<F: Field, EF: ExtensionField<F>>(
    row: Seq<F>,
    x: F,
    claims: Seq<(EF, Seq<EF>)>,
) -> Seq<(EF, EF)> {
    joined(
        claims.len(),
        |p: int|
            Seq::new(
                row.len(),
                |c: int|
                    (
                        claims[p].1[c].sp_sub(EF::sp_from_base(row[c])),
                        claims[p].0.sp_sub(EF::sp_from_base(x)),
                    ),
            ),
    )
}

/// The quotients of all matrices of one height, in the order of the batches and matrices.
pub open spec fn quotients_of_height<F: TwoAdicField, EF: ExtensionField<F>>(
    q: QueryOpening<F, EF>,
    log_height: nat,
) -> Seq<(EF, EF)> {
    let x = F::sp_generator().sp_mul(
        field::power(
            F::sp_two_adic_generator(log_height),
            bits::reversed_bits(
                q.index / pow2((q.log_global - log_height) as nat),
                log_height,
            ),
        ),
    );
    joined(
        q.batches.len(),
        |b: int|
            joined(
                q.batches[b].len(),
                |m: int|
                    if q.batches[b][m].log_height == log_height {
                        quotients(q.rows[b][m], x, q.batches[b][m].claims)
                    } else {
                        Seq::empty()
                    },
            ),
    )
}

/// `Σ_{k<n} alpha^k · numerator_k / denominator_k`.
pub open spec fn quotient_sum<EF: Field>(alpha: EF, terms: Seq<(EF, EF)>, n: nat) -> EF
    decreases n,
{
    if n == 0 {
        EF::sp_zero()
    } else {
        quotient_sum(alpha, terms, (n - 1) as nat).sp_add(
            field::power(alpha, (n - 1) as nat).sp_mul(terms[n - 1].0).sp_mul(
                terms[n - 1].1.sp_inv(),
            ),
        )
    }
}

/// The terms with their denominators inverted.
spec fn inverted<EF: Field>(terms: Seq<(EF, EF)>) -> Seq<(EF, EF)> {
    Seq::new(terms.len(), |k: int| (terms[k].0, terms[k].1.sp_inv()))
}

proof fn lemma_inverted_join<EF: Field>(a: Seq<(EF, EF)>, b: Seq<(EF, EF)>)
    ensures
        inverted(a + b) == inverted(a) + inverted(b),
{
    assert(inverted(a + b) =~= inverted(a) + inverted(b));
}

proof fn lemma_matrix<F: Field, EF: ExtensionField<F>>(
    row: Seq<F>,
    x: F,
    claims: Seq<(EF, Seq<EF>)>,
    f: spec_fn(int) -> Seq<(EF, EF)>,
    n: nat,
)
    requires
        forall|p: int|
            0 <= p < n ==> #[trigger] f(p) == Seq::new(
                row.len(),
                |c: int|
                    (
                        claims[p].1[c].sp_sub(EF::sp_from_base(row[c])),
                        claims[p].0.sp_sub(EF::sp_from_base(x)),
                    ),
            ),
    ensures
        fri_witness::matrix_terms(row, x, claims, n) == inverted(joined(n, f)),
    decreases n,
{
    if n == 0 {
        assert(inverted(joined(n, f)) =~= Seq::empty());
    } else {
        lemma_matrix(row, x, claims, f, (n - 1) as nat);
        lemma_inverted_join(joined((n - 1) as nat, f), f(n - 1));
        assert(inverted(f(n - 1)) =~= fri_witness::point_terms(
            row,
            x,
            claims[n - 1].0,
            claims[n - 1].1,
        ));
    }
}

proof fn lemma_batch<F: TwoAdicField, EF: ExtensionField<F>>(
    q: QueryOpening<F, EF>,
    b: int,
    log_height: nat,
    f: spec_fn(int) -> Seq<(EF, EF)>,
    n: nat,
)
    requires
        forall|m: int|
            0 <= m < n ==> #[trigger] f(m) == if q.batches[b][m].log_height == log_height {
                quotients(q.rows[b][m], q.x(log_height), q.batches[b][m].claims)
            } else {
                Seq::empty()
            },
    ensures
        q.batch_terms(b, log_height, n) == inverted(joined(n, f)),
    decreases n,
{
    if n == 0 {
        assert(inverted(joined(n, f)) =~= Seq::empty());
    } else {
        let m = n - 1;
        lemma_batch(q, b, log_height, f, m as nat);
        lemma_inverted_join(joined(m as nat, f), f(m));
        let claims = q.batches[b][m].claims;
        let row = q.rows[b][m];
        let x = q.x(log_height);
        lemma_matrix(
            row,
            x,
            claims,
            |p: int|
                Seq::new(
                    row.len(),
                    |c: int|
                        (
                            claims[p].1[c].sp_sub(EF::sp_from_base(row[c])),
                            claims[p].0.sp_sub(EF::sp_from_base(x)),
                        ),
                ),
            claims.len(),
        );
        if q.batches[b][m].log_height != log_height {
            assert(inverted(f(m)) =~= Seq::empty());
            assert(q.batch_terms(b, log_height, n) =~= inverted(joined(n, f)));
        }
    }
}

proof fn lemma_batches<F: TwoAdicField, EF: ExtensionField<F>>(
    q: QueryOpening<F, EF>,
    log_height: nat,
    f: spec_fn(int) -> Seq<(EF, EF)>,
    n: nat,
)
    requires
        forall|b: int|
            0 <= b < n ==> #[trigger] f(b) == joined(
                q.batches[b].len(),
                |m: int|
                    if q.batches[b][m].log_height == log_height {
                        quotients(q.rows[b][m], q.x(log_height), q.batches[b][m].claims)
                    } else {
                        Seq::empty()
                    },
            ),
    ensures
        q.terms(log_height, n) == inverted(joined(n, f)),
    decreases n,
{
    if n == 0 {
        assert(inverted(joined(n, f)) =~= Seq::empty());
    } else {
        let b = n - 1;
        lemma_batches(q, log_height, f, b as nat);
        lemma_inverted_join(joined(b as nat, f), f(b));
        lemma_batch(
            q,
            b,
            log_height,
            |m: int|
                if q.batches[b][m].log_height == log_height {
                    quotients(q.rows[b][m], q.x(log_height), q.batches[b][m].claims)
                } else {
                    Seq::empty()
                },
            q.batches[b].len(),
        );
    }
}

proof fn lemma_combined<EF: Field>(alpha: EF, terms: Seq<(EF, EF)>, n: nat)
    requires
        n <= terms.len(),
    ensures
        fri_witness::combined(alpha, inverted(terms).take(n as int)) == quotient_sum(
            alpha,
            terms,
            n,
        ),
    decreases n,
{
    if n > 0 {
        lemma_combined(alpha, terms, (n - 1) as nat);
        assert(inverted(terms).take(n as int).drop_last() =~= inverted(terms).take(n - 1));
    }
}

/// The reduced opening of a height combines, with rising powers of the batching challenge, the
/// quotients of all columns of all matrices of that height at all their opening points.
pub proof fn law_reduced_opening<F: TwoAdicField, EF: ExtensionField<F>>(
    q: QueryOpening<F, EF>,
    log_height: nat,
)
    ensures
        ({
            let terms = quotients_of_height(q, log_height);
            q.reduced_opening(log_height) == quotient_sum(q.alpha, terms, terms.len())
        }),
{
    let x = q.x(log_height);
    let f = |b: int|
        joined(
            q.batches[b].len(),
            |m: int|
                if q.batches[b][m].log_height == log_height {
                    quotients(q.rows[b][m], x, q.batches[b][m].claims)
                } else {
                    Seq::empty()
                },
        );
    lemma_batches(q, log_height, f, q.batches.len());
    let terms = joined(q.batches.len(), f);
    assert(terms == quotients_of_height(q, log_height));
    lemma_combined(q.alpha, terms, terms.len());
    assert(inverted(terms).take(terms.len() as int) =~= inverted(terms));
}

/// Some matrix has the height.
pub open spec fn has_height<F, EF>(q: QueryOpening<F, EF>, log_height: nat) -> bool {
    exists|b: int, m: int|
        0 <= b < q.batches.len() && 0 <= m < q.batches[b].len() && (
        #[trigger] q.batches[b][m]).log_height == log_height
}

proof fn lemma_present<F: TwoAdicField, EF: ExtensionField<F>>(
    q: QueryOpening<F, EF>,
    log_height: nat,
)
    ensures
        q.present(log_height, q.batches.len()) == has_height(q, log_height),
{
    if has_height(q, log_height) {
        let (b, m) = choose|b: int, m: int|
            0 <= b < q.batches.len() && 0 <= m < q.batches[b].len() && (
            #[trigger] q.batches[b][m]).log_height == log_height;
        assert(q.batch_present(b, log_height, q.batches[b].len()));
    }
    if q.present(log_height, q.batches.len()) {
        let b = choose|b: int|
            0 <= b < q.batches.len() && #[trigger] q.batch_present(
                b,
                log_height,
                q.batches[b].len(),
            );
        let m = choose|m: int|
            0 <= m < q.batches[b].len() && (#[trigger] q.batches[b][m]).log_height == log_height;
        assert(q.batches[b][m].log_height == log_height);
    }
}

proof fn lemma_reduced_below<F: TwoAdicField, EF: ExtensionField<F>>(
    q: QueryOpening<F, EF>,
    n: nat,
)
    ensures
        ({
            let list = q.reduced_below(n);
            &&& forall|k: int|
                0 <= k < list.len() ==> {
                    &&& (#[trigger] list[k]).0 < n
                    &&& has_height(q, list[k].0)
                    &&& list[k].1 == q.reduced_opening(list[k].0)
                }
            &&& forall|j: int, k: int|
                0 <= j < k < list.len() ==> (#[trigger] list[j]).0 > (#[trigger] list[k]).0
            &&& forall|h: nat|
                h < n && #[trigger] has_height(q, h) ==> list.contains((h, q.reduced_opening(h)))
        }),
    decreases n,
{
    if n > 0 {
        let top = (n - 1) as nat;
        lemma_reduced_below(q, top);
        lemma_present(q, top);
        let rest = q.reduced_below(top);
        let list = q.reduced_below(n);
        assert forall|h: nat| h < n && #[trigger] has_height(q, h) implies list.contains(
            (h, q.reduced_opening(h)),
        ) by {
            if h == top {
                assert(list[0] == (h, q.reduced_opening(h)));
            } else {
                let k = choose|k: int|
                    0 <= k < rest.len() && rest[k] == (h, q.reduced_opening(h));
                if q.present(top, q.batches.len()) {
                    assert(list[k + 1] == rest[k]);
                } else {
                    assert(list[k] == rest[k]);
                }
            }
        }
    }
}

/// A query has one reduced opening for each height that some matrix has, the tallest first.
pub proof fn law_reduced_openings_by_height<F: TwoAdicField, EF: ExtensionField<F>>(
    q: QueryOpening<F, EF>,
)
    ensures
        ({
            let list = q.reduced();
            &&& forall|k: int|
                0 <= k < list.len() ==> {
                    let terms = quotients_of_height(q, list[k].0);
                    &&& (#[trigger] list[k]).0 <= q.log_global
                    &&& has_height(q, list[k].0)
                    &&& list[k].1 == quotient_sum(q.alpha, terms, terms.len())
                }
            &&& forall|j: int, k: int|
                0 <= j < k < list.len() ==> (#[trigger] list[j]).0 > (#[trigger] list[k]).0
            &&& forall|h: nat|
                h <= q.log_global && #[trigger] has_height(q, h) ==> exists|k: int|
                    0 <= k < list.len() && (#[trigger] list[k]).0 == h
        }),
{
    lemma_reduced_below(q, q.log_global + 1);
    let list = q.reduced();
    assert forall|k: int| 0 <= k < list.len() implies ({
        let terms = quotients_of_height(q, list[k].0);
        &&& (#[trigger] list[k]).0 <= q.log_global
        &&& has_height(q, list[k].0)
        &&& list[k].1 == quotient_sum(q.alpha, terms, terms.len())
    }) by {
        law_reduced_opening(q, list[k].0);
    }
    assert forall|h: nat| h <= q.log_global && #[trigger] has_height(q, h) implies exists|k: int|
        0 <= k < list.len() && (#[trigger] list[k]).0 == h by {
        let k = choose|k: int| 0 <= k < list.len() && list[k] == (h, q.reduced_opening(h));
        assert(list[k].0 == h);
    }
}

/// A round folds the row around the running evaluation at its challenge. If the next reduced
/// opening has the height that is reached, it enters with the challenge to the power of the row's
/// length; else nothing enters.
pub proof fn law_fold_step<F: TwoAdicField, EF: ExtensionField<F> + CommutativeRing>(
    fold: QueryFold<EF>,
    round: nat,
)
    requires
        fold.betas[round as int].wf(),
    ensures
        ({
            let before = fold.state::<F>(round);
            let after = fold.state::<F>(round + 1);
            let log_arity = fold.log_arities[round as int];
            let beta = fold.betas[round as int];
            let value = fri_witness::folded::<F, EF>(
                before.index / pow2(log_arity),
                (before.log_height - log_arity) as nat,
                log_arity,
                beta,
                fold.row::<F>(round),
            );
            let next = before.entered as int;
            let enters = next < fold.reduced.len() && fold.reduced[next].0 == before.log_height
                - log_arity;
            &&& after.index == before.index / pow2(log_arity)
            &&& after.log_height == before.log_height - log_arity
            &&& after.entered == before.entered + if enters {
                1nat
            } else {
                0
            }
            &&& enters ==> after.evaluation == value.sp_add(
                field::power(beta, pow2(log_arity)).sp_mul(fold.reduced[next].1),
            )
            &&& !enters ==> after.evaluation == value
        }),
{
    field::lemma_repeated_square(fold.betas[round as int], fold.log_arities[round as int]);
}

/// A query starts with the reduced opening of the global height.
pub proof fn law_fold_starts_at_the_top<F: TwoAdicField, EF: ExtensionField<F>>(
    fold: QueryFold<EF>,
)
    ensures
        fold.state::<F>(0).evaluation == fold.reduced[0].1,
        fold.state::<F>(0).index == fold.index,
        fold.state::<F>(0).log_height == fold.log_global,
        fold.state::<F>(0).entered == 1,
{
}

// Acceptance.

/// A matrix has an opening point, and all its opening points have as many values.
pub open spec fn matrix_claimed<EF>(matrix: MatrixClaims<EF>) -> bool {
    &&& matrix.claims.len() > 0
    &&& forall|p: int|
        0 <= p < matrix.claims.len() ==> (#[trigger] matrix.claims[p]).1.len()
            == matrix.claims[0].1.len()
}

/// A query opens one row of the right width of each matrix.
pub open spec fn query_opens<F, EF>(
    opened: Seq<Seq<Seq<F>>>,
    matrices: Seq<MatrixClaims<EF>>,
    q: int,
) -> bool {
    &&& opened[q].len() == matrices.len()
    &&& forall|m: int|
        0 <= m < matrices.len() ==> (#[trigger] opened[q][m]).len() == matrices[m].claims[0].1.len()
}

proof fn lemma_claims<EF>(batch: int, matrices: Seq<MatrixClaims<EF>>, n: nat)
    ensures
        fri_witness::claims_failure(batch, matrices, n) is None <==> forall|m: int|
            0 <= m < n ==> matrix_claimed(#[trigger] matrices[m]),
    decreases n,
{
    if n > 0 {
        lemma_claims(batch, matrices, (n - 1) as nat);
        let last = matrices[n - 1];
        assert(matrix_claimed(last) == (last.claims.len() > 0 && !fri_witness::widths_disagree(
            last,
        )));
    }
}

proof fn lemma_opened<F, EF>(
    batch: int,
    opened: Seq<Seq<Seq<F>>>,
    matrices: Seq<MatrixClaims<EF>>,
    n: nat,
)
    ensures
        fri_witness::opened_failure(batch, opened, matrices, n) is None <==> forall|q: int|
            0 <= q < n ==> #[trigger] query_opens(opened, matrices, q),
    decreases n,
{
    if n > 0 {
        lemma_opened(batch, opened, matrices, (n - 1) as nat);
        let rows = opened[n - 1];
        let wrong = fri_witness::wrong_row_width(rows, matrices);
        seqs::lemma_least(rows.len(), wrong);
        if rows.len() == matrices.len() {
            match seqs::least(rows.len(), wrong) {
                Some(m) => {
                    assert(rows[m].len() != matrices[m].claims[0].1.len());
                    assert(!query_opens(opened, matrices, n - 1));
                },
                None => {
                    assert forall|m: int| 0 <= m < matrices.len() implies (
                    #[trigger] opened[n - 1][m]).len() == matrices[m].claims[0].1.len() by {
                        assert(!wrong(m));
                    }
                    assert(query_opens(opened, matrices, n - 1));
                },
            }
        } else {
            assert(!query_opens(opened, matrices, n - 1));
        }
        if forall|q: int| 0 <= q < n ==> #[trigger] query_opens(opened, matrices, q) {
            assert(forall|q: int| 0 <= q < n - 1 ==> #[trigger] query_opens(opened, matrices, q));
        }
    }
}

/// A batch fits: every query opens it, every matrix of it is claimed and no taller than the tallest
/// codeword, and there is at least one.
pub open spec fn batch_fits<F: TwoAdicField, EF: ExtensionField<F>, Cm, P>(
    r: FriReplay<F, EF, Cm, P>,
    b: int,
) -> bool {
    let matrices = r.claims()[b];
    let opened = r.opened(b);
    &&& opened.len() == r.indices.len()
    &&& matrices.len() > 0
    &&& forall|m: int|
        0 <= m < matrices.len() ==> matrix_claimed(#[trigger] matrices[m])
            && matrices[m].log_height <= r.log_global()
    &&& forall|q: int| 0 <= q < opened.len() ==> #[trigger] query_opens(opened, matrices, q)
}

proof fn lemma_greatest<EF>(matrices: Seq<MatrixClaims<EF>>, n: nat, top: nat)
    requires
        n <= matrices.len(),
    ensures
        fri_witness::max_log_height(matrices, n) <= top <==> forall|m: int|
            0 <= m < n ==> (#[trigger] matrices[m]).log_height <= top,
    decreases n,
{
    if n > 0 {
        lemma_greatest(matrices, (n - 1) as nat, top);
    }
}

proof fn lemma_batches_fit<F: TwoAdicField, EF: ExtensionField<F>, Cm, P>(
    r: FriReplay<F, EF, Cm, P>,
    n: nat,
)
    requires
        n <= r.batches.len(),
    ensures
        r.batches_failure(n) is None <==> forall|b: int| 0 <= b < n ==> #[trigger] batch_fits(r, b),
    decreases n,
{
    if n > 0 {
        lemma_batches_fit(r, (n - 1) as nat);
        let b = n - 1;
        let matrices = r.claims()[b];
        let opened = r.opened(b);
        lemma_claims(b, matrices, matrices.len());
        lemma_opened(b, opened, matrices, opened.len());
        lemma_greatest(matrices, matrices.len(), r.log_global());
        let failure = fri_witness::batch_failure(
            b,
            opened,
            matrices,
            r.indices.len(),
            r.log_global(),
        );
        assert(batch_fits(r, b) == (failure is None));
        if forall|b: int| 0 <= b < n ==> #[trigger] batch_fits(r, b) {
            assert(forall|b: int| 0 <= b < n - 1 ==> #[trigger] batch_fits(r, b));
        }
    }
}

/// A query can be reduced: none of its opening points is the query point of its matrix, and a
/// codeword of the height of the blowup alone, which holds a constant, reduces to zero.
pub open spec fn query_reduces<F: TwoAdicField, EF: ExtensionField<F>, Cm, P>(
    r: FriReplay<F, EF, Cm, P>,
    q: int,
) -> bool {
    let query = r.query(q);
    let terms = quotients_of_height(query, r.log_blowup);
    &&& forall|b: int, m: int, p: int|
        #![trigger query.batches[b][m].claims[p]]
        0 <= b < query.batches.len() && 0 <= m < query.batches[b].len() && 0 <= p
            < query.batches[b][m].claims.len() ==> query.batches[b][m].claims[p].0.sp_sub(
            EF::sp_from_base(query.x(query.batches[b][m].log_height)),
        ) != EF::sp_zero()
    &&& has_height(query, r.log_blowup) ==> quotient_sum(query.alpha, terms, terms.len())
        == EF::sp_zero()
}

proof fn lemma_reduces<F: TwoAdicField, EF: ExtensionField<F>, Cm, P>(
    r: FriReplay<F, EF, Cm, P>,
    q: int,
)
    ensures
        r.query(q).reduction_failure(q, r.log_blowup) is None <==> query_reduces(r, q),
{
    let query = r.query(q);
    lemma_present(query, r.log_blowup);
    law_reduced_opening(query, r.log_blowup);
    if query.any_collides(query.batches.len()) {
        let b = choose|b: int|
            0 <= b < query.batches.len() && #[trigger] query.batch_collides(
                b,
                query.batches[b].len(),
            );
        let m = choose|m: int|
            0 <= m < query.batches[b].len() && fri_witness::collides(
                (#[trigger] query.batches[b][m]).claims,
                query.x(query.batches[b][m].log_height),
                query.batches[b][m].claims.len(),
            );
        let claims = query.batches[b][m].claims;
        let x = query.x(query.batches[b][m].log_height);
        let p = choose|p: int|
            0 <= p < claims.len() && (#[trigger] claims[p]).0.sp_sub(EF::sp_from_base(x))
                == EF::sp_zero();
        assert(query.batches[b][m].claims[p].0.sp_sub(
            EF::sp_from_base(query.x(query.batches[b][m].log_height)),
        ) == EF::sp_zero());
    } else {
        assert forall|b: int, m: int, p: int|
            #![trigger query.batches[b][m].claims[p]]
            0 <= b < query.batches.len() && 0 <= m < query.batches[b].len() && 0 <= p
                < query.batches[b][m].claims.len() implies query.batches[b][m].claims[p].0.sp_sub(
            EF::sp_from_base(query.x(query.batches[b][m].log_height)),
        ) != EF::sp_zero() by {
            assert(!query.batch_collides(b, query.batches[b].len()));
            let claims = query.batches[b][m].claims;
            assert(!fri_witness::collides(
                claims,
                query.x(query.batches[b][m].log_height),
                claims.len(),
            ));
            assert(claims[p] == claims[p]);
        }
    }
}

proof fn lemma_all_reduce<F: TwoAdicField, EF: ExtensionField<F>, Cm, P>(
    r: FriReplay<F, EF, Cm, P>,
    n: nat,
)
    ensures
        r.reductions_failure(n) is None <==> forall|q: int|
            0 <= q < n ==> #[trigger] query_reduces(r, q),
    decreases n,
{
    if n > 0 {
        lemma_all_reduce(r, (n - 1) as nat);
        lemma_reduces(r, n - 1);
        if forall|q: int| 0 <= q < n ==> #[trigger] query_reduces(r, q) {
            assert(forall|q: int| 0 <= q < n - 1 ==> #[trigger] query_reduces(r, q));
        }
    }
}

/// A query can be folded: it has a reduced opening of the height of the tallest codeword, and each
/// round brings it all siblings of its row.
pub open spec fn query_folds<F: TwoAdicField, EF: ExtensionField<F>, Cm, P>(
    r: FriReplay<F, EF, Cm, P>,
    q: int,
) -> bool {
    let steps = r.fri.commit_phase_openings@;
    &&& has_height(r.query(q), r.log_global())
    &&& forall|k: int|
        0 <= k < steps.len() ==> {
            &&& (#[trigger] steps[k]).sibling_values@.len() == r.indices.len()
            &&& steps[k].sibling_values@[q]@.len() + 1 == pow2(steps[k].log_arity as nat)
        }
}

proof fn lemma_siblings<EF, P>(
    steps: Seq<fri_witness::CommitPhaseMultiStep<EF, P>>,
    q: int,
    queries: nat,
    n: nat,
)
    ensures
        fri_witness::rounds_failure(steps, q, queries, n) is None <==> forall|k: int|
            0 <= k < n ==> {
                &&& (#[trigger] steps[k]).sibling_values@.len() == queries
                &&& steps[k].sibling_values@[q]@.len() + 1 == pow2(steps[k].log_arity as nat)
            },
    decreases n,
{
    if n > 0 {
        lemma_siblings(steps, q, queries, (n - 1) as nat);
        assert(steps[n - 1] == steps[n - 1]);
    }
}

proof fn lemma_folds<F: TwoAdicField, EF: ExtensionField<F>, Cm, P>(
    r: FriReplay<F, EF, Cm, P>,
    q: int,
)
    ensures
        fri_witness::fold_failure(
            r.fold(q).reduced,
            r.log_global(),
            r.fri.commit_phase_openings@,
            q,
            r.indices.len(),
        ) is None <==> query_folds(r, q),
{
    let query = r.query(q);
    let steps = r.fri.commit_phase_openings@;
    lemma_siblings(steps, q, r.indices.len(), steps.len());
    law_reduced_openings_by_height(query);
    let list = query.reduced();
    let top = r.log_global();
    if has_height(query, top) {
        let k = choose|k: int| 0 <= k < list.len() && (#[trigger] list[k]).0 == top;
        if k > 0 {
            assert(list[0].0 > list[k].0);
            assert(list[0].0 <= query.log_global);
        }
    } else if list.len() > 0 {
        assert(has_height(query, list[0].0));
    }
}

proof fn lemma_all_fold<F: TwoAdicField, EF: ExtensionField<F>, Cm, P>(
    r: FriReplay<F, EF, Cm, P>,
    n: nat,
)
    ensures
        r.folds_failure(n) is None <==> forall|q: int| 0 <= q < n ==> #[trigger] query_folds(r, q),
    decreases n,
{
    if n > 0 {
        lemma_all_fold(r, (n - 1) as nat);
        lemma_folds(r, n - 1);
        if forall|q: int| 0 <= q < n ==> #[trigger] query_folds(r, q) {
            assert(forall|q: int| 0 <= q < n - 1 ==> #[trigger] query_folds(r, q));
        }
    }
}

/// The rows of a FRI proof can be reconstructed exactly if the numbers of batches, phases and
/// challenges agree, there is a query and every phase folds, every batch fits, and every query can
/// be reduced and folded.
pub proof fn law_rows_reconstructible<F: TwoAdicField, EF: ExtensionField<F>, Cm, P>(
    r: FriReplay<F, EF, Cm, P>,
)
    ensures
        ({
            let steps = r.fri.commit_phase_openings@;
            r.failure() is None <==> {
                &&& r.fri.input_openings@.len() == r.batches.len()
                &&& steps.len() == r.fri.commit_phase_commits@.len()
                &&& r.betas.len() == r.fri.commit_phase_commits@.len()
                &&& r.indices.len() > 0
                &&& forall|k: int| 0 <= k < steps.len() ==> (#[trigger] steps[k]).log_arity > 0
                &&& forall|b: int| 0 <= b < r.batches.len() ==> #[trigger] batch_fits(r, b)
                &&& forall|q: int| 0 <= q < r.indices.len() ==> #[trigger] query_reduces(r, q)
                &&& forall|q: int| 0 <= q < r.indices.len() ==> #[trigger] query_folds(r, q)
            }
        }),
{
    lemma_batches_fit(r, r.batches.len());
    lemma_all_reduce(r, r.indices.len());
    lemma_all_fold(r, r.indices.len());
}

proof fn lemma_reversal_splits(index: nat, i: nat, h: nat, a: nat)
    requires
        i < pow2(a),
    ensures
        bits::reversed_bits(index * pow2(a) + i, h + a) == pow2(h) * bits::reversed_bits(i, a)
            + bits::reversed_bits(index, h),
    decreases a,
{
    lemma2_to64();
    if a == 0 {
        assert(i == 0);
        assert(index * 1 == index);
        assert(pow2(h) * 0 == 0);
    } else {
        let b = (a - 1) as nat;
        lemma_pow2_unfold(a);
        lemma_reversal_splits(index, i / 2, h, b);
        let x = index * pow2(a) + i;
        let whole = index * pow2(b);
        assert(index * pow2(a) == 2 * whole) by (nonlinear_arith)
            requires
                pow2(a) == 2 * pow2(b),
                whole == index * pow2(b),
        ;
        assert(x == 2 * whole + i);
        assert(x % 2 == i % 2);
        assert(x / 2 == whole + i / 2);
        lemma_pow2_adds(h, b);
        let (bit, rest) = (i % 2, bits::reversed_bits(i / 2, b));
        assert(bit * (pow2(h) * pow2(b)) + pow2(h) * rest == pow2(h) * (bit * pow2(b) + rest))
            by (nonlinear_arith);
    }
}

proof fn lemma_power_of_power<F: CommutativeRing>(x: F, m: nat, n: nat)
    ensures
        field::power(field::power(x, m), n) == field::power(x, m * n),
    decreases n,
{
    if n == 0 {
        assert(m * 0 == 0);
    } else {
        let k = (n - 1) as nat;
        lemma_power_of_power(x, m, k);
        field::lemma_power_add(x, m * k, m);
        assert(m * n == m * k + m) by (nonlinear_arith)
            requires
                n == k + 1,
        ;
    }
}

/// The points of a row of a folded layer: the row's own point times the elements of the subgroup of
/// the arity, in bit-reversed order.
pub open spec fn row_points<F: TwoAdicField>(index: nat, log_height: nat, log_arity: nat) -> Seq<F> {
    Seq::new(
        pow2(log_arity),
        |i: int|
            field::power(
                F::sp_two_adic_generator(log_height + log_arity),
                bits::reversed_bits(index, log_height),
            ).sp_mul(
                field::power(
                    F::sp_two_adic_generator(log_arity),
                    bits::reversed_bits(i as nat, log_arity),
                ),
            ),
    )
}

/// A row folds to the value at the challenge of the polynomial through the row's own points. Where
/// the generators of the subgroups are powers of each other, entry `i` of row `index` lies over the
/// point that the unfolded layer has at place `index·2^arity + i` of its bit-reversed order.
pub proof fn law_row_folds_over_its_points<F: TwoAdicField, EF: ExtensionField<F>>(
    index: nat,
    log_height: nat,
    log_arity: nat,
    beta: EF,
    evaluations: Seq<EF>,
    i: nat,
)
    requires
        i < pow2(log_arity),
    ensures
        fri_witness::folded::<F, EF>(index, log_height, log_arity, beta, evaluations)
            == fri_witness::interpolated(
            row_points::<F>(index, log_height, log_arity),
            evaluations,
            log_arity,
            beta,
        ),
        F::sp_two_adic_generator(log_arity) == field::power(
            F::sp_two_adic_generator(log_height + log_arity),
            pow2(log_height),
        ) ==> row_points::<F>(index, log_height, log_arity)[i as int] == field::power(
            F::sp_two_adic_generator(log_height + log_arity),
            bits::reversed_bits(index * pow2(log_arity) + i, log_height + log_arity),
        ),
{
    let g = F::sp_two_adic_generator(log_height + log_arity);
    let step = F::sp_two_adic_generator(log_arity);
    let own = bits::reversed_bits(index, log_height);
    let points = fri_witness::coset_points::<F>(
        fri_witness::row_start::<F>(index, log_height, log_arity),
        log_arity,
    );
    field::lemma_power_wf(g, own);
    assert forall|j: int| 0 <= j < pow2(log_arity) implies #[trigger] points[j] == row_points::<F>(
        index,
        log_height,
        log_arity,
    )[j] by {
        fri_witness::lemma_shifted_power(
            field::power(g, own),
            step,
            bits::reversed_bits(j as nat, log_arity),
        );
    }
    assert(points =~= row_points::<F>(index, log_height, log_arity));
    if step == field::power(g, pow2(log_height)) {
        let place = bits::reversed_bits(i, log_arity);
        lemma_power_of_power(g, pow2(log_height), place);
        field::lemma_power_add(g, own, pow2(log_height) * place);
        lemma_reversal_splits(index, i, log_height, log_arity);
    }
}

} // verus!
