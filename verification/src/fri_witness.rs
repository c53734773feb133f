//! Reconstruction of the rows that two-adic FRI queries open, and of their Merkle paths.

use core::marker::PhantomData;
use vstd::arithmetic::power2::*;
use vstd::prelude::*;

use crate::bits;
use crate::extension::ExtensionField;
use crate::field;
use crate::field::{exp_power_of_2, exp_u64, Field, TwoAdicField};
use crate::merkle;
use crate::merkle::Dimensions;
use crate::seqs;
use crate::seqs::copy_vec;

verus! {

/// The coset `shift·H` of the subgroup `H` of order `2^log_size`.
#[derive(Clone, Copy, Debug, PartialEq, Eq)]
pub struct TwoAdicMultiplicativeCoset<F> {
    pub shift: F,
    pub log_size: usize,
}

/// One verifier-known input matrix and all claimed evaluations at its opening points.
pub struct FriInputMatrix<Domain, EF> {
    pub domain: Domain,
    pub points_and_values: Vec<(EF, Vec<EF>)>,
}

/// All queries' openings of one input batch: `opened_values[query][matrix]` is a row.
pub struct BatchMultiOpening<F, P> {
    pub opened_values: Vec<Vec<Vec<F>>>,
    pub opening_proof: P,
}

/// All queries' openings of one commit-phase codeword.
pub struct CommitPhaseMultiStep<EF, P> {
    pub log_arity: u8,
    /// For each query, the `2^log_arity - 1` sibling values.
    pub sibling_values: Vec<Vec<EF>>,
    pub opening_proof: P,
}

/// A FRI proof with commitments `Cm` and shared opening proofs `P`.
pub struct FriProof<F, EF, Cm, P> {
    pub commit_phase_commits: Vec<Cm>,
    pub commit_pow_witnesses: Vec<F>,
    pub input_openings: Vec<BatchMultiOpening<F, P>>,
    pub commit_phase_openings: Vec<CommitPhaseMultiStep<EF, P>>,
    pub final_poly: Vec<EF>,
    pub query_pow_witness: F,
}

/// Host rows and verifier-derived indices needed to expand every FRI multiproof.
pub struct ReconstructedFriRows<F, EF> {
    pub input_dimensions: Vec<Vec<Dimensions>>,
    pub input_indices: Vec<Vec<usize>>,
    pub commit_phase_dimensions: Vec<Vec<Dimensions>>,
    pub commit_phase_indices: Vec<Vec<usize>>,
    pub commit_phase_rows: Vec<Vec<Vec<Vec<EF>>>>,
    pub _phantom: PhantomData<F>,
}

/// Failures while replaying the two-adic FRI arithmetic for witness rows.
#[derive(Clone, Debug, PartialEq, Eq)]
pub enum FriWitnessError {
    InvalidShape(&'static str),
    MatrixWithoutOpeningPoint { batch: usize, matrix: usize },
    OpeningWidthMismatch { query: usize, batch: usize, matrix: usize },
    OpeningPointMatchesQueryPoint { query: usize },
}

// Interpolation on a coset.

/// `start` multiplied by `base` `n` times.
pub open spec fn shifted_power<F: Field>(start: F, base: F, n: nat) -> F
    decreases n,
{
    if n == 0 {
        start
    } else {
        shifted_power(start, base, (n - 1) as nat).sp_mul(base)
    }
}

/// Shifted powers are a start times a power.
pub proof fn lemma_shifted_power<F: field::CommutativeRing>(start: F, base: F, n: nat)
    requires
        start.wf(),
    ensures
        shifted_power(start, base, n) == start.sp_mul(field::power(base, n)),
    decreases n,
{
    if n == 0 {
        F::mul_one(start);
    } else {
        lemma_shifted_power(start, base, (n - 1) as nat);
        F::mul_associates(start, field::power(base, (n - 1) as nat), base);
    }
}

/// The evaluation points of a row in bit-reversed order.
pub open spec fn coset_points<F: TwoAdicField>(start: F, log_arity: nat) -> Seq<F> {
    Seq::new(
        pow2(log_arity),
        |i: int|
            shifted_power(
                start,
                F::sp_two_adic_generator(log_arity),
                bits::reversed_bits(i as nat, log_arity),
            ),
    )
}

/// Where a row of a folded layer starts in its coset.
pub open spec fn row_start<F: TwoAdicField>(index: nat, log_height: nat, log_arity: nat) -> F {
    field::power(
        F::sp_two_adic_generator(log_height + log_arity),
        bits::reversed_bits(index, log_height),
    )
}

/// The product of the differences between `point` and the first `n` points.
pub open spec fn vanishing<F: Field, EF: ExtensionField<F>>(
    points: Seq<F>,
    point: EF,
    n: nat,
) -> EF
    decreases n,
{
    if n == 0 {
        EF::sp_one()
    } else {
        vanishing(points, point, (n - 1) as nat).sp_mul(
            point.sp_sub(EF::sp_from_base(points[n - 1])),
        )
    }
}

/// The barycentric sum over the first `n` points.
pub open spec fn barycentric_sum<F: Field, EF: ExtensionField<F>>(
    points: Seq<F>,
    evaluations: Seq<EF>,
    scale: F,
    point: EF,
    n: nat,
) -> EF
    decreases n,
{
    if n == 0 {
        EF::sp_zero()
    } else {
        let i = n - 1;
        barycentric_sum(points, evaluations, scale, point, i as nat).sp_add(
            evaluations[i].sp_mul(EF::sp_from_base(points[i].sp_mul(scale))).sp_mul(
                point.sp_sub(EF::sp_from_base(points[i])).sp_inv(),
            ),
        )
    }
}

/// `point` is the `i`-th of the points.
pub open spec fn hits<F: Field, EF: ExtensionField<F>>(points: Seq<F>, point: EF) -> spec_fn(
    int,
) -> bool {
    |i: int| point.sp_sub(EF::sp_from_base(points[i])) == EF::sp_zero()
}

/// The value at `point` of the polynomial through the evaluations on a coset of order `2^log_arity`.
pub open spec fn interpolated<F: Field, EF: ExtensionField<F>>(
    points: Seq<F>,
    evaluations: Seq<EF>,
    log_arity: nat,
    point: EF,
) -> EF {
    match seqs::least(points.len(), hits(points, point)) {
        Some(i) => evaluations[i],
        None => {
            let scale = F::sp_from(points.len()).sp_mul(
                field::repeated_square(points[0], log_arity),
            ).sp_inv();
            barycentric_sum(points, evaluations, scale, point, points.len()).sp_mul(
                vanishing(points, point, points.len()),
            )
        },
    }
}

/// The value that a row folds to.
pub open spec fn folded<F: TwoAdicField, EF: ExtensionField<F>>(
    index: nat,
    log_height: nat,
    log_arity: nat,
    beta: EF,
    evaluations: Seq<EF>,
) -> EF {
    interpolated(
        coset_points::<F>(row_start::<F>(index, log_height, log_arity), log_arity),
        evaluations,
        log_arity,
        beta,
    )
}

fn lagrange_interpolate_at<F: TwoAdicField, EF: ExtensionField<F>>(
    points: &Vec<F>,
    evaluations: &Vec<EF>,
    log_arity: usize,
    point: EF,
) -> (r: EF)
    requires
        log_arity < usize::BITS,
        points@.len() == pow2(log_arity as nat),
        evaluations@.len() == points@.len(),
        field::is_unit(points@[0]),
        points@[0].wf(),
    ensures
        r == interpolated(points@, evaluations@, log_arity as nat, point),
{
    let ghost p = hits(points@, point);
    let zero: EF = EF::zero();
    let mut differences: Vec<EF> = Vec::with_capacity(points.len());
    let mut i: usize = 0;
    proof {
        bits::lemma_fits(log_arity as nat);
    }
    while i < points.len()
        invariant
            i <= points@.len(),
            points@.len() == evaluations@.len(),
            differences@.len() == i,
            zero == EF::sp_zero(),
            p == hits(points@, point),
            forall|j: int|
                0 <= j < i ==> (#[trigger] differences@[j]) == point.sp_sub(
                    EF::sp_from_base(points@[j]),
                ) && differences@[j] != EF::sp_zero(),
            forall|j: int| 0 <= j < i ==> !#[trigger] p(j),
        decreases points@.len() - i,
    {
        let difference: EF = point.sub(EF::from_base(points[i]));
        if difference.equals(zero) {
            proof {
                assert(p(i as int));
                seqs::lemma_least_some(points@.len(), p, i as int);
            }
            return evaluations[i];
        }
        assert(!p(i as int));
        differences.push(difference);
        i += 1;
    }
    let count: F = F::from_u64(points.len() as u64);
    let coset_power: F = exp_power_of_2(points[0], log_arity);
    let weight: F = count.mul(coset_power);
    proof {
        seqs::lemma_least_none(points@.len(), p);
        F::power_of_two_unit(log_arity as nat);
        field::lemma_repeated_square(points@[0], log_arity as nat);
        field::lemma_unit_power(points@[0], pow2(log_arity as nat));
        field::lemma_unit_mul(count, coset_power);
        field::lemma_unit_nonzero(weight);
    }
    let scale: F = weight.inverse();
    let mut product: EF = EF::one();
    let mut sum: EF = EF::zero();
    let mut i: usize = 0;
    while i < points.len()
        invariant
            i <= points@.len(),
            points@.len() == evaluations@.len(),
            differences@.len() == points@.len(),
            forall|j: int|
                0 <= j < points@.len() ==> (#[trigger] differences@[j]) == point.sp_sub(
                    EF::sp_from_base(points@[j]),
                ) && differences@[j] != EF::sp_zero(),
            product == vanishing(points@, point, i as nat),
            sum == barycentric_sum(points@, evaluations@, scale, point, i as nat),
        decreases points@.len() - i,
    {
        let difference: EF = differences[i];
        let inverse: EF = difference.inverse();
        sum = sum.add(evaluations[i].mul(EF::from_base(points[i].mul(scale))).mul(inverse));
        product = product.mul(difference);
        i += 1;
    }
    sum.mul(product)
}

/// Folds one row: interpolates its values over the coset of the row and evaluates at `beta`.
pub fn fold_row<F: TwoAdicField, EF: ExtensionField<F>>(
    index: usize,
    log_height: usize,
    log_arity: usize,
    beta: EF,
    evaluations: &Vec<EF>,
) -> (r: EF)
    requires
        log_height + log_arity <= F::sp_two_adicity(),
        log_height + log_arity < usize::BITS,
        evaluations@.len() == pow2(log_arity as nat),
    ensures
        r == folded::<F, EF>(
            index as nat,
            log_height as nat,
            log_arity as nat,
            beta,
            evaluations@,
        ),
{
    let arity: usize = bits::two_pow(log_arity);
    let generator: F = F::two_adic_generator(log_height + log_arity);
    let exponent: usize = bits::reverse_bits_len(index, log_height);
    let start: F = exp_u64(generator, exponent as u64);
    let base: F = F::two_adic_generator(log_arity);
    proof {
        lemma_pow2_pos((log_height + log_arity) as nat);
        field::lemma_root_unit(generator, pow2((log_height + log_arity) as nat));
        field::lemma_unit_power(generator, exponent as nat);
        field::lemma_power_wf(generator, exponent as nat);
    }
    let mut natural: Vec<F> = Vec::with_capacity(arity);
    let mut current: F = start;
    let mut i: usize = 0;
    while i < arity
        invariant
            i <= arity,
            natural@.len() == i,
            current == shifted_power(start, base, i as nat),
            forall|j: int|
                0 <= j < i ==> (#[trigger] natural@[j]) == shifted_power(start, base, j as nat),
        decreases arity - i,
    {
        natural.push(current);
        current = current.mul(base);
        i += 1;
    }
    let mut points: Vec<F> = Vec::with_capacity(arity);
    let mut i: usize = 0;
    while i < arity
        invariant
            i <= arity,
            log_arity < usize::BITS,
            arity == pow2(log_arity as nat),
            natural@.len() == arity,
            base == F::sp_two_adic_generator(log_arity as nat),
            forall|j: int|
                0 <= j < arity ==> (#[trigger] natural@[j]) == shifted_power(start, base, j as nat),
            points@ == coset_points::<F>(start, log_arity as nat).take(i as int),
        decreases arity - i,
    {
        let j: usize = bits::reverse_bits_len(i, log_arity);
        points.push(natural[j]);
        i += 1;
        assert(points@ =~= coset_points::<F>(start, log_arity as nat).take(i as int));
    }
    proof {
        assert(points@ =~= coset_points::<F>(start, log_arity as nat));
        lemma_reversed_zero(log_arity as nat);
        assert(points@[0] == start);
    }
    lagrange_interpolate_at(&points, evaluations, log_arity, beta)
}

pub proof fn lemma_reversed_zero(n: nat)
    ensures
        bits::reversed_bits(0, n) == 0,
    decreases n,
{
    if n > 0 {
        let m = (n - 1) as nat;
        lemma_reversed_zero(m);
        assert((0nat % 2) * pow2(m) == 0) by (nonlinear_arith);
    }
}

// Reduced openings.

/// The claims about one matrix: where its evaluations live, and its values at each opening point.
pub struct MatrixClaims<EF> {
    pub log_height: nat,
    pub claims: Seq<(EF, Seq<EF>)>,
}

/// The claims about one input matrix.
pub open spec fn claims_of<F, EF>(
    matrix: FriInputMatrix<TwoAdicMultiplicativeCoset<F>, EF>,
    log_blowup: nat,
) -> MatrixClaims<EF> {
    MatrixClaims {
        log_height: matrix.domain.log_size as nat + log_blowup,
        claims: Seq::new(
            matrix.points_and_values@.len(),
            |p: int| (matrix.points_and_values@[p].0, matrix.points_and_values@[p].1@),
        ),
    }
}

/// The claims about all input batches.
pub open spec fn all_claims<F, EF>(
    batches: Seq<Vec<FriInputMatrix<TwoAdicMultiplicativeCoset<F>, EF>>>,
    log_blowup: nat,
) -> Seq<Seq<MatrixClaims<EF>>> {
    Seq::new(
        batches.len(),
        |b: int|
            Seq::new(batches[b]@.len(), |m: int| claims_of(batches[b]@[m], log_blowup)),
    )
}

/// What one query opens: the claims, and its row of every matrix of every batch.
pub struct QueryOpening<F, EF> {
    pub batches: Seq<Seq<MatrixClaims<EF>>>,
    pub rows: Seq<Seq<Seq<F>>>,
    pub alpha: EF,
    pub index: nat,
    pub log_global: nat,
}

/// The point of the evaluation domain of a given height that a query index selects.
pub open spec fn query_point<F: TwoAdicField>(index: nat, log_height: nat, log_global: nat) -> F {
    F::sp_generator().sp_mul(
        field::power(
            F::sp_two_adic_generator(log_height),
            bits::reversed_bits(index / pow2((log_global - log_height) as nat), log_height),
        ),
    )
}

/// The quotient terms of one row at one opening point: numerators and the common denominator.
pub open spec fn point_terms<F: Field, EF: ExtensionField<F>>(
    row: Seq<F>,
    x: F,
    point: EF,
    values: Seq<EF>,
) -> Seq<(EF, EF)> {
    Seq::new(
        row.len(),
        |c: int|
            (
                values[c].sp_sub(EF::sp_from_base(row[c])),
                point.sp_sub(EF::sp_from_base(x)).sp_inv(),
            ),
    )
}

/// The quotient terms of one row at its first `n` opening points.
pub open spec fn matrix_terms<F: Field, EF: ExtensionField<F>>(
    row: Seq<F>,
    x: F,
    claims: Seq<(EF, Seq<EF>)>,
    n: nat,
) -> Seq<(EF, EF)>
    decreases n,
{
    if n == 0 {
        Seq::empty()
    } else {
        matrix_terms(row, x, claims, (n - 1) as nat) + point_terms(
            row,
            x,
            claims[n - 1].0,
            claims[n - 1].1,
        )
    }
}

/// `Σ alpha^k · numerator_k / denominator_k`.
pub open spec fn combined<EF: Field>(alpha: EF, terms: Seq<(EF, EF)>) -> EF
    decreases terms.len(),
{
    if terms.len() == 0 {
        EF::sp_zero()
    } else {
        combined(alpha, terms.drop_last()).sp_add(
            field::power(alpha, (terms.len() - 1) as nat).sp_mul(terms.last().0).sp_mul(
                terms.last().1,
            ),
        )
    }
}

/// An opening point is the query point.
pub open spec fn collides<F: Field, EF: ExtensionField<F>>(
    claims: Seq<(EF, Seq<EF>)>,
    x: F,
    n: nat,
) -> bool {
    exists|p: int|
        0 <= p < n && (#[trigger] claims[p]).0.sp_sub(EF::sp_from_base(x)) == EF::sp_zero()
}

impl<F: TwoAdicField, EF: ExtensionField<F>> QueryOpening<F, EF> {
    pub open spec fn x(self, log_height: nat) -> F {
        query_point::<F>(self.index, log_height, self.log_global)
    }

    /// The terms that the first `n` matrices of batch `b` contribute to a height.
    pub open spec fn batch_terms(self, b: int, log_height: nat, n: nat) -> Seq<(EF, EF)>
        decreases n,
    {
        if n == 0 {
            Seq::empty()
        } else {
            let m = n - 1;
            let claims = self.batches[b][m];
            let before = self.batch_terms(b, log_height, m as nat);
            if claims.log_height == log_height {
                before + matrix_terms(
                    self.rows[b][m],
                    self.x(log_height),
                    claims.claims,
                    claims.claims.len(),
                )
            } else {
                before
            }
        }
    }

    /// The terms that the first `n` batches contribute to a height.
    pub open spec fn terms(self, log_height: nat, n: nat) -> Seq<(EF, EF)>
        decreases n,
    {
        if n == 0 {
            Seq::empty()
        } else {
            self.terms(log_height, (n - 1) as nat) + self.batch_terms(
                n - 1,
                log_height,
                self.batches[n - 1].len(),
            )
        }
    }

    /// A matrix among the first `n` of batch `b` has the height.
    pub open spec fn batch_present(self, b: int, log_height: nat, n: nat) -> bool {
        exists|m: int| 0 <= m < n && (#[trigger] self.batches[b][m]).log_height == log_height
    }

    /// A matrix of the first `n` batches has the height.
    pub open spec fn present(self, log_height: nat, n: nat) -> bool {
        exists|b: int|
            0 <= b < n && #[trigger] self.batch_present(b, log_height, self.batches[b].len())
    }

    /// An opening point of the first `n` matrices of batch `b` is a query point.
    pub open spec fn batch_collides(self, b: int, n: nat) -> bool {
        exists|m: int|
            0 <= m < n && collides(
                (#[trigger] self.batches[b][m]).claims,
                self.x(self.batches[b][m].log_height),
                self.batches[b][m].claims.len(),
            )
    }

    /// An opening point of the first `n` batches is a query point.
    pub open spec fn any_collides(self, n: nat) -> bool {
        exists|b: int| 0 <= b < n && #[trigger] self.batch_collides(b, self.batches[b].len())
    }

    /// The reduced opening of a height.
    pub open spec fn reduced_opening(self, log_height: nat) -> EF {
        combined(self.alpha, self.terms(log_height, self.batches.len()))
    }

    /// The reduced openings of the heights below `n`, tallest first.
    pub open spec fn reduced_below(self, n: nat) -> Seq<(nat, EF)>
        decreases n,
    {
        if n == 0 {
            Seq::empty()
        } else {
            let h = (n - 1) as nat;
            let rest = self.reduced_below(h);
            if self.present(h, self.batches.len()) {
                seq![(h, self.reduced_opening(h))] + rest
            } else {
                rest
            }
        }
    }

    /// All reduced openings, tallest first.
    pub open spec fn reduced(self) -> Seq<(nat, EF)> {
        self.reduced_below(self.log_global + 1)
    }

    /// Why the query cannot be reduced, if it cannot.
    pub open spec fn reduction_failure(self, query: int, log_blowup: nat) -> Option<
        FriWitnessError,
    > {
        if self.any_collides(self.batches.len()) {
            Some(FriWitnessError::OpeningPointMatchesQueryPoint { query: query as usize })
        } else if self.present(log_blowup, self.batches.len()) && self.reduced_opening(log_blowup)
            != EF::sp_zero() {
            Some(FriWitnessError::InvalidShape("nonzero constant-polynomial reduced opening"))
        } else {
            None
        }
    }

    /// Rows and claims line up, and no matrix is taller than the global height.
    pub open spec fn aligned(self) -> bool {
        &&& self.rows.len() == self.batches.len()
        &&& forall|b: int|
            0 <= b < self.batches.len() ==> (#[trigger] self.rows[b]).len()
                == self.batches[b].len()
        &&& forall|b: int, m: int|
            #![trigger self.batches[b][m]]
            0 <= b < self.batches.len() && 0 <= m < self.batches[b].len() ==> {
                &&& self.batches[b][m].log_height <= self.log_global
                &&& self.batches[b][m].log_height <= F::sp_two_adicity()
                &&& forall|p: int|
                    0 <= p < self.batches[b][m].claims.len() ==> (
                    #[trigger] self.batches[b][m].claims[p]).1.len() == self.rows[b][m].len()
            }
    }
}

/// Adds the terms of one row at one opening point.
fn reduce_point<F: Field, EF: ExtensionField<F>>(
    row: &Vec<F>,
    x: F,
    point: EF,
    values: &Vec<EF>,
    alpha: EF,
    state: (EF, EF),
    Ghost(terms): Ghost<Seq<(EF, EF)>>,
) -> (r: Option<(EF, EF)>)
    requires
        values@.len() == row@.len(),
        state == (field::power(alpha, terms.len()), combined(alpha, terms)),
    ensures
        match r {
            Some(next) => {
                let all = terms + point_terms(row@, x, point, values@);
                &&& point.sp_sub(EF::sp_from_base(x)) != EF::sp_zero()
                &&& next == (field::power(alpha, all.len()), combined(alpha, all))
            },
            None => point.sp_sub(EF::sp_from_base(x)) == EF::sp_zero(),
        },
{
    let denominator: EF = point.sub(EF::from_base(x));
    if denominator.equals(EF::zero()) {
        return None;
    }
    let inverse: EF = denominator.inverse();
    let ghost new = point_terms(row@, x, point, values@);
    let (mut alpha_power, mut opening) = state;
    let mut c: usize = 0;
    assert(terms + new.take(0) =~= terms);
    while c < row.len()
        invariant
            c <= row@.len(),
            values@.len() == row@.len(),
            new == point_terms(row@, x, point, values@),
            inverse == point.sp_sub(EF::sp_from_base(x)).sp_inv(),
            alpha_power == field::power(alpha, terms.len() + c as nat),
            opening == combined(alpha, terms + new.take(c as int)),
        decreases row@.len() - c,
    {
        opening =
        opening.add(alpha_power.mul(values[c].sub(EF::from_base(row[c]))).mul(inverse));
        alpha_power = alpha_power.mul(alpha);
        proof {
            let t = terms + new.take(c + 1);
            assert(t.drop_last() =~= terms + new.take(c as int));
            assert(t.last() == new[c as int]);
        }
        c += 1;
    }
    assert(new.take(c as int) =~= new);
    Some((alpha_power, opening))
}

/// Adds the terms of one row at all its opening points.
fn reduce_matrix<F: Field, EF: ExtensionField<F>>(
    row: &Vec<F>,
    x: F,
    points_and_values: &Vec<(EF, Vec<EF>)>,
    alpha: EF,
    state: (EF, EF),
    Ghost(terms): Ghost<Seq<(EF, EF)>>,
    Ghost(claims): Ghost<Seq<(EF, Seq<EF>)>>,
) -> (r: Option<(EF, EF)>)
    requires
        claims.len() == points_and_values@.len(),
        forall|p: int|
            0 <= p < claims.len() ==> (#[trigger] claims[p]) == (
                points_and_values@[p].0,
                points_and_values@[p].1@,
            ) && claims[p].1.len() == row@.len(),
        state == (field::power(alpha, terms.len()), combined(alpha, terms)),
    ensures
        match r {
            Some(next) => {
                let all = terms + matrix_terms(row@, x, claims, claims.len());
                &&& !collides(claims, x, claims.len())
                &&& next == (field::power(alpha, all.len()), combined(alpha, all))
            },
            None => collides(claims, x, claims.len()),
        },
{
    let mut cur: (EF, EF) = state;
    let mut p: usize = 0;
    assert(terms + matrix_terms(row@, x, claims, 0) =~= terms);
    while p < points_and_values.len()
        invariant
            p <= points_and_values@.len(),
            claims.len() == points_and_values@.len(),
            forall|p: int|
                0 <= p < claims.len() ==> (#[trigger] claims[p]) == (
                    points_and_values@[p].0,
                    points_and_values@[p].1@,
                ) && claims[p].1.len() == row@.len(),
            !collides(claims, x, p as nat),
            cur == (
                field::power(alpha, (terms + matrix_terms(row@, x, claims, p as nat)).len()),
                combined(alpha, terms + matrix_terms(row@, x, claims, p as nat)),
            ),
        decreases points_and_values@.len() - p,
    {
        let ghost before = terms + matrix_terms(row@, x, claims, p as nat);
        assert(claims[p as int].1.len() == row@.len());
        match reduce_point(
            row,
            x,
            points_and_values[p].0,
            &points_and_values[p].1,
            alpha,
            cur,
            Ghost(before),
        ) {
            Some(next) => {
                cur = next;
            },
            None => {
                return None;
            },
        }
        p += 1;
        assert(before + point_terms(row@, x, claims[p - 1].0, claims[p - 1].1) =~= terms
            + matrix_terms(row@, x, claims, p as nat));
    }
    Some(cur)
}

impl<F: TwoAdicField, EF: ExtensionField<F>> QueryOpening<F, EF> {
    proof fn lemma_absent_batch(self, b: int, log_height: nat, n: nat)
        requires
            !self.batch_present(b, log_height, n),
        ensures
            self.batch_terms(b, log_height, n) == Seq::<(EF, EF)>::empty(),
        decreases n,
    {
        if n > 0 {
            assert forall|m: int| 0 <= m < n - 1 implies (
            #[trigger] self.batches[b][m]).log_height != log_height by {}
            assert(!self.batch_present(b, log_height, (n - 1) as nat));
            self.lemma_absent_batch(b, log_height, (n - 1) as nat);
            assert(self.batches[b][n - 1].log_height != log_height);
        }
    }

    proof fn lemma_absent(self, log_height: nat, n: nat)
        requires
            !self.present(log_height, n),
        ensures
            self.terms(log_height, n) == Seq::<(EF, EF)>::empty(),
        decreases n,
    {
        if n > 0 {
            assert(!self.present(log_height, (n - 1) as nat));
            self.lemma_absent(log_height, (n - 1) as nat);
            assert(!self.batch_present(n - 1, log_height, self.batches[n - 1].len()));
            self.lemma_absent_batch(n - 1, log_height, self.batches[n - 1].len());
            assert(self.terms(log_height, n) =~= Seq::<(EF, EF)>::empty());
        }
    }

    /// The running state of a height after the first `b` batches and `m` matrices of the next.
    spec fn state(self, log_height: nat, b: nat, m: nat) -> Option<(EF, EF)> {
        let terms = self.terms(log_height, b) + self.batch_terms(b as int, log_height, m);
        if self.present(log_height, b) || self.batch_present(b as int, log_height, m) {
            Some((field::power(self.alpha, terms.len()), combined(self.alpha, terms)))
        } else {
            None
        }
    }

    proof fn lemma_state_start(self, log_height: nat, b: nat)
        ensures
            self.state(log_height, b, 0) == (if self.present(log_height, b) {
                Some(
                    (
                        field::power(self.alpha, self.terms(log_height, b).len()),
                        combined(self.alpha, self.terms(log_height, b)),
                    ),
                )
            } else {
                None
            }),
    {
        assert(self.terms(log_height, b) + self.batch_terms(b as int, log_height, 0)
            =~= self.terms(log_height, b));
    }

    proof fn lemma_state_end(self, log_height: nat, b: nat)
        requires
            b < self.batches.len(),
        ensures
            self.state(log_height, b, self.batches[b as int].len()) == self.state(
                log_height,
                b + 1,
                0,
            ),
    {
        self.lemma_state_start(log_height, b + 1);
        if self.present(log_height, b) {
            let c = choose|c: int|
                0 <= c < b && #[trigger] self.batch_present(
                    c,
                    log_height,
                    self.batches[c].len(),
                );
            assert(self.batch_present(c, log_height, self.batches[c].len()));
            assert(self.present(log_height, b + 1));
        }
        if self.batch_present(b as int, log_height, self.batches[b as int].len()) {
            assert(self.present(log_height, b + 1));
        }
    }

    proof fn lemma_state_step(self, log_height: nat, b: nat, m: nat)
        requires
            b < self.batches.len(),
            m < self.batches[b as int].len(),
        ensures
            self.batches[b as int][m as int].log_height != log_height ==> self.state(
                log_height,
                b,
                m + 1,
            ) == self.state(log_height, b, m),
            self.batches[b as int][m as int].log_height == log_height ==> {
                &&& self.batch_present(b as int, log_height, m + 1)
                &&& self.state(log_height, b, m) is None ==> (self.terms(log_height, b)
                    + self.batch_terms(b as int, log_height, m)) == Seq::<(EF, EF)>::empty()
            },
    {
        let claims = self.batches[b as int][m as int];
        if claims.log_height != log_height {
            if self.batch_present(b as int, log_height, m + 1) {
                let i = choose|i: int|
                    0 <= i < m + 1 && (#[trigger] self.batches[b as int][i]).log_height
                        == log_height;
                assert(i < m);
                assert(self.batch_present(b as int, log_height, m));
            }
            if self.batch_present(b as int, log_height, m) {
                let i = choose|i: int|
                    0 <= i < m && (#[trigger] self.batches[b as int][i]).log_height == log_height;
                assert(self.batch_present(b as int, log_height, m + 1));
            }
        } else {
            assert(self.batch_present(b as int, log_height, m + 1));
            if self.state(log_height, b, m) is None {
                self.lemma_absent(log_height, b);
                self.lemma_absent_batch(b as int, log_height, m);
                assert((self.terms(log_height, b) + self.batch_terms(b as int, log_height, m))
                    =~= Seq::<(EF, EF)>::empty());
            }
        }
    }
}

/// Heights as numbers.
pub open spec fn pairs<EF>(s: Seq<(usize, EF)>) -> Seq<(nat, EF)> {
    Seq::new(s.len(), |i: int| (s[i].0 as nat, s[i].1))
}

/// The machine data of a query match its description.
spec fn query_matches<F: TwoAdicField, EF: ExtensionField<F>, P>(
    q: QueryOpening<F, EF>,
    openings: Seq<BatchMultiOpening<F, P>>,
    batches: Seq<Vec<FriInputMatrix<TwoAdicMultiplicativeCoset<F>, EF>>>,
    query: int,
    log_blowup: nat,
) -> bool {
    &&& q.batches == all_claims(batches, log_blowup)
    &&& openings.len() == batches.len()
    &&& q.rows.len() == batches.len()
    &&& forall|b: int|
        0 <= b < batches.len() ==> {
            &&& query < (#[trigger] openings[b]).opened_values@.len()
            &&& openings[b].opened_values@[query]@.len() == batches[b]@.len()
            &&& q.rows[b] == seqs::rows(openings[b].opened_values@[query]@)
        }
}

/// Reduces everything that one query opens.
fn reduce_query<F: TwoAdicField, EF: ExtensionField<F>, P>(
    openings: &Vec<BatchMultiOpening<F, P>>,
    batches: &[Vec<FriInputMatrix<TwoAdicMultiplicativeCoset<F>, EF>>],
    query: usize,
    index: usize,
    alpha: EF,
    log_blowup: usize,
    log_global: usize,
    Ghost(q): Ghost<QueryOpening<F, EF>>,
) -> (r: Result<Vec<(usize, EF)>, FriWitnessError>)
    requires
        q.aligned(),
        query_matches(q, openings@, batches@, query as int, log_blowup as nat),
        q.alpha == alpha,
        q.index == index,
        q.log_global == log_global,
        log_blowup <= log_global < usize::BITS,
    ensures
        match r {
            Ok(reduced) => {
                &&& q.reduction_failure(query as int, log_blowup as nat) is None
                &&& pairs(reduced@) == q.reduced()
            },
            Err(e) => q.reduction_failure(query as int, log_blowup as nat) == Some(e),
        },
{
    let generator: F = F::generator();
    let mut states: Vec<Option<(EF, EF)>> = seqs::filled(None, log_global + 1);
    let mut b: usize = 0;
    proof {
        assert forall|h: int| 0 <= h <= log_global implies (#[trigger] states@[h]) == q.state(
            h as nat,
            0,
            0,
        ) by {
            q.lemma_state_start(h as nat, 0);
        }
    }
    while b < batches.len()
        invariant
            b <= batches@.len(),
            q.aligned(),
            query_matches(q, openings@, batches@, query as int, log_blowup as nat),
            q.alpha == alpha,
            q.index == index,
            q.log_global == log_global,
            log_global < usize::BITS,
            generator == F::sp_generator(),
            !q.any_collides(b as nat),
            states@.len() == log_global + 1,
            forall|h: int|
                0 <= h <= log_global ==> (#[trigger] states@[h]) == q.state(h as nat, b as nat, 0),
        decreases batches@.len() - b,
    {
        assert(query < openings@[b as int].opened_values@.len());
        let mut m: usize = 0;
        while m < batches[b].len()
            invariant
                b < batches@.len(),
                m <= batches@[b as int]@.len(),
                q.aligned(),
                query_matches(q, openings@, batches@, query as int, log_blowup as nat),
                query < openings@[b as int].opened_values@.len(),
                q.alpha == alpha,
                q.index == index,
                q.log_global == log_global,
                log_global < usize::BITS,
                generator == F::sp_generator(),
                !q.any_collides(b as nat),
                !q.batch_collides(b as int, m as nat),
                states@.len() == log_global + 1,
                forall|h: int|
                    0 <= h <= log_global ==> (#[trigger] states@[h]) == q.state(
                        h as nat,
                        b as nat,
                        m as nat,
                    ),
            decreases batches@[b as int]@.len() - m,
        {
            let ghost claims = q.batches[b as int][m as int];
            assert(claims == claims_of(batches@[b as int]@[m as int], log_blowup as nat));
            let matrix = &batches[b][m];
            let row: &Vec<F> = &openings[b].opened_values[query][m];
            assert(q.rows[b as int][m as int] == row@);
            let log_height: usize = matrix.domain.log_size + log_blowup;
            assert(claims.log_height == log_height);
            let shifted: usize = bits::shift_right(index, log_global - log_height);
            let reversed: usize = bits::reverse_bits_len(shifted, log_height);
            let x: F = generator.mul(
                exp_u64(F::two_adic_generator(log_height), reversed as u64),
            );
            assert(x == q.x(log_height as nat));
            let ghost h = log_height as nat;
            let ghost terms = q.terms(h, b as nat) + q.batch_terms(b as int, h, m as nat);
            proof {
                q.lemma_state_step(h, b as nat, m as nat);
                assert(states@[h as int] == q.state(h, b as nat, m as nat));
            }
            let start: (EF, EF) = match states[log_height] {
                Some(state) => state,
                None => (EF::one(), EF::zero()),
            };
            match reduce_matrix(
                row,
                x,
                &matrix.points_and_values,
                alpha,
                start,
                Ghost(terms),
                Ghost(claims.claims),
            ) {
                Some(next) => {
                    states[log_height] = Some(next);
                    proof {
                        let all = terms + matrix_terms(
                            row@,
                            x,
                            claims.claims,
                            claims.claims.len(),
                        );
                        assert(all =~= q.terms(h, b as nat) + q.batch_terms(
                            b as int,
                            h,
                            (m + 1) as nat,
                        ));
                        assert forall|i: int| 0 <= i <= log_global implies (#[trigger] states@[i])
                            == q.state(i as nat, b as nat, (m + 1) as nat) by {
                            q.lemma_state_step(i as nat, b as nat, m as nat);
                        }
                        if q.batch_collides(b as int, (m + 1) as nat) {
                            let i = choose|i: int|
                                0 <= i < m + 1 && collides(
                                    (#[trigger] q.batches[b as int][i]).claims,
                                    q.x(q.batches[b as int][i].log_height),
                                    q.batches[b as int][i].claims.len(),
                                );
                            assert(i < m);
                            assert(q.batch_collides(b as int, m as nat));
                        }
                    }
                },
                None => {
                    proof {
                        assert(collides(
                            q.batches[b as int][m as int].claims,
                            q.x(q.batches[b as int][m as int].log_height),
                            q.batches[b as int][m as int].claims.len(),
                        ));
                        assert(q.batch_collides(b as int, q.batches[b as int].len()));
                        assert(q.any_collides(q.batches.len()));
                    }
                    return Err(FriWitnessError::OpeningPointMatchesQueryPoint { query });
                },
            }
            m += 1;
        }
        proof {
            assert forall|h: int| 0 <= h <= log_global implies (#[trigger] states@[h]) == q.state(
                h as nat,
                (b + 1) as nat,
                0,
            ) by {
                q.lemma_state_end(h as nat, b as nat);
            }
            if q.any_collides((b + 1) as nat) {
                let c = choose|c: int|
                    0 <= c < b + 1 && #[trigger] q.batch_collides(c, q.batches[c].len());
                assert(c < b);
                assert(q.any_collides(b as nat));
            }
        }
        b += 1;
    }
    proof {
        assert forall|h: int| 0 <= h <= log_global implies (#[trigger] states@[h]) == (
        if q.present(h as nat, q.batches.len()) {
            Some(
                (
                    field::power(alpha, q.terms(h as nat, q.batches.len()).len()),
                    q.reduced_opening(h as nat),
                ),
            )
        } else {
            None
        }) by {
            q.lemma_state_start(h as nat, b as nat);
        }
    }
    match states[log_blowup] {
        Some((_, opening)) => {
            if !opening.equals(EF::zero()) {
                return Err(
                    FriWitnessError::InvalidShape("nonzero constant-polynomial reduced opening"),
                );
            }
        },
        None => {},
    }
    let mut reduced: Vec<(usize, EF)> = Vec::new();
    let mut h: usize = log_global + 1;
    assert(pairs(reduced@) + q.reduced_below(h as nat) =~= q.reduced());
    while h > 0
        invariant
            h <= log_global + 1,
            q.log_global == log_global,
            log_global < usize::BITS,
            states@.len() == log_global + 1,
            forall|h: int|
                0 <= h <= log_global ==> (#[trigger] states@[h]) == (if q.present(
                    h as nat,
                    q.batches.len(),
                ) {
                    Some(
                        (
                            field::power(alpha, q.terms(h as nat, q.batches.len()).len()),
                            q.reduced_opening(h as nat),
                        ),
                    )
                } else {
                    None
                }),
            pairs(reduced@) + q.reduced_below(h as nat) == q.reduced(),
        decreases h,
    {
        let ghost before = pairs(reduced@);
        h -= 1;
        assert(states@[h as int] is Some == q.present(h as nat, q.batches.len()));
        match states[h] {
            Some((_, opening)) => {
                reduced.push((h, opening));
                assert(pairs(reduced@) =~= before.push((h as nat, opening)));
                assert(pairs(reduced@) + q.reduced_below(h as nat) =~= before + q.reduced_below(
                    (h + 1) as nat,
                ));
            },
            None => {},
        }
    }
    assert(pairs(reduced@) =~= q.reduced());
    Ok(reduced)
}

// Folding.

/// What one query folds through the commit phase.
pub struct QueryFold<EF> {
    /// The reduced openings, tallest first.
    pub reduced: Seq<(nat, EF)>,
    pub betas: Seq<EF>,
    pub log_arities: Seq<nat>,
    /// The sibling values of each round.
    pub siblings: Seq<Seq<EF>>,
    pub index: nat,
    pub log_global: nat,
}

/// Where a query stands between two rounds.
pub struct FoldState<EF> {
    pub evaluation: EF,
    pub index: nat,
    pub log_height: int,
    /// How many reduced openings have entered.
    pub entered: nat,
}

impl<EF: Field> QueryFold<EF> {
    /// The row opened in a round: the running evaluation among its siblings.
    pub open spec fn row_around(self, round: int, evaluation: EF, own: nat) -> Seq<EF> {
        Seq::new(
            pow2(self.log_arities[round]),
            |pos: int|
                if pos == own {
                    evaluation
                } else if pos < own {
                    self.siblings[round][pos]
                } else {
                    self.siblings[round][pos - 1]
                },
        )
    }

    /// The state before a round.
    pub open spec fn state<F: TwoAdicField>(self, round: nat) -> FoldState<EF> where
        EF: ExtensionField<F>,

        decreases round,
    {
        if round == 0 {
            FoldState {
                evaluation: self.reduced[0].1,
                index: self.index,
                log_height: self.log_global as int,
                entered: 1,
            }
        } else {
            let r = (round - 1) as nat;
            let s = self.state::<F>(r);
            let log_arity = self.log_arities[r as int];
            let index = s.index / pow2(log_arity);
            let log_height = s.log_height - log_arity;
            let row = self.row_around(r as int, s.evaluation, s.index % pow2(log_arity));
            let value = folded::<F, EF>(
                index,
                log_height as nat,
                log_arity,
                self.betas[r as int],
                row,
            );
            if s.entered < self.reduced.len() && self.reduced[s.entered as int].0 == log_height {
                FoldState {
                    evaluation: value.sp_add(
                        field::repeated_square(self.betas[r as int], log_arity).sp_mul(
                            self.reduced[s.entered as int].1,
                        ),
                    ),
                    index,
                    log_height,
                    entered: s.entered + 1,
                }
            } else {
                FoldState { evaluation: value, index, log_height, entered: s.entered }
            }
        }
    }

    /// The row opened in a round.
    pub open spec fn row<F: TwoAdicField>(self, round: nat) -> Seq<EF> where
        EF: ExtensionField<F>,
     {
        let s = self.state::<F>(round);
        self.row_around(
            round as int,
            s.evaluation,
            s.index % pow2(self.log_arities[round as int]),
        )
    }
}

/// The sum of the first `n` entries.
pub open spec fn sum(s: Seq<nat>, n: nat) -> nat
    decreases n,
{
    if n == 0 {
        0
    } else {
        sum(s, (n - 1) as nat) + s[n - 1]
    }
}

pub proof fn lemma_sum_monotone(s: Seq<nat>, m: nat, n: nat)
    requires
        m <= n,
    ensures
        sum(s, m) <= sum(s, n),
    decreases n,
{
    if m < n {
        lemma_sum_monotone(s, m, (n - 1) as nat);
    }
}

/// One row with the running evaluation in its place.
fn build_row<EF: Field>(siblings: &Vec<EF>, evaluation: EF, own: usize, arity: usize) -> (r: Vec<
    EF,
>)
    requires
        own < arity,
        siblings@.len() == arity - 1,
    ensures
        r@ == Seq::new(
            arity as nat,
            |pos: int|
                if pos == own {
                    evaluation
                } else if pos < own {
                    siblings@[pos]
                } else {
                    siblings@[pos - 1]
                },
        ),
{
    let mut row: Vec<EF> = Vec::with_capacity(arity);
    let mut pos: usize = 0;
    while pos < arity
        invariant
            own < arity,
            siblings@.len() == arity - 1,
            pos <= arity,
            row@.len() == pos,
            forall|i: int|
                0 <= i < pos ==> (#[trigger] row@[i]) == (if i == own {
                    evaluation
                } else if i < own {
                    siblings@[i]
                } else {
                    siblings@[i - 1]
                }),
        decreases arity - pos,
    {
        if pos == own {
            row.push(evaluation);
        } else if pos < own {
            row.push(siblings[pos]);
        } else {
            row.push(siblings[pos - 1]);
        }
        pos += 1;
    }
    assert(row@ =~= Seq::new(
        arity as nat,
        |pos: int|
            if pos == own {
                evaluation
            } else if pos < own {
                siblings@[pos]
            } else {
                siblings@[pos - 1]
            },
    ));
    row
}

/// Folds one query through the commit phase: the reduced index and the opened row of each round.
fn fold_query<F: TwoAdicField, EF: ExtensionField<F>, P>(
    steps: &Vec<CommitPhaseMultiStep<EF, P>>,
    betas: &[EF],
    reduced: &Vec<(usize, EF)>,
    query: usize,
    num_queries: usize,
    index: usize,
    log_global: usize,
    Ghost(q): Ghost<QueryFold<EF>>,
) -> (r: Result<(Vec<usize>, Vec<Vec<EF>>), FriWitnessError>)
    requires
        query < num_queries,
        betas@.len() == steps@.len(),
        q.betas == betas@,
        q.log_arities == log_arities_of(steps@),
        q.index == index,
        q.log_global == log_global,
        pairs(reduced@) == q.reduced,
        sum(q.log_arities, steps@.len()) <= log_global < usize::BITS,
        forall|i: int| 0 <= i < reduced@.len() ==> (#[trigger] reduced@[i]).0
            <= F::sp_two_adicity(),
        forall|r: int|
            0 <= r < steps@.len() && query < (#[trigger] steps@[r]).sibling_values@.len()
                ==> q.siblings[r] == steps@[r].sibling_values@[query as int]@,
    ensures
        match r {
            Ok((indices, rows)) => {
                &&& fold_failure(q.reduced, log_global as nat, steps@, query as int, num_queries as nat)
                    is None
                &&& indices@.len() == steps@.len()
                &&& rows@.len() == steps@.len()
                &&& forall|r: int|
                    0 <= r < steps@.len() ==> (#[trigger] indices@[r]) as nat == q.state::<F>(
                        (r + 1) as nat,
                    ).index && rows@[r]@ == q.row::<F>(r as nat)
            },
            Err(e) => fold_failure(
                q.reduced,
                log_global as nat,
                steps@,
                query as int,
                num_queries as nat,
            ) == Some(e),
        },
{
    if reduced.len() == 0 {
        return Err(FriWitnessError::InvalidShape("missing reduced opening"));
    }
    let (first_height, first_eval) = reduced[0];
    assert(q.reduced[0] == (first_height as nat, first_eval));
    if first_height != log_global {
        return Err(FriWitnessError::InvalidShape("initial reduced opening height mismatch"));
    }
    assert(reduced@[0].0 <= F::sp_two_adicity());
    let mut folded_eval: EF = first_eval;
    let mut cursor: usize = 1;
    let mut domain_index: usize = index;
    let mut log_height: usize = log_global;
    let mut indices: Vec<usize> = Vec::with_capacity(steps.len());
    let mut rows: Vec<Vec<EF>> = Vec::with_capacity(steps.len());
    let mut round: usize = 0;
    while round < steps.len()
        invariant
            round <= steps@.len(),
            query < num_queries,
            betas@.len() == steps@.len(),
            q.betas == betas@,
            q.log_arities == log_arities_of(steps@),
            q.log_global == log_global,
            pairs(reduced@) == q.reduced,
            sum(q.log_arities, steps@.len()) <= log_global < usize::BITS,
            log_global <= F::sp_two_adicity(),
            q.reduced.len() > 0,
            q.reduced[0].0 == log_global,
            forall|r: int|
                0 <= r < steps@.len() && query < (#[trigger] steps@[r]).sibling_values@.len()
                    ==> q.siblings[r] == steps@[r].sibling_values@[query as int]@,
            rounds_failure(steps@, query as int, num_queries as nat, round as nat) is None,
            log_height == log_global - sum(q.log_arities, round as nat),
            cursor <= reduced@.len(),
            q.state::<F>(round as nat) == (FoldState {
                evaluation: folded_eval,
                index: domain_index as nat,
                log_height: log_height as int,
                entered: cursor as nat,
            }),
            indices@.len() == round,
            rows@.len() == round,
            forall|r: int|
                0 <= r < round ==> (#[trigger] indices@[r]) as nat == q.state::<F>(
                    (r + 1) as nat,
                ).index && rows@[r]@ == q.row::<F>(r as nat),
        decreases steps@.len() - round,
    {
        let step = &steps[round];
        if step.sibling_values.len() != num_queries {
            proof {
                lemma_rounds_failure(
                    steps@,
                    query as int,
                    num_queries as nat,
                    (round + 1) as nat,
                    steps@.len(),
                );
            }
            return Err(FriWitnessError::InvalidShape("commit-phase sibling query count mismatch"));
        }
        let log_arity: usize = step.log_arity as usize;
        proof {
            assert(q.log_arities[round as int] == log_arity);
            lemma_sum_monotone(q.log_arities, (round + 1) as nat, steps@.len());
        }
        let arity: usize = bits::two_pow(log_arity);
        let siblings: &Vec<EF> = &step.sibling_values[query];
        if siblings.len() != arity - 1 {
            proof {
                lemma_rounds_failure(
                    steps@,
                    query as int,
                    num_queries as nat,
                    (round + 1) as nat,
                    steps@.len(),
                );
            }
            return Err(FriWitnessError::InvalidShape("commit-phase sibling row width mismatch"));
        }
        let own: usize = domain_index % arity;
        let row: Vec<EF> = build_row(siblings, folded_eval, own, arity);
        assert(row@ =~= q.row::<F>(round as nat));
        log_height = log_height - log_arity;
        domain_index = bits::shift_right(domain_index, log_arity);
        let beta: EF = betas[round];
        folded_eval = fold_row::<F, EF>(domain_index, log_height, log_arity, beta, &row);
        indices.push(domain_index);
        rows.push(row);
        if cursor < reduced.len() && reduced[cursor].0 == log_height {
            let roll_in: EF = reduced[cursor].1;
            assert(q.reduced[cursor as int] == (log_height as nat, roll_in));
            folded_eval = folded_eval.add(exp_power_of_2(beta, log_arity).mul(roll_in));
            cursor += 1;
        } else {
            assert(cursor < q.reduced.len() ==> q.reduced[cursor as int].0
                == reduced@[cursor as int].0);
        }
        round += 1;
    }
    Ok((indices, rows))
}

/// The log arities of the commit phase.
pub open spec fn log_arities_of<EF, P>(steps: Seq<CommitPhaseMultiStep<EF, P>>) -> Seq<nat> {
    Seq::new(steps.len(), |r: int| steps[r].log_arity as nat)
}

/// What is wrong with the siblings that a query finds in the first `n` rounds.
pub open spec fn rounds_failure<EF, P>(
    steps: Seq<CommitPhaseMultiStep<EF, P>>,
    query: int,
    num_queries: nat,
    n: nat,
) -> Option<FriWitnessError>
    decreases n,
{
    if n == 0 {
        None
    } else {
        match rounds_failure(steps, query, num_queries, (n - 1) as nat) {
            Some(e) => Some(e),
            None => {
                let step = steps[n - 1];
                if step.sibling_values@.len() != num_queries {
                    Some(FriWitnessError::InvalidShape("commit-phase sibling query count mismatch"))
                } else if step.sibling_values@[query]@.len() != pow2(step.log_arity as nat) - 1 {
                    Some(FriWitnessError::InvalidShape("commit-phase sibling row width mismatch"))
                } else {
                    None
                }
            },
        }
    }
}

proof fn lemma_rounds_failure<EF, P>(
    steps: Seq<CommitPhaseMultiStep<EF, P>>,
    query: int,
    num_queries: nat,
    m: nat,
    n: nat,
)
    requires
        m <= n,
        rounds_failure(steps, query, num_queries, m) is Some,
    ensures
        rounds_failure(steps, query, num_queries, n) == rounds_failure(
            steps,
            query,
            num_queries,
            m,
        ),
    decreases n,
{
    if m < n {
        lemma_rounds_failure(steps, query, num_queries, m, (n - 1) as nat);
    }
}

/// Why a reduced query cannot be folded, if it cannot.
pub open spec fn fold_failure<EF, P>(
    reduced: Seq<(nat, EF)>,
    log_global: nat,
    steps: Seq<CommitPhaseMultiStep<EF, P>>,
    query: int,
    num_queries: nat,
) -> Option<FriWitnessError> {
    if reduced.len() == 0 {
        Some(FriWitnessError::InvalidShape("missing reduced opening"))
    } else if reduced[0].0 != log_global {
        Some(FriWitnessError::InvalidShape("initial reduced opening height mismatch"))
    } else {
        rounds_failure(steps, query, num_queries, steps.len())
    }
}

// Shapes of the input batches.

/// The number of columns of a matrix, by its first opening point.
pub open spec fn width_of<EF>(claims: MatrixClaims<EF>) -> nat {
    claims.claims[0].1.len()
}

/// The opening points of a matrix disagree on its width.
pub open spec fn widths_disagree<EF>(claims: MatrixClaims<EF>) -> bool {
    exists|p: int|
        0 <= p < claims.claims.len() && (#[trigger] claims.claims[p]).1.len() != width_of(claims)
}

/// What is wrong with the claims of the first `n` matrices of a batch.
pub open spec fn claims_failure<EF>(
    batch: int,
    matrices: Seq<MatrixClaims<EF>>,
    n: nat,
) -> Option<FriWitnessError>
    decreases n,
{
    if n == 0 {
        None
    } else {
        match claims_failure(batch, matrices, (n - 1) as nat) {
            Some(e) => Some(e),
            None => if matrices[n - 1].claims.len() == 0 {
                Some(
                    FriWitnessError::MatrixWithoutOpeningPoint {
                        batch: batch as usize,
                        matrix: (n - 1) as usize,
                    },
                )
            } else if widths_disagree(matrices[n - 1]) {
                Some(FriWitnessError::InvalidShape("opening-point evaluation widths disagree"))
            } else {
                None
            },
        }
    }
}

pub open spec fn wrong_row_width<F, EF>(
    rows: Seq<Seq<F>>,
    matrices: Seq<MatrixClaims<EF>>,
) -> spec_fn(int) -> bool {
    |m: int| rows[m].len() != width_of(matrices[m])
}

/// What is wrong with the rows that the first `n` queries open in a batch.
pub open spec fn opened_failure<F, EF>(
    batch: int,
    opened: Seq<Seq<Seq<F>>>,
    matrices: Seq<MatrixClaims<EF>>,
    n: nat,
) -> Option<FriWitnessError>
    decreases n,
{
    if n == 0 {
        None
    } else {
        match opened_failure(batch, opened, matrices, (n - 1) as nat) {
            Some(e) => Some(e),
            None => {
                let rows = opened[n - 1];
                if rows.len() != matrices.len() {
                    Some(FriWitnessError::InvalidShape("input opening matrix count mismatch"))
                } else {
                    match seqs::least(rows.len(), wrong_row_width(rows, matrices)) {
                        Some(m) => Some(
                            FriWitnessError::OpeningWidthMismatch {
                                query: (n - 1) as usize,
                                batch: batch as usize,
                                matrix: m as usize,
                            },
                        ),
                        None => None,
                    }
                }
            },
        }
    }
}

/// The greatest log height among the first `n` matrices.
pub open spec fn max_log_height<EF>(matrices: Seq<MatrixClaims<EF>>, n: nat) -> nat
    decreases n,
{
    if n == 0 {
        0
    } else {
        let rest = max_log_height(matrices, (n - 1) as nat);
        if matrices[n - 1].log_height > rest {
            matrices[n - 1].log_height
        } else {
            rest
        }
    }
}

proof fn lemma_max_log_height<EF>(matrices: Seq<MatrixClaims<EF>>, n: nat, m: int)
    requires
        0 <= m < n,
    ensures
        matrices[m].log_height <= max_log_height(matrices, n),
    decreases n,
{
    if m < n - 1 {
        lemma_max_log_height(matrices, (n - 1) as nat, m);
    }
}

/// What is wrong with one input batch.
pub open spec fn batch_failure<F, EF>(
    batch: int,
    opened: Seq<Seq<Seq<F>>>,
    matrices: Seq<MatrixClaims<EF>>,
    num_queries: nat,
    log_global: nat,
) -> Option<FriWitnessError> {
    if opened.len() != num_queries {
        Some(FriWitnessError::InvalidShape("input opening query count mismatch"))
    } else if claims_failure(batch, matrices, matrices.len()) is Some {
        claims_failure(batch, matrices, matrices.len())
    } else if opened_failure(batch, opened, matrices, opened.len()) is Some {
        opened_failure(batch, opened, matrices, opened.len())
    } else if matrices.len() == 0 {
        Some(FriWitnessError::InvalidShape("empty input batch"))
    } else if max_log_height(matrices, matrices.len()) > log_global {
        Some(FriWitnessError::InvalidShape("input height exceeds global FRI height"))
    } else {
        None
    }
}

/// The dimensions of the matrices of a batch.
pub open spec fn dimensions_of<EF>(matrices: Seq<MatrixClaims<EF>>) -> Seq<Dimensions> {
    Seq::new(
        matrices.len(),
        |m: int|
            Dimensions {
                width: width_of(matrices[m]) as usize,
                height: pow2(matrices[m].log_height) as usize,
            },
    )
}

/// Everything that the checks of a batch establish.
pub open spec fn batch_checked<F, EF>(
    opened: Seq<Seq<Seq<F>>>,
    matrices: Seq<MatrixClaims<EF>>,
    num_queries: nat,
    log_global: nat,
) -> bool {
    &&& opened.len() == num_queries
    &&& forall|q: int| 0 <= q < opened.len() ==> (#[trigger] opened[q]).len() == matrices.len()
    &&& forall|m: int|
        0 <= m < matrices.len() ==> {
            &&& (#[trigger] matrices[m]).log_height <= log_global
            &&& forall|p: int|
                0 <= p < matrices[m].claims.len() ==> (#[trigger] matrices[m].claims[p]).1.len()
                    == width_of(matrices[m])
        }
    &&& forall|q: int, m: int|
        #![trigger opened[q][m]]
        0 <= q < opened.len() && 0 <= m < matrices.len() ==> opened[q][m].len() == width_of(
            matrices[m],
        )
}

proof fn lemma_claims_failure<EF>(batch: int, matrices: Seq<MatrixClaims<EF>>, m: nat, n: nat)
    requires
        m <= n,
        claims_failure(batch, matrices, m) is Some,
    ensures
        claims_failure(batch, matrices, n) == claims_failure(batch, matrices, m),
    decreases n,
{
    if m < n {
        lemma_claims_failure(batch, matrices, m, (n - 1) as nat);
    }
}

proof fn lemma_opened_failure<F, EF>(
    batch: int,
    opened: Seq<Seq<Seq<F>>>,
    matrices: Seq<MatrixClaims<EF>>,
    m: nat,
    n: nat,
)
    requires
        m <= n,
        opened_failure(batch, opened, matrices, m) is Some,
    ensures
        opened_failure(batch, opened, matrices, n) == opened_failure(batch, opened, matrices, m),
    decreases n,
{
    if m < n {
        lemma_opened_failure(batch, opened, matrices, m, (n - 1) as nat);
    }
}

/// Checks one input batch and returns its dimensions and its greatest log height.
fn check_batch<F: Field, EF: Field>(
    batch: usize,
    opened: &Vec<Vec<Vec<F>>>,
    matrices: &Vec<FriInputMatrix<TwoAdicMultiplicativeCoset<F>, EF>>,
    num_queries: usize,
    log_blowup: usize,
    log_global: usize,
    Ghost(claims): Ghost<Seq<MatrixClaims<EF>>>,
) -> (r: Result<(Vec<Dimensions>, usize), FriWitnessError>)
    requires
        claims == Seq::new(
            matrices@.len(),
            |m: int| claims_of(matrices@[m], log_blowup as nat),
        ),
        forall|m: int|
            0 <= m < matrices@.len() ==> (#[trigger] matrices@[m]).domain.log_size + log_blowup
                < usize::BITS,
    ensures
        match r {
            Ok((dimensions, max_log)) => {
                &&& batch_failure(
                    batch as int,
                    seqs::tables(opened@),
                    claims,
                    num_queries as nat,
                    log_global as nat,
                ) is None
                &&& dimensions@ == dimensions_of(claims)
                &&& max_log == max_log_height(claims, claims.len())
                &&& max_log <= log_global
                &&& claims.len() > 0
                &&& batch_checked(
                    seqs::tables(opened@),
                    claims,
                    num_queries as nat,
                    log_global as nat,
                )
            },
            Err(e) => batch_failure(
                batch as int,
                seqs::tables(opened@),
                claims,
                num_queries as nat,
                log_global as nat,
            ) == Some(e),
        },
{
    let ghost tables = seqs::tables(opened@);
    if opened.len() != num_queries {
        return Err(FriWitnessError::InvalidShape("input opening query count mismatch"));
    }
    let mut dimensions: Vec<Dimensions> = Vec::with_capacity(matrices.len());
    let mut max_log: usize = 0;
    let mut matrix: usize = 0;
    while matrix < matrices.len()
        invariant
            matrix <= matrices@.len(),
            claims == Seq::new(
                matrices@.len(),
                |m: int| claims_of(matrices@[m], log_blowup as nat),
            ),
            forall|m: int|
                0 <= m < matrices@.len() ==> (#[trigger] matrices@[m]).domain.log_size
                    + log_blowup < usize::BITS,
            claims_failure(batch as int, claims, matrix as nat) is None,
            max_log == max_log_height(claims, matrix as nat),
            dimensions@ == dimensions_of(claims).take(matrix as int),
            forall|m: int|
                0 <= m < matrix ==> (forall|p: int|
                    0 <= p < (#[trigger] claims[m]).claims.len() ==> (
                    #[trigger] claims[m].claims[p]).1.len() == width_of(claims[m])),
            forall|m: int|
                0 <= m < matrix ==> (#[trigger] claims[m]).claims.len() > 0 && width_of(claims[m])
                    <= usize::MAX,
            tables == seqs::tables(opened@),
            opened@.len() == num_queries,
        decreases matrices@.len() - matrix,
    {
        let ghost c = claims[matrix as int];
        let points = &matrices[matrix].points_and_values;
        if points.len() == 0 {
            proof {
                lemma_claims_failure(batch as int, claims, (matrix + 1) as nat, claims.len());
            }
            return Err(FriWitnessError::MatrixWithoutOpeningPoint { batch, matrix });
        }
        let width: usize = points[0].1.len();
        assert(width == width_of(c));
        let mut p: usize = 0;
        while p < points.len()
            invariant
                p <= points@.len(),
                matrix < claims.len(),
                claims_failure(batch as int, claims, matrix as nat) is None,
                tables == seqs::tables(opened@),
                opened@.len() == num_queries,
                c == claims[matrix as int],
                c.claims.len() == points@.len(),
                points@.len() > 0,
                width == width_of(c),
                forall|p: int| 0 <= p < points@.len() ==> c.claims[p].1 == points@[p].1@,
                forall|i: int| 0 <= i < p ==> (#[trigger] c.claims[i]).1.len() == width,
            decreases points@.len() - p,
        {
            if points[p].1.len() != width {
                proof {
                    assert(c.claims[p as int].1.len() != width_of(c));
                    lemma_claims_failure(batch as int, claims, (matrix + 1) as nat, claims.len());
                }
                return Err(
                    FriWitnessError::InvalidShape("opening-point evaluation widths disagree"),
                );
            }
            p += 1;
        }
        let log_height: usize = matrices[matrix].domain.log_size + log_blowup;
        assert(c.log_height == log_height);
        let height: usize = bits::two_pow(log_height);
        dimensions.push(Dimensions { width, height });
        if log_height > max_log {
            max_log = log_height;
        }
        matrix += 1;
        assert(dimensions@ =~= dimensions_of(claims).take(matrix as int));
    }
    let mut query: usize = 0;
    while query < opened.len()
        invariant
            query <= opened@.len(),
            tables == seqs::tables(opened@),
            opened@.len() == num_queries,
            claims.len() == matrices@.len(),
            dimensions@ == dimensions_of(claims).take(claims.len() as int),
            claims_failure(batch as int, claims, claims.len()) is None,
            opened_failure(batch as int, tables, claims, query as nat) is None,
            forall|m: int|
                0 <= m < claims.len() ==> (#[trigger] claims[m]).claims.len() > 0 && width_of(
                    claims[m],
                ) <= usize::MAX,
            forall|q: int| 0 <= q < query ==> (#[trigger] tables[q]).len() == claims.len(),
            forall|q: int, m: int|
                #![trigger tables[q][m]]
                0 <= q < query && 0 <= m < claims.len() ==> tables[q][m].len() == width_of(
                    claims[m],
                ),
        decreases opened@.len() - query,
    {
        let ghost rows = tables[query as int];
        let ghost bad = wrong_row_width(rows, claims);
        if opened[query].len() != matrices.len() {
            proof {
                lemma_opened_failure(batch as int, tables, claims, (query + 1) as nat, tables.len());
            }
            return Err(FriWitnessError::InvalidShape("input opening matrix count mismatch"));
        }
        let mut m: usize = 0;
        while m < opened[query].len()
            invariant
                query < opened@.len(),
                m <= opened@[query as int]@.len(),
                tables == seqs::tables(opened@),
                opened@.len() == num_queries,
                rows == tables[query as int],
                bad == wrong_row_width(rows, claims),
                rows.len() == claims.len(),
                dimensions@ == dimensions_of(claims).take(claims.len() as int),
                claims_failure(batch as int, claims, claims.len()) is None,
                opened_failure(batch as int, tables, claims, query as nat) is None,
                forall|m: int|
                    0 <= m < claims.len() ==> (#[trigger] claims[m]).claims.len() > 0 && width_of(
                        claims[m],
                    ) <= usize::MAX,
                forall|i: int| 0 <= i < m ==> !#[trigger] bad(i),
                forall|i: int| 0 <= i < m ==> (#[trigger] rows[i]).len() == width_of(claims[i]),
            decreases opened@[query as int]@.len() - m,
        {
            assert(claims[m as int].claims.len() > 0);
            if opened[query][m].len() != dimensions[m].width {
                proof {
                    assert(bad(m as int));
                    seqs::lemma_least_some(rows.len(), bad, m as int);
                    lemma_opened_failure(
                        batch as int,
                        tables,
                        claims,
                        (query + 1) as nat,
                        tables.len(),
                    );
                }
                return Err(FriWitnessError::OpeningWidthMismatch { query, batch, matrix: m });
            }
            assert(!bad(m as int));
            m += 1;
        }
        proof {
            seqs::lemma_least_none(rows.len(), bad);
        }
        query += 1;
    }
    assert(dimensions@ =~= dimensions_of(claims));
    if matrices.len() == 0 {
        return Err(FriWitnessError::InvalidShape("empty input batch"));
    }
    if max_log > log_global {
        return Err(FriWitnessError::InvalidShape("input height exceeds global FRI height"));
    }
    proof {
        assert forall|m: int| 0 <= m < claims.len() implies (#[trigger] claims[m]).log_height
            <= log_global by {
            lemma_max_log_height(claims, claims.len(), m);
        }
    }
    Ok((dimensions, max_log))
}

// Reconstruction.

/// The log height of the tallest codeword.
pub open spec fn log_global_height<EF, P>(
    steps: Seq<CommitPhaseMultiStep<EF, P>>,
    log_blowup: nat,
    log_final_poly_len: nat,
) -> nat {
    sum(log_arities_of(steps), steps.len()) + log_blowup + log_final_poly_len
}

/// The values a FRI verifier holds when it replays the queries of a proof.
pub struct FriReplay<F, EF, Cm, P> {
    pub fri: FriProof<F, EF, Cm, P>,
    pub batches: Seq<Vec<FriInputMatrix<TwoAdicMultiplicativeCoset<F>, EF>>>,
    pub alpha: EF,
    pub betas: Seq<EF>,
    pub indices: Seq<nat>,
    pub log_blowup: nat,
    pub log_final_poly_len: nat,
}

impl<F: TwoAdicField, EF: ExtensionField<F>, Cm, P> FriReplay<F, EF, Cm, P> {
    pub open spec fn log_global(self) -> nat {
        log_global_height(
            self.fri.commit_phase_openings@,
            self.log_blowup,
            self.log_final_poly_len,
        )
    }

    pub open spec fn claims(self) -> Seq<Seq<MatrixClaims<EF>>> {
        all_claims(self.batches, self.log_blowup)
    }

    /// The rows opened in a batch, by query and matrix.
    pub open spec fn opened(self, b: int) -> Seq<Seq<Seq<F>>> {
        seqs::tables(self.fri.input_openings@[b].opened_values@)
    }

    /// What query `q` opens.
    pub open spec fn query(self, q: int) -> QueryOpening<F, EF> {
        QueryOpening {
            batches: self.claims(),
            rows: Seq::new(self.batches.len(), |b: int| self.opened(b)[q]),
            alpha: self.alpha,
            index: self.indices[q],
            log_global: self.log_global(),
        }
    }

    /// What query `q` folds.
    pub open spec fn fold(self, q: int) -> QueryFold<EF> {
        QueryFold {
            reduced: self.query(q).reduced(),
            betas: self.betas,
            log_arities: log_arities_of(self.fri.commit_phase_openings@),
            siblings: Seq::new(
                self.fri.commit_phase_openings@.len(),
                |r: int| self.fri.commit_phase_openings@[r].sibling_values@[q]@,
            ),
            index: self.indices[q],
            log_global: self.log_global(),
        }
    }

    /// What is wrong with the first `n` batches.
    pub open spec fn batches_failure(self, n: nat) -> Option<FriWitnessError>
        decreases n,
    {
        if n == 0 {
            None
        } else {
            match self.batches_failure((n - 1) as nat) {
                Some(e) => Some(e),
                None => batch_failure(
                    n - 1,
                    self.opened(n - 1),
                    self.claims()[n - 1],
                    self.indices.len(),
                    self.log_global(),
                ),
            }
        }
    }

    /// Why one of the first `n` queries cannot be reduced.
    pub open spec fn reductions_failure(self, n: nat) -> Option<FriWitnessError>
        decreases n,
    {
        if n == 0 {
            None
        } else {
            match self.reductions_failure((n - 1) as nat) {
                Some(e) => Some(e),
                None => self.query(n - 1).reduction_failure(n - 1, self.log_blowup),
            }
        }
    }

    /// Why one of the first `n` queries cannot be folded.
    pub open spec fn folds_failure(self, n: nat) -> Option<FriWitnessError>
        decreases n,
    {
        if n == 0 {
            None
        } else {
            match self.folds_failure((n - 1) as nat) {
                Some(e) => Some(e),
                None => fold_failure(
                    self.fold(n - 1).reduced,
                    self.log_global(),
                    self.fri.commit_phase_openings@,
                    n - 1,
                    self.indices.len(),
                ),
            }
        }
    }

    /// What is wrong with the numbers of openings, queries and folds.
    pub open spec fn counts_failure(self) -> Option<FriWitnessError> {
        let steps = self.fri.commit_phase_openings@;
        if self.fri.input_openings@.len() != self.batches.len() {
            Some(FriWitnessError::InvalidShape("input opening batch count mismatch"))
        } else if steps.len() != self.fri.commit_phase_commits@.len() || self.betas.len()
            != self.fri.commit_phase_commits@.len() {
            Some(FriWitnessError::InvalidShape("commit-phase count mismatch"))
        } else if self.indices.len() == 0 {
            Some(FriWitnessError::InvalidShape("FRI requires at least one query"))
        } else if exists|r: int| 0 <= r < steps.len() && (#[trigger] steps[r]).log_arity == 0 {
            Some(FriWitnessError::InvalidShape("zero FRI log arity"))
        } else {
            None
        }
    }

    /// Why the rows cannot be reconstructed, if they cannot.
    pub open spec fn failure(self) -> Option<FriWitnessError> {
        if self.counts_failure() is Some {
            self.counts_failure()
        } else if self.batches_failure(self.batches.len()) is Some {
            self.batches_failure(self.batches.len())
        } else if self.reductions_failure(self.indices.len()) is Some {
            self.reductions_failure(self.indices.len())
        } else {
            self.folds_failure(self.indices.len())
        }
    }

    /// Once the counts are right, the heights fit.
    pub open spec fn representable(self) -> bool {
        self.counts_failure() is None ==> self.heights_fit()
    }

    /// The machine can hold the heights, and the field has the roots of unity they need.
    pub open spec fn heights_fit(self) -> bool {
        &&& self.log_global() < usize::BITS
        &&& forall|b: int, m: int|
            #![trigger self.batches[b]@[m]]
            0 <= b < self.batches.len() && 0 <= m < self.batches[b]@.len() ==> {
                let log_height = self.batches[b]@[m].domain.log_size + self.log_blowup;
                &&& log_height < usize::BITS
                &&& log_height <= self.log_global() ==> log_height <= F::sp_two_adicity()
            }
    }

    /// The rows, indices and dimensions of every opening.
    pub open spec fn describes(self, r: ReconstructedFriRows<F, EF>) -> bool {
        let steps = self.fri.commit_phase_openings@;
        let arities = log_arities_of(steps);
        &&& r.input_dimensions@.len() == self.batches.len()
        &&& r.input_indices@.len() == self.batches.len()
        &&& forall|b: int|
            0 <= b < self.batches.len() ==> {
                &&& (#[trigger] r.input_dimensions@[b])@ == dimensions_of(self.claims()[b])
                &&& r.input_indices@[b]@.len() == self.indices.len()
            }
        &&& forall|b: int, q: int|
            #![trigger r.input_indices@[b]@[q]]
            0 <= b < self.batches.len() && 0 <= q < self.indices.len() ==> r.input_indices@[b]@[q]
                as nat == self.indices[q] / pow2(
                (self.log_global() - max_log_height(
                    self.claims()[b],
                    self.claims()[b].len(),
                )) as nat,
            )
        &&& r.commit_phase_dimensions@.len() == steps.len()
        &&& r.commit_phase_indices@.len() == steps.len()
        &&& r.commit_phase_rows@.len() == steps.len()
        &&& forall|k: int|
            0 <= k < steps.len() ==> {
                &&& (#[trigger] r.commit_phase_dimensions@[k])@ == seq![
                    Dimensions {
                        width: pow2(arities[k]) as usize,
                        height: pow2(
                            (self.log_global() - sum(arities, (k + 1) as nat)) as nat,
                        ) as usize,
                    },
                ]
                &&& r.commit_phase_indices@[k]@.len() == self.indices.len()
                &&& r.commit_phase_rows@[k]@.len() == self.indices.len()
            }
        &&& forall|k: int, q: int|
            #![trigger r.commit_phase_indices@[k]@[q]]
            #![trigger r.commit_phase_rows@[k]@[q]]
            0 <= k < steps.len() && 0 <= q < self.indices.len() ==> {
                &&& r.commit_phase_indices@[k]@[q] as nat == self.fold(q).state::<F>(
                    (k + 1) as nat,
                ).index
                &&& r.commit_phase_rows@[k]@[q]@.len() == 1
                &&& r.commit_phase_rows@[k]@[q]@[0]@ == self.fold(q).row::<F>(k as nat)
            }
    }

    proof fn lemma_batches_failure(self, m: nat, n: nat)
        requires
            m <= n,
            self.batches_failure(m) is Some,
        ensures
            self.batches_failure(n) == self.batches_failure(m),
        decreases n,
    {
        if m < n {
            self.lemma_batches_failure(m, (n - 1) as nat);
        }
    }

    proof fn lemma_reductions_failure(self, m: nat, n: nat)
        requires
            m <= n,
            self.reductions_failure(m) is Some,
        ensures
            self.reductions_failure(n) == self.reductions_failure(m),
        decreases n,
    {
        if m < n {
            self.lemma_reductions_failure(m, (n - 1) as nat);
        }
    }

    proof fn lemma_folds_failure(self, m: nat, n: nat)
        requires
            m <= n,
            self.folds_failure(m) is Some,
        ensures
            self.folds_failure(n) == self.folds_failure(m),
        decreases n,
    {
        if m < n {
            self.lemma_folds_failure(m, (n - 1) as nat);
        }
    }

    /// Every batch has passed its checks.
    spec fn checked(self, n: nat) -> bool {
        forall|b: int|
            0 <= b < n ==> batch_checked(
                #[trigger] self.opened(b),
                self.claims()[b],
                self.indices.len(),
                self.log_global(),
            )
    }

    proof fn lemma_aligned(self, q: int)
        requires
            self.checked(self.batches.len()),
            self.heights_fit(),
            0 <= q < self.indices.len(),
        ensures
            self.query(q).aligned(),
    {
        let o = self.query(q);
        assert forall|b: int| 0 <= b < o.batches.len() implies (#[trigger] o.rows[b]).len()
            == o.batches[b].len() by {
            assert(batch_checked(
                self.opened(b),
                self.claims()[b],
                self.indices.len(),
                self.log_global(),
            ));
            assert(self.opened(b)[q].len() == self.claims()[b].len());
        }
        assert forall|b: int, m: int|
            #![trigger o.batches[b][m]]
            0 <= b < o.batches.len() && 0 <= m < o.batches[b].len() implies {
            &&& o.batches[b][m].log_height <= o.log_global
            &&& o.batches[b][m].log_height <= F::sp_two_adicity()
            &&& forall|p: int|
                0 <= p < o.batches[b][m].claims.len() ==> (
                #[trigger] o.batches[b][m].claims[p]).1.len() == o.rows[b][m].len()
        } by {
            assert(batch_checked(
                self.opened(b),
                self.claims()[b],
                self.indices.len(),
                self.log_global(),
            ));
            assert(self.claims()[b][m].log_height <= self.log_global());
            assert(self.batches[b]@[m].domain.log_size + self.log_blowup
                == self.claims()[b][m].log_height);
            assert(self.opened(b)[q][m].len() == width_of(self.claims()[b][m]));
        }
    }

    /// Reduced heights are heights of matrices.
    proof fn lemma_reduced_heights(self, q: int, n: nat, i: int)
        requires
            self.checked(self.batches.len()),
            self.heights_fit(),
            0 <= q < self.indices.len(),
            0 <= i < self.query(q).reduced_below(n).len(),
        ensures
            self.query(q).reduced_below(n)[i].0 <= F::sp_two_adicity(),
        decreases n,
    {
        let o = self.query(q);
        if n > 0 {
            let h = (n - 1) as nat;
            if o.present(h, o.batches.len()) {
                if i == 0 {
                    let b = choose|b: int|
                        0 <= b < o.batches.len() && #[trigger] o.batch_present(
                            b,
                            h,
                            o.batches[b].len(),
                        );
                    let m = choose|m: int|
                        0 <= m < o.batches[b].len() && (#[trigger] o.batches[b][m]).log_height
                            == h;
                    self.lemma_aligned(q);
                    assert(o.batches[b][m].log_height <= F::sp_two_adicity());
                } else {
                    self.lemma_reduced_heights(q, h, i - 1);
                }
            } else {
                self.lemma_reduced_heights(q, h, i);
            }
        }
    }
}

/// What the verifier holds when it reconstructs the rows of a proof.
pub open spec fn replay_of<F, EF, Cm, P>(
    fri: FriProof<F, EF, Cm, P>,
    input_batches: Seq<Vec<FriInputMatrix<TwoAdicMultiplicativeCoset<F>, EF>>>,
    alpha: EF,
    betas: Seq<EF>,
    indices: Seq<usize>,
    log_blowup: usize,
    log_final_poly_len: usize,
) -> FriReplay<F, EF, Cm, P> {
    FriReplay {
        fri,
        batches: input_batches,
        alpha,
        betas,
        indices: merkle::nats(indices),
        log_blowup: log_blowup as nat,
        log_final_poly_len: log_final_poly_len as nat,
    }
}

/// Reconstruct every commit-phase row using the arithmetic of the two-adic FRI verifier.
/// Authentication is performed separately by [`expand_pruned_merkle_paths`].
pub fn reconstruct_two_adic_fri_rows<F: TwoAdicField, EF: ExtensionField<F>, Cm, P>(
    fri: &FriProof<F, EF, Cm, P>,
    input_batches: &[Vec<FriInputMatrix<TwoAdicMultiplicativeCoset<F>, EF>>],
    alpha: EF,
    betas: &[EF],
    indices: &[usize],
    log_blowup: usize,
    log_final_poly_len: usize,
) -> (r: Result<ReconstructedFriRows<F, EF>, FriWitnessError>)
    requires
        replay_of(
            *fri,
            input_batches@,
            alpha,
            betas@,
            indices@,
            log_blowup,
            log_final_poly_len,
        ).representable(),
    ensures
        ({
            let replay = replay_of(
                *fri,
                input_batches@,
                alpha,
                betas@,
                indices@,
                log_blowup,
                log_final_poly_len,
            );
            match r {
                Ok(rows) => replay.failure() is None && replay.describes(rows),
                Err(e) => replay.failure() == Some(e),
            }
        }),
{
    let ghost replay = replay_of(
        *fri,
        input_batches@,
        alpha,
        betas@,
        indices@,
        log_blowup,
        log_final_poly_len,
    );
    let steps = &fri.commit_phase_openings;
    let ghost arities = log_arities_of(steps@);
    if fri.input_openings.len() != input_batches.len() {
        return Err(FriWitnessError::InvalidShape("input opening batch count mismatch"));
    }
    if steps.len() != fri.commit_phase_commits.len() || betas.len()
        != fri.commit_phase_commits.len() {
        return Err(FriWitnessError::InvalidShape("commit-phase count mismatch"));
    }
    if indices.len() == 0 {
        return Err(FriWitnessError::InvalidShape("FRI requires at least one query"));
    }
    let mut k: usize = 0;
    while k < steps.len()
        invariant
            k <= steps@.len(),
            *steps == fri.commit_phase_openings,
            replay == replay_of(
                *fri,
                input_batches@,
                alpha,
                betas@,
                indices@,
                log_blowup,
                log_final_poly_len,
            ),
            replay.fri.input_openings@.len() == replay.batches.len(),
            steps@.len() == replay.fri.commit_phase_commits@.len(),
            replay.betas.len() == replay.fri.commit_phase_commits@.len(),
            replay.indices.len() > 0,
            forall|r: int| 0 <= r < k ==> (#[trigger] steps@[r]).log_arity != 0,
        decreases steps@.len() - k,
    {
        if steps[k].log_arity == 0 {
            assert(steps@[k as int].log_arity == 0);
            assert(replay.fri.commit_phase_openings@[k as int].log_arity == 0);
            assert(replay.counts_failure() == Some(
                FriWitnessError::InvalidShape("zero FRI log arity"),
            ));
            return Err(FriWitnessError::InvalidShape("zero FRI log arity"));
        }
        k += 1;
    }
    assert(replay.counts_failure() is None);
    let mut total: usize = 0;
    let mut k: usize = 0;
    while k < steps.len()
        invariant
            k <= steps@.len(),
            arities == log_arities_of(steps@),
            sum(arities, steps@.len()) < usize::BITS,
            total == sum(arities, k as nat),
        decreases steps@.len() - k,
    {
        let log_arity: u8 = steps[k].log_arity;
        proof {
            assert(arities[k as int] == log_arity);
            lemma_sum_monotone(arities, (k + 1) as nat, steps@.len());
        }
        total = total + log_arity as usize;
        k += 1;
    }
    let log_global: usize = total + log_blowup + log_final_poly_len;
    assert(log_global == replay.log_global());
    // The input batches.
    let mut input_dimensions: Vec<Vec<Dimensions>> = Vec::with_capacity(input_batches.len());
    let mut input_indices: Vec<Vec<usize>> = Vec::with_capacity(input_batches.len());
    let mut b: usize = 0;
    while b < input_batches.len()
        invariant
            b <= input_batches@.len(),
            replay.heights_fit(),
            replay == replay_of(
                *fri,
                input_batches@,
                alpha,
                betas@,
                indices@,
                log_blowup,
                log_final_poly_len,
            ),
            replay.log_global() == log_global,
            fri.input_openings@.len() == input_batches@.len(),
            replay.failure() == (if replay.batches_failure(replay.batches.len()) is Some {
                replay.batches_failure(replay.batches.len())
            } else if replay.reductions_failure(replay.indices.len()) is Some {
                replay.reductions_failure(replay.indices.len())
            } else {
                replay.folds_failure(replay.indices.len())
            }),
            replay.batches_failure(b as nat) is None,
            replay.checked(b as nat),
            input_dimensions@.len() == b,
            input_indices@.len() == b,
            forall|i: int|
                0 <= i < b ==> (#[trigger] input_dimensions@[i])@ == dimensions_of(
                    replay.claims()[i],
                ),
            forall|i: int| 0 <= i < b ==> (#[trigger] input_indices@[i])@.len() == indices@.len(),
            forall|i: int, q: int|
                #![trigger input_indices@[i]@[q]]
                0 <= i < b && 0 <= q < indices@.len() ==> input_indices@[i]@[q] as nat
                    == replay.indices[q] / pow2(
                    (log_global - max_log_height(
                        replay.claims()[i],
                        replay.claims()[i].len(),
                    )) as nat,
                ),
        decreases input_batches@.len() - b,
    {
        let ghost claims = replay.claims()[b as int];
        proof {
            assert forall|m: int| 0 <= m < input_batches@[b as int]@.len() implies (
            #[trigger] input_batches@[b as int]@[m]).domain.log_size + log_blowup
                < usize::BITS by {
                assert(replay.batches[b as int]@[m].domain.log_size + replay.log_blowup
                    < usize::BITS);
            }
        }
        let (dimensions, max_log) = match check_batch(
            b,
            &fri.input_openings[b].opened_values,
            &input_batches[b],
            indices.len(),
            log_blowup,
            log_global,
            Ghost(claims),
        ) {
            Ok(checked) => checked,
            Err(e) => {
                proof {
                    replay.lemma_batches_failure((b + 1) as nat, replay.batches.len());
                }
                return Err(e);
            },
        };
        let bits_reduced: usize = log_global - max_log;
        let mut reduced_indices: Vec<usize> = Vec::with_capacity(indices.len());
        let mut q: usize = 0;
        while q < indices.len()
            invariant
                q <= indices@.len(),
                bits_reduced < usize::BITS,
                reduced_indices@.len() == q,
                forall|i: int|
                    0 <= i < q ==> (#[trigger] reduced_indices@[i]) as nat == indices@[i] as nat
                        / pow2(bits_reduced as nat),
            decreases indices@.len() - q,
        {
            reduced_indices.push(bits::shift_right(indices[q], bits_reduced));
            q += 1;
        }
        input_indices.push(reduced_indices);
        input_dimensions.push(dimensions);
        b += 1;
    }
    // Reduced openings.
    let mut reduced_by_query: Vec<Vec<(usize, EF)>> = Vec::with_capacity(indices.len());
    let mut q: usize = 0;
    while q < indices.len()
        invariant
            q <= indices@.len(),
            replay.heights_fit(),
            replay == replay_of(
                *fri,
                input_batches@,
                alpha,
                betas@,
                indices@,
                log_blowup,
                log_final_poly_len,
            ),
            replay.log_global() == log_global,
            log_blowup <= log_global,
            fri.input_openings@.len() == input_batches@.len(),
            replay.checked(replay.batches.len()),
            replay.failure() == (if replay.reductions_failure(replay.indices.len()) is Some {
                replay.reductions_failure(replay.indices.len())
            } else {
                replay.folds_failure(replay.indices.len())
            }),
            replay.reductions_failure(q as nat) is None,
            reduced_by_query@.len() == q,
            forall|i: int|
                0 <= i < q ==> pairs((#[trigger] reduced_by_query@[i])@) == replay.query(
                    i,
                ).reduced(),
        decreases indices@.len() - q,
    {
        let ghost opening = replay.query(q as int);
        proof {
            replay.lemma_aligned(q as int);
            assert forall|b: int| 0 <= b < input_batches@.len() implies {
                &&& q < (#[trigger] fri.input_openings@[b]).opened_values@.len()
                &&& fri.input_openings@[b].opened_values@[q as int]@.len()
                    == input_batches@[b]@.len()
                &&& opening.rows[b] == seqs::rows(
                    fri.input_openings@[b].opened_values@[q as int]@,
                )
            } by {
                assert(batch_checked(
                    replay.opened(b),
                    replay.claims()[b],
                    replay.indices.len(),
                    replay.log_global(),
                ));
                assert(replay.opened(b)[q as int].len() == replay.claims()[b].len());
            }
        }
        match reduce_query(
            &fri.input_openings,
            input_batches,
            q,
            indices[q],
            alpha,
            log_blowup,
            log_global,
            Ghost(opening),
        ) {
            Ok(reduced) => {
                reduced_by_query.push(reduced);
            },
            Err(e) => {
                proof {
                    replay.lemma_reductions_failure((q + 1) as nat, replay.indices.len());
                }
                return Err(e);
            },
        }
        q += 1;
    }
    // The commit phase.
    let mut commit_phase_indices: Vec<Vec<usize>> = Vec::with_capacity(steps.len());
    let mut commit_phase_rows: Vec<Vec<Vec<Vec<EF>>>> = Vec::with_capacity(steps.len());
    let mut k: usize = 0;
    while k < steps.len()
        invariant
            k <= steps@.len(),
            commit_phase_indices@.len() == k,
            commit_phase_rows@.len() == k,
            forall|i: int| 0 <= i < k ==> (#[trigger] commit_phase_indices@[i])@.len() == 0,
            forall|i: int| 0 <= i < k ==> (#[trigger] commit_phase_rows@[i])@.len() == 0,
        decreases steps@.len() - k,
    {
        commit_phase_indices.push(Vec::with_capacity(indices.len()));
        commit_phase_rows.push(Vec::with_capacity(indices.len()));
        k += 1;
    }
    let mut q: usize = 0;
    while q < indices.len()
        invariant
            q <= indices@.len(),
            replay.heights_fit(),
            replay == replay_of(
                *fri,
                input_batches@,
                alpha,
                betas@,
                indices@,
                log_blowup,
                log_final_poly_len,
            ),
            replay.log_global() == log_global,
            replay.checked(replay.batches.len()),
            *steps == fri.commit_phase_openings,
            betas@.len() == steps@.len(),
            arities == log_arities_of(steps@),
            sum(arities, steps@.len()) <= log_global,
            replay.failure() == replay.folds_failure(replay.indices.len()),
            replay.folds_failure(q as nat) is None,
            reduced_by_query@.len() == indices@.len(),
            forall|i: int|
                0 <= i < indices@.len() ==> pairs((#[trigger] reduced_by_query@[i])@)
                    == replay.query(i).reduced(),
            commit_phase_indices@.len() == steps@.len(),
            commit_phase_rows@.len() == steps@.len(),
            forall|k: int|
                0 <= k < steps@.len() ==> (#[trigger] commit_phase_indices@[k])@.len() == q,
            forall|k: int|
                0 <= k < steps@.len() ==> (#[trigger] commit_phase_rows@[k])@.len() == q,
            forall|k: int, i: int|
                #![trigger commit_phase_indices@[k]@[i]]
                0 <= k < steps@.len() && 0 <= i < q ==> commit_phase_indices@[k]@[i] as nat
                    == replay.fold(i).state::<F>((k + 1) as nat).index,
            forall|k: int, i: int|
                #![trigger commit_phase_rows@[k]@[i]]
                0 <= k < steps@.len() && 0 <= i < q ==> {
                    &&& commit_phase_rows@[k]@[i]@.len() == 1
                    &&& commit_phase_rows@[k]@[i]@[0]@ == replay.fold(i).row::<F>(k as nat)
                },
        decreases indices@.len() - q,
    {
        let ghost fold = replay.fold(q as int);
        proof {
            assert forall|i: int| 0 <= i < reduced_by_query@[q as int]@.len() implies (
            #[trigger] reduced_by_query@[q as int]@[i]).0 <= F::sp_two_adicity() by {
                replay.lemma_reduced_heights(q as int, (replay.log_global() + 1) as nat, i);
                assert(pairs(reduced_by_query@[q as int]@)[i].0
                    == reduced_by_query@[q as int]@[i].0);
            }
        }
        let (query_indices, query_rows) = match fold_query::<F, EF, P>(
            steps,
            betas,
            &reduced_by_query[q],
            q,
            indices.len(),
            indices[q],
            log_global,
            Ghost(fold),
        ) {
            Ok(folds) => folds,
            Err(e) => {
                proof {
                    replay.lemma_folds_failure((q + 1) as nat, replay.indices.len());
                }
                return Err(e);
            },
        };
        let ghost old_indices = commit_phase_indices@;
        let ghost old_rows = commit_phase_rows@;
        let mut k: usize = 0;
        while k < steps.len()
            invariant
                k <= steps@.len(),
                query_indices@.len() == steps@.len(),
                query_rows@.len() == steps@.len(),
                commit_phase_indices@.len() == steps@.len(),
                commit_phase_rows@.len() == steps@.len(),
                old_indices.len() == steps@.len(),
                old_rows.len() == steps@.len(),
                forall|i: int|
                    #![trigger commit_phase_indices@[i]]
                    0 <= i < k ==> commit_phase_indices@[i]@ == old_indices[i]@.push(
                        query_indices@[i],
                    ),
                forall|i: int|
                    k <= i < steps@.len() ==> (#[trigger] commit_phase_indices@[i])
                        == old_indices[i],
                forall|i: int|
                    #![trigger commit_phase_rows@[i]]
                    0 <= i < k ==> commit_phase_rows@[i]@.drop_last() == old_rows[i]@
                        && commit_phase_rows@[i]@.len() == old_rows[i]@.len() + 1
                        && commit_phase_rows@[i]@.last()@.len() == 1
                        && commit_phase_rows@[i]@.last()@[0]@ == query_rows@[i]@,
                forall|i: int|
                    k <= i < steps@.len() ==> (#[trigger] commit_phase_rows@[i]) == old_rows[i],
            decreases steps@.len() - k,
        {
            commit_phase_indices[k].push(query_indices[k]);
            let mut matrix: Vec<Vec<EF>> = Vec::with_capacity(1);
            matrix.push(copy_vec(&query_rows[k]));
            commit_phase_rows[k].push(matrix);
            assert(commit_phase_rows@[k as int]@.drop_last() =~= old_rows[k as int]@);
            k += 1;
        }
        proof {
            assert forall|k: int, i: int|
                #![trigger commit_phase_indices@[k]@[i]]
                0 <= k < steps@.len() && 0 <= i < q + 1 implies commit_phase_indices@[k]@[i] as nat
                == replay.fold(i).state::<F>((k + 1) as nat).index by {
                assert(commit_phase_indices@[k]@ == old_indices[k]@.push(query_indices@[k]));
                if i < q {
                    assert(commit_phase_indices@[k]@[i] == old_indices[k]@[i]);
                }
            }
            assert forall|k: int, i: int|
                #![trigger commit_phase_rows@[k]@[i]]
                0 <= k < steps@.len() && 0 <= i < q + 1 implies {
                &&& commit_phase_rows@[k]@[i]@.len() == 1
                &&& commit_phase_rows@[k]@[i]@[0]@ == replay.fold(i).row::<F>(k as nat)
            } by {
                assert(query_indices@[k] as nat == fold.state::<F>((k + 1) as nat).index);
                if i < q {
                    assert(commit_phase_rows@[k]@.drop_last()[i] == old_rows[k]@[i]);
                }
            }
        }
        q += 1;
    }
    let mut commit_phase_dimensions: Vec<Vec<Dimensions>> = Vec::with_capacity(steps.len());
    let mut log_height: usize = log_global;
    let mut k: usize = 0;
    while k < steps.len()
        invariant
            k <= steps@.len(),
            arities == log_arities_of(steps@),
            sum(arities, steps@.len()) <= log_global < usize::BITS,
            log_height == log_global - sum(arities, k as nat),
            commit_phase_dimensions@.len() == k,
            forall|i: int|
                0 <= i < k ==> (#[trigger] commit_phase_dimensions@[i])@ == seq![
                    Dimensions {
                        width: pow2(arities[i]) as usize,
                        height: pow2((log_global - sum(arities, (i + 1) as nat)) as nat) as usize,
                    },
                ],
        decreases steps@.len() - k,
    {
        let log_arity: usize = steps[k].log_arity as usize;
        proof {
            assert(arities[k as int] == log_arity);
            lemma_sum_monotone(arities, (k + 1) as nat, steps@.len());
        }
        log_height = log_height - log_arity;
        let width: usize = bits::two_pow(log_arity);
        let height: usize = bits::two_pow(log_height);
        let mut dimensions: Vec<Dimensions> = Vec::with_capacity(1);
        dimensions.push(Dimensions { width, height });
        assert(dimensions@ =~= seq![
            Dimensions {
                width: pow2(arities[k as int]) as usize,
                height: pow2((log_global - sum(arities, (k + 1) as nat)) as nat) as usize,
            },
        ]);
        commit_phase_dimensions.push(dimensions);
        k += 1;
    }
    Ok(
        ReconstructedFriRows {
            input_dimensions,
            input_indices,
            commit_phase_dimensions,
            commit_phase_indices,
            commit_phase_rows,
            _phantom: PhantomData,
        },
    )
}

} // verus!
