//! The table of constants.
//!
//! For each constant the main trace has `D` columns with its coefficients, and the preprocessed
//! trace has `D + 2` columns:
//!
//! ```text
//!     [multiplicity, index, value[0], ..., value[D-1]]
//! ```
//!
//! Every main coefficient must equal the preprocessed one, and each row sends
//! `(index, value[0..D])` to the witness bus.

use vstd::arithmetic::div_mod::*;
use vstd::arithmetic::mul::*;
use vstd::prelude::*;

use crate::air_expr;
use crate::air_expr::{AirConstraint, AirExpr, AirRules, Interaction, Message, Window};
use crate::extension::ExtensionField;
use crate::field;
use crate::field::{CommutativeRing, Field};
use crate::matrix;
use crate::matrix::{pad_to, padded_height_of, RowMajorMatrix};
use crate::seqs::{append_copy, copy_vec};
use crate::types::WitnessId;

verus! {

/// The values of constants and the slots that they fill.
#[derive(Clone, Debug, PartialEq, Eq)]
pub struct ConstTrace<EF> {
    pub index: Vec<WitnessId>,
    pub values: Vec<EF>,
}

/// Vector-valued constants over an extension of degree `D`.
///
/// The equality constraints make the constants part of the circuit identity rather than witness
/// data that a prover selects.
#[derive(Clone, Debug)]
pub struct ConstAir<F, const D: usize> {
    /// Number of constants in the trace.
    pub num_ops: usize,
    /// Committed multiplicities, indices, and coefficients.
    pub preprocessed: Vec<F>,
    /// Minimum trace height.
    pub min_height: usize,
}

/// The coefficients of the first `n` values, one after the other.
pub open spec fn flat_coefficients<F: Field, EF: ExtensionField<F>>(
    values: Seq<EF>,
    n: nat,
) -> Seq<F>
    decreases n,
{
    if n == 0 {
        Seq::empty()
    } else {
        flat_coefficients::<F, EF>(values, (n - 1) as nat) + values[n - 1].sp_coefficients()
    }
}

/// The number of rows that hold `len` values, at least one.
pub open spec fn row_count(len: nat, width: nat) -> nat {
    if len == 0 {
        1
    } else {
        (len + width - 1) as nat / width
    }
}

impl<F: Field, const D: usize> ConstAir<F, D> {
    /// A table for the given number of constants, without preprocessed values.
    pub fn new(height: usize) -> (r: Self)
        ensures
            r.num_ops == height,
            r.preprocessed@.len() == 0,
            r.min_height == 1,
    {
        ConstAir { num_ops: height, preprocessed: Vec::new(), min_height: 1 }
    }

    pub fn new_with_preprocessed(height: usize, preprocessed: Vec<F>) -> (r: Self)
        ensures
            r.num_ops == height,
            r.preprocessed == preprocessed,
            r.min_height == 1,
    {
        ConstAir { num_ops: height, preprocessed, min_height: 1 }
    }

    /// Sets the minimum trace height.
    pub fn with_min_height(self, min_height: usize) -> (r: Self)
        ensures
            r.num_ops == self.num_ops,
            r.preprocessed == self.preprocessed,
            r.min_height == min_height,
    {
        ConstAir { num_ops: self.num_ops, preprocessed: self.preprocessed, min_height }
    }

    /// Number of preprocessed columns: multiplicity, index and `D` coefficients.
    pub fn preprocessed_width() -> (r: usize)
        requires
            D + 2 <= usize::MAX,
        ensures
            r == D + 2,
    {
        D + 2
    }

    /// Number of main columns.
    pub fn width(&self) -> (r: usize)
        ensures
            r == D,
    {
        D
    }

    /// The main columns that a constraint reads from the next row: none.
    pub fn main_next_row_columns(&self) -> (r: Vec<usize>)
        ensures
            r@.len() == 0,
    {
        Vec::new()
    }

    /// The preprocessed columns that a constraint reads from the next row: none.
    pub fn preprocessed_next_row_columns(&self) -> (r: Vec<usize>)
        ensures
            r@.len() == 0,
    {
        Vec::new()
    }

    /// The main trace: one row of coefficients for each constant, and rows of zeros up to a power
    /// of two that is at least the minimum height.
    pub fn trace_to_matrix<EF: ExtensionField<F>>(
        trace: &ConstTrace<EF>,
        min_height: usize,
    ) -> (r: RowMajorMatrix<F>)
        requires
            trace.values@.len() == trace.index@.len(),
            EF::sp_dimension() == D,
            trace.values@.len() <= usize::MAX / 2 + 1,
            min_height <= usize::MAX / 2 + 1,
            matrix::padded_height(trace.values@.len(), min_height as nat) * D <= usize::MAX,
        ensures
            r.width == D,
            r.rows() == matrix::padded_height(trace.values@.len(), min_height as nat),
            r.values@ == matrix::padded_to(
                flat_coefficients::<F, EF>(trace.values@, trace.values@.len()),
                matrix::padded_height(trace.values@.len(), min_height as nat) * D as nat,
                F::sp_zero(),
            ),
    {
        let height: usize = trace.values.len();
        let d: usize = EF::dimension();
        let mut values: Vec<F> = Vec::new();
        let mut i: usize = 0;
        while i < height
            invariant
                i <= height,
                height == trace.values@.len(),
                d == D,
                EF::sp_dimension() == D,
                values@ == flat_coefficients::<F, EF>(trace.values@, i as nat),
                values@.len() == i * D,
            decreases height - i,
        {
            let coefficients: Vec<F> = trace.values[i].coefficients();
            append_copy(&mut values, &coefficients);
            proof {
                lemma_mul_is_distributive_add_other_way(D as int, i as int, 1);
            }
            i += 1;
        }
        let target: usize = padded_height_of(height, min_height);
        proof {
            lemma_mul_inequality(height as int, target as int, D as int);
            lemma_div_multiples_vanish(target as int, D as int);
            lemma_mul_is_commutative(target as int, D as int);
        }
        pad_to(&mut values, target * d, F::zero());
        RowMajorMatrix { values, width: d }
    }

    /// The preprocessed trace: the committed values, and zeros up to a power of two of rows that is
    /// at least the minimum height.
    pub fn preprocessed_trace(&self) -> (r: Option<RowMajorMatrix<F>>)
        requires
            D + 2 <= usize::MAX,
            row_count(self.preprocessed@.len(), (D + 2) as nat) <= usize::MAX / 2 + 1,
            self.min_height <= usize::MAX / 2 + 1,
            matrix::padded_height(
                row_count(self.preprocessed@.len(), (D + 2) as nat),
                self.min_height as nat,
            ) * (D + 2) <= usize::MAX,
        ensures
            r matches Some(m) && {
                let height = matrix::padded_height(
                    row_count(self.preprocessed@.len(), (D + 2) as nat),
                    self.min_height as nat,
                );
                &&& m.width == D + 2
                &&& m.rows() == height
                &&& m.values@ == matrix::padded_to(
                    self.preprocessed@,
                    height * (D + 2) as nat,
                    F::sp_zero(),
                )
            },
    {
        let width: usize = Self::preprocessed_width();
        let len: usize = self.preprocessed.len();
        let rows: usize = if len == 0 {
            1
        } else {
            proof {
                let n = (len - 1) as int;
                lemma_fundamental_div_mod(n, width as int);
                lemma_hoist_over_denominator(n, 1, width as nat);
                lemma_mul_is_commutative(width as int, 1);
            }
            (len - 1) / width + 1
        };
        proof {
            if len > 0 {
                let n = (len - 1) as int;
                let w = width as int;
                lemma_fundamental_div_mod(n, w);
                assert(len <= rows * width) by (nonlinear_arith)
                    requires
                        len - 1 == w * (n / w) + n % w,
                        n % w < w,
                        rows == n / w + 1,
                        w == width,
                ;
                assert((len + width - 1) as nat / width as nat == rows) by {
                    assert(len + width - 1 == n + 1 * w);
                    lemma_hoist_over_denominator(n, 1, width as nat);
                }
            }
        }
        let target: usize = padded_height_of(rows, self.min_height);
        proof {
            lemma_mul_inequality(rows as int, target as int, width as int);
            lemma_div_multiples_vanish(target as int, width as int);
            lemma_mul_is_commutative(target as int, width as int);
        }
        let mut values: Vec<F> = copy_vec(&self.preprocessed);
        pad_to(&mut values, target * width, F::zero());
        Some(RowMajorMatrix { values, width })
    }

    /// The constraints and the lookup of a row.
    pub fn eval(&self) -> (r: AirRules<F>)
        requires
            D + 2 <= usize::MAX,
        ensures
            r.constraints@.len() == D,
            forall|w: Window<F>, t: bool| #[trigger]
                air_expr::all_hold(r.constraints@, w, t) <==> bound_to_preprocessed(w, D as nat),
            forall|w: Window<F>| #[trigger]
                air_expr::messages(r.interactions@, w) == seq![constant_message(w, D as nat)],
            air_expr::degree_at_most(r.constraints@, 1),
            forall|w: Window<F>|
                w.local.len() == D && w.preprocessed.len() == D + 2 ==> #[trigger]
                    air_expr::all_fit(r.constraints@, w),
    {
        let mut constraints: Vec<AirConstraint<F>> = Vec::new();
        let mut fields: Vec<AirExpr<F>> = Vec::new();
        fields.push(AirExpr::Preprocessed(1));
        let mut c: usize = 0;
        while c < D
            invariant
                c <= D,
                D + 2 <= usize::MAX,
                constraints@.len() == c,
                forall|i: int|
                    0 <= i < c ==> #[trigger] constraints@[i] == equality::<F>(i as usize),
                fields@.len() == c + 1,
                fields@[0] == AirExpr::<F>::Preprocessed(1),
                forall|i: int|
                    0 <= i < c ==> #[trigger] fields@[i + 1] == AirExpr::<F>::Main(i as usize),
            decreases D - c,
        {
            constraints.push(
                AirConstraint {
                    transition: false,
                    body: AirExpr::Sub(
                        Box::new(AirExpr::Main(c)),
                        Box::new(AirExpr::Preprocessed(2 + c)),
                    ),
                },
            );
            fields.push(AirExpr::Main(c));
            c += 1;
        }
        let mut interactions: Vec<Interaction<F>> = Vec::new();
        interactions.push(
            Interaction {
                bus: "WitnessChecks",
                fields,
                count: AirExpr::Preprocessed(0),
                weight: 1,
            },
        );
        proof {
            assert forall|w: Window<F>, t: bool| #[trigger]
                air_expr::all_hold(constraints@, w, t) <==> bound_to_preprocessed(
                w,
                D as nat,
            ) by {
                reveal_with_fuel(AirExpr::value, 2);
                if bound_to_preprocessed(w, D as nat) {
                    assert forall|i: int| 0 <= i < constraints@.len() implies (
                    #[trigger] constraints@[i]).holds(w, t) by {
                        assert(w.local[i].sp_sub(w.preprocessed[i + 2]) == F::sp_zero());
                    }
                }
                if air_expr::all_hold(constraints@, w, t) {
                    assert forall|i: int| 0 <= i < D implies (#[trigger] w.local[i]).sp_sub(
                        w.preprocessed[i + 2],
                    ) == F::sp_zero() by {
                        assert(constraints@[i].holds(w, t));
                    }
                }
            }
            assert forall|w: Window<F>| #[trigger]
                air_expr::messages(interactions@, w) == seq![constant_message(w, D as nat)] by {
                reveal_with_fuel(AirExpr::value, 2);
                assert(air_expr::values_of(fields@, w) =~= constant_message(w, D as nat).fields) by {
                    assert forall|i: int| 0 <= i < fields@.len() implies fields@[i].value(w)
                        == constant_message(w, D as nat).fields[i] by {
                        if i > 0 {
                            assert(fields@[i - 1 + 1] == AirExpr::<F>::Main((i - 1) as usize));
                        }
                    }
                }
                assert(air_expr::messages(interactions@, w) =~= seq![
                    constant_message(w, D as nat),
                ]);
            }
            assert forall|i: int| 0 <= i < constraints@.len() implies (
            #[trigger] constraints@[i]).body.degree() <= 1 by {
                reveal_with_fuel(AirExpr::degree, 2);
            }
            assert forall|w: Window<F>| w.local.len() == D && w.preprocessed.len() == D
                + 2 implies #[trigger] air_expr::all_fit(constraints@, w) by {
                reveal_with_fuel(AirExpr::fits, 2);
            }
        }
        AirRules { constraints, interactions }
    }
}

/// The coefficient of the given number equals the preprocessed one.
pub open spec fn equality<F: Field>(c: usize) -> AirConstraint<F> {
    AirConstraint {
        transition: false,
        body: AirExpr::Sub(
            Box::new(AirExpr::Main(c)),
            Box::new(AirExpr::Preprocessed((2 + c) as usize)),
        ),
    }
}

/// No coefficient differs from the preprocessed one.
pub open spec fn bound_to_preprocessed<F: Field>(w: Window<F>, d: nat) -> bool {
    forall|i: int|
        0 <= i < d ==> (#[trigger] w.local[i]).sp_sub(w.preprocessed[i + 2]) == F::sp_zero()
}

/// The lookup of a constant: its index and coefficients, with its multiplicity.
pub open spec fn constant_message<F: Field>(w: Window<F>, d: nat) -> Message<F> {
    Message {
        bus: "WitnessChecks",
        fields: seq![w.preprocessed[1]] + Seq::new(d, |i: int| w.local[i]),
        count: w.preprocessed[0],
        weight: 1,
    }
}

/// A row is accepted exactly if it holds the committed constant: a prover cannot choose another
/// value.
pub proof fn law_constants_are_bound<F: CommutativeRing>(w: Window<F>, d: nat)
    requires
        forall|i: int| 0 <= i < d ==> (#[trigger] w.local[i]).wf() && w.preprocessed[i + 2].wf(),
    ensures
        bound_to_preprocessed(w, d) <==> forall|i: int|
            0 <= i < d ==> #[trigger] w.local[i] == w.preprocessed[i + 2],
{
    assert forall|i: int| 0 <= i < d implies ((#[trigger] w.local[i]).sp_sub(w.preprocessed[i + 2])
        == F::sp_zero() <==> w.local[i] == w.preprocessed[i + 2]) by {
        field::lemma_difference(w.local[i], w.preprocessed[i + 2]);
    }
}

} // verus!
