//! The table of Poseidon1 permutations.

use std::marker::PhantomData;

use vstd::arithmetic::div_mod::*;
use vstd::arithmetic::mul::*;
use vstd::arithmetic::power2::*;
use vstd::prelude::*;

use crate::air_expr;
use crate::air_expr::{Interaction, Window};
use crate::bits;
use crate::bits::next_power_of_two;
use crate::context::{PoseidonCircuitRow, Row};
use crate::field::Field;
use crate::layout;
use crate::layout::{
    poseidon_preprocessed_row_width_for_air, poseidon_uses_compact_d1_preprocessed,
    PoseidonPrepInputLimb, PoseidonPrepOutputLimb, PoseidonPreprocessedRow,
};
use crate::matrix;
use crate::matrix::{pad_to, RowMajorMatrix};
use crate::poseidon1_rules;
use crate::poseidon1_rules::{
    eval, eval_interactions, PermutationColumns, TableConstraints, TableShape,
};
use crate::seqs::{append_copy, copy_vec};

verus! {

/// The table of a permutation `P` with limbs of `D` base elements: `WIDTH_EXT` limbs of state,
/// `RATE_EXT` of rate and `CAPACITY_EXT` of capacity. Values on the witness bus have
/// `WITNESS_EXT_D` base elements.
#[derive(Debug)]
pub struct Poseidon1CircuitAir<
    F,
    P,
    const D: usize,
    const WIDTH: usize,
    const WIDTH_EXT: usize,
    const RATE_EXT: usize,
    const CAPACITY_EXT: usize,
    const WITNESS_EXT_D: usize,
> {
    /// Preprocessed values in row-major order. A table that only verifies may have none.
    pub preprocessed: Vec<F>,
    /// Minimum trace height, a power of two.
    pub min_height: usize,
    pub permutation: PhantomData<P>,
}

impl<
    F: Field,
    P,
    const D: usize,
    const WIDTH: usize,
    const WIDTH_EXT: usize,
    const RATE_EXT: usize,
    const CAPACITY_EXT: usize,
    const WITNESS_EXT_D: usize,
> Clone for Poseidon1CircuitAir<
    F,
    P,
    D,
    WIDTH,
    WIDTH_EXT,
    RATE_EXT,
    CAPACITY_EXT,
    WITNESS_EXT_D,
> {
    fn clone(&self) -> (r: Self)
        ensures
            r.preprocessed@ == self.preprocessed@,
            r.min_height == self.min_height,
    {
        Poseidon1CircuitAir {
            preprocessed: copy_vec(&self.preprocessed),
            min_height: self.min_height,
            permutation: PhantomData,
        }
    }
}

/// The constraints and lookups of a table.
#[derive(Debug)]
pub struct TableRules<F, P> {
    pub constraints: TableConstraints<F, P>,
    pub interactions: Vec<Interaction<F>>,
}

/// A boolean as a field element.
pub open spec fn boolean<F: Field>(b: bool) -> F {
    if b {
        F::sp_one()
    } else {
        F::sp_zero()
    }
}

fn boolean_of<F: Field>(b: bool) -> (r: F)
    ensures
        r == boolean::<F>(b),
{
    if b {
        F::one()
    } else {
        F::zero()
    }
}

/// The rows as sequences.
pub open spec fn row_views<F>(ops: Seq<PoseidonCircuitRow<F>>) -> Seq<Row<F>> {
    Seq::new(ops.len(), |i: int| ops[i]@)
}

/// The accumulator of a row: twice that of the row before plus the direction bit on a Merkle row
/// that continues a chain, else the value that the row carries.
pub open spec fn accumulator<F: Field>(ops: Seq<Row<F>>, i: nat) -> F
    decreases i,
{
    let op = ops[i as int];
    if i > 0 && op.merkle_path && !op.new_start {
        let before = accumulator(ops, (i - 1) as nat);
        before.sp_add(before).sp_add(boolean(op.mmcs_bit))
    } else {
        op.mmcs_index_sum
    }
}

impl<
    F: Field,
    P: PermutationColumns<F>,
    const D: usize,
    const WIDTH: usize,
    const WIDTH_EXT: usize,
    const RATE_EXT: usize,
    const CAPACITY_EXT: usize,
    const WITNESS_EXT_D: usize,
> Poseidon1CircuitAir<F, P, D, WIDTH, WIDTH_EXT, RATE_EXT, CAPACITY_EXT, WITNESS_EXT_D> {
    /// The sizes of the table.
    pub open spec fn shape() -> TableShape {
        TableShape {
            d: D,
            width_ext: WIDTH_EXT,
            rate_ext: RATE_EXT,
            witness_d: WITNESS_EXT_D,
            permutation_columns: P::sp_column_count() as usize,
        }
    }

    /// Rate and capacity make up the state, limbs make up its base elements, and a limb fits the
    /// witness bus.
    pub open spec fn sizes_agree() -> bool {
        &&& CAPACITY_EXT + RATE_EXT == WIDTH_EXT
        &&& WIDTH_EXT * D == WIDTH
        &&& 1 <= D <= WITNESS_EXT_D
        &&& P::sp_state_width() == WIDTH
        &&& 5 * RATE_EXT + 4 * WIDTH_EXT + 6 <= usize::MAX
        &&& WITNESS_EXT_D < usize::MAX
    }

    /// The row of the trace for an operation: the permutation columns, the direction bit and the
    /// accumulator.
    pub open spec fn trace_row(ops: Seq<Row<F>>, i: nat) -> Seq<F> {
        P::sp_columns(ops[i as int].input_values) + seq![
            boolean(ops[i as int].mmcs_bit),
            accumulator(ops, i),
        ]
    }

    /// The first `n` rows of the trace, one after the other.
    pub open spec fn trace_values(ops: Seq<Row<F>>, n: nat) -> Seq<F>
        decreases n,
    {
        if n == 0 {
            Seq::empty()
        } else {
            Self::trace_values(ops, (n - 1) as nat) + Self::trace_row(ops, (n - 1) as nat)
        }
    }

    /// A table without preprocessed values.
    pub fn new() -> (r: Self)
        requires
            Self::sizes_agree(),
        ensures
            r.preprocessed@.len() == 0,
            r.min_height == 1,
    {
        Poseidon1CircuitAir { preprocessed: Vec::new(), min_height: 1, permutation: PhantomData }
    }

    /// A table with preprocessed values.
    pub fn new_with_preprocessed(preprocessed: Vec<F>) -> (r: Self)
        requires
            Self::sizes_agree(),
        ensures
            r.preprocessed == preprocessed,
            r.min_height == 1,
    {
        Poseidon1CircuitAir { preprocessed, min_height: 1, permutation: PhantomData }
    }

    /// Sets the minimum trace height, rounded up to a power of two.
    pub fn with_min_height(self, min_height: usize) -> (r: Self)
        requires
            min_height <= usize::MAX / 2 + 1,
        ensures
            r.preprocessed == self.preprocessed,
            r.min_height == bits::next_pow2(min_height as nat),
    {
        Poseidon1CircuitAir {
            preprocessed: self.preprocessed,
            min_height: next_power_of_two(min_height),
            permutation: PhantomData,
        }
    }

    /// Number of preprocessed columns.
    pub fn preprocessed_width() -> (r: usize)
        requires
            Self::sizes_agree(),
        ensures
            r == Self::shape().preprocessed_width(),
    {
        poseidon_preprocessed_row_width_for_air(D, WIDTH_EXT, RATE_EXT)
    }

    /// Number of main columns: those of the permutation, the direction bit and the accumulator.
    pub fn width(&self) -> (r: usize)
        ensures
            r == P::sp_column_count() + 2,
    {
        P::column_count() + 2
    }

    /// The main trace: one row for each operation.
    pub fn generate_trace_rows(&self, ops: &[PoseidonCircuitRow<F>]) -> (r: RowMajorMatrix<F>)
        requires
            Self::sizes_agree(),
            is_pow2(ops@.len() as int),
            forall|i: int| 0 <= i < ops@.len() ==> (#[trigger] ops@[i]).input_values@.len() == WIDTH,
            ops@.len() * (P::sp_column_count() + 2) <= usize::MAX,
        ensures
            r.width == P::sp_column_count() + 2,
            r.rows() == ops@.len(),
            r.values@ == Self::trace_values(row_views(ops@), ops@.len()),
            forall|i: int|
                0 <= i < ops@.len() ==> #[trigger] r.row(i) == Self::trace_row(
                    row_views(ops@),
                    i as nat,
                ),
            forall|i: int|
                0 <= i < ops@.len() ==> (#[trigger] r.row(i)).take(WIDTH as int)
                    == ops@[i].input_values@,
            forall|i: int|
                0 <= i < ops@.len() ==> (#[trigger] r.row(i)).subrange(
                    P::sp_column_count() - WIDTH,
                    P::sp_column_count() as int,
                ) == P::sp_permuted(ops@[i].input_values@),
    {
        let ghost rows = row_views(ops@);
        let width: usize = self.width();
        let mut values: Vec<F> = Vec::new();
        let mut sum: F = F::zero();
        let mut i: usize = 0;
        while i < ops.len()
            invariant
                i <= ops@.len(),
                rows == row_views(ops@),
                P::sp_state_width() == WIDTH,
                width == P::sp_column_count() + 2,
                forall|i: int|
                    0 <= i < ops@.len() ==> (#[trigger] ops@[i]).input_values@.len() == WIDTH,
                i > 0 ==> sum == accumulator(rows, (i - 1) as nat),
                values@ == Self::trace_values(rows, i as nat),
                values@.len() == i * width,
                forall|j: int|
                    0 <= j < i ==> #[trigger] Self::trace_row(rows, j as nat).len() == width
                        && values@.subrange(j * width, (j + 1) * width) == Self::trace_row(
                        rows,
                        j as nat,
                    ),
            decreases ops@.len() - i,
        {
            let ghost before = values@;
            let op: &PoseidonCircuitRow<F> = &ops[i];
            assert(rows[i as int] == ops@[i as int]@);
            if i > 0 && op.merkle_path && !op.new_start {
                sum = sum.add(sum).add(boolean_of(op.mmcs_bit));
            } else {
                sum = op.mmcs_index_sum;
            }
            proof {
                P::columns_frame(op.input_values@);
            }
            let columns: Vec<F> = P::columns(&op.input_values);
            append_copy(&mut values, &columns);
            values.push(boolean_of(op.mmcs_bit));
            values.push(sum);
            proof {
                let row = Self::trace_row(rows, i as nat);
                assert(values@ =~= before + row);
                lemma_mul_is_distributive_add_other_way(width as int, i as int, 1);
                assert forall|j: int| 0 <= j < i + 1 implies #[trigger] Self::trace_row(
                    rows,
                    j as nat,
                ).len() == width && values@.subrange(j * width, (j + 1) * width)
                    == Self::trace_row(rows, j as nat) by {
                    lemma_mul_is_distributive_add_other_way(width as int, j, 1);
                    lemma_mul_nonnegative(j, width as int);
                    if j < i {
                        lemma_mul_inequality(j + 1, i as int, width as int);
                        assert(before.subrange(j * width, (j + 1) * width) == Self::trace_row(
                            rows,
                            j as nat,
                        ));
                        assert(values@.subrange(j * width, (j + 1) * width) =~= before.subrange(
                            j * width,
                            (j + 1) * width,
                        ));
                    } else {
                        assert(values@.subrange(j * width, (j + 1) * width) =~= row);
                    }
                }
            }
            i += 1;
        }
        proof {
            lemma_div_multiples_vanish(ops@.len() as int, width as int);
            lemma_mul_is_commutative(ops@.len() as int, width as int);
            assert forall|i: int| 0 <= i < ops@.len() implies #[trigger] values@.subrange(
                i * width,
                (i + 1) * width,
            ) == Self::trace_row(rows, i as nat) by {
                assert(Self::trace_row(rows, i as nat).len() == width);
            }
        }
        let r = RowMajorMatrix { values, width };
        proof {
            assert forall|i: int| 0 <= i < ops@.len() implies {
                &&& (#[trigger] r.row(i)).take(WIDTH as int) == ops@[i].input_values@
                &&& r.row(i).subrange(
                    P::sp_column_count() - WIDTH,
                    P::sp_column_count() as int,
                ) == P::sp_permuted(ops@[i].input_values@)
            } by {
                let columns = P::sp_columns(ops@[i].input_values@);
                assert(r.row(i) == Self::trace_row(rows, i as nat));
                assert(rows[i].input_values == ops@[i].input_values@);
                P::columns_frame(ops@[i].input_values@);
                assert(r.row(i).take(WIDTH as int) =~= columns.take(WIDTH as int));
                assert(r.row(i).subrange(
                    P::sp_column_count() - WIDTH,
                    P::sp_column_count() as int,
                ) =~= columns.skip(P::sp_column_count() - WIDTH));
            }
        }
        r
    }

    /// The height of the preprocessed trace.
    pub open spec fn preprocessed_rows(self) -> nat {
        let natural = self.preprocessed@.len() / Self::shape().preprocessed_width();
        if bits::next_pow2(natural) >= self.min_height {
            bits::next_pow2(natural)
        } else {
            self.min_height as nat
        }
    }

    /// The preprocessed trace: the given rows, then rows of zeros up to the height. The first of
    /// these starts a chain, so that no chain runs on from the last given row.
    pub fn preprocessed_trace(&self) -> (r: Option<RowMajorMatrix<F>>)
        requires
            Self::sizes_agree(),
            self.preprocessed@.len() % Self::shape().preprocessed_width() == 0,
            self.preprocessed@.len() / Self::shape().preprocessed_width() <= usize::MAX / 2 + 1,
            self.preprocessed_rows() * Self::shape().preprocessed_width() <= usize::MAX,
        ensures
            r matches Some(m) && {
                let width = Self::shape().preprocessed_width();
                let len = self.preprocessed@.len();
                let padded = matrix::padded_to(
                    self.preprocessed@,
                    self.preprocessed_rows() * width,
                    F::sp_zero(),
                );
                &&& m.width == width
                &&& m.rows() == self.preprocessed_rows()
                &&& m.values@ == (if self.preprocessed_rows() > len / width {
                    padded.update(len + width - 2, F::sp_one())
                } else {
                    padded
                })
            },
    {
        let width: usize = Self::preprocessed_width();
        let len: usize = self.preprocessed.len();
        let natural_rows: usize = len / width;
        let rounded: usize = next_power_of_two(natural_rows);
        let padded_rows: usize = if rounded >= self.min_height {
            rounded
        } else {
            self.min_height
        };
        proof {
            lemma_fundamental_div_mod(len as int, width as int);
            lemma_mul_is_commutative(width as int, natural_rows as int);
            lemma_mul_inequality(natural_rows as int, padded_rows as int, width as int);
            lemma_div_multiples_vanish(padded_rows as int, width as int);
            lemma_mul_is_commutative(padded_rows as int, width as int);
        }
        let mut data: Vec<F> = copy_vec(&self.preprocessed);
        pad_to(&mut data, padded_rows * width, F::zero());
        if padded_rows > natural_rows {
            proof {
                lemma_mul_inequality(natural_rows + 1, padded_rows as int, width as int);
                lemma_mul_is_distributive_add_other_way(width as int, natural_rows as int, 1);
            }
            data.set(len + width - 2, F::one());
        }
        Some(RowMajorMatrix { values: data, width })
    }

    /// The constraints and lookups of the table.
    pub fn eval(&self) -> (r: TableRules<F, P>)
        requires
            Self::sizes_agree(),
            2 * RATE_EXT <= WIDTH_EXT,
        ensures
            r.constraints.chaining@.len() == poseidon1_rules::constraint_count(Self::shape()),
            forall|w: Window<F>, t: bool| #[trigger]
                r.constraints.hold(w, t) <==> poseidon1_rules::table_rules::<F, P>(
                    Self::shape(),
                    w,
                    t,
                ),
            air_expr::degree_at_most(r.constraints.chaining@, 3),
            forall|w: Window<F>|
                Self::shape().framed(w) ==> #[trigger] air_expr::all_fit(
                    r.constraints.chaining@,
                    w,
                ),
            forall|w: Window<F>| #[trigger]
                air_expr::messages(r.interactions@, w) == poseidon1_rules::row_messages(
                    Self::shape(),
                    w,
                ),
            forall|i: int|
                0 <= i < r.interactions@.len() ==> (#[trigger] r.interactions@[i]).degree_at_most(
                    3,
                ),
    {
        let shape = TableShape {
            d: D,
            width_ext: WIDTH_EXT,
            rate_ext: RATE_EXT,
            witness_d: WITNESS_EXT_D,
            permutation_columns: P::column_count(),
        };
        assert(shape == Self::shape());
        TableRules { constraints: eval(&shape), interactions: eval_interactions(&shape) }
    }
}

/// The preprocessed columns of an input limb.
pub open spec fn extracted_input<F: Field, OF>(
    op: Row<OF>,
    i: int,
    d: u32,
) -> PoseidonPrepInputLimb<F> {
    PoseidonPrepInputLimb {
        idx: F::sp_from((op.input_indices[i] * d) as nat),
        in_ctl: boolean(op.in_ctl[i]),
        normal_chain_sel: boolean(!op.new_start && !op.merkle_path && !op.in_ctl[i]),
        merkle_chain_sel: boolean(!op.new_start && op.merkle_path && !op.in_ctl[i]),
    }
}

/// The preprocessed columns of an output limb.
pub open spec fn extracted_output<F: Field, OF>(
    op: Row<OF>,
    i: int,
    d: u32,
) -> PoseidonPrepOutputLimb<F> {
    PoseidonPrepOutputLimb {
        idx: F::sp_from((op.output_indices[i] * d) as nat),
        out_ctl: boolean(op.out_ctl[i]),
    }
}

/// The four flags at the end of a preprocessed row.
pub open spec fn extracted_tail<F: Field, OF>(op: Row<OF>, d: u32) -> Seq<F> {
    seq![
        F::sp_from((op.mmcs_index_sum_idx * d) as nat),
        boolean(op.mmcs_ctl_enabled && op.merkle_path),
        boolean(op.new_start),
        boolean(op.merkle_path),
    ]
}

/// The row compresses a given pair: it starts a Merkle chain and every input limb is looked up.
pub open spec fn compresses_pair<OF>(op: Row<OF>, input_limbs: nat) -> bool {
    op.merkle_path && op.new_start && forall|i: int| 0 <= i < input_limbs ==> #[trigger] op.in_ctl[i]
}

/// The preprocessed row of an operation.
pub open spec fn extracted_row<F: Field, OF>(
    op: Row<OF>,
    input_limbs: nat,
    output_limbs: nat,
    d: u32,
    compact: bool,
) -> Seq<F> {
    if compact {
        Seq::new(output_limbs, |i: int| extracted_input::<F, OF>(op, i, d).in_ctl) + seq![
            boolean(compresses_pair(op, input_limbs)),
            boolean(!op.new_start),
        ] + Seq::new(output_limbs, |i: int| extracted_input::<F, OF>(op, i, d).normal_chain_sel)
            + Seq::new(output_limbs, |i: int| extracted_input::<F, OF>(op, i, d).merkle_chain_sel)
            + Seq::new(input_limbs, |i: int| extracted_input::<F, OF>(op, i, d).idx) + Seq::new(
            output_limbs,
            |i: int| extracted_output::<F, OF>(op, i, d).idx,
        ) + Seq::new(output_limbs, |i: int| extracted_output::<F, OF>(op, i, d).out_ctl)
            + extracted_tail::<F, OF>(op, d)
    } else {
        layout::input_columns(
            Seq::new(input_limbs, |i: int| extracted_input::<F, OF>(op, i, d)),
            input_limbs,
        ) + layout::output_columns(
            Seq::new(output_limbs, |i: int| extracted_output::<F, OF>(op, i, d)),
            output_limbs,
        ) + extracted_tail::<F, OF>(op, d)
    }
}

/// The preprocessed rows of the first `n` operations, one after the other.
pub open spec fn extracted_rows<F: Field, OF>(
    ops: Seq<Row<OF>>,
    input_limbs: nat,
    output_limbs: nat,
    d: u32,
    compact: bool,
    n: nat,
) -> Seq<F>
    decreases n,
{
    if n == 0 {
        Seq::empty()
    } else {
        extracted_rows::<F, OF>(ops, input_limbs, output_limbs, d, compact, (n - 1) as nat)
            + extracted_row::<F, OF>(ops[n - 1], input_limbs, output_limbs, d, compact)
    }
}

/// The operation has flags and indices for all limbs, and its scaled indices fit.
pub open spec fn extractable<OF>(op: Row<OF>, input_limbs: nat, output_limbs: nat, d: u32) -> bool {
    &&& op.in_ctl.len() == input_limbs
    &&& op.input_indices.len() == input_limbs
    &&& op.out_ctl.len() == output_limbs
    &&& op.output_indices.len() == output_limbs
    &&& forall|i: int|
        0 <= i < input_limbs ==> #[trigger] op.input_indices[i] * d <= u32::MAX
    &&& forall|i: int|
        0 <= i < output_limbs ==> #[trigger] op.output_indices[i] * d <= u32::MAX
}

fn push_compact_row<F: Field, OF>(
    op: &PoseidonCircuitRow<OF>,
    input_limbs: usize,
    output_limbs: usize,
    d: u32,
    out: &mut Vec<F>,
)
    requires
        output_limbs <= input_limbs,
        extractable(op@, input_limbs as nat, output_limbs as nat, d),
    ensures
        final(out)@ == old(out)@ + extracted_row::<F, OF>(
            op@,
            input_limbs as nat,
            output_limbs as nat,
            d,
            true,
        ),
{
    let ghost start = out@;
    let ghost view = op@;
    let mut every: bool = true;
    let mut i: usize = 0;
    while i < input_limbs
        invariant
            i <= input_limbs,
            op.in_ctl@.len() == input_limbs,
            view == op@,
            every <==> forall|j: int| 0 <= j < i ==> #[trigger] view.in_ctl[j],
        decreases input_limbs - i,
    {
        if !op.in_ctl[i] {
            every = false;
        }
        assert(view.in_ctl[i as int] == op.in_ctl@[i as int]);
        i += 1;
    }
    let mut i: usize = 0;
    let ghost part = |j: int| extracted_input::<F, OF>(view, j, d).in_ctl;
    while i < output_limbs
        invariant
            i <= output_limbs <= input_limbs,
            op.in_ctl@.len() == input_limbs,
            view == op@,
            part == (|j: int| extracted_input::<F, OF>(view, j, d).in_ctl),
            out@ == start + Seq::new(i as nat, part),
        decreases output_limbs - i,
    {
        out.push(boolean_of(op.in_ctl[i]));
        i += 1;
        assert(out@ =~= start + Seq::new(i as nat, part));
    }
    out.push(boolean_of(op.merkle_path && op.new_start && every));
    out.push(boolean_of(!op.new_start));
    let ghost second = out@;
    let mut i: usize = 0;
    let ghost part = |j: int| extracted_input::<F, OF>(view, j, d).normal_chain_sel;
    while i < output_limbs
        invariant
            i <= output_limbs <= input_limbs,
            op.in_ctl@.len() == input_limbs,
            view == op@,
            part == (|j: int| extracted_input::<F, OF>(view, j, d).normal_chain_sel),
            out@ == second + Seq::new(i as nat, part),
        decreases output_limbs - i,
    {
        out.push(boolean_of(!op.new_start && !op.merkle_path && !op.in_ctl[i]));
        i += 1;
        assert(out@ =~= second + Seq::new(i as nat, part));
    }
    let ghost third = out@;
    let mut i: usize = 0;
    let ghost part = |j: int| extracted_input::<F, OF>(view, j, d).merkle_chain_sel;
    while i < output_limbs
        invariant
            i <= output_limbs <= input_limbs,
            op.in_ctl@.len() == input_limbs,
            view == op@,
            part == (|j: int| extracted_input::<F, OF>(view, j, d).merkle_chain_sel),
            out@ == third + Seq::new(i as nat, part),
        decreases output_limbs - i,
    {
        out.push(boolean_of(!op.new_start && op.merkle_path && !op.in_ctl[i]));
        i += 1;
        assert(out@ =~= third + Seq::new(i as nat, part));
    }
    let ghost fourth = out@;
    let mut i: usize = 0;
    let ghost part = |j: int| extracted_input::<F, OF>(view, j, d).idx;
    while i < input_limbs
        invariant
            i <= input_limbs,
            view == op@,
            extractable(view, input_limbs as nat, output_limbs as nat, d),
            part == (|j: int| extracted_input::<F, OF>(view, j, d).idx),
            out@ == fourth + Seq::new(i as nat, part),
        decreases input_limbs - i,
    {
        assert(view.input_indices[i as int] * d <= u32::MAX);
        let scaled: u32 = op.input_indices[i] * d;
        out.push(F::from_u64(scaled as u64));
        i += 1;
        assert(out@ =~= fourth + Seq::new(i as nat, part));
    }
    let ghost fifth = out@;
    let mut i: usize = 0;
    let ghost part = |j: int| extracted_output::<F, OF>(view, j, d).idx;
    while i < output_limbs
        invariant
            i <= output_limbs,
            view == op@,
            extractable(view, input_limbs as nat, output_limbs as nat, d),
            part == (|j: int| extracted_output::<F, OF>(view, j, d).idx),
            out@ == fifth + Seq::new(i as nat, part),
        decreases output_limbs - i,
    {
        assert(view.output_indices[i as int] * d <= u32::MAX);
        let scaled: u32 = op.output_indices[i] * d;
        out.push(F::from_u64(scaled as u64));
        i += 1;
        assert(out@ =~= fifth + Seq::new(i as nat, part));
    }
    let ghost sixth = out@;
    let mut i: usize = 0;
    let ghost part = |j: int| extracted_output::<F, OF>(view, j, d).out_ctl;
    while i < output_limbs
        invariant
            i <= output_limbs,
            op.out_ctl@.len() == output_limbs,
            view == op@,
            part == (|j: int| extracted_output::<F, OF>(view, j, d).out_ctl),
            out@ == sixth + Seq::new(i as nat, part),
        decreases output_limbs - i,
    {
        out.push(boolean_of(op.out_ctl[i]));
        i += 1;
        assert(out@ =~= sixth + Seq::new(i as nat, part));
    }
    let scaled: u64 = scaled_index(op.mmcs_index_sum_idx, d);
    out.push(F::from_u64(scaled));
    out.push(boolean_of(op.mmcs_ctl_enabled && op.merkle_path));
    out.push(boolean_of(op.new_start));
    out.push(boolean_of(op.merkle_path));
    assert(every == forall|j: int| 0 <= j < input_limbs ==> #[trigger] view.in_ctl[j]);
    assert(out@ =~= start + extracted_row::<F, OF>(
        view,
        input_limbs as nat,
        output_limbs as nat,
        d,
        true,
    ));
}

/// The product of two words, which fits a double word.
fn scaled_index(index: u32, d: u32) -> (r: u64)
    ensures
        r == index * d,
{
    assert(index as u64 * d as u64 <= u64::MAX) by (nonlinear_arith)
        requires
            0 <= index <= u32::MAX,
            0 <= d <= u32::MAX,
    ;
    index as u64 * d as u64
}

fn push_standard_row<const IL: usize, const OL: usize, F: Field, OF>(
    op: &PoseidonCircuitRow<OF>,
    d: u32,
    out: &mut Vec<F>,
)
    requires
        extractable(op@, IL as nat, OL as nat, d),
    ensures
        final(out)@ == old(out)@ + extracted_row::<F, OF>(op@, IL as nat, OL as nat, d, false),
{
    let ghost view = op@;
    let zero: F = F::zero();
    let mut input_limbs: [PoseidonPrepInputLimb<F>; IL] = [PoseidonPrepInputLimb {
        idx: zero,
        in_ctl: zero,
        normal_chain_sel: zero,
        merkle_chain_sel: zero,
    };IL];
    let mut i: usize = 0;
    while i < IL
        invariant
            i <= IL,
            view == op@,
            extractable(view, IL as nat, OL as nat, d),
            forall|j: int|
                0 <= j < i ==> #[trigger] input_limbs@[j] == extracted_input::<F, OF>(view, j, d),
        decreases IL - i,
    {
        let ctl: bool = op.in_ctl[i];
        assert(view.input_indices[i as int] * d <= u32::MAX);
        let scaled: u32 = op.input_indices[i] * d;
        input_limbs[i] =
        PoseidonPrepInputLimb {
            idx: F::from_u64(scaled as u64),
            in_ctl: boolean_of(ctl),
            normal_chain_sel: boolean_of(!op.new_start && !op.merkle_path && !ctl),
            merkle_chain_sel: boolean_of(!op.new_start && op.merkle_path && !ctl),
        };
        i += 1;
    }
    let mut output_limbs: [PoseidonPrepOutputLimb<F>; OL] = [PoseidonPrepOutputLimb {
        idx: zero,
        out_ctl: zero,
    };OL];
    let mut i: usize = 0;
    while i < OL
        invariant
            i <= OL,
            view == op@,
            extractable(view, IL as nat, OL as nat, d),
            forall|j: int|
                0 <= j < i ==> #[trigger] output_limbs@[j] == extracted_output::<F, OF>(view, j, d),
        decreases OL - i,
    {
        assert(view.output_indices[i as int] * d <= u32::MAX);
        let scaled: u32 = op.output_indices[i] * d;
        output_limbs[i] =
        PoseidonPrepOutputLimb {
            idx: F::from_u64(scaled as u64),
            out_ctl: boolean_of(op.out_ctl[i]),
        };
        i += 1;
    }
    let scaled: u64 = scaled_index(op.mmcs_index_sum_idx, d);
    let row = PoseidonPreprocessedRow {
        input_limbs,
        output_limbs,
        mmcs_index_sum_ctl_idx: F::from_u64(scaled),
        mmcs_merkle_flag: boolean_of(op.mmcs_ctl_enabled && op.merkle_path),
        new_start: boolean_of(op.new_start),
        merkle_path: boolean_of(op.merkle_path),
    };
    row.write_into(out);
    proof {
        assert(input_limbs@ =~= Seq::new(
            IL as nat,
            |i: int| extracted_input::<F, OF>(view, i, d),
        ));
        assert(output_limbs@ =~= Seq::new(
            OL as nat,
            |i: int| extracted_output::<F, OF>(view, i, d),
        ));
        assert(row.columns() =~= extracted_row::<F, OF>(view, IL as nat, OL as nat, d, false));
    }
}

/// The preprocessed rows of a sequence of operations, in row-major order.
///
/// Witness indices are scaled by the extension degree `d`, so that lookup keys index the flattened
/// witness table. Products of flags that constraints need are precomputed, which keeps the degree
/// of the constraints at three.
pub fn extract_preprocessed_from_operations<const IL: usize, const OL: usize, F: Field, OF>(
    operations: &[PoseidonCircuitRow<OF>],
    d: u32,
    poseidon_extension_degree: usize,
) -> (r: Vec<F>)
    requires
        5 * OL + 4 * IL + 6 <= usize::MAX,
        forall|i: int|
            0 <= i < operations@.len() ==> extractable(
                (#[trigger] operations@[i])@,
                IL as nat,
                OL as nat,
                d,
            ),
    ensures
        r@ == extracted_rows::<F, OF>(
            row_views(operations@),
            IL as nat,
            OL as nat,
            d,
            layout::compact_d1(poseidon_extension_degree as nat, IL as nat, OL as nat),
            operations@.len(),
        ),
{
    let compact: bool = poseidon_uses_compact_d1_preprocessed(poseidon_extension_degree, IL, OL);
    let ghost rows = row_views(operations@);
    let mut preprocessed: Vec<F> = Vec::new();
    let mut i: usize = 0;
    while i < operations.len()
        invariant
            i <= operations@.len(),
            rows == row_views(operations@),
            compact == layout::compact_d1(
                poseidon_extension_degree as nat,
                IL as nat,
                OL as nat,
            ),
            forall|i: int|
                0 <= i < operations@.len() ==> extractable(
                    (#[trigger] operations@[i])@,
                    IL as nat,
                    OL as nat,
                    d,
                ),
            preprocessed@ == extracted_rows::<F, OF>(
                rows,
                IL as nat,
                OL as nat,
                d,
                compact,
                i as nat,
            ),
        decreases operations@.len() - i,
    {
        assert(rows[i as int] == operations@[i as int]@);
        if compact {
            push_compact_row(&operations[i], IL, OL, d, &mut preprocessed);
        } else {
            push_standard_row::<IL, OL, F, OF>(&operations[i], d, &mut preprocessed);
        }
        i += 1;
    }
    preprocessed
}

} // verus!
