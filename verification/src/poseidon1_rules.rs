//! The constraints and lookups of the Poseidon1 table.
//!
//! A row of the table holds the columns of one permutation, its input first and its output last,
//! then the direction bit and the accumulator:
//!
//! ```text
//!     [ --- permutation columns --- | direction bit | accumulator ]
//! ```

use std::marker::PhantomData;

use vstd::arithmetic::div_mod::*;
use vstd::arithmetic::mul::*;
use vstd::prelude::*;

use crate::air_expr;
use crate::air_expr::{
    check_all, push_constraint, AirConstraint, AirExpr, Interaction, Message, TraceWindow, Window,
};
use crate::field::Field;
use crate::layout;
use crate::layout::{
    poseidon_d1_compact_preprocessed_header_cols, poseidon_uses_compact_d1_preprocessed,
};

verus! {

/// A permutation with its round constants, as columns of a table: the input, all intermediate
/// values, and the output.
pub trait PermutationColumns<F: Field>: Sized {
    /// The number of state elements.
    spec fn sp_state_width() -> nat;

    /// The number of columns.
    spec fn sp_column_count() -> nat;

    /// The image of a state.
    spec fn sp_permuted(input: Seq<F>) -> Seq<F>;

    /// The columns for an input.
    spec fn sp_columns(input: Seq<F>) -> Seq<F>;

    /// The input comes first and its image last.
    proof fn columns_frame(input: Seq<F>)
        requires
            input.len() == Self::sp_state_width(),
        ensures
            2 * Self::sp_state_width() <= Self::sp_column_count(),
            Self::sp_columns(input).len() == Self::sp_column_count(),
            Self::sp_columns(input).take(Self::sp_state_width() as int) == input,
            Self::sp_columns(input).skip(Self::sp_column_count() - Self::sp_state_width())
                == Self::sp_permuted(input),
    ;

    fn column_count() -> (r: usize)
        ensures
            r == Self::sp_column_count(),
            Self::sp_state_width() <= r,
            r + 2 <= usize::MAX,
    ;

    fn columns(input: &Vec<F>) -> (r: Vec<F>)
        requires
            input@.len() == Self::sp_state_width(),
        ensures
            r@ == Self::sp_columns(input@),
    ;

    /// Whether all constraints of the permutation hold on its columns.
    fn accepts(columns: &Vec<F>) -> (r: bool)
        requires
            columns@.len() == Self::sp_column_count(),
        ensures
            r == (columns@ == Self::sp_columns(columns@.take(Self::sp_state_width() as int))),
    ;
}

/// The columns are those that the permutation has for their first elements.
pub open spec fn permutes<F: Field, P: PermutationColumns<F>>(columns: Seq<F>) -> bool {
    columns == P::sp_columns(columns.take(P::sp_state_width() as int))
}

/// The sizes of a table.
#[derive(Clone, Copy, Debug, PartialEq, Eq, Structural)]
pub struct TableShape {
    /// Base elements per limb.
    pub d: usize,
    /// Limbs of the state.
    pub width_ext: usize,
    /// Limbs of the rate.
    pub rate_ext: usize,
    /// Base elements per value on the witness bus.
    pub witness_d: usize,
    /// Columns of the permutation.
    pub permutation_columns: usize,
}

impl TableShape {
    /// The sizes fit together and fit the machine: the digest and its sibling fit the state, a limb
    /// fits the witness bus, and the permutation columns hold the input and the output.
    pub open spec fn wf(self) -> bool {
        &&& 1 <= self.d <= self.witness_d
        &&& 2 * self.rate_ext <= self.width_ext
        &&& self.width_ext * self.d <= self.permutation_columns
        &&& self.permutation_columns + 2 <= usize::MAX
        &&& 5 * self.rate_ext + 4 * self.width_ext + 6 <= usize::MAX
        &&& self.witness_d < usize::MAX
    }

    /// The number of base elements of the state.
    pub open spec fn width(self) -> nat {
        (self.width_ext * self.d) as nat
    }

    /// The number of base elements of a digest.
    pub open spec fn digest(self) -> nat {
        (self.rate_ext * self.d) as nat
    }

    pub open spec fn is_compact(self) -> bool {
        layout::compact_d1(self.d as nat, self.width_ext as nat, self.rate_ext as nat)
    }

    /// An element of the input of the next row.
    pub open spec fn next_in<F>(self, w: Window<F>, k: int) -> F {
        w.next[k]
    }

    /// An element of the output of the current row.
    pub open spec fn local_out<F>(self, w: Window<F>, k: int) -> F {
        w.local[self.permutation_columns - self.width() + k]
    }

    /// The direction bit of the next row.
    pub open spec fn next_bit<F>(self, w: Window<F>) -> F {
        w.next[self.permutation_columns as int]
    }

    /// The width of a preprocessed row.
    pub open spec fn preprocessed_width(self) -> nat {
        layout::row_width(self.d as nat, self.width_ext as nat, self.rate_ext as nat)
    }

    /// The first of the four flags at the end of a preprocessed row.
    pub open spec fn tail(self) -> int {
        self.preprocessed_width() - 4
    }

    /// The flag that starts a chain on the next row.
    pub open spec fn next_new_start<F>(self, w: Window<F>) -> F {
        w.preprocessed_next[self.tail() + 2]
    }

    /// The flag of a Merkle row on the next row.
    pub open spec fn next_merkle_path<F>(self, w: Window<F>) -> F {
        w.preprocessed_next[self.tail() + 3]
    }

    /// The sponge selector of a limb on the next row.
    pub open spec fn sponge_selector<F>(self, w: Window<F>, limb: int) -> F {
        if self.is_compact() {
            w.preprocessed_next[self.rate_ext + 2 + limb]
        } else {
            w.preprocessed_next[4 * limb + 2]
        }
    }

    /// The Merkle selector of a limb on the next row.
    pub open spec fn merkle_selector<F>(self, w: Window<F>, limb: int) -> F {
        if self.is_compact() {
            w.preprocessed_next[2 * self.rate_ext + 2 + limb]
        } else {
            w.preprocessed_next[4 * limb + 3]
        }
    }

    /// The length tag of the next row in the compact layout.
    pub open spec fn length_tag<F>(self, w: Window<F>) -> F {
        w.preprocessed_next[self.rate_ext as int]
    }

    /// The capacity chain flag of the next row in the compact layout.
    pub open spec fn capacity_chain<F>(self, w: Window<F>) -> F {
        w.preprocessed_next[self.rate_ext + 1]
    }

    /// The rows of the window have the widths of the table.
    pub open spec fn framed<F>(self, w: Window<F>) -> bool {
        &&& w.local.len() == self.permutation_columns + 2
        &&& w.next.len() == self.permutation_columns + 2
        &&& w.preprocessed.len() == self.preprocessed_width()
        &&& w.preprocessed_next.len() == self.preprocessed_width()
    }
}

/// One minus the element.
pub open spec fn flipped<F: Field>(x: F) -> F {
    F::sp_one().sp_sub(x)
}

/// The direction bit is zero or one: `bit·(bit - 1) = 0`.
pub open spec fn bit_is_boolean<F: Field>(s: TableShape, w: Window<F>) -> bool {
    let bit = w.local[s.permutation_columns as int];
    bit.sp_mul(bit.sp_sub(F::sp_one())) == F::sp_zero()
}

/// Where the sponge selector of a limb is set, the next input element is the current output
/// element.
pub open spec fn sponge_chains<F: Field>(s: TableShape, w: Window<F>, k: int) -> bool {
    s.sponge_selector(w, k / s.d as int).sp_mul(s.next_in(w, k).sp_sub(s.local_out(w, k)))
        == F::sp_zero()
}

/// Where the Merkle selector of a limb is set and the next node is a left child, the digest is the
/// first part of the next input.
pub open spec fn merkle_chains_left<F: Field>(s: TableShape, w: Window<F>, k: int) -> bool {
    s.merkle_selector(w, k / s.d as int).sp_mul(flipped(s.next_bit(w))).sp_mul(
        s.next_in(w, k).sp_sub(s.local_out(w, k)),
    ) == F::sp_zero()
}

/// Where the Merkle selector of a limb is set and the next node is a right child, the digest is the
/// second part of the next input.
pub open spec fn merkle_chains_right<F: Field>(s: TableShape, w: Window<F>, k: int) -> bool {
    s.merkle_selector(w, k / s.d as int).sp_mul(s.next_bit(w)).sp_mul(
        s.next_in(w, s.digest() + k).sp_sub(s.local_out(w, k)),
    ) == F::sp_zero()
}

/// What is added to an element of the capacity: the length tag to the first, nothing to the others.
pub open spec fn tag_of<F: Field>(s: TableShape, w: Window<F>, k: int) -> F {
    if k == s.digest() {
        s.length_tag(w)
    } else {
        F::sp_zero()
    }
}

/// On a sponge row that continues a chain, an element of the capacity is the output element plus
/// its tag.
pub open spec fn capacity_chains<F: Field>(s: TableShape, w: Window<F>, k: int) -> bool {
    s.capacity_chain(w).sp_mul(flipped(s.next_merkle_path(w))).sp_mul(
        s.next_in(w, k).sp_sub(s.local_out(w, k)).sp_sub(tag_of(s, w, k)),
    ) == F::sp_zero()
}

/// On a sponge row that starts a chain, an element of the capacity is its tag.
pub open spec fn capacity_starts<F: Field>(s: TableShape, w: Window<F>, k: int) -> bool {
    s.next_new_start(w).sp_mul(
        flipped(s.next_merkle_path(w)).sp_mul(s.next_in(w, k).sp_sub(tag_of(s, w, k))),
    ) == F::sp_zero()
}

/// On a Merkle row that continues a chain, the accumulator is twice the previous one plus the
/// direction bit.
pub open spec fn accumulates<F: Field>(s: TableShape, w: Window<F>) -> bool {
    let p = s.permutation_columns as int;
    flipped(s.next_new_start(w)).sp_mul(
        s.next_merkle_path(w).sp_mul(
            w.next[p + 1].sp_sub(
                w.local[p + 1].sp_mul(F::sp_one().sp_add(F::sp_one())).sp_add(w.next[p]),
            ),
        ),
    ) == F::sp_zero()
}

/// What must hold between two adjacent rows.
pub open spec fn rows_chain<F: Field>(s: TableShape, w: Window<F>) -> bool {
    &&& forall|k: int|
        0 <= k < (if s.is_compact() {
            s.digest()
        } else {
            s.width()
        }) ==> #[trigger] sponge_chains(s, w, k)
    &&& forall|k: int| 0 <= k < s.digest() ==> #[trigger] merkle_chains_left(s, w, k)
    &&& forall|k: int| 0 <= k < s.digest() ==> #[trigger] merkle_chains_right(s, w, k)
    &&& s.is_compact() ==> forall|k: int|
        s.digest() <= k < s.width() ==> #[trigger] capacity_chains(s, w, k)
    &&& s.is_compact() ==> forall|k: int|
        s.digest() <= k < s.width() ==> #[trigger] capacity_starts(s, w, k)
    &&& accumulates(s, w)
}

/// All that the table demands of the columns that tie its rows together.
pub open spec fn row_rules<F: Field>(s: TableShape, w: Window<F>, transition: bool) -> bool {
    &&& bit_is_boolean(s, w)
    &&& transition ==> rows_chain(s, w)
}

/// All that the table demands of a window: the direction bit is boolean, the rows chain, and the
/// current row obeys the permutation, whether or not a row follows.
pub open spec fn table_rules<F: Field, P: PermutationColumns<F>>(
    s: TableShape,
    w: Window<F>,
    transition: bool,
) -> bool {
    &&& row_rules(s, w, transition)
    &&& permutes::<F, P>(w.local.take(P::sp_column_count() as int))
}

/// The constraints of a table: those that tie its rows together, and those that the permutation `P`
/// has on its own columns.
#[derive(Debug)]
pub struct TableConstraints<F, P> {
    pub chaining: Vec<AirConstraint<F>>,
    pub permutation: PhantomData<P>,
}

impl<F: Field, P: PermutationColumns<F>> TableConstraints<F, P> {
    /// All constraints hold on a window.
    pub open spec fn hold(self, w: Window<F>, transition: bool) -> bool {
        &&& air_expr::all_hold(self.chaining@, w, transition)
        &&& permutes::<F, P>(w.local.take(P::sp_column_count() as int))
    }

    /// Whether all constraints hold on a window.
    pub fn check(&self, w: &TraceWindow<F>, transition: bool) -> (r: bool)
        requires
            air_expr::all_fit(self.chaining@, w@),
            P::sp_column_count() <= w@.local.len(),
        ensures
            r == self.hold(w@, transition),
    {
        if !check_all(&self.chaining, w, transition) {
            return false;
        }
        let count: usize = P::column_count();
        let mut columns: Vec<F> = Vec::with_capacity(count);
        let mut i: usize = 0;
        while i < count
            invariant
                i <= count <= w@.local.len(),
                columns@ == w@.local.take(i as int),
            decreases count - i,
        {
            columns.push(w.local[i]);
            i += 1;
            assert(columns@ =~= w@.local.take(i as int));
        }
        P::accepts(&columns)
    }
}

/// `1 - column`.
fn flip<F: Field>(column: AirExpr<F>) -> (r: AirExpr<F>)
    ensures
        forall|w: Window<F>| #[trigger] r.value(w) == flipped(column.value(w)),
        forall|w: Window<F>| #[trigger] r.fits(w) == column.fits(w),
        r.degree() == column.degree(),
{
    let one: AirExpr<F> = AirExpr::Constant(F::one());
    one.minus(column)
}

/// The difference between an element of the next input and an element of the current output.
fn difference<F: Field>(s: &TableShape, input: usize, output: usize) -> (r: AirExpr<F>)
    requires
        s.wf(),
        input < s.width(),
        output < s.width(),
    ensures
        forall|w: Window<F>| #[trigger]
            r.value(w) == s.next_in(w, input as int).sp_sub(s.local_out(w, output as int)),
        forall|w: Window<F>| s.framed(w) ==> #[trigger] r.fits(w),
        r.degree() == 1,
{
    let width: usize = width_of(s);
    let next: AirExpr<F> = AirExpr::MainNext(input);
    let local: AirExpr<F> = AirExpr::Main(s.permutation_columns - width + output);
    next.minus(local)
}

fn width_of(s: &TableShape) -> (r: usize)
    requires
        s.wf(),
    ensures
        r == s.width(),
{
    s.width_ext * s.d
}

fn digest_of(s: &TableShape) -> (r: usize)
    requires
        s.wf(),
    ensures
        r == s.digest(),
        2 * r <= s.width(),
{
    proof {
        lemma_mul_inequality(2 * s.rate_ext as int, s.width_ext as int, s.d as int);
        lemma_mul_is_associative(2, s.rate_ext as int, s.d as int);
        lemma_mul_nonnegative(s.rate_ext as int, s.d as int);
    }
    s.rate_ext * s.d
}

/// The limb of an element.
fn limb_of(s: &TableShape, k: usize, limbs: usize) -> (r: usize)
    requires
        s.wf(),
        k < limbs * s.d,
    ensures
        r == k as int / s.d as int,
        r < limbs,
{
    proof {
        lemma_div_is_ordered_by_denominator_bound(k as int, limbs as int, s.d as int);
    }
    k / s.d
}

proof fn lemma_div_is_ordered_by_denominator_bound(k: int, limbs: int, d: int)
    requires
        0 <= k < limbs * d,
        d > 0,
    ensures
        0 <= k / d < limbs,
{
    lemma_fundamental_div_mod(k, d);
    lemma_div_pos_is_pos(k, d);
    assert(k / d < limbs) by (nonlinear_arith)
        requires
            k < limbs * d,
            k == d * (k / d) + k % d,
            0 <= k % d,
            d > 0,
    ;
}

fn gate_constraint<F: Field>(gate: AirExpr<F>, body: AirExpr<F>) -> (r: AirConstraint<F>)
    ensures
        r.transition,
        forall|w: Window<F>| #[trigger]
            r.body.value(w) == gate.value(w).sp_mul(body.value(w)),
        forall|w: Window<F>| #[trigger] r.body.fits(w) == (gate.fits(w) && body.fits(w)),
        r.body.degree() == gate.degree() + body.degree(),
{
    AirConstraint { transition: true, body: gate.times(body) }
}

/// Adds the sponge chaining of the first `n` elements.
fn add_sponge<F: Field>(
    s: &TableShape,
    compact: bool,
    limbs: usize,
    n: usize,
    constraints: &mut Vec<AirConstraint<F>>,
)
    requires
        s.wf(),
        compact == s.is_compact(),
        limbs <= s.width_ext,
        compact ==> limbs <= s.rate_ext,
        n == limbs * s.d,
        n <= s.width(),
        air_expr::degree_at_most(old(constraints)@, 3),
    ensures
        final(constraints)@.len() == old(constraints)@.len() + n,
        forall|w: Window<F>, t: bool| #[trigger]
            air_expr::all_hold(final(constraints)@, w, t) <==> air_expr::all_hold(
                old(constraints)@,
                w,
                t,
            ) && (t ==> forall|k: int| 0 <= k < n ==> #[trigger] sponge_chains(*s, w, k)),
        air_expr::degree_at_most(final(constraints)@, 3),
        forall|w: Window<F>|
            s.framed(w) && air_expr::all_fit(old(constraints)@, w) ==> #[trigger]
                air_expr::all_fit(final(constraints)@, w),
{
    let ghost start = constraints@;
    let mut k: usize = 0;
    while k < n
        invariant
            k <= n,
            s.wf(),
            compact == s.is_compact(),
            limbs <= s.width_ext,
            compact ==> limbs <= s.rate_ext,
            n == limbs * s.d,
            n <= s.width(),
            constraints@.len() == start.len() + k,
            forall|w: Window<F>, t: bool| #[trigger]
                air_expr::all_hold(constraints@, w, t) <==> air_expr::all_hold(start, w, t) && (t
                    ==> forall|j: int| 0 <= j < k ==> #[trigger] sponge_chains(*s, w, j)),
            air_expr::degree_at_most(constraints@, 3),
            forall|w: Window<F>|
                s.framed(w) && air_expr::all_fit(start, w) ==> #[trigger] air_expr::all_fit(
                    constraints@,
                    w,
                ),
        decreases n - k,
    {
        let ghost before = constraints@;
        let limb: usize = limb_of(s, k, limbs);
        let column: usize = if compact {
            s.rate_ext + 2 + limb
        } else {
            4 * limb + 2
        };
        let gate: AirExpr<F> = AirExpr::PreprocessedNext(column);
        let body: AirExpr<F> = difference(s, k, k);
        let c: AirConstraint<F> = gate_constraint(gate, body);
        push_constraint(constraints, c);
        proof {
            assert forall|w: Window<F>, t: bool| #[trigger]
                air_expr::all_hold(constraints@, w, t) <==> air_expr::all_hold(start, w, t) && (t
                    ==> forall|j: int| 0 <= j < k + 1 ==> #[trigger] sponge_chains(*s, w, j)) by {
                assert(air_expr::all_hold(before, w, t) <==> air_expr::all_hold(start, w, t) && (t
                    ==> forall|j: int| 0 <= j < k ==> #[trigger] sponge_chains(*s, w, j)));
                assert(c.holds(w, t) <==> (t ==> sponge_chains(*s, w, k as int)));
            }
            assert forall|w: Window<F>|
                s.framed(w) && air_expr::all_fit(start, w) implies #[trigger] air_expr::all_fit(
                constraints@,
                w,
            ) by {
                assert(air_expr::all_fit(before, w));
                assert(body.fits(w));
                assert(gate.fits(w));
                assert(c.body.fits(w));
            }
        }
        k += 1;
    }
}

/// The column of the Merkle selector of a limb.
fn merkle_column(s: &TableShape, compact: bool, k: usize) -> (r: usize)
    requires
        s.wf(),
        compact == s.is_compact(),
        k < s.digest(),
    ensures
        r < s.preprocessed_width(),
        forall|w: Window<int>| #[trigger]
            s.merkle_selector(w, k as int / s.d as int) == w.preprocessed_next[r as int],
        r == (if s.is_compact() {
            2 * s.rate_ext + 2 + k as int / s.d as int
        } else {
            4 * (k as int / s.d as int) + 3
        }),
{
    let limb: usize = limb_of(s, k, s.rate_ext);
    if compact {
        2 * s.rate_ext + 2 + limb
    } else {
        4 * limb + 3
    }
}

/// Adds the left-child chaining of an element.
fn push_left<F: Field>(
    s: &TableShape,
    compact: bool,
    k: usize,
    constraints: &mut Vec<AirConstraint<F>>,
)
    requires
        s.wf(),
        compact == s.is_compact(),
        k < s.digest(),
        air_expr::degree_at_most(old(constraints)@, 3),
    ensures
        final(constraints)@.len() == old(constraints)@.len() + 1,
        forall|w: Window<F>, t: bool| #[trigger]
            air_expr::all_hold(final(constraints)@, w, t) <==> air_expr::all_hold(
                old(constraints)@,
                w,
                t,
            ) && (t ==> merkle_chains_left(*s, w, k as int)),
        air_expr::degree_at_most(final(constraints)@, 3),
        forall|w: Window<F>|
            s.framed(w) && air_expr::all_fit(old(constraints)@, w) ==> #[trigger]
                air_expr::all_fit(final(constraints)@, w),
{
    let ghost before = constraints@;
    let _digest: usize = digest_of(s);
    let column: usize = merkle_column(s, compact, k);
    let selector: AirExpr<F> = AirExpr::PreprocessedNext(column);
    let bit: AirExpr<F> = AirExpr::MainNext(s.permutation_columns);
    let is_left: AirExpr<F> = flip(bit);
    let gate: AirExpr<F> = selector.times(is_left);
    let body: AirExpr<F> = difference(s, k, k);
    let c: AirConstraint<F> = gate_constraint(gate, body);
    push_constraint(constraints, c);
    proof {
        assert forall|w: Window<F>, t: bool| #[trigger]
            air_expr::all_hold(constraints@, w, t) <==> air_expr::all_hold(before, w, t) && (t
                ==> merkle_chains_left(*s, w, k as int)) by {
            assert(gate.value(w) == s.merkle_selector(w, k as int / s.d as int).sp_mul(
                flipped(s.next_bit(w)),
            ));
            assert(c.holds(w, t) <==> (t ==> merkle_chains_left(*s, w, k as int)));
        }
        assert forall|w: Window<F>|
            s.framed(w) && air_expr::all_fit(before, w) implies #[trigger] air_expr::all_fit(
            constraints@,
            w,
        ) by {
            assert(selector.fits(w) && bit.fits(w) && is_left.fits(w));
            assert(gate.fits(w) && body.fits(w));
            assert(c.body.fits(w));
        }
    }
}

/// Adds the right-child chaining of an element.
fn push_right<F: Field>(
    s: &TableShape,
    compact: bool,
    k: usize,
    constraints: &mut Vec<AirConstraint<F>>,
)
    requires
        s.wf(),
        compact == s.is_compact(),
        k < s.digest(),
        air_expr::degree_at_most(old(constraints)@, 3),
    ensures
        final(constraints)@.len() == old(constraints)@.len() + 1,
        forall|w: Window<F>, t: bool| #[trigger]
            air_expr::all_hold(final(constraints)@, w, t) <==> air_expr::all_hold(
                old(constraints)@,
                w,
                t,
            ) && (t ==> merkle_chains_right(*s, w, k as int)),
        air_expr::degree_at_most(final(constraints)@, 3),
        forall|w: Window<F>|
            s.framed(w) && air_expr::all_fit(old(constraints)@, w) ==> #[trigger]
                air_expr::all_fit(final(constraints)@, w),
{
    let ghost before = constraints@;
    let digest: usize = digest_of(s);
    let column: usize = merkle_column(s, compact, k);
    let selector: AirExpr<F> = AirExpr::PreprocessedNext(column);
    let bit: AirExpr<F> = AirExpr::MainNext(s.permutation_columns);
    let gate: AirExpr<F> = selector.times(bit);
    let body: AirExpr<F> = difference(s, digest + k, k);
    let c: AirConstraint<F> = gate_constraint(gate, body);
    push_constraint(constraints, c);
    proof {
        assert forall|w: Window<F>, t: bool| #[trigger]
            air_expr::all_hold(constraints@, w, t) <==> air_expr::all_hold(before, w, t) && (t
                ==> merkle_chains_right(*s, w, k as int)) by {
            assert(gate.value(w) == s.merkle_selector(w, k as int / s.d as int).sp_mul(
                s.next_bit(w),
            ));
            assert(c.holds(w, t) <==> (t ==> merkle_chains_right(*s, w, k as int)));
        }
        assert forall|w: Window<F>|
            s.framed(w) && air_expr::all_fit(before, w) implies #[trigger] air_expr::all_fit(
            constraints@,
            w,
        ) by {
            assert(selector.fits(w) && bit.fits(w));
            assert(gate.fits(w) && body.fits(w));
            assert(c.body.fits(w));
        }
    }
}

/// The left and right chaining of the first `n` and `m` elements.
pub open spec fn merkle_part<F: Field>(s: TableShape, w: Window<F>, n: int, m: int) -> bool {
    &&& forall|k: int| 0 <= k < n ==> #[trigger] merkle_chains_left(s, w, k)
    &&& forall|k: int| 0 <= k < m ==> #[trigger] merkle_chains_right(s, w, k)
}

/// Adds the Merkle chaining: element by element in the compact layout, else all left parts before
/// all right parts.
fn add_merkle<F: Field>(
    s: &TableShape,
    compact: bool,
    constraints: &mut Vec<AirConstraint<F>>,
)
    requires
        s.wf(),
        compact == s.is_compact(),
        air_expr::degree_at_most(old(constraints)@, 3),
    ensures
        final(constraints)@.len() == old(constraints)@.len() + 2 * s.digest(),
        forall|w: Window<F>, t: bool| #[trigger]
            air_expr::all_hold(final(constraints)@, w, t) <==> air_expr::all_hold(
                old(constraints)@,
                w,
                t,
            ) && (t ==> merkle_part(*s, w, s.digest() as int, s.digest() as int)),
        air_expr::degree_at_most(final(constraints)@, 3),
        forall|w: Window<F>|
            s.framed(w) && air_expr::all_fit(old(constraints)@, w) ==> #[trigger]
                air_expr::all_fit(final(constraints)@, w),
{
    let ghost start = constraints@;
    let n: usize = digest_of(s);
    let mut k: usize = 0;
    while k < n
        invariant
            k <= n,
            n == s.digest(),
            s.wf(),
            compact == s.is_compact(),
            constraints@.len() == start.len() + (if compact {
                2 * k
            } else {
                k as int
            }),
            forall|w: Window<F>, t: bool| #[trigger]
                air_expr::all_hold(constraints@, w, t) <==> air_expr::all_hold(start, w, t) && (t
                    ==> merkle_part(
                    *s,
                    w,
                    k as int,
                    if compact {
                        k as int
                    } else {
                        0
                    },
                )),
            air_expr::degree_at_most(constraints@, 3),
            forall|w: Window<F>|
                s.framed(w) && air_expr::all_fit(start, w) ==> #[trigger] air_expr::all_fit(
                    constraints@,
                    w,
                ),
        decreases n - k,
    {
        let ghost before = constraints@;
        push_left(s, compact, k, constraints);
        let ghost mid = constraints@;
        if compact {
            push_right(s, compact, k, constraints);
        }
        proof {
            assert forall|w: Window<F>, t: bool| #[trigger]
                air_expr::all_hold(constraints@, w, t) <==> air_expr::all_hold(start, w, t) && (t
                    ==> merkle_part(
                    *s,
                    w,
                    k + 1,
                    if compact {
                        k + 1
                    } else {
                        0
                    },
                )) by {
                assert(air_expr::all_hold(mid, w, t) <==> air_expr::all_hold(before, w, t) && (t
                    ==> merkle_chains_left(*s, w, k as int)));
            }
            assert forall|w: Window<F>|
                s.framed(w) && air_expr::all_fit(start, w) implies #[trigger] air_expr::all_fit(
                constraints@,
                w,
            ) by {
                assert(air_expr::all_fit(before, w));
                assert(air_expr::all_fit(mid, w));
            }
        }
        k += 1;
    }
    if !compact {
        let mut k: usize = 0;
        while k < n
            invariant
                k <= n,
                n == s.digest(),
                s.wf(),
                compact == s.is_compact(),
                constraints@.len() == start.len() + n + k,
                forall|w: Window<F>, t: bool| #[trigger]
                    air_expr::all_hold(constraints@, w, t) <==> air_expr::all_hold(start, w, t)
                        && (t ==> merkle_part(*s, w, n as int, k as int)),
                air_expr::degree_at_most(constraints@, 3),
                forall|w: Window<F>|
                    s.framed(w) && air_expr::all_fit(start, w) ==> #[trigger] air_expr::all_fit(
                        constraints@,
                        w,
                    ),
            decreases n - k,
        {
            let ghost before = constraints@;
            push_right(s, compact, k, constraints);
            proof {
                assert forall|w: Window<F>, t: bool| #[trigger]
                    air_expr::all_hold(constraints@, w, t) <==> air_expr::all_hold(start, w, t)
                        && (t ==> merkle_part(*s, w, n as int, k + 1)) by {
                    assert(air_expr::all_hold(before, w, t) <==> air_expr::all_hold(start, w, t)
                        && (t ==> merkle_part(*s, w, n as int, k as int)));
                }
                assert forall|w: Window<F>|
                    s.framed(w) && air_expr::all_fit(start, w) implies #[trigger] air_expr::all_fit(
                    constraints@,
                    w,
                ) by {
                    assert(air_expr::all_fit(before, w));
                }
            }
            k += 1;
        }
    }
}

/// The tag of an element of the capacity.
fn tag_expr<F: Field>(s: &TableShape, digest: usize, k: usize) -> (r: AirExpr<F>)
    requires
        s.wf(),
        s.is_compact(),
        digest == s.digest(),
    ensures
        forall|w: Window<F>| #[trigger] r.value(w) == tag_of(*s, w, k as int),
        forall|w: Window<F>| s.framed(w) ==> #[trigger] r.fits(w),
        r.degree() <= 1,
{
    if k == digest {
        AirExpr::PreprocessedNext(s.rate_ext)
    } else {
        AirExpr::Constant(F::zero())
    }
}

/// The column of the next row's Merkle flag.
fn tail_of(s: &TableShape, compact: bool) -> (r: usize)
    requires
        s.wf(),
        compact == s.is_compact(),
    ensures
        r == s.tail(),
        r + 4 == s.preprocessed_width(),
{
    if compact {
        poseidon_d1_compact_preprocessed_header_cols(s.rate_ext) + s.width_ext + s.rate_ext
            + s.rate_ext
    } else {
        4 * s.width_ext + 2 * s.rate_ext
    }
}

/// Adds the chaining of the capacity.
fn add_capacity_chain<F: Field>(s: &TableShape, constraints: &mut Vec<AirConstraint<F>>)
    requires
        s.wf(),
        s.is_compact(),
        air_expr::degree_at_most(old(constraints)@, 3),
    ensures
        final(constraints)@.len() == old(constraints)@.len() + s.width() - s.digest(),
        forall|w: Window<F>, t: bool| #[trigger]
            air_expr::all_hold(final(constraints)@, w, t) <==> air_expr::all_hold(
                old(constraints)@,
                w,
                t,
            ) && (t ==> forall|k: int|
                s.digest() <= k < s.width() ==> #[trigger] capacity_chains(*s, w, k)),
        air_expr::degree_at_most(final(constraints)@, 3),
        forall|w: Window<F>|
            s.framed(w) && air_expr::all_fit(old(constraints)@, w) ==> #[trigger]
                air_expr::all_fit(final(constraints)@, w),
{
    let ghost start = constraints@;
    let digest: usize = digest_of(s);
    let width: usize = width_of(s);
    let tail: usize = tail_of(s, true);
    let mut k: usize = digest;
    while k < width
        invariant
            digest <= k <= width,
            digest == s.digest(),
            width == s.width(),
            tail == s.tail(),
            tail + 4 == s.preprocessed_width(),
            s.wf(),
            s.is_compact(),
            constraints@.len() == start.len() + k - digest,
            forall|w: Window<F>, t: bool| #[trigger]
                air_expr::all_hold(constraints@, w, t) <==> air_expr::all_hold(start, w, t) && (t
                    ==> forall|j: int| digest <= j < k ==> #[trigger] capacity_chains(*s, w, j)),
            air_expr::degree_at_most(constraints@, 3),
            forall|w: Window<F>|
                s.framed(w) && air_expr::all_fit(start, w) ==> #[trigger] air_expr::all_fit(
                    constraints@,
                    w,
                ),
        decreases width - k,
    {
        let ghost before = constraints@;
        let enable: AirExpr<F> = AirExpr::PreprocessedNext(s.rate_ext + 1);
        let merkle: AirExpr<F> = AirExpr::PreprocessedNext(tail + 3);
        let not_merkle: AirExpr<F> = flip(merkle);
        let gate: AirExpr<F> = enable.times(not_merkle);
        let step: AirExpr<F> = difference(s, k, k);
        let tag: AirExpr<F> = tag_expr(s, digest, k);
        let body: AirExpr<F> = step.minus(tag);
        let c: AirConstraint<F> = gate_constraint(gate, body);
        push_constraint(constraints, c);
        proof {
            assert forall|w: Window<F>, t: bool| #[trigger]
                air_expr::all_hold(constraints@, w, t) <==> air_expr::all_hold(start, w, t) && (t
                    ==> forall|j: int| digest <= j < k + 1 ==> #[trigger] capacity_chains(*s, w, j)) by {
                assert(air_expr::all_hold(before, w, t) <==> air_expr::all_hold(start, w, t) && (t
                    ==> forall|j: int| digest <= j < k ==> #[trigger] capacity_chains(*s, w, j)));
                assert(gate.value(w) == s.capacity_chain(w).sp_mul(
                    flipped(s.next_merkle_path(w)),
                ));
                assert(c.holds(w, t) <==> (t ==> capacity_chains(*s, w, k as int)));
            }
            assert forall|w: Window<F>|
                s.framed(w) && air_expr::all_fit(start, w) implies #[trigger] air_expr::all_fit(
                constraints@,
                w,
            ) by {
                assert(air_expr::all_fit(before, w));
                assert(enable.fits(w) && merkle.fits(w) && not_merkle.fits(w));
                assert(step.fits(w) && tag.fits(w));
                assert(gate.fits(w) && body.fits(w));
                assert(c.body.fits(w));
            }
        }
        k += 1;
    }
}

/// Adds the start of the capacity.
fn add_capacity_start<F: Field>(s: &TableShape, constraints: &mut Vec<AirConstraint<F>>)
    requires
        s.wf(),
        s.is_compact(),
        air_expr::degree_at_most(old(constraints)@, 3),
    ensures
        final(constraints)@.len() == old(constraints)@.len() + s.width() - s.digest(),
        forall|w: Window<F>, t: bool| #[trigger]
            air_expr::all_hold(final(constraints)@, w, t) <==> air_expr::all_hold(
                old(constraints)@,
                w,
                t,
            ) && (t ==> forall|k: int|
                s.digest() <= k < s.width() ==> #[trigger] capacity_starts(*s, w, k)),
        air_expr::degree_at_most(final(constraints)@, 3),
        forall|w: Window<F>|
            s.framed(w) && air_expr::all_fit(old(constraints)@, w) ==> #[trigger]
                air_expr::all_fit(final(constraints)@, w),
{
    let ghost start = constraints@;
    let digest: usize = digest_of(s);
    let width: usize = width_of(s);
    let tail: usize = tail_of(s, true);
    let mut k: usize = digest;
    while k < width
        invariant
            digest <= k <= width,
            digest == s.digest(),
            width == s.width(),
            tail == s.tail(),
            tail + 4 == s.preprocessed_width(),
            s.wf(),
            s.is_compact(),
            constraints@.len() == start.len() + k - digest,
            forall|w: Window<F>, t: bool| #[trigger]
                air_expr::all_hold(constraints@, w, t) <==> air_expr::all_hold(start, w, t) && (t
                    ==> forall|j: int| digest <= j < k ==> #[trigger] capacity_starts(*s, w, j)),
            air_expr::degree_at_most(constraints@, 3),
            forall|w: Window<F>|
                s.framed(w) && air_expr::all_fit(start, w) ==> #[trigger] air_expr::all_fit(
                    constraints@,
                    w,
                ),
        decreases width - k,
    {
        let ghost before = constraints@;
        let new_start: AirExpr<F> = AirExpr::PreprocessedNext(tail + 2);
        let merkle: AirExpr<F> = AirExpr::PreprocessedNext(tail + 3);
        let not_merkle: AirExpr<F> = flip(merkle);
        let input: AirExpr<F> = AirExpr::MainNext(k);
        let tag: AirExpr<F> = tag_expr(s, digest, k);
        let rest: AirExpr<F> = input.minus(tag);
        let body: AirExpr<F> = not_merkle.times(rest);
        let c: AirConstraint<F> = gate_constraint(new_start, body);
        push_constraint(constraints, c);
        proof {
            assert forall|w: Window<F>, t: bool| #[trigger]
                air_expr::all_hold(constraints@, w, t) <==> air_expr::all_hold(start, w, t) && (t
                    ==> forall|j: int| digest <= j < k + 1 ==> #[trigger] capacity_starts(*s, w, j)) by {
                assert(air_expr::all_hold(before, w, t) <==> air_expr::all_hold(start, w, t) && (t
                    ==> forall|j: int| digest <= j < k ==> #[trigger] capacity_starts(*s, w, j)));
                assert(body.value(w) == flipped(s.next_merkle_path(w)).sp_mul(
                    s.next_in(w, k as int).sp_sub(tag_of(*s, w, k as int)),
                ));
                assert(c.holds(w, t) <==> (t ==> capacity_starts(*s, w, k as int)));
            }
            assert forall|w: Window<F>|
                s.framed(w) && air_expr::all_fit(start, w) implies #[trigger] air_expr::all_fit(
                constraints@,
                w,
            ) by {
                assert(air_expr::all_fit(before, w));
                assert(new_start.fits(w) && merkle.fits(w) && not_merkle.fits(w));
                assert(input.fits(w) && tag.fits(w));
                assert(rest.fits(w) && body.fits(w));
                assert(c.body.fits(w));
            }
        }
        k += 1;
    }
}

/// Adds the accumulator.
fn add_accumulator<F: Field>(
    s: &TableShape,
    compact: bool,
    constraints: &mut Vec<AirConstraint<F>>,
)
    requires
        s.wf(),
        compact == s.is_compact(),
        air_expr::degree_at_most(old(constraints)@, 3),
    ensures
        final(constraints)@.len() == old(constraints)@.len() + 1,
        forall|w: Window<F>, t: bool| #[trigger]
            air_expr::all_hold(final(constraints)@, w, t) <==> air_expr::all_hold(
                old(constraints)@,
                w,
                t,
            ) && (t ==> accumulates(*s, w)),
        air_expr::degree_at_most(final(constraints)@, 3),
        forall|w: Window<F>|
            s.framed(w) && air_expr::all_fit(old(constraints)@, w) ==> #[trigger]
                air_expr::all_fit(final(constraints)@, w),
{
    let ghost before = constraints@;
    let tail: usize = tail_of(s, compact);
    let p: usize = s.permutation_columns;
    let new_start: AirExpr<F> = AirExpr::PreprocessedNext(tail + 2);
    let continues: AirExpr<F> = flip(new_start);
    let merkle: AirExpr<F> = AirExpr::PreprocessedNext(tail + 3);
    let next_sum: AirExpr<F> = AirExpr::MainNext(p + 1);
    let sum: AirExpr<F> = AirExpr::Main(p + 1);
    let two: AirExpr<F> = AirExpr::Constant(F::one().add(F::one()));
    let doubled: AirExpr<F> = sum.times(two);
    let bit: AirExpr<F> = AirExpr::MainNext(p);
    let expected: AirExpr<F> = doubled.plus(bit);
    let step: AirExpr<F> = next_sum.minus(expected);
    let body: AirExpr<F> = merkle.times(step);
    let c: AirConstraint<F> = gate_constraint(continues, body);
    push_constraint(constraints, c);
    proof {
        assert forall|w: Window<F>, t: bool| #[trigger]
            air_expr::all_hold(constraints@, w, t) <==> air_expr::all_hold(before, w, t) && (t
                ==> accumulates(*s, w)) by {
            assert(doubled.value(w) == w.local[p + 1].sp_mul(F::sp_one().sp_add(F::sp_one())));
            assert(expected.value(w) == doubled.value(w).sp_add(w.next[p as int]));
            assert(step.value(w) == w.next[p + 1].sp_sub(expected.value(w)));
            assert(body.value(w) == s.next_merkle_path(w).sp_mul(step.value(w)));
            assert(continues.value(w) == flipped(s.next_new_start(w)));
            assert(c.body.value(w) == continues.value(w).sp_mul(body.value(w)));
            assert(c.holds(w, t) <==> (t ==> accumulates(*s, w)));
        }
        assert forall|w: Window<F>|
            s.framed(w) && air_expr::all_fit(before, w) implies #[trigger] air_expr::all_fit(
            constraints@,
            w,
        ) by {
            assert(new_start.fits(w) && continues.fits(w) && merkle.fits(w) && next_sum.fits(w));
            assert(sum.fits(w) && two.fits(w) && doubled.fits(w) && bit.fits(w));
            assert(expected.fits(w) && step.fits(w) && body.fits(w));
            assert(c.body.fits(w));
        }
    }
}

/// The number of constraints that tie the rows of a table together.
pub open spec fn constraint_count(s: TableShape) -> nat {
    (if s.is_compact() {
        2 + 3 * s.digest() as int + 2 * (s.width() - s.digest())
    } else {
        2 + s.width() as int + 2 * s.digest()
    }) as nat
}

/// The constraints that tie the rows of a table together: the direction bit is boolean, chained rows
/// continue in sponge or Merkle mode, and the accumulator follows the direction bits.
///
/// No constraint is of a higher degree than three.
fn chaining_constraints<F: Field>(s: &TableShape) -> (r: Vec<AirConstraint<F>>)
    requires
        s.wf(),
    ensures
        r@.len() == constraint_count(*s),
        forall|w: Window<F>, t: bool| #[trigger]
            air_expr::all_hold(r@, w, t) <==> row_rules(*s, w, t),
        air_expr::degree_at_most(r@, 3),
        forall|w: Window<F>| s.framed(w) ==> #[trigger] air_expr::all_fit(r@, w),
{
    let compact: bool = poseidon_uses_compact_d1_preprocessed(s.d, s.width_ext, s.rate_ext);
    let mut constraints: Vec<AirConstraint<F>> = Vec::new();
    let ghost none = constraints@;
    let bit: AirExpr<F> = AirExpr::Main(s.permutation_columns);
    let again: AirExpr<F> = AirExpr::Main(s.permutation_columns);
    let one: AirExpr<F> = AirExpr::Constant(F::one());
    let less: AirExpr<F> = again.minus(one);
    let body: AirExpr<F> = bit.times(less);
    let c = AirConstraint { transition: false, body };
    push_constraint(&mut constraints, c);
    let ghost first = constraints@;
    let digest: usize = digest_of(s);
    let width: usize = width_of(s);
    if compact {
        add_sponge(s, compact, s.rate_ext, digest, &mut constraints);
        let ghost second = constraints@;
        add_capacity_chain(s, &mut constraints);
        let ghost third = constraints@;
        add_merkle(s, compact, &mut constraints);
        let ghost fourth = constraints@;
        add_capacity_start(s, &mut constraints);
        let ghost fifth = constraints@;
        add_accumulator(s, compact, &mut constraints);
        proof {
            assert forall|w: Window<F>, t: bool| #[trigger]
                air_expr::all_hold(constraints@, w, t) <==> row_rules(*s, w, t) by {
                assert(air_expr::all_hold(none, w, t));
                assert(c.holds(w, t) <==> bit_is_boolean(*s, w));
                assert(air_expr::all_hold(first, w, t) <==> bit_is_boolean(*s, w));
                assert(air_expr::all_hold(second, w, t) <==> air_expr::all_hold(first, w, t) && (t
                    ==> forall|k: int| 0 <= k < digest ==> #[trigger] sponge_chains(*s, w, k)));
                assert(air_expr::all_hold(third, w, t) <==> air_expr::all_hold(second, w, t) && (t
                    ==> forall|k: int|
                    s.digest() <= k < s.width() ==> #[trigger] capacity_chains(*s, w, k)));
                assert(air_expr::all_hold(fourth, w, t) <==> air_expr::all_hold(third, w, t) && (t
                    ==> merkle_part(*s, w, s.digest() as int, s.digest() as int)));
                assert(air_expr::all_hold(fifth, w, t) <==> air_expr::all_hold(fourth, w, t) && (t
                    ==> forall|k: int|
                    s.digest() <= k < s.width() ==> #[trigger] capacity_starts(*s, w, k)));
            }
            assert forall|w: Window<F>| s.framed(w) implies #[trigger] air_expr::all_fit(
                constraints@,
                w,
            ) by {
                assert(air_expr::all_fit(none, w));
                assert(bit.fits(w) && again.fits(w) && one.fits(w) && less.fits(w) && body.fits(w));
                assert(air_expr::all_fit(first, w));
                assert(air_expr::all_fit(second, w));
                assert(air_expr::all_fit(third, w));
                assert(air_expr::all_fit(fourth, w));
                assert(air_expr::all_fit(fifth, w));
            }
        }
    } else {
        add_sponge(s, compact, s.width_ext, width, &mut constraints);
        let ghost second = constraints@;
        add_merkle(s, compact, &mut constraints);
        let ghost third = constraints@;
        add_accumulator(s, compact, &mut constraints);
        proof {
            assert forall|w: Window<F>, t: bool| #[trigger]
                air_expr::all_hold(constraints@, w, t) <==> row_rules(*s, w, t) by {
                assert(air_expr::all_hold(none, w, t));
                assert(c.holds(w, t) <==> bit_is_boolean(*s, w));
                assert(air_expr::all_hold(first, w, t) <==> bit_is_boolean(*s, w));
                assert(air_expr::all_hold(second, w, t) <==> air_expr::all_hold(first, w, t) && (t
                    ==> forall|k: int| 0 <= k < width ==> #[trigger] sponge_chains(*s, w, k)));
                assert(air_expr::all_hold(third, w, t) <==> air_expr::all_hold(second, w, t) && (t
                    ==> merkle_part(*s, w, s.digest() as int, s.digest() as int)));
            }
            assert forall|w: Window<F>| s.framed(w) implies #[trigger] air_expr::all_fit(
                constraints@,
                w,
            ) by {
                assert(air_expr::all_fit(none, w));
                assert(bit.fits(w) && again.fits(w) && one.fits(w) && less.fits(w) && body.fits(w));
                assert(air_expr::all_fit(first, w));
                assert(air_expr::all_fit(second, w));
                assert(air_expr::all_fit(third, w));
            }
        }
    }
    constraints
}

/// All constraints of a table: the direction bit is boolean, chained rows continue in sponge or
/// Merkle mode, the accumulator follows the direction bits, and every row obeys the permutation.
///
/// No constraint between rows is of a higher degree than three.
pub fn eval<F: Field, P: PermutationColumns<F>>(s: &TableShape) -> (r: TableConstraints<F, P>)
    requires
        s.wf(),
        s.permutation_columns == P::sp_column_count(),
    ensures
        r.chaining@.len() == constraint_count(*s),
        forall|w: Window<F>, t: bool| #[trigger]
            r.hold(w, t) <==> table_rules::<F, P>(*s, w, t),
        air_expr::degree_at_most(r.chaining@, 3),
        forall|w: Window<F>| s.framed(w) ==> #[trigger] air_expr::all_fit(r.chaining@, w),
{
    TableConstraints { chaining: chaining_constraints(s), permutation: PhantomData }
}

/// The fields of a lookup: an index, then `d` columns from `first` on, then zeros up to the width of
/// the witness bus.
pub open spec fn bus_fields<F: Field>(
    w: Window<F>,
    index: int,
    first: int,
    d: nat,
    witness_d: nat,
) -> Seq<F> {
    Seq::new(
        witness_d + 1,
        |j: int|
            if j == 0 {
                w.preprocessed[index]
            } else if j <= d {
                w.local[first + j - 1]
            } else {
                F::sp_zero()
            },
    )
}

/// A lookup on the witness bus.
pub open spec fn bus_message<F: Field>(fields: Seq<F>, count: F) -> Message<F> {
    Message { bus: "WitnessChecks", fields, count, weight: 1 }
}

/// The column of the index of an input limb.
pub open spec fn input_index(s: TableShape, limb: int) -> int {
    if s.is_compact() {
        3 * s.rate_ext + 2 + limb
    } else {
        4 * limb
    }
}

/// The column of the index of an output limb.
pub open spec fn output_index(s: TableShape, limb: int) -> int {
    if s.is_compact() {
        3 * s.rate_ext + 2 + s.width_ext + limb
    } else {
        4 * s.width_ext + 2 * limb
    }
}

/// The column of the lookup flag of an output limb.
pub open spec fn output_flag(s: TableShape, limb: int) -> int {
    if s.is_compact() {
        3 * s.rate_ext + 2 + s.width_ext + s.rate_ext + limb
    } else {
        4 * s.width_ext + 2 * limb + 1
    }
}

/// Whether the row is a compression of a given pair: in the compact layout the product of the tag
/// column and the Merkle flag.
pub open spec fn raw_compression<F: Field>(s: TableShape, w: Window<F>) -> F {
    w.preprocessed[s.rate_ext as int].sp_mul(w.preprocessed[s.tail() + 3])
}

/// How often an input limb is received: by its flag outside Merkle rows; in the compact layout also
/// on compressions, where all limbs are received.
pub open spec fn input_receives<F: Field>(s: TableShape, w: Window<F>, limb: int) -> F {
    let not_merkle = flipped(w.preprocessed[s.tail() + 3]);
    if !s.is_compact() {
        w.preprocessed[4 * limb + 1].sp_mul(not_merkle)
    } else if limb < s.rate_ext {
        w.preprocessed[limb].sp_mul(not_merkle.sp_add(raw_compression(s, w)))
    } else {
        raw_compression(s, w)
    }
}

/// The lookup of an input limb.
pub open spec fn input_message<F: Field>(s: TableShape, w: Window<F>, limb: int) -> Message<F> {
    bus_message(
        bus_fields(w, input_index(s, limb), limb * s.d, s.d as nat, s.witness_d as nat),
        F::sp_zero().sp_sub(input_receives(s, w, limb)),
    )
}

/// The lookup of an output limb.
pub open spec fn output_message<F: Field>(s: TableShape, w: Window<F>, limb: int) -> Message<F> {
    bus_message(
        bus_fields(
            w,
            output_index(s, limb),
            s.permutation_columns - s.width() + limb * s.d,
            s.d as nat,
            s.witness_d as nat,
        ),
        w.preprocessed[output_flag(s, limb)],
    )
}

/// The lookup of the accumulator: on the last row of a Merkle chain.
pub open spec fn accumulator_message<F: Field>(s: TableShape, w: Window<F>) -> Message<F> {
    bus_message(
        bus_fields(w, s.tail(), s.permutation_columns + 1, 1, s.witness_d as nat),
        F::sp_zero().sp_sub(
            w.preprocessed[s.tail() + 1].sp_mul(w.preprocessed_next[s.tail() + 2]),
        ),
    )
}

/// All lookups of a window.
pub open spec fn row_messages<F: Field>(s: TableShape, w: Window<F>) -> Seq<Message<F>> {
    Seq::new(s.width_ext as nat, |limb: int| input_message(s, w, limb)) + Seq::new(
        s.rate_ext as nat,
        |limb: int| output_message(s, w, limb),
    ) + seq![accumulator_message(s, w)]
}

/// The fields of a lookup.
fn field_exprs<F: Field>(index: usize, first: usize, d: usize, witness_d: usize) -> (r: Vec<
    AirExpr<F>,
>)
    requires
        d <= witness_d < usize::MAX,
        first + d <= usize::MAX,
    ensures
        r@.len() == witness_d + 1,
        forall|w: Window<F>| #[trigger]
            air_expr::values_of(r@, w) == bus_fields(
                w,
                index as int,
                first as int,
                d as nat,
                witness_d as nat,
            ),
        forall|j: int| 0 <= j < r@.len() ==> (#[trigger] r@[j]).degree() <= 1,
{
    let mut fields: Vec<AirExpr<F>> = Vec::new();
    fields.push(AirExpr::Preprocessed(index));
    let mut j: usize = 0;
    while j < witness_d
        invariant
            j <= witness_d,
            d <= witness_d < usize::MAX,
            first + d <= usize::MAX,
            fields@.len() == j + 1,
            forall|i: int, w: Window<F>|
                0 <= i < fields@.len() ==> #[trigger] fields@[i].value(w) == bus_fields(
                    w,
                    index as int,
                    first as int,
                    d as nat,
                    witness_d as nat,
                )[i],
            forall|i: int| 0 <= i < fields@.len() ==> (#[trigger] fields@[i]).degree() <= 1,
        decreases witness_d - j,
    {
        let ghost before = fields@;
        if j < d {
            fields.push(AirExpr::Main(first + j));
        } else {
            fields.push(AirExpr::Constant(F::zero()));
        }
        j += 1;
        proof {
            assert forall|i: int, w: Window<F>|
                0 <= i < fields@.len() implies #[trigger] fields@[i].value(w) == bus_fields(
                w,
                index as int,
                first as int,
                d as nat,
                witness_d as nat,
            )[i] by {
                if i < before.len() {
                    assert(fields@[i] == before[i]);
                    assert(before[i].value(w) == bus_fields(
                        w,
                        index as int,
                        first as int,
                        d as nat,
                        witness_d as nat,
                    )[i]);
                }
            }
        }
    }
    proof {
        assert forall|w: Window<F>| #[trigger]
            air_expr::values_of(fields@, w) == bus_fields(
                w,
                index as int,
                first as int,
                d as nat,
                witness_d as nat,
            ) by {
            assert(air_expr::values_of(fields@, w) =~= bus_fields(
                w,
                index as int,
                first as int,
                d as nat,
                witness_d as nat,
            ));
        }
    }
    fields
}

/// How often an input limb is received.
fn receives_expr<F: Field>(s: &TableShape, compact: bool, tail: usize, limb: usize) -> (r: AirExpr<
    F,
>)
    requires
        s.wf(),
        compact == s.is_compact(),
        tail == s.tail(),
        limb < s.width_ext,
    ensures
        forall|w: Window<F>| #[trigger] r.value(w) == input_receives(*s, w, limb as int),
        r.degree() <= 3,
{
    let merkle: AirExpr<F> = AirExpr::Preprocessed(tail + 3);
    let not_merkle: AirExpr<F> = flip(AirExpr::Preprocessed(tail + 3));
    if !compact {
        let flag: AirExpr<F> = AirExpr::Preprocessed(4 * limb + 1);
        let r: AirExpr<F> = flag.times(not_merkle);
        assert forall|w: Window<F>| #[trigger] r.value(w) == input_receives(*s, w, limb as int) by {
            assert(flag.value(w) == w.preprocessed[4 * limb + 1]);
            assert(not_merkle.value(w) == flipped(w.preprocessed[s.tail() + 3]));
        }
        return r;
    }
    let tag: AirExpr<F> = AirExpr::Preprocessed(s.rate_ext);
    let raw: AirExpr<F> = tag.times(merkle);
    assert(forall|w: Window<F>| #[trigger] raw.value(w) == raw_compression(*s, w));
    if limb < s.rate_ext {
        let flag: AirExpr<F> = AirExpr::Preprocessed(limb);
        let rate: AirExpr<F> = not_merkle.plus(raw);
        let r: AirExpr<F> = flag.times(rate);
        assert forall|w: Window<F>| #[trigger] r.value(w) == input_receives(*s, w, limb as int) by {
            assert(flag.value(w) == w.preprocessed[limb as int]);
            assert(not_merkle.value(w) == flipped(w.preprocessed[s.tail() + 3]));
            assert(rate.value(w) == not_merkle.value(w).sp_add(raw.value(w)));
        }
        r
    } else {
        raw
    }
}

/// All lookups of a table: one for each input limb, one for each output limb, and one for the
/// accumulator at the end of each Merkle chain.
pub fn eval_interactions<F: Field>(s: &TableShape) -> (r: Vec<Interaction<F>>)
    requires
        s.wf(),
    ensures
        forall|w: Window<F>| #[trigger] air_expr::messages(r@, w) == row_messages(*s, w),
        forall|i: int| 0 <= i < r@.len() ==> (#[trigger] r@[i]).degree_at_most(3),
{
    let compact: bool = poseidon_uses_compact_d1_preprocessed(s.d, s.width_ext, s.rate_ext);
    let tail: usize = tail_of(s, compact);
    let width: usize = width_of(s);
    let mut interactions: Vec<Interaction<F>> = Vec::new();
    let mut limb: usize = 0;
    while limb < s.width_ext
        invariant
            limb <= s.width_ext,
            s.wf(),
            compact == s.is_compact(),
            tail == s.tail(),
            tail + 4 == s.preprocessed_width(),
            width == s.width(),
            interactions@.len() == limb,
            forall|i: int, w: Window<F>|
                0 <= i < limb ==> #[trigger] interactions@[i].message(w) == input_message(*s, w, i),
            forall|i: int| 0 <= i < limb ==> (#[trigger] interactions@[i]).degree_at_most(3),
        decreases s.width_ext - limb,
    {
        let ghost before = interactions@;
        proof {
            lemma_limb_fits(limb as int, s.width_ext as int, s.d as int);
        }
        let index: usize = if compact {
            poseidon_d1_compact_preprocessed_header_cols(s.rate_ext) + limb
        } else {
            4 * limb
        };
        let fields: Vec<AirExpr<F>> = field_exprs(index, limb * s.d, s.d, s.witness_d);
        let receives: AirExpr<F> = receives_expr(s, compact, tail, limb);
        let count: AirExpr<F> = receives.negated();
        interactions.push(Interaction { bus: "WitnessChecks", fields, count, weight: 1 });
        proof {
            assert forall|i: int, w: Window<F>|
                0 <= i < limb + 1 implies #[trigger] interactions@[i].message(w) == input_message(
                *s,
                w,
                i,
            ) by {
                if i < limb {
                    assert(interactions@[i] == before[i]);
                    assert(before[i].message(w) == input_message(*s, w, i));
                } else {
                    assert(air_expr::values_of(fields@, w) == input_message(*s, w, i).fields);
                    assert(count.value(w) == F::sp_zero().sp_sub(receives.value(w)));
                }
            }
        }
        limb += 1;
    }
    let ghost inputs = interactions@;
    let mut limb: usize = 0;
    while limb < s.rate_ext
        invariant
            limb <= s.rate_ext,
            s.wf(),
            compact == s.is_compact(),
            tail == s.tail(),
            tail + 4 == s.preprocessed_width(),
            width == s.width(),
            inputs.len() == s.width_ext,
            interactions@.len() == s.width_ext + limb,
            inputs.is_prefix_of(interactions@),
            forall|i: int, w: Window<F>|
                0 <= i < limb ==> #[trigger] interactions@[s.width_ext + i].message(w)
                    == output_message(*s, w, i),
            forall|i: int|
                s.width_ext <= i < interactions@.len() ==> (
                #[trigger] interactions@[i]).degree_at_most(3),
        decreases s.rate_ext - limb,
    {
        let ghost before = interactions@;
        proof {
            lemma_limb_fits(limb as int, s.rate_ext as int, s.d as int);
            lemma_mul_inequality(s.rate_ext as int, s.width_ext as int, s.d as int);
        }
        let index: usize = if compact {
            poseidon_d1_compact_preprocessed_header_cols(s.rate_ext) + s.width_ext + limb
        } else {
            4 * s.width_ext + 2 * limb
        };
        let flag: usize = if compact {
            poseidon_d1_compact_preprocessed_header_cols(s.rate_ext) + s.width_ext + s.rate_ext
                + limb
        } else {
            4 * s.width_ext + 2 * limb + 1
        };
        let fields: Vec<AirExpr<F>> = field_exprs(
            index,
            s.permutation_columns - width + limb * s.d,
            s.d,
            s.witness_d,
        );
        let count: AirExpr<F> = AirExpr::Preprocessed(flag);
        interactions.push(Interaction { bus: "WitnessChecks", fields, count, weight: 1 });
        proof {
            assert forall|i: int, w: Window<F>|
                0 <= i < limb + 1 implies #[trigger] interactions@[s.width_ext + i].message(w)
                    == output_message(*s, w, i) by {
                if i < limb {
                    assert(interactions@[s.width_ext + i] == before[s.width_ext + i]);
                    assert(before[s.width_ext + i].message(w) == output_message(*s, w, i));
                } else {
                    assert(air_expr::values_of(fields@, w) == output_message(*s, w, i).fields);
                }
            }
        }
        limb += 1;
    }
    let ghost both = interactions@;
    let fields: Vec<AirExpr<F>> = field_exprs(tail, s.permutation_columns + 1, 1, s.witness_d);
    let flag: AirExpr<F> = AirExpr::Preprocessed(tail + 1);
    let ends: AirExpr<F> = AirExpr::PreprocessedNext(tail + 2);
    let product: AirExpr<F> = flag.times(ends);
    let count: AirExpr<F> = product.negated();
    interactions.push(Interaction { bus: "WitnessChecks", fields, count, weight: 1 });
    proof {
        assert forall|w: Window<F>| #[trigger]
            air_expr::messages(interactions@, w) == row_messages(*s, w) by {
            let got = air_expr::messages(interactions@, w);
            let want = row_messages(*s, w);
            assert(got.len() == want.len());
            assert forall|i: int| 0 <= i < got.len() implies got[i] == want[i] by {
                if i < s.width_ext {
                    assert(interactions@[i] == inputs[i]);
                    assert(inputs[i].message(w) == input_message(*s, w, i));
                } else if i < s.width_ext + s.rate_ext {
                    let j = i - s.width_ext;
                    assert(interactions@[i] == both[s.width_ext + j]);
                    assert(both[s.width_ext + j].message(w) == output_message(*s, w, j));
                } else {
                    assert(air_expr::values_of(fields@, w) == accumulator_message(*s, w).fields);
                    assert(product.value(w) == w.preprocessed[s.tail() + 1].sp_mul(
                        w.preprocessed_next[s.tail() + 2],
                    ));
                }
            }
            assert(got =~= want);
        }
        assert forall|i: int| 0 <= i < interactions@.len() implies (
        #[trigger] interactions@[i]).degree_at_most(3) by {
            if i < s.width_ext {
                assert(inputs[i].degree_at_most(3));
                assert(interactions@[i] == inputs[i]);
            } else if i < s.width_ext + s.rate_ext {
                assert(both[i].degree_at_most(3));
                assert(interactions@[i] == both[i]);
            }
        }
    }
    interactions
}

proof fn lemma_limb_fits(limb: int, limbs: int, d: int)
    requires
        0 <= limb < limbs,
        d >= 1,
    ensures
        0 <= limb * d,
        limb * d + d <= limbs * d,
{
    assert(0 <= limb * d && limb * d + d <= limbs * d) by (nonlinear_arith)
        requires
            0 <= limb < limbs,
            d >= 1,
    ;
}

} // verus!
