//! Constraints and lookups of tables as expressions over their columns.

use vstd::prelude::*;

use crate::field::Field;

verus! {

/// An expression over two adjacent rows of a table, each with its main and its preprocessed
/// columns.
#[derive(Debug, PartialEq, Eq)]
pub enum AirExpr<F> {
    Constant(F),
    /// A main column of the current row.
    Main(usize),
    /// A main column of the next row.
    MainNext(usize),
    /// A preprocessed column of the current row.
    Preprocessed(usize),
    /// A preprocessed column of the next row.
    PreprocessedNext(usize),
    Add(Box<AirExpr<F>>, Box<AirExpr<F>>),
    Sub(Box<AirExpr<F>>, Box<AirExpr<F>>),
    Mul(Box<AirExpr<F>>, Box<AirExpr<F>>),
    Neg(Box<AirExpr<F>>),
}

/// Two adjacent rows of a table.
#[verifier::ext_equal]
pub struct Window<F> {
    pub local: Seq<F>,
    pub next: Seq<F>,
    pub preprocessed: Seq<F>,
    pub preprocessed_next: Seq<F>,
}

/// Two adjacent rows of a table.
pub struct TraceWindow<'a, F> {
    pub local: &'a [F],
    pub next: &'a [F],
    pub preprocessed: &'a [F],
    pub preprocessed_next: &'a [F],
}

impl<'a, F> View for TraceWindow<'a, F> {
    type V = Window<F>;

    open spec fn view(&self) -> Window<F> {
        Window {
            local: self.local@,
            next: self.next@,
            preprocessed: self.preprocessed@,
            preprocessed_next: self.preprocessed_next@,
        }
    }
}

impl<F: Field> AirExpr<F> {
    /// The value of the expression.
    pub open spec fn value(self, w: Window<F>) -> F
        decreases self,
    {
        match self {
            AirExpr::Constant(c) => c,
            AirExpr::Main(i) => w.local[i as int],
            AirExpr::MainNext(i) => w.next[i as int],
            AirExpr::Preprocessed(i) => w.preprocessed[i as int],
            AirExpr::PreprocessedNext(i) => w.preprocessed_next[i as int],
            AirExpr::Add(a, b) => a.value(w).sp_add(b.value(w)),
            AirExpr::Sub(a, b) => a.value(w).sp_sub(b.value(w)),
            AirExpr::Mul(a, b) => a.value(w).sp_mul(b.value(w)),
            AirExpr::Neg(a) => F::sp_zero().sp_sub(a.value(w)),
        }
    }

    /// All columns of the expression are in the window.
    pub open spec fn fits(self, w: Window<F>) -> bool
        decreases self,
    {
        match self {
            AirExpr::Constant(_) => true,
            AirExpr::Main(i) => i < w.local.len(),
            AirExpr::MainNext(i) => i < w.next.len(),
            AirExpr::Preprocessed(i) => i < w.preprocessed.len(),
            AirExpr::PreprocessedNext(i) => i < w.preprocessed_next.len(),
            AirExpr::Add(a, b) => a.fits(w) && b.fits(w),
            AirExpr::Sub(a, b) => a.fits(w) && b.fits(w),
            AirExpr::Mul(a, b) => a.fits(w) && b.fits(w),
            AirExpr::Neg(a) => a.fits(w),
        }
    }

    /// The degree of the expression as a polynomial in the columns.
    pub open spec fn degree(self) -> nat
        decreases self,
    {
        match self {
            AirExpr::Constant(_) => 0,
            AirExpr::Main(_) => 1,
            AirExpr::MainNext(_) => 1,
            AirExpr::Preprocessed(_) => 1,
            AirExpr::PreprocessedNext(_) => 1,
            AirExpr::Add(a, b) => larger(a.degree(), b.degree()),
            AirExpr::Sub(a, b) => larger(a.degree(), b.degree()),
            AirExpr::Mul(a, b) => a.degree() + b.degree(),
            AirExpr::Neg(a) => a.degree(),
        }
    }

    /// The value of the expression.
    pub fn evaluate(&self, w: &TraceWindow<F>) -> (r: F)
        requires
            self.fits(w@),
        ensures
            r == self.value(w@),
        decreases self,
    {
        match self {
            AirExpr::Constant(c) => *c,
            AirExpr::Main(i) => w.local[*i],
            AirExpr::MainNext(i) => w.next[*i],
            AirExpr::Preprocessed(i) => w.preprocessed[*i],
            AirExpr::PreprocessedNext(i) => w.preprocessed_next[*i],
            AirExpr::Add(a, b) => a.evaluate(w).add(b.evaluate(w)),
            AirExpr::Sub(a, b) => a.evaluate(w).sub(b.evaluate(w)),
            AirExpr::Mul(a, b) => a.evaluate(w).mul(b.evaluate(w)),
            AirExpr::Neg(a) => F::zero().sub(a.evaluate(w)),
        }
    }

    pub fn plus(self, rhs: AirExpr<F>) -> (r: AirExpr<F>)
        ensures
            forall|w: Window<F>| #[trigger] r.value(w) == self.value(w).sp_add(rhs.value(w)),
            forall|w: Window<F>| #[trigger] r.fits(w) == (self.fits(w) && rhs.fits(w)),
            r.degree() == larger(self.degree(), rhs.degree()),
    {
        AirExpr::Add(Box::new(self), Box::new(rhs))
    }

    pub fn minus(self, rhs: AirExpr<F>) -> (r: AirExpr<F>)
        ensures
            forall|w: Window<F>| #[trigger] r.value(w) == self.value(w).sp_sub(rhs.value(w)),
            forall|w: Window<F>| #[trigger] r.fits(w) == (self.fits(w) && rhs.fits(w)),
            r.degree() == larger(self.degree(), rhs.degree()),
    {
        AirExpr::Sub(Box::new(self), Box::new(rhs))
    }

    pub fn times(self, rhs: AirExpr<F>) -> (r: AirExpr<F>)
        ensures
            forall|w: Window<F>| #[trigger] r.value(w) == self.value(w).sp_mul(rhs.value(w)),
            forall|w: Window<F>| #[trigger] r.fits(w) == (self.fits(w) && rhs.fits(w)),
            r.degree() == self.degree() + rhs.degree(),
    {
        AirExpr::Mul(Box::new(self), Box::new(rhs))
    }

    pub fn negated(self) -> (r: AirExpr<F>)
        ensures
            forall|w: Window<F>| #[trigger] r.value(w) == F::sp_zero().sp_sub(self.value(w)),
            forall|w: Window<F>| #[trigger] r.fits(w) == self.fits(w),
            r.degree() == self.degree(),
    {
        AirExpr::Neg(Box::new(self))
    }
}

pub open spec fn larger(a: nat, b: nat) -> nat {
    if a >= b {
        a
    } else {
        b
    }
}

/// An expression that must vanish: on every row, or on every row but the last.
#[derive(Debug, PartialEq, Eq)]
pub struct AirConstraint<F> {
    pub transition: bool,
    pub body: AirExpr<F>,
}

impl<F: Field> AirConstraint<F> {
    /// The constraint holds on a window; `transition` tells whether the window is not the one that
    /// wraps around from the last row to the first.
    pub open spec fn holds(self, w: Window<F>, transition: bool) -> bool {
        self.transition && !transition || self.body.value(w) == F::sp_zero()
    }

    /// Whether the constraint holds on a window.
    pub fn check(&self, w: &TraceWindow<F>, transition: bool) -> (r: bool)
        requires
            self.body.fits(w@),
        ensures
            r == self.holds(w@, transition),
    {
        if self.transition && !transition {
            true
        } else {
            self.body.evaluate(w).equals(F::zero())
        }
    }
}

/// All constraints hold.
pub open spec fn all_hold<F: Field>(
    constraints: Seq<AirConstraint<F>>,
    w: Window<F>,
    transition: bool,
) -> bool {
    forall|i: int| 0 <= i < constraints.len() ==> (#[trigger] constraints[i]).holds(w, transition)
}

/// No constraint is of a higher degree.
pub open spec fn degree_at_most<F: Field>(constraints: Seq<AirConstraint<F>>, n: nat) -> bool {
    forall|i: int| 0 <= i < constraints.len() ==> (#[trigger] constraints[i]).body.degree() <= n
}

/// All columns of the constraints are in the window.
pub open spec fn all_fit<F: Field>(constraints: Seq<AirConstraint<F>>, w: Window<F>) -> bool {
    forall|i: int| 0 <= i < constraints.len() ==> (#[trigger] constraints[i]).body.fits(w)
}

/// Whether all constraints hold on a window.
pub fn check_all<F: Field>(
    constraints: &Vec<AirConstraint<F>>,
    w: &TraceWindow<F>,
    transition: bool,
) -> (r: bool)
    requires
        all_fit(constraints@, w@),
    ensures
        r == all_hold(constraints@, w@, transition),
{
    let mut i: usize = 0;
    while i < constraints.len()
        invariant
            i <= constraints@.len(),
            all_fit(constraints@, w@),
            forall|j: int| 0 <= j < i ==> (#[trigger] constraints@[j]).holds(w@, transition),
        decreases constraints@.len() - i,
    {
        if !constraints[i].check(w, transition) {
            return false;
        }
        i += 1;
    }
    true
}

/// A lookup: the values of the fields go to a bus with a signed multiplicity, positive for sends
/// and negative for receives, of an absolute value at most `weight`.
#[derive(Debug, PartialEq, Eq)]
pub struct Interaction<F> {
    pub bus: &'static str,
    pub fields: Vec<AirExpr<F>>,
    pub count: AirExpr<F>,
    pub weight: u32,
}

/// A lookup with its values.
#[verifier::ext_equal]
pub struct Message<F> {
    pub bus: &'static str,
    pub fields: Seq<F>,
    pub count: F,
    pub weight: u32,
}

/// The values of expressions.
pub open spec fn values_of<F: Field>(exprs: Seq<AirExpr<F>>, w: Window<F>) -> Seq<F> {
    Seq::new(exprs.len(), |i: int| exprs[i].value(w))
}

impl<F: Field> Interaction<F> {
    /// The lookup on a window.
    pub open spec fn message(self, w: Window<F>) -> Message<F> {
        Message {
            bus: self.bus,
            fields: values_of(self.fields@, w),
            count: self.count.value(w),
            weight: self.weight,
        }
    }

    /// The larger of the degrees of the fields and of the multiplicity is at most `n`.
    pub open spec fn degree_at_most(self, n: nat) -> bool {
        &&& self.count.degree() <= n
        &&& forall|i: int| 0 <= i < self.fields@.len() ==> (#[trigger] self.fields@[i]).degree() <= n
    }
}

/// The lookups of a window.
pub open spec fn messages<F: Field>(interactions: Seq<Interaction<F>>, w: Window<F>) -> Seq<
    Message<F>,
> {
    Seq::new(interactions.len(), |i: int| interactions[i].message(w))
}

/// The constraints and lookups of a table.
#[derive(Debug, PartialEq, Eq)]
pub struct AirRules<F> {
    pub constraints: Vec<AirConstraint<F>>,
    pub interactions: Vec<Interaction<F>>,
}

/// Adds a constraint.
pub fn push_constraint<F: Field>(constraints: &mut Vec<AirConstraint<F>>, c: AirConstraint<F>)
    ensures
        final(constraints)@ == old(constraints)@.push(c),
        forall|w: Window<F>, t: bool| #[trigger]
            all_hold(final(constraints)@, w, t) <==> all_hold(old(constraints)@, w, t) && c.holds(
                w,
                t,
            ),
        forall|w: Window<F>| #[trigger]
            all_fit(final(constraints)@, w) <==> all_fit(old(constraints)@, w) && c.body.fits(w),
        forall|n: nat| #[trigger]
            degree_at_most(final(constraints)@, n) <==> degree_at_most(old(constraints)@, n)
                && c.body.degree() <= n,
{
    let ghost before = constraints@;
    constraints.push(c);
    proof {
        let after = constraints@;
        assert(after[before.len() as int] == c);
        assert forall|i: int| 0 <= i < before.len() implies #[trigger] before[i] == after[i] by {}
        assert forall|w: Window<F>, t: bool| #[trigger]
            all_hold(after, w, t) <==> all_hold(before, w, t) && c.holds(w, t) by {
            if all_hold(after, w, t) {
                assert forall|i: int| 0 <= i < before.len() implies (#[trigger] before[i]).holds(
                    w,
                    t,
                ) by {
                    assert(after[i].holds(w, t));
                }
                assert(after[before.len() as int].holds(w, t));
            }
        }
        assert forall|w: Window<F>| #[trigger]
            all_fit(after, w) <==> all_fit(before, w) && c.body.fits(w) by {
            if all_fit(after, w) {
                assert forall|i: int| 0 <= i < before.len() implies (
                #[trigger] before[i]).body.fits(w) by {
                    assert(after[i].body.fits(w));
                }
                assert(after[before.len() as int].body.fits(w));
            }
        }
        assert forall|n: nat| #[trigger]
            degree_at_most(after, n) <==> degree_at_most(before, n) && c.body.degree() <= n by {
            if degree_at_most(after, n) {
                assert forall|i: int| 0 <= i < before.len() implies (
                #[trigger] before[i]).body.degree() <= n by {
                    assert(after[i].body.degree() <= n);
                }
                assert(after[before.len() as int].body.degree() <= n);
            }
        }
    }
}

} // verus!
