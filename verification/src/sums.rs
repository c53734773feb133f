//! Sums over ranges of integers in a commutative ring.

use vstd::prelude::*;

use crate::field::{CommutativeRing, Field};

verus! {

/// The sum of `f` over the integers from `lo` to `hi`, without `hi`.
pub open spec fn total<F: Field>(f: spec_fn(int) -> F, lo: int, hi: int) -> F
    decreases hi - lo,
{
    if hi <= lo {
        F::sp_zero()
    } else {
        total(f, lo, hi - 1).sp_add(f(hi - 1))
    }
}

pub proof fn lemma_total_wf<F: CommutativeRing>(f: spec_fn(int) -> F, lo: int, hi: int)
    ensures
        total(f, lo, hi).wf(),
{
    F::closed(total(f, lo, hi - 1), f(hi - 1));
}

pub proof fn lemma_congruent<F: Field>(
    f: spec_fn(int) -> F,
    g: spec_fn(int) -> F,
    lo: int,
    hi: int,
)
    requires
        forall|i: int| lo <= i < hi ==> #[trigger] f(i) == g(i),
    ensures
        total(f, lo, hi) == total(g, lo, hi),
    decreases hi - lo,
{
    if lo < hi {
        lemma_congruent(f, g, lo, hi - 1);
    }
}

pub proof fn lemma_split<F: CommutativeRing>(f: spec_fn(int) -> F, lo: int, mid: int, hi: int)
    requires
        lo <= mid <= hi,
    ensures
        total(f, lo, hi) == total(f, lo, mid).sp_add(total(f, mid, hi)),
    decreases hi - mid,
{
    if mid == hi {
        lemma_total_wf(f, lo, mid);
        F::add_zero(total(f, lo, mid));
    } else {
        lemma_split(f, lo, mid, hi - 1);
        F::add_associates(total(f, lo, mid), total(f, mid, hi - 1), f(hi - 1));
    }
}

/// Moving the range along with the summand keeps the sum.
pub proof fn lemma_shift<F: Field>(
    f: spec_fn(int) -> F,
    g: spec_fn(int) -> F,
    d: int,
    lo: int,
    hi: int,
)
    requires
        forall|i: int| lo <= i < hi ==> #[trigger] f(i) == g(i + d),
    ensures
        total(f, lo, hi) == total(g, lo + d, hi + d),
    decreases hi - lo,
{
    if lo < hi {
        lemma_shift(f, g, d, lo, hi - 1);
        assert(f(hi - 1) == g(hi - 1 + d));
    }
}

pub proof fn lemma_single<F: CommutativeRing>(f: spec_fn(int) -> F, lo: int)
    requires
        f(lo).wf(),
    ensures
        total(f, lo, lo + 1) == f(lo),
{
    assert(total(f, lo, lo) == F::sp_zero());
    F::add_commutes(F::sp_zero(), f(lo));
    F::add_zero(f(lo));
}

/// Running through a range backwards keeps the sum.
pub proof fn lemma_reverse<F: CommutativeRing>(
    f: spec_fn(int) -> F,
    g: spec_fn(int) -> F,
    c: int,
    lo: int,
    hi: int,
)
    requires
        lo <= hi,
        forall|i: int| lo <= i < hi ==> #[trigger] f(i) == g(c - i),
        forall|i: int| lo <= i < hi ==> (#[trigger] f(i)).wf(),
    ensures
        total(f, lo, hi) == total(g, c - hi + 1, c - lo + 1),
    decreases hi - lo,
{
    if lo < hi {
        lemma_reverse(f, g, c, lo, hi - 1);
        let first = c - hi + 1;
        assert(f(hi - 1) == g(first));
        lemma_single(g, first);
        lemma_split(g, first, first + 1, c - lo + 1);
        F::add_commutes(g(first), total(g, first + 1, c - lo + 1));
    }
}

/// Four summands, regrouped.
pub proof fn lemma_regroup<F: CommutativeRing>(x: F, y: F, z: F, t: F)
    ensures
        x.sp_add(y).sp_add(z.sp_add(t)) == x.sp_add(z).sp_add(y.sp_add(t)),
{
    F::add_associates(x, y, z.sp_add(t));
    F::add_associates(y, z, t);
    F::add_commutes(y, z);
    F::add_associates(z, y, t);
    F::add_associates(x, z, y.sp_add(t));
}

/// A sum of differences is the difference of the sums.
pub proof fn lemma_regroup_differences<F: CommutativeRing>(x: F, y: F, z: F, t: F)
    requires
        x.wf(),
        z.wf(),
    ensures
        x.sp_sub(y).sp_add(z.sp_sub(t)) == x.sp_add(z).sp_sub(y.sp_add(t)),
{
    let d = x.sp_sub(y);
    let e = z.sp_sub(t);
    lemma_regroup(d, e, y, t);
    F::sub_add(x, y);
    F::sub_add(z, t);
    F::closed(d, e);
    F::sub_add(d.sp_add(e), y.sp_add(t));
}

pub proof fn lemma_sum_of_sums<F: CommutativeRing>(
    f: spec_fn(int) -> F,
    g: spec_fn(int) -> F,
    h: spec_fn(int) -> F,
    lo: int,
    hi: int,
)
    requires
        forall|i: int| lo <= i < hi ==> #[trigger] h(i) == f(i).sp_add(g(i)),
    ensures
        total(h, lo, hi) == total(f, lo, hi).sp_add(total(g, lo, hi)),
    decreases hi - lo,
{
    if lo < hi {
        lemma_sum_of_sums(f, g, h, lo, hi - 1);
        assert(h(hi - 1) == f(hi - 1).sp_add(g(hi - 1)));
        lemma_regroup(total(f, lo, hi - 1), total(g, lo, hi - 1), f(hi - 1), g(hi - 1));
    } else {
        F::closed(F::sp_zero(), F::sp_zero());
        F::add_zero(F::sp_zero());
    }
}

pub proof fn lemma_sum_of_differences<F: CommutativeRing>(
    f: spec_fn(int) -> F,
    g: spec_fn(int) -> F,
    h: spec_fn(int) -> F,
    lo: int,
    hi: int,
)
    requires
        forall|i: int|
            lo <= i < hi ==> #[trigger] h(i) == f(i).sp_sub(g(i)) && f(i).wf(),
    ensures
        total(h, lo, hi) == total(f, lo, hi).sp_sub(total(g, lo, hi)),
    decreases hi - lo,
{
    if lo < hi {
        lemma_sum_of_differences(f, g, h, lo, hi - 1);
        assert(h(hi - 1) == f(hi - 1).sp_sub(g(hi - 1)));
        lemma_total_wf(f, lo, hi - 1);
        lemma_regroup_differences(
            total(f, lo, hi - 1),
            total(g, lo, hi - 1),
            f(hi - 1),
            g(hi - 1),
        );
    } else {
        F::closed(F::sp_zero(), F::sp_zero());
        F::add_zero(F::sp_zero());
        F::sub_add(F::sp_zero(), F::sp_zero());
    }
}

/// A common factor moves out of a sum.
pub proof fn lemma_scale<F: CommutativeRing>(
    f: spec_fn(int) -> F,
    h: spec_fn(int) -> F,
    c: F,
    lo: int,
    hi: int,
)
    requires
        forall|i: int| lo <= i < hi ==> #[trigger] h(i) == c.sp_mul(f(i)),
    ensures
        total(h, lo, hi) == c.sp_mul(total(f, lo, hi)),
    decreases hi - lo,
{
    if lo < hi {
        lemma_scale(f, h, c, lo, hi - 1);
        assert(h(hi - 1) == c.sp_mul(f(hi - 1)));
        F::mul_distributes(c, total(f, lo, hi - 1), f(hi - 1));
    } else {
        F::mul_zero(c);
    }
}

/// The sums of the rows of a rectangle.
pub open spec fn row_totals<F: Field>(g: spec_fn(int, int) -> F, n: int) -> spec_fn(int) -> F {
    |i: int| total(|j: int| g(i, j), 0, n)
}

/// The sums of the columns of a rectangle.
pub open spec fn column_totals<F: Field>(g: spec_fn(int, int) -> F, n: int) -> spec_fn(int) -> F {
    |j: int| total(|i: int| g(i, j), 0, n)
}

pub proof fn lemma_zeros<F: CommutativeRing>(f: spec_fn(int) -> F, lo: int, hi: int)
    requires
        forall|i: int| lo <= i < hi ==> #[trigger] f(i) == F::sp_zero(),
    ensures
        total(f, lo, hi) == F::sp_zero(),
    decreases hi - lo,
{
    if lo < hi {
        lemma_zeros(f, lo, hi - 1);
        assert(f(hi - 1) == F::sp_zero());
        F::closed(F::sp_zero(), F::sp_zero());
        F::add_zero(F::sp_zero());
    }
}

/// A rectangle sums up alike by rows and by columns.
pub proof fn lemma_exchange<F: CommutativeRing>(g: spec_fn(int, int) -> F, m: int, n: int)
    requires
        0 <= m,
    ensures
        total(row_totals(g, n), 0, m) == total(column_totals(g, m), 0, n),
    decreases m,
{
    if m == 0 {
        lemma_zeros(column_totals(g, 0), 0, n);
    } else {
        lemma_exchange(g, m - 1, n);
        lemma_sum_of_sums(
            column_totals(g, m - 1),
            |j: int| g(m - 1, j),
            column_totals(g, m),
            0,
            n,
        );
    }
}

} // verus!
