//! The extensions are commutative rings.

use vstd::prelude::*;

use crate::extension;
use crate::extension::{BinomialModulus, Ext};
use crate::field::{CommutativeRing, Field, Fp, PrimeModulus};
use crate::sums;

verus! {

/// `x`, multiplied by `w` where a product has wrapped around.
spec fn weighted<F: Field>(wraps: bool, x: F, w: F) -> F {
    if wraps {
        x.sp_mul(w)
    } else {
        x
    }
}

/// Where an index below `d` ends up `i` places lower, in a cycle of length `d`.
spec fn back(k: int, i: int, d: int) -> int {
    if i <= k {
        k - i
    } else {
        k + d - i
    }
}

/// The summands of the `k`-th coefficient of a product.
spec fn terms<M: PrimeModulus>(a: Seq<Fp<M>>, b: Seq<Fp<M>>, w: Fp<M>, k: int) -> spec_fn(
    int,
) -> Fp<M> {
    |i: int| weighted(i > k, a[i].sp_mul(b[back(k, i, a.len() as int)]), w)
}

proof fn lemma_convolution<M: PrimeModulus>(
    a: Seq<Fp<M>>,
    b: Seq<Fp<M>>,
    w: Fp<M>,
    k: int,
    n: nat,
)
    ensures
        extension::convolution(a, b, w, k, n) == sums::total(terms(a, b, w, k), 0, n as int),
    decreases n,
{
    if n > 0 {
        lemma_convolution(a, b, w, k, (n - 1) as nat);
    }
}

/// The coefficients of a product.
spec fn product<M: PrimeModulus>(a: Seq<Fp<M>>, b: Seq<Fp<M>>, w: Fp<M>) -> Seq<Fp<M>> {
    Seq::new(a.len(), |k: int| sums::total(terms(a, b, w, k), 0, a.len() as int))
}

proof fn lemma_weighted_wf<F: CommutativeRing>(wraps: bool, x: F, y: F, w: F)
    ensures
        weighted(wraps, x.sp_mul(y), w).wf(),
{
    F::closed(x, y);
    F::closed(x.sp_mul(y), w);
}

proof fn lemma_product_commutes<M: PrimeModulus>(a: Seq<Fp<M>>, b: Seq<Fp<M>>, w: Fp<M>)
    requires
        a.len() == b.len(),
    ensures
        product(a, b, w) == product(b, a, w),
{
    let d = a.len() as int;
    assert forall|k: int| 0 <= k < d implies #[trigger] product(a, b, w)[k] == product(b, a, w)[k] by {
        let f = terms(a, b, w, k);
        let g = terms(b, a, w, k);
        assert forall|i: int| 0 <= i < d implies #[trigger] f(i) == g(back(k, i, d)) && f(i).wf() by {
            Fp::<M>::mul_commutes(a[i], b[back(k, i, d)]);
            lemma_weighted_wf(i > k, a[i], b[back(k, i, d)], w);
        }
        sums::lemma_reverse(f, g, k, 0, k + 1);
        sums::lemma_reverse(f, g, k + d, k + 1, d);
        sums::lemma_split(f, 0, k + 1, d);
        sums::lemma_split(g, 0, k + 1, d);
    }
    assert(product(a, b, w) =~= product(b, a, w));
}

/// Weights move freely through a product of three factors.
proof fn lemma_weights<F: CommutativeRing>(
    p: bool,
    q: bool,
    r: bool,
    t: bool,
    x: F,
    y: F,
    z: F,
    w: F,
)
    requires
        (if p { 1int } else { 0 }) + (if q { 1int } else { 0 }) == (if r { 1int } else { 0 }) + (if t {
            1int
        } else {
            0
        }),
    ensures
        weighted(p, weighted(q, x.sp_mul(y), w).sp_mul(z), w) == weighted(
            r,
            x.sp_mul(weighted(t, y.sp_mul(z), w)),
            w,
        ),
{
    let xyz = x.sp_mul(y).sp_mul(z);
    F::mul_associates(x, y, z);
    // (xy·w)·z = xyz·w
    F::mul_associates(x.sp_mul(y), w, z);
    F::mul_commutes(w, z);
    F::mul_associates(x.sp_mul(y), z, w);
    // x·(yz·w) = xyz·w
    F::mul_associates(x, y.sp_mul(z), w);
    assert(weighted(q, x.sp_mul(y), w).sp_mul(z) == weighted(q, xyz, w));
    assert(x.sp_mul(weighted(t, y.sp_mul(z), w)) == weighted(t, xyz, w));
}

/// A summand of a product of three factors, from the first two and the third.
spec fn left_terms<M: PrimeModulus>(
    a: Seq<Fp<M>>,
    b: Seq<Fp<M>>,
    c: Seq<Fp<M>>,
    w: Fp<M>,
    k: int,
) -> spec_fn(int, int) -> Fp<M> {
    |i: int, j: int|
        weighted(i > k, terms(a, b, w, i)(j).sp_mul(c[back(k, i, a.len() as int)]), w)
}

/// A summand of a product of three factors, from the first and the last two.
spec fn right_terms<M: PrimeModulus>(
    a: Seq<Fp<M>>,
    b: Seq<Fp<M>>,
    c: Seq<Fp<M>>,
    w: Fp<M>,
    k: int,
) -> spec_fn(int, int) -> Fp<M> {
    |j: int, l: int|
        weighted(j > k, a[j].sp_mul(terms(b, c, w, back(k, j, a.len() as int))(l)), w)
}

proof fn lemma_left<M: PrimeModulus>(
    a: Seq<Fp<M>>,
    b: Seq<Fp<M>>,
    c: Seq<Fp<M>>,
    w: Fp<M>,
    k: int,
)
    requires
        a.len() == b.len() == c.len(),
        0 <= k < a.len(),
    ensures
        product(product(a, b, w), c, w)[k] == sums::total(
            sums::row_totals(left_terms(a, b, c, w, k), a.len() as int),
            0,
            a.len() as int,
        ),
{
    let d = a.len() as int;
    let f = terms(product(a, b, w), c, w, k);
    let g = sums::row_totals(left_terms(a, b, c, w, k), d);
    assert forall|i: int| 0 <= i < d implies #[trigger] f(i) == g(i) by {
        let z = c[back(k, i, d)];
        let inner = terms(a, b, w, i);
        let scaled = |j: int| inner(j).sp_mul(z);
        let sum = sums::total(inner, 0, d);
        assert forall|j: int| 0 <= j < d implies #[trigger] scaled(j) == z.sp_mul(inner(j)) by {
            Fp::<M>::mul_commutes(z, inner(j));
        }
        sums::lemma_scale(inner, scaled, z, 0, d);
        Fp::<M>::mul_commutes(z, sum);
        let row = |j: int| left_terms(a, b, c, w, k)(i, j);
        if i > k {
            assert forall|j: int| 0 <= j < d implies #[trigger] row(j) == w.sp_mul(scaled(j)) by {
                Fp::<M>::mul_commutes(w, scaled(j));
            }
            sums::lemma_scale(scaled, row, w, 0, d);
            Fp::<M>::mul_commutes(w, sums::total(scaled, 0, d));
        } else {
            sums::lemma_congruent(scaled, row, 0, d);
        }
    }
    sums::lemma_congruent(f, g, 0, d);
}

proof fn lemma_right<M: PrimeModulus>(
    a: Seq<Fp<M>>,
    b: Seq<Fp<M>>,
    c: Seq<Fp<M>>,
    w: Fp<M>,
    k: int,
)
    requires
        a.len() == b.len() == c.len(),
        0 <= k < a.len(),
    ensures
        product(a, product(b, c, w), w)[k] == sums::total(
            sums::row_totals(right_terms(a, b, c, w, k), a.len() as int),
            0,
            a.len() as int,
        ),
{
    let d = a.len() as int;
    let f = terms(a, product(b, c, w), w, k);
    let g = sums::row_totals(right_terms(a, b, c, w, k), d);
    assert forall|j: int| 0 <= j < d implies #[trigger] f(j) == g(j) by {
        let inner = terms(b, c, w, back(k, j, d));
        let scaled = |l: int| a[j].sp_mul(inner(l));
        sums::lemma_scale(inner, scaled, a[j], 0, d);
        let row = |l: int| right_terms(a, b, c, w, k)(j, l);
        if j > k {
            assert forall|l: int| 0 <= l < d implies #[trigger] row(l) == w.sp_mul(scaled(l)) by {
                Fp::<M>::mul_commutes(w, scaled(l));
            }
            sums::lemma_scale(scaled, row, w, 0, d);
            Fp::<M>::mul_commutes(w, sums::total(scaled, 0, d));
        } else {
            sums::lemma_congruent(scaled, row, 0, d);
        }
    }
    sums::lemma_congruent(f, g, 0, d);
}

/// For a fixed coefficient of the first factor, both groupings have the same summands in another
/// order.
proof fn lemma_columns<M: PrimeModulus>(
    a: Seq<Fp<M>>,
    b: Seq<Fp<M>>,
    c: Seq<Fp<M>>,
    w: Fp<M>,
    k: int,
    j: int,
)
    requires
        a.len() == b.len() == c.len(),
        0 <= k < a.len(),
        0 <= j < a.len(),
    ensures
        sums::column_totals(left_terms(a, b, c, w, k), a.len() as int)(j) == sums::row_totals(
            right_terms(a, b, c, w, k),
            a.len() as int,
        )(j),
{
    let d = a.len() as int;
    let f = |i: int| left_terms(a, b, c, w, k)(i, j);
    let g = |l: int| right_terms(a, b, c, w, k)(j, l);
    let s = back(k, j, d);
    assert forall|i: int| 0 <= i < d implies #[trigger] f(i) == g(back(i, j, d)) by {
        let l = back(i, j, d);
        assert(back(k, i, d) == back(s, l, d));
        lemma_weights(
            i > k,
            j > i,
            j > k,
            l > s,
            a[j],
            b[l],
            c[back(k, i, d)],
            w,
        );
    }
    assert forall|i: int| j <= i < d implies #[trigger] f(i) == g(i + (-j)) by {
        assert(back(i, j, d) == i - j);
    }
    assert forall|i: int| 0 <= i < j implies #[trigger] f(i) == g(i + (d - j)) by {
        assert(back(i, j, d) == i + d - j);
    }
    sums::lemma_shift(f, g, -j, j, d);
    sums::lemma_shift(f, g, d - j, 0, j);
    sums::lemma_split(f, 0, j, d);
    sums::lemma_split(g, 0, d - j, d);
    Fp::<M>::add_commutes(sums::total(f, 0, j), sums::total(f, j, d));
}

proof fn lemma_product_associates<M: PrimeModulus>(
    a: Seq<Fp<M>>,
    b: Seq<Fp<M>>,
    c: Seq<Fp<M>>,
    w: Fp<M>,
)
    requires
        a.len() == b.len() == c.len(),
    ensures
        product(product(a, b, w), c, w) == product(a, product(b, c, w), w),
{
    let d = a.len() as int;
    assert forall|k: int| 0 <= k < d implies #[trigger] product(product(a, b, w), c, w)[k] == product(
        a,
        product(b, c, w),
        w,
    )[k] by {
        lemma_left(a, b, c, w, k);
        lemma_right(a, b, c, w, k);
        let g = left_terms(a, b, c, w, k);
        let h = right_terms(a, b, c, w, k);
        sums::lemma_exchange(g, d, d);
        assert forall|j: int| 0 <= j < d implies #[trigger] sums::column_totals(g, d)(j)
            == sums::row_totals(h, d)(j) by {
            lemma_columns(a, b, c, w, k, j);
        }
        sums::lemma_congruent(sums::column_totals(g, d), sums::row_totals(h, d), 0, d);
    }
    assert(product(product(a, b, w), c, w) =~= product(a, product(b, c, w), w));
}

/// Multiplying by a list whose entries but the first are zero scales.
proof fn lemma_product_scales<M: PrimeModulus>(a: Seq<Fp<M>>, e: Seq<Fp<M>>, w: Fp<M>, k: int)
    requires
        a.len() == e.len(),
        0 <= k < a.len(),
        forall|i: int| 0 < i < e.len() ==> #[trigger] e[i] == Fp::<M>::sp_zero(),
    ensures
        product(a, e, w)[k] == a[k].sp_mul(e[0]),
{
    let d = a.len() as int;
    let f = terms(a, e, w, k);
    assert forall|i: int| 0 <= i < d && i != k implies #[trigger] f(i) == Fp::<M>::sp_zero() by {
        assert(e[back(k, i, d)] == Fp::<M>::sp_zero());
        Fp::<M>::mul_zero(a[i]);
        Fp::<M>::mul_commutes(Fp::sp_zero(), w);
        Fp::<M>::mul_zero(w);
    }
    Fp::<M>::closed(a[k], e[0]);
    assert(f(k) == a[k].sp_mul(e[0]));
    sums::lemma_zeros(f, 0, k);
    sums::lemma_zeros(f, k + 1, d);
    sums::lemma_single(f, k);
    sums::lemma_split(f, 0, k, d);
    sums::lemma_split(f, k, k + 1, d);
    Fp::<M>::add_commutes(Fp::sp_zero(), f(k));
    Fp::<M>::add_zero(f(k));
    Fp::<M>::add_zero(f(k));
}

proof fn lemma_distributes<M: PrimeModulus>(
    a: Seq<Fp<M>>,
    b: Seq<Fp<M>>,
    c: Seq<Fp<M>>,
    w: Fp<M>,
    k: int,
)
    requires
        a.len() == b.len() == c.len(),
        0 <= k < a.len(),
    ensures
        product(a, Seq::new(a.len(), |i: int| b[i].sp_add(c[i])), w)[k] == product(a, b, w)[k].sp_add(
            product(a, c, w)[k],
        ),
        product(a, Seq::new(a.len(), |i: int| b[i].sp_sub(c[i])), w)[k] == product(a, b, w)[k].sp_sub(
            product(a, c, w)[k],
        ),
{
    let d = a.len() as int;
    let sum = Seq::new(a.len(), |i: int| b[i].sp_add(c[i]));
    let difference = Seq::new(a.len(), |i: int| b[i].sp_sub(c[i]));
    let f = terms(a, b, w, k);
    let g = terms(a, c, w, k);
    let p = terms(a, sum, w, k);
    let m = terms(a, difference, w, k);
    assert forall|i: int|
        #![trigger p(i)]
        #![trigger m(i)]
        0 <= i < d implies p(i) == f(i).sp_add(g(i)) && m(i) == f(i).sp_sub(g(i)) && f(i).wf() by {
        let x = b[back(k, i, d)];
        let y = c[back(k, i, d)];
        Fp::<M>::mul_distributes(a[i], x, y);
        lemma_weighted_wf(i > k, a[i], x, w);
        if i > k {
            let (u, v) = (a[i].sp_mul(x), a[i].sp_mul(y));
            Fp::<M>::mul_distributes(w, u, v);
            Fp::<M>::mul_commutes(w, u);
            Fp::<M>::mul_commutes(w, v);
            Fp::<M>::mul_commutes(w, u.sp_add(v));
            Fp::<M>::mul_commutes(w, u.sp_sub(v));
        }
    }
    sums::lemma_sum_of_sums(f, g, p, 0, d);
    sums::lemma_sum_of_differences(f, g, m, 0, d);
}

impl<M: BinomialModulus<D>, const D: usize> Ext<M, D> {
    /// The coefficients of what the operations yield.
    proof fn lemma_coefficients(a: Self, b: Self)
        ensures
            a.seq().len() == D,
            a.sp_add(b).seq() == Seq::new(D as nat, |i: int| a.seq()[i].sp_add(b.seq()[i])),
            a.sp_sub(b).seq() == Seq::new(D as nat, |i: int| a.seq()[i].sp_sub(b.seq()[i])),
            a.sp_mul(b).seq() == product(a.seq(), b.seq(), Fp::of(M::sp_w())),
    {
        Self::lemma_len(a);
        Self::lemma_seq(Seq::new(D as nat, |i: int| a.seq()[i].sp_add(b.seq()[i])));
        Self::lemma_seq(Seq::new(D as nat, |i: int| a.seq()[i].sp_sub(b.seq()[i])));
        let w = Fp::<M>::of(M::sp_w());
        let s = Seq::new(
            D as nat,
            |k: int| extension::convolution(a.seq(), b.seq(), w, k, D as nat),
        );
        Self::lemma_seq(s);
        assert forall|k: int| 0 <= k < D implies #[trigger] s[k] == product(a.seq(), b.seq(), w)[k] by {
            lemma_convolution(a.seq(), b.seq(), w, k, D as nat);
        }
        assert(s =~= product(a.seq(), b.seq(), w));
    }

    /// The coefficients of the image of a base element.
    proof fn lemma_of_base(x: Fp<M>)
        ensures
            Self::of_base(x).seq() == Seq::new(
                D as nat,
                |i: int| if i == 0 { x } else { Fp::sp_zero() },
            ),
    {
        Self::lemma_seq(Seq::new(D as nat, |i: int| if i == 0 { x } else { Fp::sp_zero() }));
    }

    /// The images of base elements add and multiply as the base elements do.
    pub proof fn lemma_base_embeds(x: Fp<M>, y: Fp<M>)
        ensures
            x.wf() ==> Self::of_base(x).wf(),
            Self::of_base(x.sp_add(y)) == Self::of_base(x).sp_add(Self::of_base(y)),
            Self::of_base(x.sp_mul(y)) == Self::of_base(x).sp_mul(Self::of_base(y)),
    {
        let (a, b) = (Self::of_base(x), Self::of_base(y));
        let sum = Self::of_base(x.sp_add(y));
        let product = Self::of_base(x.sp_mul(y));
        Self::lemma_of_base(x);
        Self::lemma_of_base(y);
        Self::lemma_of_base(x.sp_add(y));
        Self::lemma_of_base(x.sp_mul(y));
        Self::lemma_coefficients(a, b);
        Fp::<M>::closed(x, y);
        Fp::<M>::add_zero(Fp::sp_zero());
        Fp::<M>::mul_commutes(Fp::sp_zero(), y);
        Fp::<M>::mul_zero(y);
        assert forall|k: int| 0 <= k < D implies #[trigger] product.seq()[k] == a.sp_mul(b).seq()[k] by {
            lemma_product_scales(a.seq(), b.seq(), Fp::of(M::sp_w()), k);
        }
        assert(sum.seq() =~= a.sp_add(b).seq());
        assert(product.seq() =~= a.sp_mul(b).seq());
        Self::lemma_ext(sum, a.sp_add(b));
        Self::lemma_ext(product, a.sp_mul(b));
    }
}

impl<M: BinomialModulus<D>, const D: usize> CommutativeRing for Ext<M, D> {
    proof fn closed(a: Self, b: Self) {
        let w = Fp::<M>::of(M::sp_w());
        Self::lemma_coefficients(a, b);
        Self::lemma_of_base(Fp::sp_zero());
        Self::lemma_of_base(Fp::sp_one());
        assert forall|i: int|
            #![trigger Self::sp_zero().seq()[i]]
            #![trigger Self::sp_one().seq()[i]]
            #![trigger a.sp_add(b).seq()[i]]
            #![trigger a.sp_sub(b).seq()[i]]
            #![trigger a.sp_mul(b).seq()[i]]
            0 <= i < D implies {
            &&& Self::sp_zero().seq()[i].wf()
            &&& Self::sp_one().seq()[i].wf()
            &&& a.sp_add(b).seq()[i].wf()
            &&& a.sp_sub(b).seq()[i].wf()
            &&& a.sp_mul(b).seq()[i].wf()
        } by {
            Fp::<M>::closed(a.seq()[i], b.seq()[i]);
            sums::lemma_total_wf(terms(a.seq(), b.seq(), w, i), 0, D as int);
        }
    }

    proof fn add_commutes(a: Self, b: Self) {
        Self::lemma_coefficients(a, b);
        Self::lemma_coefficients(b, a);
        assert forall|i: int| 0 <= i < D implies #[trigger] a.sp_add(b).seq()[i]
            == b.sp_add(a).seq()[i] by {
            Fp::<M>::add_commutes(a.seq()[i], b.seq()[i]);
        }
        assert(a.sp_add(b).seq() =~= b.sp_add(a).seq());
        Self::lemma_ext(a.sp_add(b), b.sp_add(a));
    }

    proof fn add_associates(a: Self, b: Self, c: Self) {
        Self::lemma_coefficients(a, b);
        Self::lemma_coefficients(b, c);
        Self::lemma_coefficients(a.sp_add(b), c);
        Self::lemma_coefficients(a, b.sp_add(c));
        let l = a.sp_add(b).sp_add(c);
        let r = a.sp_add(b.sp_add(c));
        assert forall|i: int| 0 <= i < D implies #[trigger] l.seq()[i] == r.seq()[i] by {
            Fp::<M>::add_associates(a.seq()[i], b.seq()[i], c.seq()[i]);
        }
        assert(l.seq() =~= r.seq());
        Self::lemma_ext(l, r);
    }

    proof fn add_zero(a: Self) {
        Self::lemma_coefficients(a, Self::sp_zero());
        Self::lemma_of_base(Fp::sp_zero());
        let r = a.sp_add(Self::sp_zero());
        assert forall|i: int| 0 <= i < D implies #[trigger] r.seq()[i] == a.seq()[i] by {
            Fp::<M>::add_zero(a.seq()[i]);
        }
        assert(r.seq() =~= a.seq());
        Self::lemma_ext(r, a);
    }

    proof fn sub_add(a: Self, b: Self) {
        Self::lemma_coefficients(a, b);
        Self::lemma_coefficients(a.sp_sub(b), b);
        Self::lemma_coefficients(a.sp_add(b), b);
        let l = a.sp_sub(b).sp_add(b);
        let r = a.sp_add(b).sp_sub(b);
        assert forall|i: int|
            #![trigger l.seq()[i]]
            #![trigger r.seq()[i]]
            0 <= i < D implies l.seq()[i] == a.seq()[i] && r.seq()[i] == a.seq()[i] by {
            Fp::<M>::sub_add(a.seq()[i], b.seq()[i]);
        }
        assert(l.seq() =~= a.seq());
        assert(r.seq() =~= a.seq());
        Self::lemma_ext(l, a);
        Self::lemma_ext(r, a);
    }

    proof fn mul_commutes(a: Self, b: Self) {
        Self::lemma_coefficients(a, b);
        Self::lemma_coefficients(b, a);
        lemma_product_commutes(a.seq(), b.seq(), Fp::of(M::sp_w()));
        Self::lemma_ext(a.sp_mul(b), b.sp_mul(a));
    }

    proof fn mul_associates(a: Self, b: Self, c: Self) {
        Self::lemma_coefficients(a, b);
        Self::lemma_coefficients(b, c);
        Self::lemma_coefficients(c, a);
        Self::lemma_coefficients(a.sp_mul(b), c);
        Self::lemma_coefficients(a, b.sp_mul(c));
        lemma_product_associates(a.seq(), b.seq(), c.seq(), Fp::of(M::sp_w()));
        Self::lemma_ext(a.sp_mul(b).sp_mul(c), a.sp_mul(b.sp_mul(c)));
    }

    proof fn mul_one(a: Self) {
        let one = Self::sp_one();
        Self::lemma_coefficients(a, one);
        Self::lemma_of_base(Fp::sp_one());
        let r = a.sp_mul(one);
        assert forall|k: int| 0 <= k < D implies #[trigger] r.seq()[k] == a.seq()[k] by {
            lemma_product_scales(a.seq(), one.seq(), Fp::of(M::sp_w()), k);
            Fp::<M>::mul_one(a.seq()[k]);
        }
        assert(r.seq() =~= a.seq());
        Self::lemma_ext(r, a);
    }

    proof fn mul_zero(a: Self) {
        let zero = Self::sp_zero();
        Self::lemma_coefficients(a, zero);
        Self::lemma_of_base(Fp::sp_zero());
        let r = a.sp_mul(zero);
        assert forall|k: int| 0 <= k < D implies #[trigger] r.seq()[k] == zero.seq()[k] by {
            lemma_product_scales(a.seq(), zero.seq(), Fp::of(M::sp_w()), k);
            Fp::<M>::mul_zero(a.seq()[k]);
        }
        assert(r.seq() =~= zero.seq());
        Self::lemma_ext(r, zero);
    }

    proof fn mul_distributes(a: Self, b: Self, c: Self) {
        let w = Fp::<M>::of(M::sp_w());
        Self::lemma_coefficients(a, b);
        Self::lemma_coefficients(a, c);
        Self::lemma_coefficients(b, c);
        Self::lemma_coefficients(c, b);
        Self::lemma_coefficients(a, b.sp_add(c));
        Self::lemma_coefficients(a, b.sp_sub(c));
        Self::lemma_coefficients(a.sp_mul(b), a.sp_mul(c));
        let p = a.sp_mul(b.sp_add(c));
        let q = a.sp_mul(b).sp_add(a.sp_mul(c));
        let s = a.sp_mul(b.sp_sub(c));
        let t = a.sp_mul(b).sp_sub(a.sp_mul(c));
        assert forall|k: int|
            #![trigger p.seq()[k]]
            #![trigger s.seq()[k]]
            0 <= k < D implies p.seq()[k] == q.seq()[k] && s.seq()[k] == t.seq()[k] by {
            lemma_distributes(a.seq(), b.seq(), c.seq(), w, k);
        }
        assert(p.seq() =~= q.seq());
        assert(s.seq() =~= t.seq());
        Self::lemma_ext(p, q);
        Self::lemma_ext(s, t);
    }
    proof fn from_adds(m: nat, n: nat) {
        Fp::<M>::from_adds(m, n);
        Self::lemma_base_embeds(Fp::sp_from(m), Fp::sp_from(n));
    }
}

} // verus!
