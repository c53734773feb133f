//! What folding a row means: the value at the challenge of the polynomial that the row evaluates.

use vstd::prelude::*;
use vstd::arithmetic::power2::{lemma2_to64, lemma_pow2_pos, lemma_pow2_unfold, pow2};

use crate::bits;
use crate::extension::ExtensionField;
use crate::field;
use crate::field::{CommutativeRing, Field, TwoAdicField};
use crate::fri_witness;
use crate::seqs;
use crate::sums;
use crate::whir_gadgets;

verus! {

// Signs.

/// Taking away is adding the opposite.
proof fn lemma_sub_opposite<F: CommutativeRing>(a: F, x: F, y: F)
    requires
        a.wf(),
        x.sp_add(y) == F::sp_zero(),
    ensures
        a.sp_sub(y) == a.sp_add(x),
{
    F::closed(a, x);
    F::add_associates(a, x, y);
    F::add_zero(a);
    F::sub_add(a.sp_add(x), y);
}

proof fn lemma_opposite_products<F: CommutativeRing>(c: F, x: F, y: F)
    requires
        x.sp_add(y) == F::sp_zero(),
    ensures
        c.sp_mul(x).sp_add(c.sp_mul(y)) == F::sp_zero(),
        x.sp_mul(c).sp_add(y.sp_mul(c)) == F::sp_zero(),
{
    F::mul_distributes(c, x, y);
    F::mul_zero(c);
    F::mul_commutes(c, x);
    F::mul_commutes(c, y);
}

/// Opposite elements have the same square.
proof fn lemma_opposite_squares<F: CommutativeRing>(x: F, y: F)
    requires
        x.sp_add(y) == F::sp_zero(),
    ensures
        x.sp_mul(x) == y.sp_mul(y),
{
    lemma_opposite_products(x, x, y);
    lemma_opposite_products(y, x, y);
    F::mul_commutes(x, y);
    let c = x.sp_mul(y);
    F::closed(x, x);
    F::closed(y, y);
    F::add_commutes(c, y.sp_mul(y));
    F::sub_add(x.sp_mul(x), c);
    F::sub_add(y.sp_mul(y), c);
}

proof fn lemma_difference_of_squares<F: CommutativeRing>(b: F, x: F)
    ensures
        b.sp_sub(x).sp_mul(b.sp_add(x)) == b.sp_mul(b).sp_sub(x.sp_mul(x)),
{
    let s = b.sp_add(x);
    let (p, q, c) = (b.sp_mul(b), x.sp_mul(x), b.sp_mul(x));
    F::closed(b, b);
    F::closed(b, x);
    F::closed(p, q);
    F::mul_commutes(b.sp_sub(x), s);
    F::mul_distributes(s, b, x);
    F::mul_commutes(s, b);
    F::mul_distributes(b, b, x);
    F::mul_commutes(s, x);
    F::mul_distributes(x, b, x);
    F::mul_commutes(x, b);
    // (p + c) - (c + q) = (p - q) + (c - c)
    sums::lemma_regroup_differences(p, q, c, c);
    F::add_commutes(c, q);
    F::add_commutes(F::sp_zero(), c);
    F::add_zero(c);
    F::sub_add(F::sp_zero(), c);
    F::add_zero(p.sp_sub(q));
}

// A pair of opposite points.

/// `(a + x·b)·(β + x)`, sorted by the parity of `x`.
proof fn lemma_sorted<F: CommutativeRing>(a: F, b: F, x: F, beta: F)
    ensures
        a.sp_add(x.sp_mul(b)).sp_mul(beta.sp_add(x)) == beta.sp_mul(a).sp_add(
            x.sp_mul(x).sp_mul(b),
        ).sp_add(x.sp_mul(a.sp_add(beta.sp_mul(b)))),
{
    let e = a.sp_add(x.sp_mul(b));
    let (ba, xa) = (beta.sp_mul(a), x.sp_mul(a));
    let bxb = beta.sp_mul(x.sp_mul(b));
    let xxb = x.sp_mul(x).sp_mul(b);
    F::mul_distributes(e, beta, x);
    F::mul_commutes(e, beta);
    F::mul_distributes(beta, a, x.sp_mul(b));
    F::mul_commutes(e, x);
    F::mul_distributes(x, a, x.sp_mul(b));
    F::mul_associates(x, x, b);
    F::mul_distributes(x, a, beta.sp_mul(b));
    // x·(β·b) = β·(x·b)
    F::mul_associates(x, beta, b);
    F::mul_commutes(x, beta);
    F::mul_associates(beta, x, b);
    sums::lemma_regroup(ba, bxb, xa, xxb);
    sums::lemma_regroup(ba, xxb, xa, bxb);
    F::add_commutes(bxb, xxb);
}

/// `p·(q·r)·(s·t) = (q·(p·t))·(r·s)`
proof fn lemma_rearrange<F: CommutativeRing>(p: F, q: F, r: F, s: F, t: F)
    ensures
        p.sp_mul(q.sp_mul(r)).sp_mul(s.sp_mul(t)) == q.sp_mul(p.sp_mul(t)).sp_mul(r.sp_mul(s)),
{
    F::mul_associates(p, q, r);
    F::mul_commutes(p, q);
    // ((q·p)·r)·(s·t) = (q·p)·(r·(s·t)) = (q·p)·((r·s)·t) = (q·p)·(t·(r·s)) = ((q·p)·t)·(r·s)
    F::mul_associates(q.sp_mul(p), r, s.sp_mul(t));
    F::mul_associates(r, s, t);
    F::mul_commutes(r.sp_mul(s), t);
    F::mul_associates(q.sp_mul(p), t, r.sp_mul(s));
    F::mul_associates(q, p, t);
}

/// The summands at two opposite points make up one summand at their square.
proof fn lemma_pair<F: CommutativeRing>(
    a: F,
    b: F,
    x: F,
    y: F,
    beta: F,
    scale: F,
    i: F,
    j: F,
)
    requires
        x.sp_add(y) == F::sp_zero(),
        beta.wf(),
        i.wf(),
        j.wf(),
        i.sp_mul(beta.sp_sub(x)) == F::sp_one(),
        j.sp_mul(beta.sp_sub(y)) == F::sp_one(),
    ensures
        a.sp_add(x.sp_mul(b)).sp_mul(x.sp_mul(scale)).sp_mul(i).sp_add(
            a.sp_add(y.sp_mul(b)).sp_mul(y.sp_mul(scale)).sp_mul(j),
        ) == a.sp_add(beta.sp_mul(b)).sp_mul(x.sp_mul(x).sp_mul(scale.sp_add(scale))).sp_mul(
            i.sp_mul(j),
        ),
{
    let (e, f) = (a.sp_add(x.sp_mul(b)), a.sp_add(y.sp_mul(b)));
    let ij = i.sp_mul(j);
    let m = scale.sp_mul(ij);
    let (plus, minus) = (beta.sp_add(x), beta.sp_add(y));
    F::add_commutes(x, y);
    lemma_sub_opposite(beta, x, y);
    lemma_sub_opposite(beta, y, x);
    // i = (i·j)·(β + x) and j = (i·j)·(β + y)
    F::mul_associates(i, j, plus);
    F::mul_one(i);
    F::mul_commutes(i, j);
    F::mul_associates(j, i, minus);
    F::mul_one(j);
    lemma_rearrange(e, x, scale, ij, plus);
    lemma_rearrange(f, y, scale, ij, minus);
    let u = e.sp_mul(plus);
    let v = f.sp_mul(minus);
    F::mul_commutes(x.sp_mul(u), m);
    F::mul_commutes(y.sp_mul(v), m);
    F::mul_distributes(m, x.sp_mul(u), y.sp_mul(v));
    let sum = x.sp_mul(u).sp_add(y.sp_mul(v));
    // u = p + x·g and v = p + y·g
    lemma_sorted(a, b, x, beta);
    lemma_sorted(a, b, y, beta);
    lemma_opposite_squares(x, y);
    let xx = x.sp_mul(x);
    let p = beta.sp_mul(a).sp_add(xx.sp_mul(b));
    let g = a.sp_add(beta.sp_mul(b));
    F::mul_distributes(x, p, x.sp_mul(g));
    F::mul_distributes(y, p, y.sp_mul(g));
    F::mul_associates(x, x, g);
    F::mul_associates(y, y, g);
    let z = xx.sp_mul(g);
    sums::lemma_regroup(x.sp_mul(p), z, y.sp_mul(p), z);
    lemma_opposite_products(p, x, y);
    F::closed(z, z);
    F::add_commutes(F::sp_zero(), z.sp_add(z));
    F::add_zero(z.sp_add(z));
    assert(sum == z.sp_add(z));
    // m·(z + z) = g·(xx·(scale + scale))·ij
    F::mul_distributes(m, z, z);
    F::mul_commutes(m, z);
    F::mul_distributes(xx, scale, scale);
    let t = xx.sp_mul(scale);
    F::mul_distributes(g, t, t);
    let gt = g.sp_mul(t);
    F::mul_commutes(gt.sp_add(gt), ij);
    F::mul_distributes(ij, gt, gt);
    F::mul_commutes(ij, gt);
    // z·(scale·ij) = (g·(xx·scale))·ij
    F::mul_associates(z, scale, ij);
    F::mul_commutes(xx, g);
    F::mul_associates(g, xx, scale);
}

// Polynomials.

pub open spec fn even_entries<F>(c: Seq<F>) -> Seq<F> {
    Seq::new(c.len() / 2, |k: int| c[2 * k])
}

pub open spec fn odd_entries<F>(c: Seq<F>) -> Seq<F> {
    Seq::new(c.len() / 2, |k: int| c[2 * k + 1])
}

/// A polynomial from its even and its odd part.
proof fn lemma_parts<F: CommutativeRing>(c: Seq<F>, y: F, m: nat)
    requires
        2 * m <= c.len(),
    ensures
        whir_gadgets::combination(c, y, 2 * m) == whir_gadgets::combination(
            even_entries(c),
            y.sp_mul(y),
            m,
        ).sp_add(y.sp_mul(whir_gadgets::combination(odd_entries(c), y.sp_mul(y), m))),
    decreases m,
{
    let yy = y.sp_mul(y);
    if m == 0 {
        F::mul_zero(y);
        F::closed(y, y);
        F::add_zero(F::sp_zero());
    } else {
        let k = (m - 1) as nat;
        lemma_parts(c, y, k);
        let even = whir_gadgets::combination(even_entries(c), yy, k);
        let odd = whir_gadgets::combination(odd_entries(c), yy, k);
        let power = field::power(yy, k);
        field::lemma_power_square(y, k);
        assert(field::power(y, 2 * k + 1) == power.sp_mul(y));
        let s = c[2 * k as int].sp_mul(power);
        let t = c[2 * k as int + 1].sp_mul(power);
        assert(even_entries(c)[k as int] == c[2 * k as int]);
        assert(odd_entries(c)[k as int] == c[2 * k as int + 1]);
        assert(whir_gadgets::combination(c, y, 2 * m) == whir_gadgets::combination(
            c,
            y,
            2 * k + 1,
        ).sp_add(c[2 * k as int + 1].sp_mul(power.sp_mul(y))));
        assert(whir_gadgets::combination(c, y, 2 * k + 1) == whir_gadgets::combination(
            c,
            y,
            2 * k,
        ).sp_add(s));
        // c·(power·y) = y·t
        F::mul_associates(c[2 * k as int + 1], power, y);
        F::mul_commutes(t, y);
        let yt = y.sp_mul(t);
        let yo = y.sp_mul(odd);
        F::mul_distributes(y, odd, t);
        // ((even + yo) + s) + yt = (even + s) + (yo + yt)
        F::add_associates(even.sp_add(yo), s, yt);
        sums::lemma_regroup(even, yo, s, yt);
    }
}

/// Combining coefficients combines the values.
proof fn lemma_mixed<F: CommutativeRing>(a: Seq<F>, b: Seq<F>, c: Seq<F>, beta: F, y: F, m: nat)
    requires
        forall|k: int| 0 <= k < m ==> #[trigger] c[k] == a[k].sp_add(beta.sp_mul(b[k])),
    ensures
        whir_gadgets::combination(c, y, m) == whir_gadgets::combination(a, y, m).sp_add(
            beta.sp_mul(whir_gadgets::combination(b, y, m)),
        ),
    decreases m,
{
    if m == 0 {
        F::mul_zero(beta);
        F::closed(y, y);
        F::add_zero(F::sp_zero());
    } else {
        let k = (m - 1) as nat;
        lemma_mixed(a, b, c, beta, y, k);
        let p = field::power(y, k);
        let (x, z) = (a[k as int], b[k as int]);
        assert(c[k as int] == x.sp_add(beta.sp_mul(z)));
        // (x + β·z)·p = x·p + β·(z·p)
        F::mul_commutes(x.sp_add(beta.sp_mul(z)), p);
        F::mul_distributes(p, x, beta.sp_mul(z));
        F::mul_commutes(p, x);
        F::mul_commutes(p, beta.sp_mul(z));
        F::mul_associates(beta, z, p);
        let odd = whir_gadgets::combination(b, y, k);
        F::mul_distributes(beta, odd, z.sp_mul(p));
        sums::lemma_regroup(
            whir_gadgets::combination(a, y, k),
            beta.sp_mul(odd),
            x.sp_mul(p),
            beta.sp_mul(z.sp_mul(p)),
        );
    }
}

// Rows.

/// `s·g^r` for `r` the reversed bits of each index.
spec fn coset<F: Field>(s: F, g: F, n: nat) -> Seq<F> {
    Seq::new(pow2(n), |i: int| s.sp_mul(field::power(g, bits::reversed_bits(i as nat, n))))
}

/// The product of the differences between `point` and the first `n` points.
spec fn differences<F: Field>(points: Seq<F>, point: F, n: nat) -> F
    decreases n,
{
    if n == 0 {
        F::sp_one()
    } else {
        differences(points, point, (n - 1) as nat).sp_mul(point.sp_sub(points[n - 1]))
    }
}

/// The sum over the first `n` points of the evaluation times the scaled point times the inverse.
spec fn weighted_sum<F: Field>(
    points: Seq<F>,
    evaluations: Seq<F>,
    scale: F,
    inverses: Seq<F>,
    n: nat,
) -> F
    decreases n,
{
    if n == 0 {
        F::sp_zero()
    } else {
        let i = n - 1;
        weighted_sum(points, evaluations, scale, inverses, i as nat).sp_add(
            evaluations[i].sp_mul(points[i].sp_mul(scale)).sp_mul(inverses[i]),
        )
    }
}

/// The `j`-th pair of points is opposite and has the given square.
spec fn opposite_pair<F: Field>(points: Seq<F>, squares: Seq<F>, j: int) -> bool {
    &&& points[2 * j].sp_add(points[2 * j + 1]) == F::sp_zero()
    &&& squares[j] == points[2 * j].sp_mul(points[2 * j])
}

/// The points come in opposite pairs with the given squares.
spec fn paired<F: Field>(points: Seq<F>, squares: Seq<F>) -> bool {
    &&& points.len() == 2 * squares.len()
    &&& forall|j: int| 0 <= j < squares.len() ==> #[trigger] opposite_pair(points, squares, j)
}

proof fn lemma_paired_differences<F: CommutativeRing>(
    points: Seq<F>,
    squares: Seq<F>,
    point: F,
    m: nat,
)
    requires
        paired(points, squares),
        m <= squares.len(),
        point.wf(),
    ensures
        differences(points, point, 2 * m) == differences(squares, point.sp_mul(point), m),
    decreases m,
{
    if m > 0 {
        let k = (m - 1) as nat;
        lemma_paired_differences(points, squares, point, k);
        let (x, y) = (points[2 * k as int], points[2 * k as int + 1]);
        assert(opposite_pair(points, squares, k as int));
        assert(differences(points, point, 2 * m) == differences(points, point, 2 * k + 1).sp_mul(
            point.sp_sub(y),
        ));
        assert(differences(points, point, 2 * k + 1) == differences(points, point, 2 * k).sp_mul(
            point.sp_sub(x),
        ));
        F::mul_associates(differences(points, point, 2 * k), point.sp_sub(x), point.sp_sub(y));
        lemma_sub_opposite(point, x, y);
        lemma_difference_of_squares(point, x);
    }
}

/// The inverses fit the points.
spec fn inverted<F: Field>(points: Seq<F>, point: F, inverses: Seq<F>) -> bool {
    &&& inverses.len() == points.len()
    &&& forall|i: int|
        #![trigger inverses[i]]
        0 <= i < points.len() ==> inverses[i].wf() && inverses[i].sp_mul(point.sp_sub(points[i]))
            == F::sp_one()
}

/// The `j`-th pair of evaluations and inverses, and what is made of it.
spec fn split_pair<F: Field>(
    points: Seq<F>,
    evaluations: Seq<F>,
    even: Seq<F>,
    odd: Seq<F>,
    folded: Seq<F>,
    inverses: Seq<F>,
    products: Seq<F>,
    point: F,
    j: int,
) -> bool {
    &&& evaluations[2 * j] == even[j].sp_add(points[2 * j].sp_mul(odd[j]))
    &&& evaluations[2 * j + 1] == even[j].sp_add(points[2 * j + 1].sp_mul(odd[j]))
    &&& folded[j] == even[j].sp_add(point.sp_mul(odd[j]))
    &&& products[j] == inverses[2 * j].sp_mul(inverses[2 * j + 1])
}

proof fn lemma_paired_sum<F: CommutativeRing>(
    points: Seq<F>,
    squares: Seq<F>,
    evaluations: Seq<F>,
    even: Seq<F>,
    odd: Seq<F>,
    folded: Seq<F>,
    scale: F,
    inverses: Seq<F>,
    products: Seq<F>,
    point: F,
    m: nat,
)
    requires
        paired(points, squares),
        inverted(points, point, inverses),
        point.wf(),
        m <= squares.len(),
        forall|j: int|
            0 <= j < squares.len() ==> #[trigger] split_pair(
                points,
                evaluations,
                even,
                odd,
                folded,
                inverses,
                products,
                point,
                j,
            ),
    ensures
        weighted_sum(points, evaluations, scale, inverses, 2 * m) == weighted_sum(
            squares,
            folded,
            scale.sp_add(scale),
            products,
            m,
        ),
    decreases m,
{
    if m > 0 {
        let k = (m - 1) as nat;
        lemma_paired_sum(
            points,
            squares,
            evaluations,
            even,
            odd,
            folded,
            scale,
            inverses,
            products,
            point,
            k,
        );
        let a = 2 * k as int;
        let b = 2 * k as int + 1;
        assert(opposite_pair(points, squares, k as int));
        assert(split_pair(
            points,
            evaluations,
            even,
            odd,
            folded,
            inverses,
            products,
            point,
            k as int,
        ));
        let before = weighted_sum(points, evaluations, scale, inverses, 2 * k);
        let first = evaluations[a].sp_mul(points[a].sp_mul(scale)).sp_mul(inverses[a]);
        let second = evaluations[b].sp_mul(points[b].sp_mul(scale)).sp_mul(inverses[b]);
        assert(weighted_sum(points, evaluations, scale, inverses, 2 * m) == weighted_sum(
            points,
            evaluations,
            scale,
            inverses,
            2 * k + 1,
        ).sp_add(second));
        assert(weighted_sum(points, evaluations, scale, inverses, 2 * k + 1) == before.sp_add(
            first,
        ));
        F::add_associates(before, first, second);
        assert(inverses[a].wf() && inverses[b].wf());
        lemma_pair(
            even[k as int],
            odd[k as int],
            points[a],
            points[b],
            point,
            scale,
            inverses[a],
            inverses[b],
        );
    }
}

/// The `2^(n-1)`-th power of `g` is the opposite of one.
spec fn half_turn<F: Field>(g: F, n: nat) -> bool {
    n > 0 ==> field::power(g, pow2((n - 1) as nat)).sp_add(F::sp_one()) == F::sp_zero()
}

/// The points of a coset are opposite in pairs, and their squares are the coset of the squares.
proof fn lemma_coset_paired<F: CommutativeRing>(s: F, g: F, n: nat)
    requires
        n > 0,
        half_turn(g, n),
    ensures
        paired(coset(s, g, n), coset(s.sp_mul(s), g.sp_mul(g), (n - 1) as nat)),
{
    let m = (n - 1) as nat;
    let half = pow2(m);
    lemma_pow2_unfold(n);
    let points = coset(s, g, n);
    let squares = coset(s.sp_mul(s), g.sp_mul(g), m);
    assert forall|j: int| 0 <= j < squares.len() implies #[trigger] opposite_pair(
        points,
        squares,
        j,
    ) by {
        let r = bits::reversed_bits(j as nat, m);
        assert((2 * j) as nat % 2 == 0 && (2 * j) as nat / 2 == j as nat);
        assert((2 * j + 1) as nat % 2 == 1 && (2 * j + 1) as nat / 2 == j as nat);
        assert(bits::reversed_bits((2 * j) as nat, n) == r) by {
            assert(0nat * half == 0) by (nonlinear_arith);
        }
        assert(bits::reversed_bits((2 * j + 1) as nat, n) == r + half) by {
            assert(1nat * half == half) by (nonlinear_arith);
        }
        let p = field::power(g, r);
        let h = field::power(g, half);
        let x = s.sp_mul(p);
        field::lemma_power_add(g, r, half);
        F::mul_associates(s, p, h);
        assert(points[2 * j + 1] == x.sp_mul(h));
        // x + x·h = x·(h + 1) = 0
        F::closed(s, p);
        F::mul_distributes(x, h, F::sp_one());
        F::mul_one(x);
        F::mul_zero(x);
        F::add_commutes(x, x.sp_mul(h));
        // (s·p)·(s·p) = (s·s)·(p·p)
        F::mul_associates(s, p, x);
        F::mul_associates(p, s, p);
        F::mul_commutes(p, s);
        F::mul_associates(s, p, p);
        F::mul_associates(s, s, p.sp_mul(p));
        field::lemma_power_add(g, r, r);
        field::lemma_power_square(g, r);
    }
    assert(points.len() == 2 * squares.len());
}

/// The sum and the product of the differences yield the value of the polynomial.
proof fn lemma_evaluates<F: CommutativeRing>(
    s: F,
    g: F,
    n: nat,
    coefficients: Seq<F>,
    evaluations: Seq<F>,
    scale: F,
    inverses: Seq<F>,
    point: F,
)
    requires
        s.wf(),
        point.wf(),
        half_turn(g, n),
        coefficients.len() == pow2(n),
        whir_gadgets::all_wf(coefficients),
        forall|i: int|
            0 <= i < pow2(n) ==> #[trigger] evaluations[i] == whir_gadgets::combination(
                coefficients,
                coset(s, g, n)[i],
                pow2(n),
            ),
        inverted(coset(s, g, n), point, inverses),
        scale.sp_mul(
            field::power(F::sp_one().sp_add(F::sp_one()), n).sp_mul(field::power(s, pow2(n))),
        ) == F::sp_one(),
    ensures
        weighted_sum(coset(s, g, n), evaluations, scale, inverses, pow2(n)).sp_mul(
            differences(coset(s, g, n), point, pow2(n)),
        ) == whir_gadgets::combination(coefficients, point, pow2(n)),
    decreases n,
{
    let one = F::sp_one();
    let two = one.sp_add(one);
    let points = coset(s, g, n);
    F::closed(one, one);
    if n == 0 {
        lemma2_to64();
        let c = coefficients[0];
        assert(c.wf());
        assert(field::power(g, 0) == one);
        F::mul_one(s);
        assert(points[0] == s);
        F::mul_one(c);
        F::add_commutes(F::sp_zero(), c);
        F::add_zero(c);
        assert(whir_gadgets::combination(coefficients, s, 1) == whir_gadgets::combination(
            coefficients,
            s,
            0,
        ).sp_add(c.sp_mul(field::power(s, 0))));
        assert(whir_gadgets::combination(coefficients, point, 1) == whir_gadgets::combination(
            coefficients,
            point,
            0,
        ).sp_add(c.sp_mul(field::power(point, 0))));
        assert(evaluations[0] == c);
        // scale·(1·(1·s)) = scale·s
        assert(field::power(s, 1) == field::power(s, 0).sp_mul(s));
        F::mul_commutes(one, s);
        F::mul_commutes(scale, s);
        assert(s.sp_mul(scale) == one);
        let inverse = inverses[0];
        let d = point.sp_sub(s);
        F::closed(point, s);
        assert(weighted_sum(points, evaluations, scale, inverses, 1) == weighted_sum(
            points,
            evaluations,
            scale,
            inverses,
            0,
        ).sp_add(c.sp_mul(s.sp_mul(scale)).sp_mul(inverse)));
        F::closed(c, inverse);
        F::add_commutes(F::sp_zero(), c.sp_mul(inverse));
        F::add_zero(c.sp_mul(inverse));
        assert(differences(points, point, 1) == differences(points, point, 0).sp_mul(d));
        F::mul_commutes(one, d);
        F::mul_one(d);
        F::mul_associates(c, inverse, d);
    } else {
        let m = (n - 1) as nat;
        let half = pow2(m);
        lemma_pow2_unfold(n);
        let (ss, gg) = (s.sp_mul(s), g.sp_mul(g));
        let squares = coset(ss, gg, m);
        let even = even_entries(coefficients);
        let odd = odd_entries(coefficients);
        let mixed = Seq::new(half, |k: int| even[k].sp_add(point.sp_mul(odd[k])));
        let even_values = Seq::new(
            half,
            |j: int| whir_gadgets::combination(even, squares[j], half),
        );
        let odd_values = Seq::new(half, |j: int| whir_gadgets::combination(odd, squares[j], half));
        let folded = Seq::new(half, |j: int| whir_gadgets::combination(mixed, squares[j], half));
        let products = Seq::new(half, |j: int| inverses[2 * j].sp_mul(inverses[2 * j + 1]));
        lemma_coset_paired(s, g, n);
        assert forall|j: int| 0 <= j < half implies #[trigger] split_pair(
            points,
            evaluations,
            even_values,
            odd_values,
            folded,
            inverses,
            products,
            point,
            j,
        ) by {
            let (x, y) = (points[2 * j], points[2 * j + 1]);
            assert(opposite_pair(points, squares, j));
            assert(evaluations[2 * j] == whir_gadgets::combination(coefficients, x, pow2(n)));
            assert(evaluations[2 * j + 1] == whir_gadgets::combination(coefficients, y, pow2(n)));
            lemma_opposite_squares(x, y);
            lemma_parts(coefficients, x, half);
            lemma_parts(coefficients, y, half);
            lemma_mixed(even, odd, mixed, point, squares[j], half);
        }
        assert forall|j: int|
            #![trigger products[j]]
            0 <= j < half implies products[j].wf() && products[j].sp_mul(
            point.sp_mul(point).sp_sub(squares[j]),
        ) == one by {
            let (x, y) = (points[2 * j], points[2 * j + 1]);
            assert(opposite_pair(points, squares, j));
            let (u, v) = (inverses[2 * j], inverses[2 * j + 1]);
            let (a, b) = (point.sp_sub(x), point.sp_sub(y));
            assert(u.sp_mul(a) == one && v.sp_mul(b) == one);
            F::closed(u, v);
            lemma_sub_opposite(point, x, y);
            lemma_difference_of_squares(point, x);
            // (u·v)·(a·b) = u·(v·(b·a)) = u·((v·b)·a) = u·a
            F::mul_associates(u, v, a.sp_mul(b));
            F::mul_commutes(a, b);
            F::mul_associates(v, b, a);
            F::closed(point, x);
            F::mul_commutes(one, a);
            F::mul_one(a);
        }
        assert(inverted(squares, point.sp_mul(point), products));
        lemma_paired_sum(
            points,
            squares,
            evaluations,
            even_values,
            odd_values,
            folded,
            scale,
            inverses,
            products,
            point,
            half,
        );
        lemma_paired_differences(points, squares, point, half);
        // (scale + scale)·(2^m·ss^half) = scale·(2^n·s^(2·half))
        let q = field::power(two, m);
        let t = field::power(ss, half);
        field::lemma_power_square(s, half);
        assert(field::power(two, n) == q.sp_mul(two));
        F::mul_associates(q, two, t);
        F::mul_commutes(two, t);
        F::mul_associates(q, t, two);
        let qt = q.sp_mul(t);
        F::mul_associates(scale, qt, two);
        F::mul_distributes(scale.sp_mul(qt), one, one);
        F::closed(scale, qt);
        F::mul_one(scale.sp_mul(qt));
        F::mul_commutes(scale.sp_add(scale), qt);
        F::mul_distributes(qt, scale, scale);
        F::mul_commutes(qt, scale);
        F::closed(s, s);
        F::closed(point, point);
        assert(half_turn(gg, m)) by {
            if m > 0 {
                lemma_pow2_unfold(m);
                field::lemma_power_square(g, pow2((m - 1) as nat));
            }
        }
        assert forall|k: int| 0 <= k < mixed.len() implies (#[trigger] mixed[k]).wf() by {
            F::closed(even[k], point.sp_mul(odd[k]));
        }
        lemma_evaluates(
            ss,
            gg,
            m,
            mixed,
            folded,
            scale.sp_add(scale),
            products,
            point.sp_mul(point),
        );
        lemma_mixed(even, odd, mixed, point, point.sp_mul(point), half);
        lemma_parts(coefficients, point, half);
    }
}

// The law.

/// The chosen generator of the subgroup of order `2^n` has that order.
pub open spec fn generates<F: TwoAdicField>(n: nat) -> bool {
    let g = F::sp_two_adic_generator(n);
    &&& field::power(g, pow2(n)) == F::sp_one()
    &&& n > 0 ==> field::power(g, pow2((n - 1) as nat)) != F::sp_one()
}

/// Half the order leads to the opposite of one.
proof fn lemma_half_turn<F: TwoAdicField>(n: nat)
    requires
        field::divides::<F>(),
        generates::<F>(n),
    ensures
        half_turn(F::sp_two_adic_generator(n), n),
{
    if n > 0 {
        let one = F::sp_one();
        let g = F::sp_two_adic_generator(n);
        let half = pow2((n - 1) as nat);
        lemma_pow2_unfold(n);
        field::lemma_power_add(g, half, half);
        let h = field::power(g, half);
        field::lemma_power_wf(g, half);
        F::closed(one, one);
        F::closed(h, one);
        field::lemma_difference(h, one);
        field::lemma_difference(one, one);
        lemma_difference_of_squares(h, one);
        F::mul_one(one);
        let d = h.sp_sub(one);
        let s = h.sp_add(one);
        let inverse = d.sp_inv();
        assert(d.sp_mul(inverse) == one);
        // s = (d·d⁻¹)·s = d⁻¹·(d·s) = 0
        F::mul_commutes(d, inverse);
        F::mul_associates(inverse, d, s);
        F::mul_commutes(one, s);
        F::mul_one(s);
        F::mul_zero(inverse);
    }
}

proof fn lemma_embedded_power<F: Field, EF: ExtensionField<F>>(x: F, n: nat)
    ensures
        EF::sp_from_base(field::power(x, n)) == field::power(EF::sp_from_base(x), n),
    decreases n,
{
    EF::base_embeds(x, x);
    if n > 0 {
        lemma_embedded_power::<F, EF>(x, (n - 1) as nat);
        EF::base_embeds(field::power(x, (n - 1) as nat), x);
    }
}

/// The image of `2^n` is a power of two ones.
proof fn lemma_two_power<F: CommutativeRing>(n: nat)
    ensures
        F::sp_from(pow2(n)) == field::power(F::sp_one().sp_add(F::sp_one()), n),
    decreases n,
{
    let one = F::sp_one();
    if n == 0 {
        lemma2_to64();
        F::from_adds(0, 1);
    } else {
        let m = (n - 1) as nat;
        lemma_two_power::<F>(m);
        lemma_pow2_unfold(n);
        F::from_adds(pow2(m), pow2(m));
        let p = F::sp_from(pow2(m));
        field::lemma_power_wf(one.sp_add(one), m);
        F::mul_distributes(p, one, one);
        F::mul_one(p);
    }
}

/// The images of the points of a row.
spec fn embedded<F: Field, EF: ExtensionField<F>>(points: Seq<F>) -> Seq<EF> {
    Seq::new(points.len(), |i: int| EF::sp_from_base(points[i]))
}

proof fn lemma_embedded_coset<F: TwoAdicField, EF: ExtensionField<F>>(start: F, n: nat)
    requires
        start.wf(),
    ensures
        embedded::<F, EF>(fri_witness::coset_points::<F>(start, n)) == coset(
            EF::sp_from_base(start),
            EF::sp_from_base(F::sp_two_adic_generator(n)),
            n,
        ),
{
    let g = F::sp_two_adic_generator(n);
    let points = fri_witness::coset_points::<F>(start, n);
    let s = EF::sp_from_base(start);
    assert forall|i: int| 0 <= i < pow2(n) implies #[trigger] embedded::<F, EF>(points)[i]
        == coset(s, EF::sp_from_base(g), n)[i] by {
        let r = bits::reversed_bits(i as nat, n);
        fri_witness::lemma_shifted_power(start, g, r);
        EF::base_embeds(start, field::power(g, r));
        lemma_embedded_power::<F, EF>(g, r);
    }
    assert(embedded::<F, EF>(points) =~= coset(s, EF::sp_from_base(g), n));
}

proof fn lemma_embedded_sums<F: Field, EF: ExtensionField<F>>(
    points: Seq<F>,
    evaluations: Seq<EF>,
    scale: F,
    point: EF,
    inverses: Seq<EF>,
    n: nat,
)
    requires
        n <= points.len(),
        forall|i: int|
            0 <= i < n ==> #[trigger] inverses[i] == point.sp_sub(
                EF::sp_from_base(points[i]),
            ).sp_inv(),
    ensures
        fri_witness::vanishing(points, point, n) == differences(
            embedded::<F, EF>(points),
            point,
            n,
        ),
        fri_witness::barycentric_sum(points, evaluations, scale, point, n) == weighted_sum(
            embedded::<F, EF>(points),
            evaluations,
            EF::sp_from_base(scale),
            inverses,
            n,
        ),
    decreases n,
{
    if n > 0 {
        let i = n - 1;
        lemma_embedded_sums(points, evaluations, scale, point, inverses, i as nat);
        assert(inverses[i] == point.sp_sub(EF::sp_from_base(points[i])).sp_inv());
        EF::base_embeds(points[i], scale);
    }
}

/// The scale of a row divides one by the size of the row times the power of its start.
proof fn lemma_scale<F: TwoAdicField, EF: ExtensionField<F> + CommutativeRing>(start: F, n: nat)
    requires
        start.wf(),
        field::is_unit(start),
        field::divides::<F>(),
    ensures
        ({
            let points = fri_witness::coset_points::<F>(start, n);
            let scale = F::sp_from(points.len()).sp_mul(
                field::repeated_square(points[0], n),
            ).sp_inv();
            EF::sp_from_base(scale).sp_mul(
                field::power(EF::sp_one().sp_add(EF::sp_one()), n).sp_mul(
                    field::power(EF::sp_from_base(start), pow2(n)),
                ),
            ) == EF::sp_one()
        }),
{
    let points = fri_witness::coset_points::<F>(start, n);
    lemma_pow2_pos(n);
    fri_witness::lemma_reversed_zero(n);
    assert(points[0] == start);
    field::lemma_repeated_square(start, n);
    let count = F::sp_from(pow2(n));
    let last = field::power(start, pow2(n));
    let size = count.sp_mul(last);
    F::power_of_two_unit(n);
    field::lemma_unit_power(start, pow2(n));
    field::lemma_unit_mul(count, last);
    field::lemma_unit_nonzero(size);
    F::closed(count, last);
    let scale = size.sp_inv();
    assert(size.sp_mul(scale) == F::sp_one());
    EF::base_embeds(size, scale);
    EF::base_embeds(count, last);
    lemma_two_power::<F>(n);
    let two = F::sp_one().sp_add(F::sp_one());
    lemma_embedded_power::<F, EF>(two, n);
    EF::base_embeds(F::sp_one(), F::sp_one());
    lemma_embedded_power::<F, EF>(start, pow2(n));
    EF::mul_commutes(EF::sp_from_base(size), EF::sp_from_base(scale));
}

/// Folding a row evaluates a polynomial: where the row holds the values, on the points of its coset,
/// of a polynomial with as many coefficients as the row has entries, it folds to the value of that
/// polynomial at the challenge.
pub proof fn law_folding_evaluates_the_polynomial<
    F: TwoAdicField,
    EF: ExtensionField<F> + CommutativeRing,
>(start: F, log_arity: nat, coefficients: Seq<EF>, row: Seq<EF>, challenge: EF)
    requires
        field::divides::<F>(),
        field::divides::<EF>(),
        generates::<F>(log_arity),
        start.wf(),
        field::is_unit(start),
        challenge.wf(),
        whir_gadgets::all_wf(coefficients),
        coefficients.len() == row.len() == pow2(log_arity),
        forall|i: int|
            0 <= i < row.len() ==> #[trigger] row[i] == whir_gadgets::combination(
                coefficients,
                EF::sp_from_base(fri_witness::coset_points::<F>(start, log_arity)[i]),
                coefficients.len(),
            ),
    ensures
        fri_witness::interpolated(
            fri_witness::coset_points::<F>(start, log_arity),
            row,
            log_arity,
            challenge,
        ) == whir_gadgets::combination(coefficients, challenge, coefficients.len()),
{
    let g = F::sp_two_adic_generator(log_arity);
    let points = fri_witness::coset_points::<F>(start, log_arity);
    let images = embedded::<F, EF>(points);
    let s = EF::sp_from_base(start);
    lemma_embedded_coset::<F, EF>(start, log_arity);
    let hit = fri_witness::hits::<F, EF>(points, challenge);
    seqs::lemma_least(points.len(), hit);
    assert forall|i: int| 0 <= i < points.len() implies {
        &&& (#[trigger] images[i]).wf()
        &&& hit(i) == (challenge == images[i])
    } by {
        let r = bits::reversed_bits(i as nat, log_arity);
        EF::closed(s, field::power(EF::sp_from_base(g), r));
        field::lemma_difference(challenge, images[i]);
    }
    match seqs::least(points.len(), hit) {
        Some(i) => {
            assert(images[i] == challenge);
            assert(row[i] == whir_gadgets::combination(
                coefficients,
                images[i],
                coefficients.len(),
            ));
        },
        None => {
            let scale = F::sp_from(points.len()).sp_mul(
                field::repeated_square(points[0], log_arity),
            ).sp_inv();
            let inverses = Seq::new(
                points.len(),
                |i: int| challenge.sp_sub(EF::sp_from_base(points[i])).sp_inv(),
            );
            lemma_scale::<F, EF>(start, log_arity);
            lemma_half_turn::<F>(log_arity);
            assert(half_turn(EF::sp_from_base(g), log_arity)) by {
                if log_arity > 0 {
                    let half = pow2((log_arity - 1) as nat);
                    lemma_embedded_power::<F, EF>(g, half);
                    EF::base_embeds(field::power(g, half), F::sp_one());
                }
            }
            assert forall|i: int| #![trigger inverses[i]] 0 <= i < images.len() implies {
                &&& inverses[i].wf()
                &&& inverses[i].sp_mul(challenge.sp_sub(images[i])) == EF::sp_one()
            } by {
                let d = challenge.sp_sub(images[i]);
                assert(!hit(i));
                EF::closed(challenge, images[i]);
                assert(inverses[i] == d.sp_inv());
                EF::mul_commutes(d, inverses[i]);
            }
            EF::base_embeds(start, start);
            lemma_embedded_sums(points, row, scale, challenge, inverses, points.len());
            lemma_evaluates(
                s,
                EF::sp_from_base(g),
                log_arity,
                coefficients,
                row,
                EF::sp_from_base(scale),
                inverses,
                challenge,
            );
        },
    }
}

} // verus!
