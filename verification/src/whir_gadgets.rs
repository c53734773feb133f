//! Multilinear-polynomial arithmetic gadgets used by the WHIR verifier.

use vstd::arithmetic::power2::*;
use vstd::prelude::*;

use crate::circuit;
use crate::circuit::CircuitBuilder;
use crate::field;
use crate::field::{CommutativeRing, Field};
use crate::types::Target;

verus! {

/// The multilinear point of a univariate one: coordinate `n - 1` is `z`, and each coordinate before
/// it is the square of the next.
pub open spec fn expanded<F: Field>(z: F, n: nat) -> Seq<F> {
    Seq::new(n, |i: int| field::repeated_square(z, (n - 1 - i) as nat))
}

/// Lifts a univariate point `z` to the `num_variables`-dimensional multilinear point
/// `[z^(2^(n-1)), …, z^2, z]`.
///
/// Costs `num_variables - 1` squarings. Returns an empty vector when `num_variables == 0`.
pub fn expand_from_univariate<F: Field>(
    builder: &mut CircuitBuilder<F>,
    z: Target,
    num_variables: usize,
) -> (r: Vec<Target>)
    requires
        old(builder).wf(),
        old(builder).has(z),
    ensures
        old(builder).computes_into(*final(builder)),
        final(builder).has_all(r@),
        forall|env: spec_fn(int) -> F| #[trigger]
            final(builder).values(env, r@) == expanded(
                old(builder).value(env, z),
                num_variables as nat,
            ),
        final(builder).nodes@.len() == old(builder).nodes@.len() + (if num_variables == 0 {
            0
        } else {
            num_variables - 1
        }),
{
    let ghost start = *builder;
    let mut powers: Vec<Target> = Vec::new();
    if num_variables == 0 {
        proof {
            assert forall|env: spec_fn(int) -> F| #[trigger]
                builder.values(env, powers@) == expanded(start.value(env, z), 0) by {
                assert(builder.values(env, powers@) =~= expanded(start.value(env, z), 0));
            }
        }
        return powers;
    }
    let mut cur: Target = z;
    powers.push(cur);
    let mut k: usize = 1;
    while k < num_variables
        invariant
            1 <= k <= num_variables,
            start.wf(),
            start.has(z),
            start.computes_into(*builder),
            builder.nodes@.len() == start.nodes@.len() + k - 1,
            powers@.len() == k,
            cur == powers@[k - 1],
            builder.has_all(powers@),
            forall|env: spec_fn(int) -> F, j: int|
                0 <= j < k ==> #[trigger] builder.value(env, powers@[j]) == field::repeated_square(
                    start.value(env, z),
                    j as nat,
                ),
        decreases num_variables - k,
    {
        let ghost before = *builder;
        let ghost earlier = powers@;
        assert(builder.has(powers@[k - 1]));
        cur = builder.mul(cur, cur);
        powers.push(cur);
        proof {
            start.lemma_grown(*builder);
            assert forall|env: spec_fn(int) -> F, j: int| 0 <= j < k + 1 implies #[trigger]
                builder.value(env, powers@[j]) == field::repeated_square(start.value(env, z), j as nat) by {
                if j < k {
                    assert(powers@[j] == earlier[j]);
                    assert(before.has(earlier[j]));
                    assert(before.value(env, earlier[j]) == field::repeated_square(
                        start.value(env, z),
                        j as nat,
                    ));
                } else {
                    assert(before.value(env, earlier[k - 1]) == field::repeated_square(
                        start.value(env, z),
                        (k - 1) as nat,
                    ));
                }
            }
            assert forall|j: int| 0 <= j < powers@.len() implies builder.has(
                #[trigger] powers@[j],
            ) by {
                if j < k {
                    assert(before.has(earlier[j]));
                }
            }
        }
        k += 1;
    }
    let mut r: Vec<Target> = Vec::new();
    let mut i: usize = 0;
    while i < num_variables
        invariant
            i <= num_variables,
            powers@.len() == num_variables,
            r@.len() == i,
            forall|j: int| 0 <= j < i ==> #[trigger] r@[j] == powers@[num_variables - 1 - j],
        decreases num_variables - i,
    {
        r.push(powers[num_variables - 1 - i]);
        i += 1;
    }
    proof {
        assert forall|j: int| 0 <= j < r@.len() implies builder.has(#[trigger] r@[j]) by {
            assert(builder.has(powers@[num_variables - 1 - j]));
        }
        assert forall|env: spec_fn(int) -> F| #[trigger]
            builder.values(env, r@) == expanded(start.value(env, z), num_variables as nat) by {
            assert forall|j: int| 0 <= j < r@.len() implies builder.values(env, r@)[j] == expanded(
                start.value(env, z),
                num_variables as nat,
            )[j] by {
                assert(builder.value(env, powers@[num_variables - 1 - j]) == field::repeated_square(
                    start.value(env, z),
                    (num_variables - 1 - j) as nat,
                ));
            }
            assert(builder.values(env, r@) =~= expanded(
                start.value(env, z),
                num_variables as nat,
            ));
        }
    }
    r
}

/// One factor of the equality polynomial: `2·a·b - a - b + 1`.
pub open spec fn eq_factor<F: Field>(a: F, b: F) -> F {
    a.sp_add(a).sp_mul(b).sp_sub(a).sp_sub(b).sp_add(F::sp_one())
}

pub open spec fn eq_factors<F: Field>(a: Seq<F>, b: Seq<F>) -> Seq<F> {
    Seq::new(a.len(), |i: int| eq_factor(a[i], b[i]))
}

/// The equality polynomial at two points.
pub open spec fn eq_at<F: Field>(a: Seq<F>, b: Seq<F>) -> F {
    circuit::product(eq_factors(a, b), a.len())
}

/// Evaluates the multilinear equality polynomial `eq(a, b) = ∏_i (a_i·b_i + (1-a_i)·(1-b_i))`.
///
/// Each factor is computed as `2·a_i·b_i - a_i - b_i + 1`. The product of zero factors is `1`.
pub fn eq_eval<F: Field>(builder: &mut CircuitBuilder<F>, a: &[Target], b: &[Target]) -> (r: Target)
    requires
        old(builder).wf(),
        old(builder).has_all(a@),
        old(builder).has_all(b@),
        a@.len() == b@.len(),
    ensures
        old(builder).computes_into(*final(builder)),
        final(builder).has(r),
        forall|env: spec_fn(int) -> F| #[trigger]
            final(builder).value(env, r) == eq_at(
                old(builder).values(env, a@),
                old(builder).values(env, b@),
            ),
{
    let ghost start = *builder;
    let one: Target = builder.define_const(F::one());
    let mut terms: Vec<Target> = Vec::new();
    let mut i: usize = 0;
    while i < a.len()
        invariant
            i <= a@.len(),
            a@.len() == b@.len(),
            start.wf(),
            start.has_all(a@),
            start.has_all(b@),
            start.computes_into(*builder),
            builder.has(one),
            forall|env: spec_fn(int) -> F| #[trigger] builder.value(env, one) == F::sp_one(),
            terms@.len() == i,
            builder.has_all(terms@),
            forall|env: spec_fn(int) -> F, j: int|
                0 <= j < i ==> #[trigger] builder.value(env, terms@[j]) == eq_factor(
                    start.value(env, a@[j]),
                    start.value(env, b@[j]),
                ),
        decreases a@.len() - i,
    {
        let ghost before = *builder;
        let ghost earlier = terms@;
        let ai: Target = a[i];
        let bi: Target = b[i];
        assert(start.has(a@[i as int]) && start.has(b@[i as int]));
        let two_ai: Target = builder.add(ai, ai);
        let two_ai_bi: Target = builder.mul(two_ai, bi);
        let t: Target = builder.sub(two_ai_bi, ai);
        let t: Target = builder.sub(t, bi);
        let t: Target = builder.add(t, one);
        terms.push(t);
        proof {
            before.lemma_grown(*builder);
            start.lemma_grown(*builder);
            assert forall|env: spec_fn(int) -> F| #[trigger] builder.value(env, one)
                == F::sp_one() by {
                assert(before.value(env, one) == F::sp_one());
            }
            assert forall|env: spec_fn(int) -> F, j: int| 0 <= j < i + 1 implies #[trigger]
                builder.value(env, terms@[j]) == eq_factor(
                start.value(env, a@[j]),
                start.value(env, b@[j]),
            ) by {
                if j < i {
                    assert(terms@[j] == earlier[j]);
                    assert(before.has(earlier[j]));
                    assert(before.value(env, earlier[j]) == eq_factor(
                        start.value(env, a@[j]),
                        start.value(env, b@[j]),
                    ));
                } else {
                    assert(before.value(env, one) == F::sp_one());
                    assert(before.value(env, ai) == start.value(env, ai));
                    assert(before.value(env, bi) == start.value(env, bi));
                }
            }
            assert forall|j: int| 0 <= j < terms@.len() implies builder.has(
                #[trigger] terms@[j],
            ) by {
                if j < i {
                    assert(before.has(earlier[j]));
                }
            }
        }
        i += 1;
    }
    let ghost before = *builder;
    let r: Target = builder.mul_many(terms.as_slice());
    proof {
        start.lemma_grown(*builder);
        assert forall|env: spec_fn(int) -> F| #[trigger] builder.value(env, r) == eq_at(
            start.values(env, a@),
            start.values(env, b@),
        ) by {
            assert(before.values(env, terms@) =~= eq_factors(
                start.values(env, a@),
                start.values(env, b@),
            )) by {
                assert forall|j: int| 0 <= j < terms@.len() implies before.values(
                    env,
                    terms@,
                )[j] == eq_factors(start.values(env, a@), start.values(env, b@))[j] by {
                    assert(before.value(env, terms@[j]) == eq_factor(
                        start.value(env, a@[j]),
                        start.value(env, b@[j]),
                    ));
                }
            }
        }
    }
    r
}

/// One factor of the selection polynomial.
pub open spec fn select_factor<F: Field>(coord: F, var: F) -> F {
    coord.sp_mul(var.sp_sub(F::sp_one())).sp_add(F::sp_one())
}

pub open spec fn select_factors<F: Field>(point: Seq<F>, z: F) -> Seq<F> {
    Seq::new(
        point.len(),
        |k: int| select_factor(point[point.len() - 1 - k], field::repeated_square(z, k as nat)),
    )
}

/// The selection polynomial: `∏_k (point[n-1-k]·(z^(2^k) - 1) + 1)`.
pub open spec fn select_at<F: Field>(point: Seq<F>, z: F) -> F {
    circuit::product(select_factors(point, z), point.len())
}

/// Evaluates the selection polynomial `select(point, z)` that the WHIR verifier uses to turn a
/// univariate opening into a multilinear weight.
///
/// The coordinates of `point` are consumed in reverse order and paired with the powers
/// `z, z^2, z^4, …`. The product of zero factors is `1`.
pub fn select_eval<F: Field>(
    builder: &mut CircuitBuilder<F>,
    point: &[Target],
    z: Target,
) -> (r: Target)
    requires
        old(builder).wf(),
        old(builder).has_all(point@),
        old(builder).has(z),
    ensures
        old(builder).computes_into(*final(builder)),
        final(builder).has(r),
        forall|env: spec_fn(int) -> F| #[trigger]
            final(builder).value(env, r) == select_at(
                old(builder).values(env, point@),
                old(builder).value(env, z),
            ),
{
    let ghost start = *builder;
    let one: Target = builder.define_const(F::one());
    let n: usize = point.len();
    let mut var: Target = z;
    let mut terms: Vec<Target> = Vec::new();
    let mut k: usize = 0;
    while k < n
        invariant
            k <= n,
            n == point@.len(),
            start.wf(),
            start.has_all(point@),
            start.has(z),
            start.computes_into(*builder),
            builder.has(one),
            builder.has(var),
            forall|env: spec_fn(int) -> F| #[trigger] builder.value(env, one) == F::sp_one(),
            k < n ==> forall|env: spec_fn(int) -> F| #[trigger]
                builder.value(env, var) == field::repeated_square(start.value(env, z), k as nat),
            terms@.len() == k,
            builder.has_all(terms@),
            forall|env: spec_fn(int) -> F, j: int|
                0 <= j < k ==> #[trigger] builder.value(env, terms@[j]) == select_factor(
                    start.value(env, point@[n - 1 - j]),
                    field::repeated_square(start.value(env, z), j as nat),
                ),
        decreases n - k,
    {
        let ghost before = *builder;
        let ghost earlier = terms@;
        let ghost old_var = var;
        let coord: Target = point[n - 1 - k];
        assert(start.has(point@[n - 1 - k]));
        let var_minus_one: Target = builder.sub(var, one);
        let term: Target = builder.mul_add(coord, var_minus_one, one);
        terms.push(term);
        if k + 1 < n {
            var = builder.mul(var, var);
        }
        proof {
            before.lemma_grown(*builder);
            start.lemma_grown(*builder);
            assert forall|env: spec_fn(int) -> F| #[trigger] builder.value(env, one)
                == F::sp_one() by {
                assert(before.value(env, one) == F::sp_one());
            }
            assert forall|env: spec_fn(int) -> F, j: int| 0 <= j < k + 1 implies #[trigger]
                builder.value(env, terms@[j]) == select_factor(
                start.value(env, point@[n - 1 - j]),
                field::repeated_square(start.value(env, z), j as nat),
            ) by {
                if j < k {
                    assert(terms@[j] == earlier[j]);
                    assert(before.has(earlier[j]));
                    assert(before.value(env, earlier[j]) == select_factor(
                        start.value(env, point@[n - 1 - j]),
                        field::repeated_square(start.value(env, z), j as nat),
                    ));
                } else {
                    assert(before.value(env, one) == F::sp_one());
                    assert(before.value(env, old_var) == field::repeated_square(start.value(env, z), k as nat));
                    assert(before.value(env, coord) == start.value(env, coord));
                }
            }
            assert forall|j: int| 0 <= j < terms@.len() implies builder.has(
                #[trigger] terms@[j],
            ) by {
                if j < k {
                    assert(before.has(earlier[j]));
                }
            }
            if k + 1 < n {
                assert forall|env: spec_fn(int) -> F| #[trigger] builder.value(env, var) == field::repeated_square(
                    start.value(env, z),
                    (k + 1) as nat,
                ) by {
                    assert(before.value(env, old_var) == field::repeated_square(start.value(env, z), k as nat));
                }
            }
        }
        k += 1;
    }
    if n == 0 {
        return one;
    }
    let ghost before = *builder;
    let r: Target = builder.mul_many(terms.as_slice());
    proof {
        start.lemma_grown(*builder);
        assert forall|env: spec_fn(int) -> F| #[trigger] builder.value(env, r) == select_at(
            start.values(env, point@),
            start.value(env, z),
        ) by {
            let model = select_factors(start.values(env, point@), start.value(env, z));
            assert(before.values(env, terms@) =~= model) by {
                assert forall|j: int| 0 <= j < terms@.len() implies before.values(
                    env,
                    terms@,
                )[j] == model[j] by {
                    assert(before.value(env, terms@[j]) == select_factor(
                        start.value(env, point@[n - 1 - j]),
                        field::repeated_square(start.value(env, z), j as nat),
                    ));
                }
            }
        }
    }
    r
}

/// The polynomial with the coefficients from `k` on, at `z`:
/// `values[k] + z·(values[k+1] + z·(…))`.
pub open spec fn horner_from<F: Field>(values: Seq<F>, z: F, k: nat) -> F
    decreases values.len() - k,
{
    if k >= values.len() {
        F::sp_zero()
    } else if k + 1 == values.len() {
        values[k as int]
    } else {
        horner_from(values, z, k + 1).sp_mul(z).sp_add(values[k as int])
    }
}

/// The polynomial with the given coefficients at `z`, by Horner's rule.
pub open spec fn horner<F: Field>(values: Seq<F>, z: F) -> F {
    horner_from(values, z, 0)
}

/// Evaluates a polynomial with coefficients `evals` at `z` using Horner's method:
/// `evals[0] + z·(evals[1] + z·(evals[2] + … + z·evals[n-1]))`.
pub fn horner_eval<F: Field>(
    builder: &mut CircuitBuilder<F>,
    evals: &[Target],
    z: Target,
) -> (r: Target)
    requires
        old(builder).wf(),
        old(builder).has_all(evals@),
        old(builder).has(z),
    ensures
        old(builder).computes_into(*final(builder)),
        final(builder).has(r),
        forall|env: spec_fn(int) -> F| #[trigger]
            final(builder).value(env, r) == horner(
                old(builder).values(env, evals@),
                old(builder).value(env, z),
            ),
{
    let ghost start = *builder;
    let n: usize = evals.len();
    if n == 0 {
        return builder.define_const(F::zero());
    }
    let mut acc: Target = evals[n - 1];
    assert(start.has(evals@[n - 1]));
    let mut k: usize = n - 1;
    while k > 0
        invariant
            k < n,
            n == evals@.len(),
            start.wf(),
            start.has_all(evals@),
            start.has(z),
            start.computes_into(*builder),
            builder.has(acc),
            forall|env: spec_fn(int) -> F| #[trigger]
                builder.value(env, acc) == horner_from(
                    start.values(env, evals@),
                    start.value(env, z),
                    k as nat,
                ),
        decreases k,
    {
        let ghost before = *builder;
        let ghost last = acc;
        let c: Target = evals[k - 1];
        assert(start.has(evals@[k - 1]));
        acc = builder.mul_add(acc, z, c);
        proof {
            start.lemma_grown(*builder);
            assert forall|env: spec_fn(int) -> F| #[trigger] builder.value(env, acc) == horner_from(
                start.values(env, evals@),
                start.value(env, z),
                (k - 1) as nat,
            ) by {
                assert(before.value(env, last) == horner_from(
                    start.values(env, evals@),
                    start.value(env, z),
                    k as nat,
                ));
                assert(before.value(env, z) == start.value(env, z));
                assert(before.value(env, c) == start.value(env, c));
            }
        }
        k -= 1;
    }
    acc
}

/// One folding step of a multilinear table: `f0[j] + p·(f1[j] - f0[j])`, where `f0` and `f1` are
/// the halves of the table.
pub open spec fn halved<F: Field>(table: Seq<F>, p: F) -> Seq<F> {
    Seq::new(
        table.len() / 2,
        |j: int|
            p.sp_mul(table[table.len() as int / 2 + j].sp_sub(table[j])).sp_add(table[j]),
    )
}

/// The table after folding the first `n` coordinates of `point`.
pub open spec fn folded_table<F: Field>(table: Seq<F>, point: Seq<F>, n: nat) -> Seq<F>
    decreases n,
{
    if n == 0 {
        table
    } else {
        halved(folded_table(table, point, (n - 1) as nat), point[n - 1])
    }
}

/// The multilinear extension of a table at a point: coordinate `point[0]` is the most significant
/// variable.
pub open spec fn multilinear<F: Field>(table: Seq<F>, point: Seq<F>) -> F {
    folded_table(table, point, point.len())[0]
}

proof fn lemma_folded_len<F: Field>(table: Seq<F>, point: Seq<F>, n: nat)
    requires
        n <= point.len(),
        table.len() == pow2(point.len()),
    ensures
        folded_table(table, point, n).len() == pow2((point.len() - n) as nat),
    decreases n,
{
    if n > 0 {
        lemma_folded_len(table, point, (n - 1) as nat);
        lemma_pow2_unfold((point.len() - n + 1) as nat);
    }
}

/// Evaluates the multilinear extension defined by `evals` (hypercube evaluations in lexicographic
/// order) at `point`.
///
/// Each fold combines the first and second halves of the current table. Costs `evals.len() - 1`
/// interpolation steps.
pub fn eval_multilinear<F: Field>(
    builder: &mut CircuitBuilder<F>,
    evals: &[Target],
    point: &[Target],
) -> (r: Target)
    requires
        old(builder).wf(),
        old(builder).has_all(evals@),
        old(builder).has_all(point@),
        evals@.len() == pow2(point@.len()),
    ensures
        old(builder).computes_into(*final(builder)),
        final(builder).has(r),
        forall|env: spec_fn(int) -> F| #[trigger]
            final(builder).value(env, r) == multilinear(
                old(builder).values(env, evals@),
                old(builder).values(env, point@),
            ),
        final(builder).nodes@.len() == old(builder).nodes@.len() + 2 * (evals@.len() - 1),
{
    let ghost start = *builder;
    let mut cur: Vec<Target> = Vec::new();
    let mut i: usize = 0;
    while i < evals.len()
        invariant
            i <= evals@.len(),
            cur@ == evals@.take(i as int),
        decreases evals@.len() - i,
    {
        cur.push(evals[i]);
        i += 1;
        assert(cur@ =~= evals@.take(i as int));
    }
    assert(cur@ =~= evals@);
    let mut k: usize = 0;
    while k < point.len()
        invariant
            k <= point@.len(),
            start.wf(),
            start.has_all(point@),
            evals@.len() == pow2(point@.len()),
            start.computes_into(*builder),
            builder.has_all(cur@),
            cur@.len() == pow2((point@.len() - k) as nat),
            builder.nodes@.len() == start.nodes@.len() + 2 * (evals@.len() - cur@.len()),
            forall|env: spec_fn(int) -> F| #[trigger]
                builder.values(env, cur@) == folded_table(
                    start.values(env, evals@),
                    start.values(env, point@),
                    k as nat,
                ),
        decreases point@.len() - k,
    {
        let ghost level = *builder;
        let p: Target = point[k];
        assert(start.has(point@[k as int]));
        let len: usize = cur.len();
        let half: usize = len / 2;
        proof {
            lemma_pow2_unfold((point@.len() - k) as nat);
        }
        let mut next: Vec<Target> = Vec::new();
        let mut j: usize = 0;
        while j < half
            invariant
                j <= half,
                half == len / 2,
                len == cur@.len(),
                start.wf(),
                level.wf(),
                start.has(p),
                start.grows_to(level),
                level.has_all(cur@),
                level.computes_into(*builder),
                builder.nodes@.len() == level.nodes@.len() + 2 * j,
                next@.len() == j,
                builder.has_all(next@),
                forall|env: spec_fn(int) -> F, m: int|
                    0 <= m < j ==> #[trigger] builder.value(env, next@[m]) == halved(
                        level.values(env, cur@),
                        start.value(env, p),
                    )[m],
            decreases half - j,
        {
            let ghost before = *builder;
            let ghost earlier = next@;
            assert(level.has(cur@[half + j]) && level.has(cur@[j as int]));
            let diff: Target = builder.sub(cur[half + j], cur[j]);
            let folded: Target = builder.mul_add(p, diff, cur[j]);
            next.push(folded);
            proof {
                before.lemma_grown(*builder);
                level.lemma_grown(*builder);
                assert forall|env: spec_fn(int) -> F, m: int| 0 <= m < j + 1 implies #[trigger]
                    builder.value(env, next@[m]) == halved(
                    level.values(env, cur@),
                    start.value(env, p),
                )[m] by {
                    if m < j {
                        assert(next@[m] == earlier[m]);
                        assert(before.has(earlier[m]));
                        assert(before.value(env, earlier[m]) == halved(
                            level.values(env, cur@),
                            start.value(env, p),
                        )[m]);
                    } else {
                        assert(before.value(env, p) == level.value(env, p));
                        assert(level.value(env, p) == start.value(env, p));
                        assert(before.value(env, cur@[j as int]) == level.value(
                            env,
                            cur@[j as int],
                        ));
                        assert(before.value(env, cur@[half + j]) == level.value(
                            env,
                            cur@[half + j],
                        ));
                    }
                }
                assert forall|m: int| 0 <= m < next@.len() implies builder.has(
                    #[trigger] next@[m],
                ) by {
                    if m < j {
                        assert(before.has(earlier[m]));
                    }
                }
            }
            j += 1;
        }
        let ghost table = cur@;
        cur = next;
        proof {
            start.lemma_grown(*builder);
            assert forall|env: spec_fn(int) -> F| #[trigger]
                builder.values(env, cur@) == folded_table(
                start.values(env, evals@),
                start.values(env, point@),
                (k + 1) as nat,
            ) by {
                let model = halved(level.values(env, table), start.value(env, p));
                assert(level.values(env, table) == folded_table(
                    start.values(env, evals@),
                    start.values(env, point@),
                    k as nat,
                ));
                assert(builder.values(env, cur@) =~= model) by {
                    assert forall|m: int| 0 <= m < cur@.len() implies builder.values(
                        env,
                        cur@,
                    )[m] == model[m] by {
                        assert(builder.value(env, cur@[m]) == model[m]);
                    }
                }
            }
        }
        k += 1;
    }
    proof {
        lemma2_to64();
        assert(builder.has(cur@[0]));
        assert forall|env: spec_fn(int) -> F| #[trigger]
            builder.value(env, cur@[0]) == multilinear(
            start.values(env, evals@),
            start.values(env, point@),
        ) by {
            assert(builder.values(env, cur@)[0] == builder.value(env, cur@[0]));
        }
    }
    cur[0]
}

/// Combines `values` with successive powers of `base`: `Σ_i values[i]·base^i`, evaluated by
/// Horner's rule. The empty combination is `0`.
pub fn eval_powers_combination<F: Field>(
    builder: &mut CircuitBuilder<F>,
    values: &[Target],
    base: Target,
) -> (r: Target)
    requires
        old(builder).wf(),
        old(builder).has_all(values@),
        old(builder).has(base),
    ensures
        old(builder).computes_into(*final(builder)),
        final(builder).has(r),
        forall|env: spec_fn(int) -> F| #[trigger]
            final(builder).value(env, r) == horner(
                old(builder).values(env, values@),
                old(builder).value(env, base),
            ),
{
    horner_eval(builder, values, base)
}

/// One factor of a power with the exponent given by bits: `bit·(power - 1) + 1`.
pub open spec fn power_factors<F: Field>(base: F, bits: Seq<F>) -> Seq<F> {
    Seq::new(
        bits.len(),
        |i: int|
            bits[i].sp_mul(field::repeated_square(base, i as nat).sp_sub(F::sp_one())).sp_add(F::sp_one()),
    )
}

/// `∏_i (bits[i]·(base^(2^i) - 1) + 1)`.
pub open spec fn power_by_bits<F: Field>(base: F, bits: Seq<F>) -> F {
    circuit::product(power_factors(base, bits), bits.len())
}

/// Raises the compile-time constant `base` to the power encoded by the little-endian boolean
/// `bits`: `base^(Σ_i bits[i]·2^i)`.
///
/// Computes `∏_i (1 + bits[i]·(base^(2^i) - 1))`, where the `base^(2^i)` are folded in as circuit
/// constants. The empty product is `1`. The `bits` must each be boolean; they are not constrained
/// here.
pub fn pow_const_base<F: Field>(
    builder: &mut CircuitBuilder<F>,
    base: F,
    bits: &[Target],
) -> (r: Target)
    requires
        old(builder).wf(),
        old(builder).has_all(bits@),
    ensures
        old(builder).computes_into(*final(builder)),
        final(builder).has(r),
        forall|env: spec_fn(int) -> F| #[trigger]
            final(builder).value(env, r) == power_by_bits(base, old(builder).values(env, bits@)),
{
    let ghost start = *builder;
    let one: Target = builder.define_const(F::one());
    let n: usize = bits.len();
    if n == 0 {
        return one;
    }
    let mut power: F = base;
    let mut factors: Vec<Target> = Vec::new();
    let mut i: usize = 0;
    while i < n
        invariant
            i <= n,
            n == bits@.len(),
            start.wf(),
            start.has_all(bits@),
            start.computes_into(*builder),
            builder.has(one),
            i < n ==> power == field::repeated_square(base, i as nat),
            forall|env: spec_fn(int) -> F| #[trigger] builder.value(env, one) == F::sp_one(),
            factors@.len() == i,
            builder.has_all(factors@),
            forall|env: spec_fn(int) -> F, j: int|
                0 <= j < i ==> #[trigger] builder.value(env, factors@[j]) == power_factors(
                    base,
                    start.values(env, bits@),
                )[j],
        decreases n - i,
    {
        let ghost before = *builder;
        let ghost earlier = factors@;
        let bit: Target = bits[i];
        assert(start.has(bits@[i as int]));
        let coeff: Target = builder.define_const(power.sub(F::one()));
        let factor: Target = builder.mul_add(bit, coeff, one);
        factors.push(factor);
        if i + 1 < n {
            power = power.mul(power);
        }
        proof {
            before.lemma_grown(*builder);
            start.lemma_grown(*builder);
            assert forall|env: spec_fn(int) -> F| #[trigger] builder.value(env, one)
                == F::sp_one() by {
                assert(before.value(env, one) == F::sp_one());
            }
            assert forall|env: spec_fn(int) -> F, j: int| 0 <= j < i + 1 implies #[trigger]
                builder.value(env, factors@[j]) == power_factors(
                base,
                start.values(env, bits@),
            )[j] by {
                if j < i {
                    assert(factors@[j] == earlier[j]);
                    assert(before.has(earlier[j]));
                    assert(before.value(env, earlier[j]) == power_factors(
                        base,
                        start.values(env, bits@),
                    )[j]);
                } else {
                    assert(before.value(env, one) == F::sp_one());
                    assert(before.value(env, bit) == start.value(env, bit));
                }
            }
            assert forall|j: int| 0 <= j < factors@.len() implies builder.has(
                #[trigger] factors@[j],
            ) by {
                if j < i {
                    assert(before.has(earlier[j]));
                }
            }
        }
        i += 1;
    }
    let ghost before = *builder;
    let r: Target = builder.mul_many(factors.as_slice());
    proof {
        start.lemma_grown(*builder);
        assert forall|env: spec_fn(int) -> F| #[trigger] builder.value(env, r) == power_by_bits(
            base,
            start.values(env, bits@),
        ) by {
            let model = power_factors(base, start.values(env, bits@));
            assert(before.values(env, factors@) =~= model) by {
                assert forall|j: int| 0 <= j < factors@.len() implies before.values(
                    env,
                    factors@,
                )[j] == model[j] by {
                    assert(before.value(env, factors@[j]) == model[j]);
                }
            }
        }
    }
    r
}

/// The values that the weight of a constraint combines: equality terms first, then selection
/// terms.
pub open spec fn weight_terms<F: Field>(
    point: Seq<F>,
    eq_points: Seq<Seq<F>>,
    sel_scalars: Seq<F>,
) -> Seq<F> {
    Seq::new(eq_points.len(), |i: int| eq_at(point, eq_points[i])) + Seq::new(
        sel_scalars.len(),
        |j: int| select_at(point, sel_scalars[j]),
    )
}

/// The weight of a constraint at a point.
pub open spec fn weight<F: Field>(
    point: Seq<F>,
    eq_points: Seq<Seq<F>>,
    sel_scalars: Seq<F>,
    gamma: F,
) -> F {
    horner(weight_terms(point, eq_points, sel_scalars), gamma)
}

/// The values of several lists of expressions.
pub open spec fn value_rows<F: Field>(
    builder: CircuitBuilder<F>,
    env: spec_fn(int) -> F,
    rows: Seq<Vec<Target>>,
) -> Seq<Seq<F>> {
    Seq::new(rows.len(), |i: int| builder.values(env, rows[i]@))
}

pub open spec fn has_rows<F: Field>(builder: CircuitBuilder<F>, rows: Seq<Vec<Target>>) -> bool {
    forall|i: int| 0 <= i < rows.len() ==> builder.has_all((#[trigger] rows[i])@)
}

/// Evaluates a WHIR constraint's weight polynomial at `point`:
///
/// ```text
/// W(point) = Σ_i γ^i·eq(point, eq_points[i]) + Σ_j γ^{n_eq+j}·select(point, sel_scalars[j])
/// ```
///
/// where `n_eq = eq_points.len()`. Each entry of `eq_points` is a multilinear point with the same
/// length as `point`; each `sel_scalars` entry is a univariate point. The empty constraint
/// evaluates to `0`.
pub fn eval_constraint_weight<F: Field>(
    builder: &mut CircuitBuilder<F>,
    point: &[Target],
    eq_points: &[Vec<Target>],
    sel_scalars: &[Target],
    gamma: Target,
) -> (r: Target)
    requires
        old(builder).wf(),
        old(builder).has_all(point@),
        has_rows(*old(builder), eq_points@),
        old(builder).has_all(sel_scalars@),
        old(builder).has(gamma),
        forall|i: int|
            0 <= i < eq_points@.len() ==> (#[trigger] eq_points@[i])@.len() == point@.len(),
    ensures
        old(builder).computes_into(*final(builder)),
        final(builder).has(r),
        forall|env: spec_fn(int) -> F| #[trigger]
            final(builder).value(env, r) == weight(
                old(builder).values(env, point@),
                value_rows(*old(builder), env, eq_points@),
                old(builder).values(env, sel_scalars@),
                old(builder).value(env, gamma),
            ),
{
    let ghost start = *builder;
    let mut terms: Vec<Target> = Vec::new();
    let mut i: usize = 0;
    while i < eq_points.len()
        invariant
            i <= eq_points@.len(),
            start.wf(),
            start.has_all(point@),
            has_rows(start, eq_points@),
            forall|i: int|
                0 <= i < eq_points@.len() ==> (#[trigger] eq_points@[i])@.len() == point@.len(),
            start.computes_into(*builder),
            terms@.len() == i,
            builder.has_all(terms@),
            forall|env: spec_fn(int) -> F, j: int|
                0 <= j < i ==> #[trigger] builder.value(env, terms@[j]) == eq_at(
                    start.values(env, point@),
                    start.values(env, eq_points@[j]@),
                ),
        decreases eq_points@.len() - i,
    {
        let ghost before = *builder;
        let ghost earlier = terms@;
        let z: &Vec<Target> = &eq_points[i];
        assert(start.has_all(eq_points@[i as int]@));
        let t: Target = eq_eval(builder, point, z.as_slice());
        terms.push(t);
        proof {
            start.lemma_grown(*builder);
            assert forall|env: spec_fn(int) -> F, j: int| 0 <= j < i + 1 implies #[trigger]
                builder.value(env, terms@[j]) == eq_at(
                start.values(env, point@),
                start.values(env, eq_points@[j]@),
            ) by {
                if j < i {
                    assert(terms@[j] == earlier[j]);
                    assert(before.has(earlier[j]));
                    assert(before.value(env, earlier[j]) == eq_at(
                        start.values(env, point@),
                        start.values(env, eq_points@[j]@),
                    ));
                } else {
                    lemma_values_kept(start, before, env, point@);
                    lemma_values_kept(start, before, env, z@);
                }
            }
            assert forall|j: int| 0 <= j < terms@.len() implies builder.has(
                #[trigger] terms@[j],
            ) by {
                if j < i {
                    assert(before.has(earlier[j]));
                }
            }
        }
        i += 1;
    }
    let mut k: usize = 0;
    let ghost n = eq_points@.len();
    while k < sel_scalars.len()
        invariant
            k <= sel_scalars@.len(),
            n == eq_points@.len(),
            start.wf(),
            start.has_all(point@),
            start.has_all(sel_scalars@),
            start.computes_into(*builder),
            terms@.len() == n + k,
            builder.has_all(terms@),
            forall|env: spec_fn(int) -> F, j: int|
                0 <= j < n + k ==> #[trigger] builder.value(env, terms@[j]) == (if j < n {
                    eq_at(start.values(env, point@), start.values(env, eq_points@[j]@))
                } else {
                    select_at(start.values(env, point@), start.value(env, sel_scalars@[j - n]))
                }),
        decreases sel_scalars@.len() - k,
    {
        let ghost before = *builder;
        let ghost earlier = terms@;
        let z: Target = sel_scalars[k];
        assert(start.has(sel_scalars@[k as int]));
        let t: Target = select_eval(builder, point, z);
        terms.push(t);
        proof {
            start.lemma_grown(*builder);
            assert forall|env: spec_fn(int) -> F, j: int| 0 <= j < n + k + 1 implies #[trigger]
                builder.value(env, terms@[j]) == (if j < n {
                eq_at(start.values(env, point@), start.values(env, eq_points@[j]@))
            } else {
                select_at(start.values(env, point@), start.value(env, sel_scalars@[j - n]))
            }) by {
                if j < n + k {
                    assert(terms@[j] == earlier[j]);
                    assert(before.has(earlier[j]));
                    assert(before.value(env, earlier[j]) == before.value(env, terms@[j]));
                } else {
                    lemma_values_kept(start, before, env, point@);
                    assert(before.value(env, z) == start.value(env, z));
                }
            }
            assert forall|j: int| 0 <= j < terms@.len() implies builder.has(
                #[trigger] terms@[j],
            ) by {
                if j < n + k {
                    assert(before.has(earlier[j]));
                }
            }
        }
        k += 1;
    }
    let ghost before = *builder;
    let r: Target = eval_powers_combination(builder, terms.as_slice(), gamma);
    proof {
        start.lemma_grown(*builder);
        assert forall|env: spec_fn(int) -> F| #[trigger] builder.value(env, r) == weight(
            start.values(env, point@),
            value_rows(start, env, eq_points@),
            start.values(env, sel_scalars@),
            start.value(env, gamma),
        ) by {
            let model = weight_terms(
                start.values(env, point@),
                value_rows(start, env, eq_points@),
                start.values(env, sel_scalars@),
            );
            assert(before.values(env, terms@) =~= model) by {
                assert forall|j: int| 0 <= j < terms@.len() implies before.values(
                    env,
                    terms@,
                )[j] == model[j] by {
                    assert(before.value(env, terms@[j]) == model[j]);
                }
            }
            assert(before.value(env, gamma) == start.value(env, gamma));
        }
    }
    r
}

/// Expressions keep their values as a circuit grows.
pub proof fn lemma_values_kept<F: Field>(
    start: CircuitBuilder<F>,
    later: CircuitBuilder<F>,
    env: spec_fn(int) -> F,
    ids: Seq<Target>,
)
    requires
        start.grows_to(later),
        start.has_all(ids),
    ensures
        later.values(env, ids) == start.values(env, ids),
        later.has_all(ids),
{
    assert forall|i: int| 0 <= i < ids.len() implies later.values(env, ids)[i] == start.values(
        env,
        ids,
    )[i] by {
        assert(start.has(ids[i]));
        assert(later.value(env, ids[i]) == start.value(env, ids[i]));
    }
    assert(later.values(env, ids) =~= start.values(env, ids));
    assert forall|i: int| 0 <= i < ids.len() implies later.has(#[trigger] ids[i]) by {
        assert(start.has(ids[i]));
    }
}

/// Per-constraint data for the weight polynomial of a WHIR verifier: one entry for the initial
/// constraint and one per intermediate round.
#[derive(Clone, Debug, PartialEq, Eq)]
pub struct ConstraintWeightData {
    /// Number of multilinear variables in this constraint's polynomial.
    pub num_variables: usize,
    /// Multilinear out-of-domain evaluation points (length `num_variables` each).
    pub eq_points: Vec<Vec<Target>>,
    /// Univariate query domain scalars, one per query in this round.
    pub sel_scalars: Vec<Target>,
    /// Batching challenge `γ` used to combine both contributions.
    pub gamma: Target,
}

/// The last `k` challenges, or all if there are fewer, in reverse order with `is_suffix`.
pub open spec fn local_point<T>(all: Seq<T>, k: nat, is_suffix: bool) -> Seq<T> {
    let n = if k <= all.len() {
        k
    } else {
        all.len()
    };
    let last = all.subrange(all.len() - n, all.len() as int);
    if is_suffix {
        last.reverse()
    } else {
        last
    }
}

impl ConstraintWeightData {
    pub open spec fn within<F: Field>(self, builder: CircuitBuilder<F>) -> bool {
        &&& has_rows(builder, self.eq_points@)
        &&& builder.has_all(self.sel_scalars@)
        &&& builder.has(self.gamma)
    }

    /// The weight of the constraint, given all folding challenges.
    pub open spec fn weight_at<F: Field>(
        self,
        builder: CircuitBuilder<F>,
        env: spec_fn(int) -> F,
        all: Seq<F>,
        is_suffix: bool,
    ) -> F {
        weight(
            local_point(all, self.num_variables as nat, is_suffix),
            value_rows(builder, env, self.eq_points@),
            builder.values(env, self.sel_scalars@),
            builder.value(env, self.gamma),
        )
    }

    /// The equality points of the constraint have as many coordinates as its local point.
    pub open spec fn fits(self, challenges: nat) -> bool {
        forall|i: int|
            0 <= i < self.eq_points@.len() ==> (#[trigger] self.eq_points@[i])@.len()
                == if self.num_variables <= challenges {
                self.num_variables as nat
            } else {
                challenges
            }
    }
}

/// The sum of the weights of the first `n` constraints.
pub open spec fn weight_sum<F: Field>(
    builder: CircuitBuilder<F>,
    env: spec_fn(int) -> F,
    constraints: Seq<ConstraintWeightData>,
    all: Seq<F>,
    is_suffix: bool,
    n: nat,
) -> F
    decreases n,
{
    if n == 0 {
        F::sp_zero()
    } else {
        weight_sum(builder, env, constraints, all, is_suffix, (n - 1) as nat).sp_add(
            constraints[n - 1].weight_at(builder, env, all, is_suffix),
        )
    }
}

/// Evaluates the full WHIR constraint-weight polynomial at the accumulated folding randomness.
///
/// For each constraint with `k` variables the local point is the last `k` elements of `all_r`,
/// reversed with `is_suffix`. The weights at the local points are summed.
pub fn eval_constraints_poly_circuit<F: Field>(
    builder: &mut CircuitBuilder<F>,
    all_r: &[Target],
    constraints: &[ConstraintWeightData],
    is_suffix: bool,
) -> (r: Target)
    requires
        old(builder).wf(),
        old(builder).has_all(all_r@),
        forall|c: int|
            0 <= c < constraints@.len() ==> {
                &&& (#[trigger] constraints@[c]).within(*old(builder))
                &&& constraints@[c].fits(all_r@.len())
            },
    ensures
        old(builder).computes_into(*final(builder)),
        final(builder).has(r),
        forall|env: spec_fn(int) -> F| #[trigger]
            final(builder).value(env, r) == weight_sum(
                *old(builder),
                env,
                constraints@,
                old(builder).values(env, all_r@),
                is_suffix,
                constraints@.len(),
            ),
{
    let ghost start = *builder;
    let n: usize = all_r.len();
    let mut total: Target = builder.define_const(F::zero());
    let mut c: usize = 0;
    while c < constraints.len()
        invariant
            c <= constraints@.len(),
            n == all_r@.len(),
            start.wf(),
            start.has_all(all_r@),
            forall|c: int|
                0 <= c < constraints@.len() ==> {
                    &&& (#[trigger] constraints@[c]).within(start)
                    &&& constraints@[c].fits(all_r@.len())
                },
            start.computes_into(*builder),
            builder.has(total),
            forall|env: spec_fn(int) -> F| #[trigger]
                builder.value(env, total) == weight_sum(
                    start,
                    env,
                    constraints@,
                    start.values(env, all_r@),
                    is_suffix,
                    c as nat,
                ),
        decreases constraints@.len() - c,
    {
        let ghost before = *builder;
        let ghost last = total;
        let data: &ConstraintWeightData = &constraints[c];
        assert(constraints@[c as int].within(start) && constraints@[c as int].fits(all_r@.len()));
        let local: Vec<Target> = last_challenges(all_r, data.num_variables, is_suffix);
        proof {
            assert forall|i: int| 0 <= i < local@.len() implies start.has(#[trigger] local@[i]) by {
                assert(all_r@.contains(local@[i]));
                let j = choose|j: int| 0 <= j < all_r@.len() && all_r@[j] == local@[i];
                assert(start.has(all_r@[j]));
            }
            lemma_rows_kept(start, before, data.eq_points@);
            assert forall|env: spec_fn(int) -> F| #[trigger]
                before.values(env, local@) == start.values(env, local@) by {
                lemma_values_kept(start, before, env, local@);
            }
            lemma_values_kept(start, before, |i: int| F::sp_zero(), local@);
            lemma_values_kept(start, before, |i: int| F::sp_zero(), data.sel_scalars@);
        }
        let w: Target = eval_constraint_weight(
            builder,
            local.as_slice(),
            data.eq_points.as_slice(),
            data.sel_scalars.as_slice(),
            data.gamma,
        );
        let ghost weighed = *builder;
        total = builder.add(total, w);
        proof {
            start.lemma_grown(*builder);
            assert forall|env: spec_fn(int) -> F| #[trigger] builder.value(env, total)
                == weight_sum(
                start,
                env,
                constraints@,
                start.values(env, all_r@),
                is_suffix,
                (c + 1) as nat,
            ) by {
                assert(weighed.value(env, last) == before.value(env, last));
                lemma_values_kept(start, before, env, local@);
                lemma_values_kept(start, before, env, data.sel_scalars@);
                lemma_row_values_kept(start, before, env, data.eq_points@);
                assert(before.value(env, data.gamma) == start.value(env, data.gamma));
                assert(start.values(env, local@) =~= local_point(
                    start.values(env, all_r@),
                    data.num_variables as nat,
                    is_suffix,
                ));
                assert(weighed.value(env, w) == data.weight_at(
                    start,
                    env,
                    start.values(env, all_r@),
                    is_suffix,
                ));
            }
        }
        c += 1;
    }
    total
}

proof fn lemma_rows_kept<F: Field>(
    start: CircuitBuilder<F>,
    later: CircuitBuilder<F>,
    rows: Seq<Vec<Target>>,
)
    requires
        start.grows_to(later),
        has_rows(start, rows),
    ensures
        has_rows(later, rows),
{
    assert forall|i: int| 0 <= i < rows.len() implies later.has_all((#[trigger] rows[i])@) by {
        lemma_values_kept(start, later, |i: int| F::sp_zero(), rows[i]@);
    }
}

pub proof fn lemma_row_values_kept<F: Field>(
    start: CircuitBuilder<F>,
    later: CircuitBuilder<F>,
    env: spec_fn(int) -> F,
    rows: Seq<Vec<Target>>,
)
    requires
        start.grows_to(later),
        has_rows(start, rows),
    ensures
        value_rows(later, env, rows) == value_rows(start, env, rows),
{
    assert forall|i: int| 0 <= i < rows.len() implies later.values(env, (#[trigger] rows[i])@)
        == start.values(env, rows[i]@) by {
        lemma_values_kept(start, later, env, rows[i]@);
    }
    assert(value_rows(later, env, rows) =~= value_rows(start, env, rows));
}

/// The last `k` challenges, reversed with `is_suffix`.
pub fn last_challenges(all_r: &[Target], k: usize, is_suffix: bool) -> (r: Vec<Target>)
    ensures
        r@ == local_point(all_r@, k as nat, is_suffix),
        forall|i: int| 0 <= i < r@.len() ==> all_r@.contains(#[trigger] r@[i]),
{
    let n: usize = all_r.len();
    let count: usize = if k <= n {
        k
    } else {
        n
    };
    let ghost model = local_point(all_r@, k as nat, is_suffix);
    let mut r: Vec<Target> = Vec::new();
    let mut i: usize = 0;
    while i < count
        invariant
            i <= count <= n,
            n == all_r@.len(),
            count == if k <= n {
                k
            } else {
                n
            },
            model == local_point(all_r@, k as nat, is_suffix),
            r@.len() == i,
            forall|j: int| 0 <= j < i ==> #[trigger] r@[j] == model[j],
            forall|j: int| 0 <= j < i ==> all_r@.contains(#[trigger] r@[j]),
        decreases count - i,
    {
        if is_suffix {
            r.push(all_r[n - 1 - i]);
        } else {
            r.push(all_r[n - count + i]);
        }
        i += 1;
    }
    assert(r@ =~= model);
    r
}

// Laws of the gadgets.

/// `Σ_{i<n} values[i]·z^i`.
pub open spec fn combination<F: Field>(values: Seq<F>, z: F, n: nat) -> F
    decreases n,
{
    if n == 0 {
        F::sp_zero()
    } else {
        combination(values, z, (n - 1) as nat).sp_add(
            values[n - 1].sp_mul(field::power(z, (n - 1) as nat)),
        )
    }
}

pub open spec fn all_wf<F: Field>(values: Seq<F>) -> bool {
    forall|i: int| 0 <= i < values.len() ==> (#[trigger] values[i]).wf()
}

/// The lowest coefficient can be taken out of a combination.
proof fn lemma_combination_shift<F: CommutativeRing>(values: Seq<F>, z: F, n: nat)
    requires
        n < values.len(),
        all_wf(values),
        z.wf(),
    ensures
        combination(values, z, n + 1) == combination(values.skip(1), z, n).sp_mul(z).sp_add(
            values[0],
        ),
    decreases n,
{
    let tail = values.skip(1);
    F::closed(z, z);
    if n == 0 {
        // 0 + v0·1 = v0 and 0·z + v0 = v0
        assert(combination(values, z, 1) == combination(values, z, 0).sp_add(
            values[0].sp_mul(field::power(z, 0)),
        ));
        F::mul_one(values[0]);
        F::add_commutes(F::sp_zero(), values[0]);
        F::mul_commutes(F::sp_zero(), z);
        F::mul_zero(z);
    } else {
        let m = (n - 1) as nat;
        lemma_combination_shift(values, z, m);
        let c = combination(tail, z, m);
        let t = values[n as int].sp_mul(field::power(z, m));
        // C(n+1) = (c·z + v0) + v_n·(z^m·z) = (c·z + (v_n·z^m)·z) + v0 = (c + v_n·z^m)·z + v0
        assert(tail[m as int] == values[n as int]);
        assert(combination(tail, z, n) == c.sp_add(t));
        F::mul_associates(values[n as int], field::power(z, m), z);
        let tz = t.sp_mul(z);
        assert(values[n as int].sp_mul(field::power(z, n)) == tz);
        F::add_associates(c.sp_mul(z), values[0], tz);
        F::add_commutes(values[0], tz);
        F::add_associates(c.sp_mul(z), tz, values[0]);
        F::mul_commutes(c.sp_add(t), z);
        F::mul_distributes(z, c, t);
        F::mul_commutes(z, c);
        F::mul_commutes(z, t);
    }
}

proof fn lemma_horner_from<F: CommutativeRing>(values: Seq<F>, z: F, k: nat)
    requires
        k <= values.len(),
        all_wf(values),
        z.wf(),
    ensures
        horner_from(values, z, k) == combination(
            values.skip(k as int),
            z,
            (values.len() - k) as nat,
        ),
    decreases values.len() - k,
{
    let rest = values.skip(k as int);
    F::closed(z, z);
    if k < values.len() {
        lemma_horner_from(values, z, k + 1);
        assert(values.skip(k as int + 1) =~= rest.skip(1));
        assert(all_wf(rest));
        lemma_combination_shift(rest, z, (values.len() - k - 1) as nat);
        if k + 1 == values.len() {
            assert(combination(rest.skip(1), z, 0) == F::sp_zero());
            F::mul_commutes(F::sp_zero(), z);
            F::mul_zero(z);
            F::add_commutes(F::sp_zero(), values[k as int]);
            F::add_zero(values[k as int]);
        }
    }
}

/// Horner's rule computes `Σ_i values[i]·z^i`.
pub proof fn law_horner_is_combination<F: CommutativeRing>(values: Seq<F>, z: F)
    requires
        all_wf(values),
        z.wf(),
    ensures
        horner(values, z) == combination(values, z, values.len()),
{
    lemma_horner_from(values, z, 0);
    assert(values.skip(0) =~= values);
}

/// Equal sums with one summand in common have the other in common.
proof fn lemma_cancel<F: CommutativeRing>(a: F, b: F, c: F)
    requires
        a.wf(),
        b.wf(),
        a.sp_add(c) == b.sp_add(c),
    ensures
        a == b,
{
    F::sub_add(a, c);
    F::sub_add(b, c);
}

/// Each factor of the equality polynomial is `a·b + (1-a)·(1-b)`.
pub proof fn law_eq_factor<F: CommutativeRing>(a: F, b: F)
    requires
        a.wf(),
        b.wf(),
    ensures
        eq_factor(a, b) == a.sp_mul(b).sp_add(
            F::sp_one().sp_sub(a).sp_mul(F::sp_one().sp_sub(b)),
        ),
{
    let one = F::sp_one();
    let ab = a.sp_mul(b);
    let na = one.sp_sub(a);
    let nb = one.sp_sub(b);
    F::closed(a, b);
    F::closed(one, a);
    F::closed(one, b);
    F::closed(ab, ab);
    // (1-a)·(1-b) + (1-a)·b = 1-a, and (1-a)·b + a·b = b
    let u = na.sp_mul(nb);
    let v = na.sp_mul(b);
    F::closed(na, nb);
    F::closed(na, b);
    F::mul_distributes(na, one, b);
    F::mul_one(na);
    F::sub_add(na, v);
    assert(u.sp_add(v) == na);
    F::mul_commutes(na, b);
    F::mul_distributes(b, one, a);
    F::mul_one(b);
    F::mul_commutes(b, a);
    assert(v == b.sp_sub(ab));
    F::sub_add(b, ab);
    assert(v.sp_add(ab) == b);
    // the left side plus (b + a) is 2ab + 1
    let two = a.sp_add(a).sp_mul(b);
    F::closed(a, a);
    F::closed(a.sp_add(a), b);
    F::mul_commutes(a.sp_add(a), b);
    F::mul_distributes(b, a, a);
    assert(two == ab.sp_add(ab));
    let s1 = two.sp_sub(a);
    let s2 = s1.sp_sub(b);
    let lhs = s2.sp_add(one);
    F::closed(two, a);
    F::closed(s1, b);
    F::closed(s2, one);
    F::sub_add(two, a);
    F::sub_add(s1, b);
    let w = b.sp_add(a);
    F::add_associates(s2, one, w);
    F::add_commutes(one, w);
    F::add_associates(s2, w, one);
    F::add_associates(s2, b, a);
    assert(lhs.sp_add(w) == two.sp_add(one));
    // the right side plus (b + a): ab + u + (v + ab) + a = (ab + ab) + ((u + v) + a)
    let rhs = ab.sp_add(u);
    F::closed(ab, u);
    F::closed(u, v);
    F::add_associates(rhs, b, a);
    F::add_commutes(v, ab);
    // rhs + b = (ab + u) + (ab + v) = (ab + ab) + (u + v)
    F::add_associates(rhs, ab, v);
    F::add_associates(ab, u, ab);
    F::add_commutes(u, ab);
    F::add_associates(ab, ab, u);
    F::add_associates(two, u, v);
    assert(rhs.sp_add(b) == two.sp_add(na));
    F::add_associates(two, na, a);
    F::sub_add(one, a);
    assert(rhs.sp_add(w) == two.sp_add(one));
    lemma_cancel(lhs, rhs, w);
}

/// The equality polynomial does not depend on the order of its points.
pub proof fn law_eq_is_symmetric<F: CommutativeRing>(a: Seq<F>, b: Seq<F>)
    requires
        a.len() == b.len(),
        all_wf(a),
        all_wf(b),
    ensures
        eq_at(a, b) == eq_at(b, a),
{
    assert forall|i: int| 0 <= i < a.len() implies eq_factors(a, b)[i] == eq_factors(b, a)[i] by {
        let (x, y) = (a[i], b[i]);
        let (nx, ny) = (F::sp_one().sp_sub(x), F::sp_one().sp_sub(y));
        law_eq_factor(x, y);
        law_eq_factor(y, x);
        F::mul_commutes(x, y);
        F::mul_commutes(nx, ny);
    }
    assert(eq_factors(a, b) =~= eq_factors(b, a));
}

pub open spec fn all_boolean<F: Field>(bits: Seq<F>) -> bool {
    forall|i: int|
        0 <= i < bits.len() ==> #[trigger] bits[i] == F::sp_zero() || bits[i] == F::sp_one()
}

/// The number with the first `n` bits, lowest first.
pub open spec fn bit_sum<F: Field>(bits: Seq<F>, n: nat) -> nat
    decreases n,
{
    if n == 0 {
        0
    } else {
        bit_sum(bits, (n - 1) as nat) + if bits[n - 1] == F::sp_one() {
            pow2((n - 1) as nat)
        } else {
            0
        }
    }
}

proof fn lemma_switch<F: CommutativeRing>(bit: F, x: F)
    requires
        bit == F::sp_zero() || bit == F::sp_one(),
        x.wf(),
    ensures
        bit.sp_mul(x.sp_sub(F::sp_one())).sp_add(F::sp_one()) == if bit == F::sp_one() {
            x
        } else {
            F::sp_one()
        },
{
    let one = F::sp_one();
    let d = x.sp_sub(one);
    F::closed(x, one);
    F::mul_commutes(bit, d);
    F::mul_one(d);
    F::mul_zero(d);
    F::sub_add(x, one);
    F::add_commutes(F::sp_zero(), one);
    F::add_zero(one);
}

/// With boolean bits the product of factors is the base raised to the number that the bits spell.
pub proof fn law_power_by_bits<F: CommutativeRing>(base: F, bits: Seq<F>)
    requires
        base.wf(),
        all_boolean(bits),
    ensures
        power_by_bits(base, bits) == field::power(base, bit_sum(bits, bits.len())),
{
    lemma_power_product(base, bits, bits.len());
}

proof fn lemma_power_product<F: CommutativeRing>(base: F, bits: Seq<F>, n: nat)
    requires
        base.wf(),
        all_boolean(bits),
        n <= bits.len(),
    ensures
        circuit::product(power_factors(base, bits), n) == field::power(base, bit_sum(bits, n)),
    decreases n,
{
    let factors = power_factors(base, bits);
    if n > 0 {
        let m = (n - 1) as nat;
        lemma_power_product(base, bits, m);
        field::lemma_repeated_square(base, m);
        field::lemma_power_wf(base, pow2(m));
        field::lemma_power_wf(base, bit_sum(bits, m));
        lemma_switch(bits[m as int], field::repeated_square(base, m));
        F::mul_one(field::power(base, bit_sum(bits, m)));
        field::lemma_power_add(base, bit_sum(bits, m), pow2(m));
        if n == 1 {
            // the product of one factor is that factor
            F::closed(base, base);
            F::mul_commutes(F::sp_one(), factors[0]);
            F::closed(bits[0].sp_mul(field::repeated_square(base, 0).sp_sub(F::sp_one())), F::sp_one());
            F::mul_one(factors[0]);
            assert(circuit::product(factors, 1) == factors[0]);
            assert(circuit::product(factors, 0) == F::sp_one());
        } else {
            assert(circuit::product(factors, n) == circuit::product(factors, m).sp_mul(
                factors[m as int],
            ));
        }
    }
}

/// The place of a corner of the hypercube in the table, first coordinate most significant.
pub open spec fn corner<F: Field>(point: Seq<F>, n: nat) -> nat
    decreases n,
{
    if n == 0 {
        0
    } else {
        2 * corner(point, (n - 1) as nat) + if point[n - 1] == F::sp_one() {
            1nat
        } else {
            0nat
        }
    }
}

/// The place in the table that place `j` comes from after folding to the corner of the first `n`
/// coordinates.
spec fn spot<F: Field>(point: Seq<F>, n: nat, j: int) -> int {
    corner(point, n) as int * pow2((point.len() - n) as nat) as int + j
}

proof fn lemma_folded_corner<F: CommutativeRing>(table: Seq<F>, point: Seq<F>, n: nat)
    requires
        n <= point.len(),
        table.len() == pow2(point.len()),
        all_wf(table),
        all_boolean(point),
    ensures
        folded_table(table, point, n).len() == pow2((point.len() - n) as nat),
        corner(point, n) < pow2(n),
        forall|j: int|
            0 <= j < pow2((point.len() - n) as nat) ==> {
                &&& 0 <= #[trigger] spot(point, n, j) < table.len()
                &&& folded_table(table, point, n)[j] == table[spot(point, n, j)]
            },
    decreases n,
{
    lemma_folded_len(table, point, n);
    let rest = (point.len() - n) as nat;
    let size = pow2(rest);
    if n == 0 {
        lemma2_to64();
        assert forall|j: int| 0 <= j < size implies spot(point, n, j) == j by {
            assert(corner(point, n) as int * size as int == 0) by (nonlinear_arith)
                requires
                    corner(point, n) == 0,
            ;
        }
        assert forall|j: int| 0 <= j < size implies {
            &&& 0 <= #[trigger] spot(point, n, j) < table.len()
            &&& folded_table(table, point, n)[j] == table[spot(point, n, j)]
        } by {
            assert(spot(point, n, j) == j);
        }
    } else {
        let m = (n - 1) as nat;
        lemma_folded_corner(table, point, m);
        lemma_folded_len(table, point, m);
        lemma_pow2_unfold((point.len() - m) as nat);
        lemma_pow2_unfold(n);
        let before = folded_table(table, point, m);
        let c = corner(point, m);
        let one: int = if point[m as int] == F::sp_one() {
            1
        } else {
            0
        };
        assert(before.len() == 2 * size);
        assert forall|j: int| 0 <= j < size implies {
            &&& 0 <= #[trigger] spot(point, n, j) < table.len()
            &&& folded_table(table, point, n)[j] == table[spot(point, n, j)]
        } by {
            let (low, high) = (before[j], before[size + j]);
            let k = j + one * size;
            assert(0 <= k < 2 * size) by (nonlinear_arith)
                requires
                    0 <= j < size,
                    one == 0 || one == 1,
                    k == j + one * size,
            ;
            assert(corner(point, n) as int * size as int + j == c as int * (2 * size as int) + k)
                by (nonlinear_arith)
                requires
                    corner(point, n) == 2 * c + one,
                    k == j + one * size,
            ;
            assert(before[k] == table[spot(point, m, k)]);
            assert(before[j] == table[spot(point, m, j)]);
            assert(before[size + j] == table[spot(point, m, size + j)]);
            assert(low.wf() && high.wf());
            // p·(high - low) + low is one of the two
            let d = high.sp_sub(low);
            let p = point[m as int];
            F::closed(high, low);
            F::mul_commutes(p, d);
            F::mul_one(d);
            F::mul_zero(d);
            F::sub_add(high, low);
            F::add_commutes(F::sp_zero(), low);
            F::add_zero(low);
            assert(one * size == 0 || one * size == size) by (nonlinear_arith)
                requires
                    one == 0 || one == 1,
            ;
        }
    }
}

/// The multilinear extension takes the values of its table at the corners of the hypercube, in
/// lexicographic order.
pub proof fn law_multilinear_interpolates<F: CommutativeRing>(table: Seq<F>, point: Seq<F>)
    requires
        table.len() == pow2(point.len()),
        all_wf(table),
        all_boolean(point),
    ensures
        corner(point, point.len()) < table.len(),
        multilinear(table, point) == table[corner(point, point.len()) as int],
{
    lemma2_to64();
    lemma_folded_corner(table, point, point.len());
    assert(pow2((point.len() - point.len()) as nat) == 1);
    let c = corner(point, point.len());
    assert(folded_table(table, point, point.len())[0] == table[spot(point, point.len(), 0)]);
    assert(c as int * 1int == c as int) by (nonlinear_arith);
}

/// The coordinates of an expanded point are the powers `z^(2^k)`, the last one `z` itself.
pub proof fn law_expanded_coordinates<F: CommutativeRing>(z: F, n: nat, i: int)
    requires
        z.wf(),
        0 <= i < n,
    ensures
        expanded(z, n)[i] == field::power(z, pow2((n - 1 - i) as nat)),
{
    field::lemma_repeated_square(z, (n - 1 - i) as nat);
}

} // verus!
