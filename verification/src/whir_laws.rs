//! What a WHIR verification decides, in terms of variables bound one by one.

use vstd::arithmetic::power2::*;
use vstd::prelude::*;

use crate::circuit::CircuitBuilder;
use crate::extension::ExtensionField;
use crate::field;
use crate::field::{CommutativeRing, Field};
use crate::types::Target;
use crate::whir_gadgets;
use crate::whir_gadgets::{all_wf, combination, ConstraintWeightData};
use crate::whir_params::{VariableOrder, WhirVerifierParams};
use crate::whir_sumcheck;
use crate::whir_sumcheck::SumcheckTargets;
use crate::whir_verifier;
use crate::whir_verifier::{WhirProofTargets, WhirRun};

verus! {

/// The line through `low` at zero and `high` at one, at `r`.
pub open spec fn between<F: Field>(low: F, high: F, r: F) -> F {
    r.sp_mul(high.sp_sub(low)).sp_add(low)
}

/// A table of the values of a multilinear polynomial, first variable most significant, with its
/// first variable bound to `r`: entries half a table apart are joined.
pub open spec fn first_bound<F: Field>(table: Seq<F>, r: F) -> Seq<F> {
    Seq::new(
        table.len() / 2,
        |j: int| between(table[j], table[table.len() as int / 2 + j], r),
    )
}

/// The table with the last variable bound to `r`: neighbouring entries are joined.
pub open spec fn last_bound<F: Field>(table: Seq<F>, r: F) -> Seq<F> {
    Seq::new(table.len() / 2, |j: int| between(table[2 * j], table[2 * j + 1], r))
}

/// The table with one variable bound to each of the first `n` challenges, in the order in which
/// they were drawn: always the first variable that is left, or always the last.
pub open spec fn bound_in_order<F: Field>(
    table: Seq<F>,
    challenges: Seq<F>,
    order: VariableOrder,
    n: nat,
) -> Seq<F>
    decreases n,
{
    if n == 0 {
        table
    } else {
        let before = bound_in_order(table, challenges, order, (n - 1) as nat);
        match order {
            VariableOrder::Prefix => first_bound(before, challenges[n - 1]),
            VariableOrder::Suffix => last_bound(before, challenges[n - 1]),
        }
    }
}

/// What binding all variables leaves.
pub open spec fn bound<F: Field>(table: Seq<F>, challenges: Seq<F>, order: VariableOrder) -> F {
    bound_in_order(table, challenges, order, challenges.len())[0]
}

/// With `u = b - a`, `v = d - c`, `w = c - a` and `t = v - u`, joining along `q` and then along `p`
/// gives `p·q·t + p·w + q·u + a`.
proof fn lemma_spread<F: CommutativeRing>(a: F, b: F, c: F, d: F, p: F, q: F)
    requires
        a.wf(),
        b.wf(),
        c.wf(),
        d.wf(),
    ensures
        ({
            let (u, v, w) = (b.sp_sub(a), d.sp_sub(c), c.sp_sub(a));
            between(between(a, b, q), between(c, d, q), p) == p.sp_mul(
                q.sp_mul(v.sp_sub(u)),
            ).sp_add(p.sp_mul(w)).sp_add(q.sp_mul(u)).sp_add(a)
        }),
{
    let (u, v, w) = (b.sp_sub(a), d.sp_sub(c), c.sp_sub(a));
    let t = v.sp_sub(u);
    let (qu, qv, qt) = (q.sp_mul(u), q.sp_mul(v), q.sp_mul(t));
    let low = qu.sp_add(a);
    let high = qv.sp_add(c);
    // (qt + w) + (qu + a) = (qt + qu) + (w + a) = qv + c
    F::closed(b, a);
    F::closed(d, c);
    F::closed(c, a);
    F::closed(q, v);
    F::closed(q, u);
    F::mul_distributes(q, v, u);
    F::sub_add(qv, qu);
    F::sub_add(c, a);
    let x = qt.sp_add(w);
    F::closed(qt, w);
    F::add_associates(qt, w, low);
    F::add_associates(w, qu, a);
    F::add_commutes(w, qu);
    F::add_associates(qu, w, a);
    F::add_associates(qt, qu, w.sp_add(a));
    assert(x.sp_add(low) == high);
    F::sub_add(x, low);
    assert(high.sp_sub(low) == x);
    // p·(qt + w) + (qu + a)
    F::mul_distributes(p, qt, w);
    let y = p.sp_mul(qt).sp_add(p.sp_mul(w));
    F::add_associates(y, qu, a);
}

/// Joining along two directions does not depend on which comes first.
proof fn lemma_between_commutes<F: CommutativeRing>(a: F, b: F, c: F, d: F, p: F, q: F)
    requires
        a.wf(),
        b.wf(),
        c.wf(),
        d.wf(),
    ensures
        between(between(a, b, q), between(c, d, q), p) == between(
            between(a, c, p),
            between(b, d, p),
            q,
        ),
{
    let (u, v, w, z) = (b.sp_sub(a), d.sp_sub(c), c.sp_sub(a), d.sp_sub(b));
    lemma_spread(a, b, c, d, p, q);
    lemma_spread(a, c, b, d, q, p);
    let t = v.sp_sub(u);
    F::closed(b, a);
    F::closed(d, c);
    F::closed(c, a);
    F::closed(d, b);
    F::closed(v, u);
    F::closed(v, w);
    F::closed(z, u);
    // v + w = z + u, as both are d - a
    F::sub_add(d, c);
    F::sub_add(c, a);
    F::sub_add(d, b);
    F::sub_add(b, a);
    F::add_associates(v, w, a);
    F::add_associates(z, u, a);
    F::sub_add(v.sp_add(w), a);
    F::sub_add(z.sp_add(u), a);
    assert(v.sp_add(w) == z.sp_add(u));
    // t + w = z, so t = z - w
    F::sub_add(v, u);
    F::closed(t, w);
    F::add_associates(t, u, w);
    F::add_commutes(u, w);
    F::add_associates(t, w, u);
    F::sub_add(t.sp_add(w), u);
    F::sub_add(z, u);
    assert(t.sp_add(w) == z);
    F::sub_add(t, w);
    assert(t == z.sp_sub(w));
    // q·(p·t) = p·(q·t)
    F::mul_associates(p, q, t);
    F::mul_commutes(p, q);
    F::mul_associates(q, p, t);
    let x = p.sp_mul(q.sp_mul(t));
    let (pw, qu) = (p.sp_mul(w), q.sp_mul(u));
    F::add_associates(x, pw, qu);
    F::add_commutes(pw, qu);
    F::add_associates(x, qu, pw);
}

/// Binding the first and the last variable of a table with at least two can be done in either
/// order.
proof fn lemma_bound_commutes<F: CommutativeRing>(table: Seq<F>, p: F, q: F)
    requires
        all_wf(table),
        table.len() % 4 == 0,
    ensures
        first_bound(last_bound(table, q), p) == last_bound(first_bound(table, p), q),
{
    let one = first_bound(last_bound(table, q), p);
    let other = last_bound(first_bound(table, p), q);
    let half = table.len() as int / 2;
    let quarter = half / 2;
    assert(half == 2 * quarter);
    assert forall|j: int| 0 <= j < one.len() implies one[j] == other[j] by {
        assert(2 * (quarter + j) == half + 2 * j);
        lemma_between_commutes(
            table[2 * j],
            table[2 * j + 1],
            table[half + 2 * j],
            table[half + 2 * j + 1],
            p,
            q,
        );
    }
    assert(one =~= other);
}

proof fn lemma_last_bound_wf<F: CommutativeRing>(table: Seq<F>, q: F)
    ensures
        all_wf(last_bound(table, q)),
        all_wf(first_bound(table, q)),
{
    assert forall|j: int| 0 <= j < table.len() / 2 implies (#[trigger] last_bound(
        table,
        q,
    )[j]).wf() by {
        F::closed(q.sp_mul(table[2 * j + 1].sp_sub(table[2 * j])), table[2 * j]);
    }
    assert forall|j: int| 0 <= j < table.len() / 2 implies (#[trigger] first_bound(
        table,
        q,
    )[j]).wf() by {
        F::closed(
            q.sp_mul(table[table.len() as int / 2 + j].sp_sub(table[j])),
            table[j],
        );
    }
}

/// The folding of the first variables and the binding of the last variable commute.
proof fn lemma_folded_last<F: CommutativeRing>(table: Seq<F>, point: Seq<F>, q: F, n: nat)
    requires
        all_wf(table),
        n < point.len(),
        table.len() == pow2(point.len()),
    ensures
        whir_gadgets::folded_table(last_bound(table, q), point, n) == last_bound(
            whir_gadgets::folded_table(table, point, n),
            q,
        ),
        whir_gadgets::folded_table(table, point, n).len() == pow2((point.len() - n) as nat),
        all_wf(whir_gadgets::folded_table(table, point, n)),
    decreases n,
{
    if n > 0 {
        let m = (n - 1) as nat;
        lemma_folded_last(table, point, q, m);
        let before = whir_gadgets::folded_table(table, point, m);
        lemma_pow2_unfold((point.len() - m) as nat);
        lemma_pow2_unfold((point.len() - n) as nat);
        lemma_bound_commutes(before, point[m as int], q);
        lemma_last_bound_wf(before, point[m as int]);
        assert(whir_gadgets::halved(before, point[m as int]) =~= first_bound(
            before,
            point[m as int],
        ));
        assert(whir_gadgets::halved(last_bound(before, q), point[m as int]) =~= first_bound(
            last_bound(before, q),
            point[m as int],
        ));
    }
}

proof fn lemma_folded_same<F: Field>(table: Seq<F>, point: Seq<F>, other: Seq<F>, n: nat)
    requires
        n <= point.len(),
        n <= other.len(),
        point.take(n as int) == other.take(n as int),
    ensures
        whir_gadgets::folded_table(table, point, n) == whir_gadgets::folded_table(table, other, n),
    decreases n,
{
    if n > 0 {
        assert(point[n - 1] == point.take(n as int)[n - 1]);
        assert(other[n - 1] == other.take(n as int)[n - 1]);
        assert(point.take(n - 1) =~= point.take(n as int).take(n - 1));
        assert(other.take(n - 1) =~= other.take(n as int).take(n - 1));
        lemma_folded_same(table, point, other, (n - 1) as nat);
    }
}

/// Binding the last variable first leaves the multilinear extension at the other coordinates.
proof fn lemma_peel<F: CommutativeRing>(table: Seq<F>, point: Seq<F>)
    requires
        all_wf(table),
        point.len() > 0,
        table.len() == pow2(point.len()),
    ensures
        whir_gadgets::multilinear(table, point) == whir_gadgets::multilinear(
            last_bound(table, point.last()),
            point.drop_last(),
        ),
{
    let n = (point.len() - 1) as nat;
    let q = point.last();
    lemma_folded_last(table, point, q, n);
    lemma2_to64();
    assert(point.take(n as int) =~= point.drop_last().take(n as int));
    lemma_folded_same(last_bound(table, q), point, point.drop_last(), n);
}

proof fn lemma_bound_tail<F: Field>(table: Seq<F>, challenges: Seq<F>, n: nat)
    requires
        0 < n <= challenges.len(),
    ensures
        bound_in_order(table, challenges, VariableOrder::Suffix, n) == bound_in_order(
            last_bound(table, challenges[0]),
            challenges.skip(1),
            VariableOrder::Suffix,
            (n - 1) as nat,
        ),
    decreases n,
{
    if n > 1 {
        lemma_bound_tail(table, challenges, (n - 1) as nat);
    } else {
        reveal_with_fuel(bound_in_order, 2);
    }
}

proof fn lemma_suffix<F: CommutativeRing>(table: Seq<F>, challenges: Seq<F>)
    requires
        all_wf(table),
        table.len() == pow2(challenges.len()),
    ensures
        whir_gadgets::multilinear(table, challenges.reverse()) == bound(
            table,
            challenges,
            VariableOrder::Suffix,
        ),
    decreases challenges.len(),
{
    if challenges.len() > 0 {
        let point = challenges.reverse();
        let rest = challenges.skip(1);
        lemma_peel(table, point);
        assert(point.last() == challenges[0]);
        assert(point.drop_last() =~= rest.reverse());
        lemma_pow2_unfold(challenges.len());
        lemma_last_bound_wf(table, challenges[0]);
        lemma_suffix(last_bound(table, challenges[0]), rest);
        lemma_bound_tail(table, challenges, challenges.len());
    }
}

proof fn lemma_prefix<F: Field>(table: Seq<F>, challenges: Seq<F>, n: nat)
    ensures
        whir_gadgets::folded_table(table, challenges, n) == bound_in_order(
            table,
            challenges,
            VariableOrder::Prefix,
            n,
        ),
    decreases n,
{
    if n > 0 {
        lemma_prefix(table, challenges, (n - 1) as nat);
        let before = whir_gadgets::folded_table(table, challenges, (n - 1) as nat);
        assert(whir_gadgets::halved(before, challenges[n - 1]) =~= first_bound(
            before,
            challenges[n - 1],
        ));
    }
}

/// Folding a table at challenges binds one variable to each challenge in the order in which they
/// were drawn: with the order `Suffix` the last variable to the first challenge, the one before it
/// to the second and so on; with the order `Prefix` the first variable to the first challenge.
pub proof fn law_fold_binds_in_drawing_order<F: CommutativeRing>(
    table: Seq<F>,
    challenges: Seq<F>,
    order: VariableOrder,
)
    requires
        all_wf(table),
        table.len() == pow2(challenges.len()),
    ensures
        whir_gadgets::multilinear(
            table,
            whir_verifier::ordered_point(challenges, order == VariableOrder::Suffix),
        ) == bound(table, challenges, order),
{
    let n = challenges.len();
    let whole = challenges.subrange(0, n as int);
    assert(whole =~= challenges);
    match order {
        VariableOrder::Suffix => {
            lemma_suffix(table, challenges);
        },
        VariableOrder::Prefix => {
            lemma_prefix(table, challenges, n);
        },
    }
}

/// All expressions of the circuit have well-formed values.
pub open spec fn well_valued<F: Field>(circuit: CircuitBuilder<F>, env: spec_fn(int) -> F) -> bool {
    forall|t: Target| circuit.has(t) ==> (#[trigger] circuit.value(env, t)).wf()
}

/// All challenges have well-formed values.
pub open spec fn well_drawn<F: Field>(
    circuit: CircuitBuilder<F>,
    env: spec_fn(int) -> F,
    run: WhirRun,
) -> bool {
    &&& all_wf(circuit.values(env, run.initial))
    &&& all_wf(circuit.values(env, run.last))
    &&& forall|i: int|
        0 <= i < run.rounds.len() ==> {
            &&& circuit.value(env, (#[trigger] run.rounds[i]).gamma).wf()
            &&& all_wf(circuit.values(env, run.rounds[i].folding))
        }
}

/// The polynomial of degree two with the values `at_zero` and `at_one` and the leading coefficient
/// `leading`, at `r`: `line(r) + leading·(r² - r)`.
pub open spec fn quadratic<F: Field>(at_zero: F, at_one: F, leading: F, r: F) -> F {
    between(at_zero, at_one, r).sp_add(leading.sp_mul(r.sp_mul(r).sp_sub(r)))
}

/// The claim that the first `n` rounds of a sumcheck leave. Each round takes the quadratic whose
/// values at zero and one add up to the claim, at its challenge.
pub open spec fn summed<F: Field>(messages: Seq<(F, F)>, start: F, challenges: Seq<F>, n: nat) -> F
    decreases n,
{
    if n == 0 {
        start
    } else {
        let claim = summed(messages, start, challenges, (n - 1) as nat);
        let (at_zero, leading) = messages[n - 1];
        quadratic(at_zero, claim.sp_sub(at_zero), leading, challenges[n - 1])
    }
}

/// The values of the messages of a sumcheck.
pub open spec fn messages<F: Field>(
    circuit: CircuitBuilder<F>,
    env: spec_fn(int) -> F,
    sumcheck: SumcheckTargets,
) -> Seq<(F, F)> {
    Seq::new(
        sumcheck.round_polys@.len(),
        |k: int|
            (
                circuit.value(env, sumcheck.round_polys@[k][0]),
                circuit.value(env, sumcheck.round_polys@[k][1]),
            ),
    )
}

/// A sumcheck round evaluates the quadratic that splits the claim between zero and one.
pub proof fn law_round_is_quadratic<F: CommutativeRing>(claim: F, c0: F, c_inf: F, r: F)
    requires
        c0.wf(),
        r.wf(),
    ensures
        whir_sumcheck::round_claim(claim, c0, c_inf, r) == quadratic(
            c0,
            claim.sp_sub(c0),
            c_inf,
            r,
        ),
{
    let one = F::sp_one();
    let h1 = claim.sp_sub(c0);
    let a = c0.sp_mul(r);
    let b = h1.sp_mul(r);
    F::mul_distributes(c0, one, r);
    F::mul_one(c0);
    F::mul_commutes(r, c0);
    F::mul_commutes(r, h1);
    F::mul_distributes(r, h1, c0);
    let left = c0.sp_sub(a).sp_add(b);
    let right = b.sp_sub(a).sp_add(c0);
    F::closed(c0.sp_sub(a), b);
    F::closed(b.sp_sub(a), c0);
    F::closed(h1, r);
    // both sums are c0 + b once a is added
    F::add_associates(c0.sp_sub(a), b, a);
    F::add_commutes(b, a);
    F::add_associates(c0.sp_sub(a), a, b);
    F::sub_add(c0, a);
    assert(left.sp_add(a) == c0.sp_add(b));
    F::add_associates(b.sp_sub(a), c0, a);
    F::add_commutes(c0, a);
    F::add_associates(b.sp_sub(a), a, c0);
    F::sub_add(b, a);
    F::add_commutes(b, c0);
    assert(right.sp_add(a) == c0.sp_add(b));
    F::sub_add(left, a);
    F::sub_add(right, a);
    assert(left == right);
    F::mul_distributes(r, r, one);
    F::mul_one(r);
}

proof fn lemma_summed<F: CommutativeRing>(
    circuit: CircuitBuilder<F>,
    env: spec_fn(int) -> F,
    sumcheck: SumcheckTargets,
    start: F,
    challenges: Seq<Target>,
    n: nat,
)
    requires
        n <= challenges.len(),
        n <= sumcheck.round_polys@.len(),
        all_wf(circuit.values(env, challenges)),
        forall|k: int|
            0 <= k < n ==> circuit.value(env, (#[trigger] sumcheck.round_polys@[k])[0]).wf(),
    ensures
        sumcheck.claim(circuit, env, start, challenges, n) == summed(
            messages(circuit, env, sumcheck),
            start,
            circuit.values(env, challenges),
            n,
        ),
    decreases n,
{
    if n > 0 {
        let k = n - 1;
        lemma_summed(circuit, env, sumcheck, start, challenges, k as nat);
        assert(circuit.values(env, challenges)[k].wf());
        law_round_is_quadratic(
            sumcheck.claim(circuit, env, start, challenges, k as nat),
            circuit.value(env, sumcheck.round_polys@[k][0]),
            circuit.value(env, sumcheck.round_polys@[k][1]),
            circuit.value(env, challenges[k]),
        );
    }
}

/// The folding challenges drawn just before round `n`.
pub open spec fn drawn_before(run: WhirRun, n: nat) -> Seq<Target> {
    if n == 0 {
        run.initial
    } else {
        run.rounds[n - 1].folding
    }
}

/// The claim after `n` rounds. Each round adds its out-of-domain answers and its leaves, the latter
/// bound at the challenges drawn just before in drawing order, with rising powers of its batching
/// challenge, and then runs its sumcheck.
pub open spec fn claim_after<BF, F: Field>(
    circuit: CircuitBuilder<F>,
    env: spec_fn(int) -> F,
    params: WhirVerifierParams<BF>,
    pieces: WhirProofTargets,
    run: WhirRun,
    start: F,
    n: nat,
) -> F
    decreases n,
{
    if n == 0 {
        summed(
            messages(circuit, env, pieces.initial_sumcheck),
            start,
            circuit.values(env, run.initial),
            run.initial.len(),
        )
    } else {
        let i = n - 1;
        let round = pieces.rounds@[i];
        let answers = circuit.values(env, round.ood_answers@);
        let leaves = Seq::new(
            params.round_params@[i].num_queries as nat,
            |q: int|
                bound(
                    circuit.values(env, round.queries@[q].leaf()),
                    circuit.values(env, drawn_before(run, i as nat)),
                    params.variable_order,
                ),
        );
        summed(
            messages(circuit, env, round.sumcheck),
            claim_after(circuit, env, params, pieces, run, start, i as nat).sp_add(
                combination(
                    answers + leaves,
                    circuit.value(env, run.rounds[i].gamma),
                    answers.len() + leaves.len(),
                ),
            ),
            circuit.values(env, run.rounds[i].folding),
            run.rounds[i].folding.len(),
        )
    }
}

/// The leaves of queries are complete tables of well-formed values.
proof fn lemma_leaf<F: CommutativeRing>(
    start: CircuitBuilder<F>,
    circuit: CircuitBuilder<F>,
    env: spec_fn(int) -> F,
    list: Seq<Target>,
)
    requires
        start.grows_to(circuit),
        start.has_all(list),
        well_valued(circuit, env),
    ensures
        all_wf(circuit.values(env, list)),
{
    whir_gadgets::lemma_values_kept(start, circuit, env, list);
    assert forall|i: int| 0 <= i < list.len() implies (#[trigger] circuit.values(
        env,
        list,
    )[i]).wf() by {
        assert(circuit.has(list[i]));
    }
}

proof fn lemma_values_ordered<F: Field>(
    circuit: CircuitBuilder<F>,
    env: spec_fn(int) -> F,
    list: Seq<Target>,
    is_suffix: bool,
)
    ensures
        circuit.values(env, whir_verifier::ordered_point(list, is_suffix))
            == whir_verifier::ordered_point(circuit.values(env, list), is_suffix),
{
    assert(circuit.values(env, whir_verifier::ordered_point(list, is_suffix))
        =~= whir_verifier::ordered_point(circuit.values(env, list), is_suffix));
}

/// A leaf folds to what binding its variables in drawing order leaves.
proof fn lemma_fold<F: CommutativeRing>(
    start: CircuitBuilder<F>,
    circuit: CircuitBuilder<F>,
    env: spec_fn(int) -> F,
    leaf: Seq<Target>,
    drawn: Seq<Target>,
    order: VariableOrder,
)
    requires
        start.grows_to(circuit),
        start.has_all(leaf),
        well_valued(circuit, env),
        leaf.len() == pow2(drawn.len()),
    ensures
        whir_verifier::fold_at(
            circuit,
            env,
            leaf,
            whir_verifier::ordered_point(drawn, order == VariableOrder::Suffix),
        ) == bound(circuit.values(env, leaf), circuit.values(env, drawn), order),
{
    lemma_leaf(start, circuit, env, leaf);
    lemma_values_ordered(circuit, env, drawn, order == VariableOrder::Suffix);
    law_fold_binds_in_drawing_order(
        circuit.values(env, leaf),
        circuit.values(env, drawn),
        order,
    );
}

proof fn lemma_bound_wf<F: CommutativeRing>(
    table: Seq<F>,
    challenges: Seq<F>,
    order: VariableOrder,
    n: nat,
)
    requires
        all_wf(table),
        n <= challenges.len(),
        table.len() == pow2(challenges.len()),
    ensures
        all_wf(bound_in_order(table, challenges, order, n)),
        bound_in_order(table, challenges, order, n).len() == pow2((challenges.len() - n) as nat),
    decreases n,
{
    if n > 0 {
        lemma_bound_wf(table, challenges, order, (n - 1) as nat);
        lemma_pow2_unfold((challenges.len() - n + 1) as nat);
        lemma_last_bound_wf(
            bound_in_order(table, challenges, order, (n - 1) as nat),
            challenges[n - 1],
        );
    }
}

proof fn lemma_claim_after<BF: Field, F: ExtensionField<BF> + CommutativeRing>(
    start: CircuitBuilder<F>,
    circuit: CircuitBuilder<F>,
    env: spec_fn(int) -> F,
    params: WhirVerifierParams<BF>,
    pieces: WhirProofTargets,
    run: WhirRun,
    claim: F,
    n: nat,
)
    requires
        pieces.within(start, params),
        start.grows_to(circuit),
        whir_verifier::run_fits(params, pieces, run),
        well_valued(circuit, env),
        well_drawn(circuit, env, run),
        n <= params.round_params@.len(),
    ensures
        whir_verifier::rounds_claim(circuit, env, params, pieces, run, claim, n) == claim_after(
            circuit,
            env,
            params,
            pieces,
            run,
            claim,
            n,
        ),
    decreases n,
{
    if n == 0 {
        assert forall|k: int| 0 <= k < run.initial.len() implies circuit.value(
            env,
            (#[trigger] pieces.initial_sumcheck.round_polys@[k])[0],
        ).wf() by {
            assert(start.has(pieces.initial_sumcheck.round_polys@[k][0]));
        }
        lemma_summed(
            circuit,
            env,
            pieces.initial_sumcheck,
            claim,
            run.initial,
            run.initial.len(),
        );
    } else {
        let i = n - 1;
        lemma_claim_after(start, circuit, env, params, pieces, run, claim, i as nat);
        let round = pieces.rounds@[i];
        let shape = params.round_params@[i];
        let drawn = drawn_before(run, i as nat);
        let order = params.variable_order;
        assert(whir_verifier::round_within(
            start,
            shape,
            round,
            pieces.folded_before(i as nat),
        ));
        assert(whir_verifier::round_run_fits(shape, round, run.rounds[i]));
        assert(drawn.len() == pieces.folded_before(i as nat)) by {
            if i > 0 {
                assert(whir_verifier::round_run_fits(
                    params.round_params@[i - 1],
                    pieces.rounds@[i - 1],
                    run.rounds[i - 1],
                ));
            }
        }
        let answers = circuit.values(env, round.ood_answers@);
        let leaves = Seq::new(
            shape.num_queries as nat,
            |q: int|
                bound(
                    circuit.values(env, round.queries@[q].leaf()),
                    circuit.values(env, drawn),
                    order,
                ),
        );
        let point = whir_verifier::ordered_point(drawn, order == VariableOrder::Suffix);
        let folds = Seq::new(
            shape.num_queries as nat,
            |q: int| whir_verifier::fold_at(circuit, env, round.queries@[q].leaf(), point),
        );
        assert forall|q: int| 0 <= q < shape.num_queries implies folds[q] == leaves[q]
            && leaves[q].wf() by {
            let leaf = round.queries@[q].leaf();
            lemma_fold(start, circuit, env, leaf, drawn, order);
            lemma_leaf(start, circuit, env, leaf);
            lemma_bound_wf(
                circuit.values(env, leaf),
                circuit.values(env, drawn),
                order,
                drawn.len(),
            );
            lemma2_to64();
        }
        assert(folds =~= leaves);
        lemma_leaf(start, circuit, env, round.ood_answers@);
        let gamma = circuit.value(env, run.rounds[i].gamma);
        let all = answers + leaves;
        assert(all_wf(all));
        whir_gadgets::law_horner_is_combination(all, gamma);
        assert forall|k: int| 0 <= k < run.rounds[i].folding.len() implies circuit.value(
            env,
            (#[trigger] round.sumcheck.round_polys@[k])[0],
        ).wf() by {
            assert(start.has(round.sumcheck.round_polys@[k][0]));
        }
        lemma_summed(
            circuit,
            env,
            round.sumcheck,
            claim_after(circuit, env, params, pieces, run, claim, i as nat).sp_add(
                combination(all, gamma, all.len()),
            ),
            run.rounds[i].folding,
            run.rounds[i].folding.len(),
        );
    }
}

/// The point at which a constraint in `k` variables is weighed: the last `k` of all challenges,
/// where with the order `Suffix` coordinate `i` is the challenge drawn `i` before the last.
pub open spec fn end_coordinates<T>(all: Seq<T>, k: nat, order: VariableOrder) -> Seq<T> {
    let n = if k <= all.len() {
        k
    } else {
        all.len()
    };
    Seq::new(
        n,
        |i: int|
            match order {
                VariableOrder::Suffix => all[all.len() - 1 - i],
                VariableOrder::Prefix => all[all.len() - n + i],
            },
    )
}

/// `∏_{i<n} (a_i·b_i + (1-a_i)·(1-b_i))`: one where two corners agree, zero where they do not.
pub open spec fn agreement<F: Field>(a: Seq<F>, b: Seq<F>, n: nat) -> F
    decreases n,
{
    if n == 0 {
        F::sp_one()
    } else {
        let (x, y) = (a[n - 1], b[n - 1]);
        agreement(a, b, (n - 1) as nat).sp_mul(
            x.sp_mul(y).sp_add(F::sp_one().sp_sub(x).sp_mul(F::sp_one().sp_sub(y))),
        )
    }
}

/// The equality polynomial is the product of the agreements of the coordinates.
pub proof fn law_eq_is_agreement<F: CommutativeRing>(a: Seq<F>, b: Seq<F>)
    requires
        all_wf(a),
        all_wf(b),
        a.len() == b.len(),
    ensures
        whir_gadgets::eq_at(a, b) == agreement(a, b, a.len()),
{
    lemma_agreement(a, b, a.len());
}

proof fn lemma_agreement<F: CommutativeRing>(a: Seq<F>, b: Seq<F>, n: nat)
    requires
        all_wf(a),
        all_wf(b),
        a.len() == b.len(),
        n <= a.len(),
    ensures
        crate::circuit::product(whir_gadgets::eq_factors(a, b), n) == agreement(a, b, n),
    decreases n,
{
    if n > 0 {
        lemma_agreement(a, b, (n - 1) as nat);
        whir_gadgets::law_eq_factor(a[n - 1], b[n - 1]);
        let factor = whir_gadgets::eq_factor(a[n - 1], b[n - 1]);
        if n == 1 {
            F::mul_commutes(F::sp_one(), factor);
            F::closed(
                a[0].sp_mul(b[0]),
                F::sp_one().sp_sub(a[0]).sp_mul(F::sp_one().sp_sub(b[0])),
            );
            F::mul_one(factor);
            assert(agreement(a, b, 0) == F::sp_one());
        }
    }
}

/// At a corner of the hypercube the selection polynomial is the power of its point whose exponent
/// the corner spells, the last coordinate lowest.
pub proof fn law_selection_is_power<F: CommutativeRing>(point: Seq<F>, z: F)
    requires
        z.wf(),
        whir_gadgets::all_boolean(point),
    ensures
        whir_gadgets::select_at(point, z) == field::power(
            z,
            whir_gadgets::bit_sum(point.reverse(), point.len()),
        ),
{
    let bits = point.reverse();
    assert(whir_gadgets::select_factors(point, z) =~= whir_gadgets::power_factors(z, bits));
    whir_gadgets::law_power_by_bits(z, bits);
}

/// The weight of a constraint: its equality terms and then its selection terms, with rising powers
/// of its batching challenge.
pub open spec fn weighed<F: Field>(
    point: Seq<F>,
    eq_points: Seq<Seq<F>>,
    scalars: Seq<F>,
    gamma: F,
) -> F {
    combination(
        Seq::new(
            eq_points.len() + scalars.len(),
            |j: int|
                if j < eq_points.len() {
                    agreement(point, eq_points[j], point.len())
                } else {
                    whir_gadgets::select_at(point, scalars[j - eq_points.len()])
                },
        ),
        gamma,
        eq_points.len() + scalars.len(),
    )
}

proof fn lemma_product_wf<F: CommutativeRing>(factors: Seq<F>, n: nat)
    requires
        n <= factors.len(),
        all_wf(factors),
    ensures
        crate::circuit::product(factors, n).wf(),
{
    F::closed(F::sp_one(), F::sp_one());
    if n > 1 {
        F::closed(crate::circuit::product(factors, (n - 1) as nat), factors[n - 1]);
    }
}

proof fn lemma_combination_wf<F: CommutativeRing>(values: Seq<F>, z: F, n: nat)
    ensures
        combination(values, z, n).wf(),
{
    F::closed(F::sp_zero(), F::sp_zero());
    if n > 0 {
        F::closed(
            combination(values, z, (n - 1) as nat),
            values[n - 1].sp_mul(field::power(z, (n - 1) as nat)),
        );
    }
}

/// The weight polynomial of a constraint is the combination of its terms.
pub proof fn law_weight_is_combination<F: CommutativeRing>(
    point: Seq<F>,
    eq_points: Seq<Seq<F>>,
    scalars: Seq<F>,
    gamma: F,
)
    requires
        all_wf(point),
        gamma.wf(),
        forall|j: int|
            0 <= j < eq_points.len() ==> (#[trigger] eq_points[j]).len() == point.len() && all_wf(
                eq_points[j],
            ),
    ensures
        whir_gadgets::weight(point, eq_points, scalars, gamma) == weighed(
            point,
            eq_points,
            scalars,
            gamma,
        ),
{
    let terms = whir_gadgets::weight_terms(point, eq_points, scalars);
    let n = eq_points.len();
    let other = Seq::new(
        n + scalars.len(),
        |j: int|
            if j < n {
                agreement(point, eq_points[j], point.len())
            } else {
                whir_gadgets::select_at(point, scalars[j - n])
            },
    );
    assert forall|j: int| 0 <= j < terms.len() implies terms[j] == other[j] && (
    #[trigger] terms[j]).wf() by {
        if j < n {
            law_eq_is_agreement(point, eq_points[j]);
            let factors = whir_gadgets::eq_factors(point, eq_points[j]);
            assert forall|i: int| 0 <= i < factors.len() implies (#[trigger] factors[i]).wf() by {
                let (a, b) = (point[i], eq_points[j][i]);
                F::closed(a.sp_add(a).sp_mul(b).sp_sub(a).sp_sub(b), F::sp_one());
            }
            lemma_product_wf(factors, point.len());
        } else {
            let z = scalars[j - n];
            let factors = whir_gadgets::select_factors(point, z);
            assert forall|k: int| 0 <= k < factors.len() implies (#[trigger] factors[k]).wf() by {
                let var = field::repeated_square(z, k as nat);
                F::closed(
                    point[point.len() - 1 - k].sp_mul(var.sp_sub(F::sp_one())),
                    F::sp_one(),
                );
            }
            lemma_product_wf(factors, point.len());
        }
    }
    assert(terms =~= other);
    whir_gadgets::law_horner_is_combination(terms, gamma);
}

/// All folding challenges up to the end of round `n`, in drawing order.
pub open spec fn drawn_up_to(run: WhirRun, n: nat) -> Seq<Target>
    decreases n,
{
    if n == 0 {
        run.initial
    } else {
        drawn_up_to(run, (n - 1) as nat) + run.rounds[n - 1].folding
    }
}

proof fn lemma_drawn_up_to<BF, F: Field>(
    circuit: CircuitBuilder<F>,
    env: spec_fn(int) -> F,
    params: WhirVerifierParams<BF>,
    pieces: WhirProofTargets,
    run: WhirRun,
    n: nat,
)
    requires
        whir_verifier::run_fits(params, pieces, run),
        well_drawn(circuit, env, run),
        n <= params.round_params@.len(),
    ensures
        run.challenges(n) == drawn_up_to(run, n),
        drawn_up_to(run, n).len() == pieces.folded_in_all(n),
        all_wf(circuit.values(env, drawn_up_to(run, n))),
    decreases n,
{
    if n > 0 {
        lemma_drawn_up_to(circuit, env, params, pieces, run, (n - 1) as nat);
        let before = drawn_up_to(run, (n - 1) as nat);
        let more = run.rounds[n - 1].folding;
        assert(whir_verifier::round_run_fits(
            params.round_params@[n - 1],
            pieces.rounds@[n - 1],
            run.rounds[n - 1],
        ));
        assert(circuit.values(env, before + more) =~= circuit.values(env, before)
            + circuit.values(env, more));
    }
}

/// The weights of the initial constraint and of the constraints of the first `n` rounds, summed.
pub open spec fn weight_after<BF: Field, F: ExtensionField<BF>>(
    circuit: CircuitBuilder<F>,
    env: spec_fn(int) -> F,
    params: WhirVerifierParams<BF>,
    initial: ConstraintWeightData,
    run: WhirRun,
    all: Seq<F>,
    n: nat,
) -> F
    decreases n,
{
    let order = params.variable_order;
    if n == 0 {
        weighed(
            end_coordinates(all, initial.num_variables as nat, order),
            Seq::new(
                initial.eq_points@.len(),
                |j: int| circuit.values(env, initial.eq_points@[j]@),
            ),
            circuit.values(env, initial.sel_scalars@),
            circuit.value(env, initial.gamma),
        )
    } else {
        let shape = params.round_params@[n - 1];
        let round = run.rounds[n - 1];
        weight_after(circuit, env, params, initial, run, all, (n - 1) as nat).sp_add(
            weighed(
                end_coordinates(all, shape.num_variables as nat, order),
                Seq::new(
                    shape.ood_samples as nat,
                    |j: int|
                        whir_gadgets::expanded(
                            circuit.value(env, round.univariate[j]),
                            shape.num_variables as nat,
                        ),
                ),
                Seq::new(
                    shape.num_queries as nat,
                    |q: int|
                        whir_gadgets::power_by_bits(
                            F::sp_from_base(shape.folded_domain_gen),
                            circuit.values(env, round.indices[q]),
                        ),
                ),
                circuit.value(env, round.gamma),
            ),
        )
    }
}

proof fn lemma_end_coordinates<F: Field>(all: Seq<F>, k: nat, order: VariableOrder)
    requires
        all_wf(all),
    ensures
        whir_gadgets::local_point(all, k, order == VariableOrder::Suffix) == end_coordinates(
            all,
            k,
            order,
        ),
        all_wf(end_coordinates(all, k, order)),
{
    assert(whir_gadgets::local_point(all, k, order == VariableOrder::Suffix) =~= end_coordinates(
        all,
        k,
        order,
    ));
}

proof fn lemma_expanded_wf<F: CommutativeRing>(z: F, n: nat)
    requires
        z.wf(),
    ensures
        all_wf(whir_gadgets::expanded(z, n)),
{
    assert forall|i: int| 0 <= i < n implies (#[trigger] whir_gadgets::expanded(z, n)[i]).wf() by {
        field::lemma_repeated_square(z, (n - 1 - i) as nat);
        field::lemma_power_wf(z, pow2((n - 1 - i) as nat));
    }
}

/// The out-of-domain samples have well-formed values.
pub open spec fn well_sampled<F: Field>(
    circuit: CircuitBuilder<F>,
    env: spec_fn(int) -> F,
    run: WhirRun,
) -> bool {
    forall|i: int|
        0 <= i < run.rounds.len() ==> all_wf(
            circuit.values(env, (#[trigger] run.rounds[i]).univariate),
        )
}

proof fn lemma_weight_after<BF: Field, F: ExtensionField<BF> + CommutativeRing>(
    start: CircuitBuilder<F>,
    circuit: CircuitBuilder<F>,
    env: spec_fn(int) -> F,
    params: WhirVerifierParams<BF>,
    pieces: WhirProofTargets,
    initial: ConstraintWeightData,
    run: WhirRun,
    all: Seq<F>,
    n: nat,
)
    requires
        pieces.within(start, params),
        initial.within(start),
        initial.fits(all.len()),
        start.grows_to(circuit),
        whir_verifier::run_fits(params, pieces, run),
        well_valued(circuit, env),
        well_drawn(circuit, env, run),
        well_sampled(circuit, env, run),
        all_wf(all),
        all.len() == pieces.challenge_count(params),
        n <= params.round_params@.len(),
    ensures
        whir_verifier::total_weight(circuit, env, params, initial, run, all, n) == weight_after(
            circuit,
            env,
            params,
            initial,
            run,
            all,
            n,
        ),
    decreases n,
{
    let order = params.variable_order;
    if n == 0 {
        let k = initial.num_variables as nat;
        let point = end_coordinates(all, k, order);
        lemma_end_coordinates(all, k, order);
        let rows = Seq::new(
            initial.eq_points@.len(),
            |j: int| circuit.values(env, initial.eq_points@[j]@),
        );
        assert(rows =~= whir_gadgets::value_rows(circuit, env, initial.eq_points@));
        assert forall|j: int| 0 <= j < rows.len() implies (#[trigger] rows[j]).len() == point.len()
            && all_wf(rows[j]) by {
            lemma_leaf(start, circuit, env, initial.eq_points@[j]@);
        }
        assert(circuit.has(initial.gamma));
        let scalars = circuit.values(env, initial.sel_scalars@);
        let gamma = circuit.value(env, initial.gamma);
        law_weight_is_combination(point, rows, scalars, gamma);
        let w = weighed(point, rows, scalars, gamma);
        assert(w.wf()) by {
            let terms = Seq::new(
                rows.len() + scalars.len(),
                |j: int|
                    if j < rows.len() {
                        agreement(point, rows[j], point.len())
                    } else {
                        whir_gadgets::select_at(point, scalars[j - rows.len()])
                    },
            );
            lemma_combination_wf(terms, gamma, terms.len());
        }
        F::add_commutes(F::sp_zero(), w);
        F::add_zero(w);
    } else {
        let i = n - 1;
        lemma_weight_after(start, circuit, env, params, pieces, initial, run, all, i as nat);
        let shape = params.round_params@[i];
        let round = run.rounds[i];
        let k = shape.num_variables as nat;
        assert(whir_verifier::round_within(
            start,
            shape,
            pieces.rounds@[i],
            pieces.folded_before(i as nat),
        ));
        assert(whir_verifier::round_run_fits(shape, pieces.rounds@[i], round));
        let point = end_coordinates(all, k, order);
        lemma_end_coordinates(all, k, order);
        let rows = Seq::new(
            shape.ood_samples as nat,
            |j: int| whir_gadgets::expanded(circuit.value(env, round.univariate[j]), k),
        );
        assert forall|j: int| 0 <= j < rows.len() implies (#[trigger] rows[j]).len() == point.len()
            && all_wf(rows[j]) by {
            assert(circuit.values(env, round.univariate)[j].wf());
            lemma_expanded_wf(circuit.value(env, round.univariate[j]), k);
        }
        let scalars = Seq::new(
            shape.num_queries as nat,
            |q: int|
                whir_gadgets::power_by_bits(
                    F::sp_from_base(shape.folded_domain_gen),
                    circuit.values(env, round.indices[q]),
                ),
        );
        assert(scalars =~= Seq::new(
            shape.num_queries as nat,
            |q: int|
                whir_verifier::domain_point(
                    circuit,
                    env,
                    F::sp_from_base(shape.folded_domain_gen),
                    round.indices[q],
                ),
        ));
        law_weight_is_combination(point, rows, scalars, circuit.value(env, round.gamma));
    }
}

/// What a WHIR verification decides. Each final query's leaf, its variables bound to the folding
/// challenges drawn last in drawing order, is the final polynomial, its entries read as
/// coefficients, at the query's domain point. The claim that all sumchecks leave is the summed
/// weight times the final polynomial, its variables bound to the challenges drawn last in drawing
/// order.
pub proof fn law_acceptance<BF: Field, F: ExtensionField<BF> + CommutativeRing>(
    start: CircuitBuilder<F>,
    circuit: CircuitBuilder<F>,
    env: spec_fn(int) -> F,
    params: WhirVerifierParams<BF>,
    pieces: WhirProofTargets,
    initial: ConstraintWeightData,
    initial_claim: Target,
    run: WhirRun,
)
    requires
        pieces.within(start, params),
        initial.within(start),
        initial.fits(pieces.challenge_count(params)),
        start.grows_to(circuit),
        whir_verifier::run_fits(params, pieces, run),
        well_valued(circuit, env),
        well_drawn(circuit, env, run),
        well_sampled(circuit, env, run),
    ensures
        ({
            let n = params.round_params@.len();
            let order = params.variable_order;
            let final_poly = circuit.values(env, pieces.final_poly@);
            let ends = params.final_sumcheck_rounds > 0 && pieces.final_sumcheck is Some;
            let claim = claim_after(
                circuit,
                env,
                params,
                pieces,
                run,
                circuit.value(env, initial_claim),
                n,
            );
            let last_claim = if ends {
                summed(
                    messages(circuit, env, pieces.final_sumcheck->0),
                    claim,
                    circuit.values(env, run.last),
                    run.last.len(),
                )
            } else {
                claim
            };
            let last_drawn = if ends {
                run.last
            } else {
                drawn_before(run, n)
            };
            whir_verifier::accepts(circuit, env, params, pieces, initial, initial_claim, run) <==> {
                &&& forall|q: int|
                    0 <= q < params.final_queries ==> bound(
                        circuit.values(env, (#[trigger] pieces.final_queries@[q]).leaf()),
                        circuit.values(env, drawn_before(run, n)),
                        order,
                    ) == combination(
                        final_poly,
                        whir_gadgets::power_by_bits(
                            F::sp_from_base(params.final_folded_domain_gen),
                            circuit.values(env, run.final_indices[q]),
                        ),
                        final_poly.len(),
                    )
                &&& last_claim == weight_after(
                    circuit,
                    env,
                    params,
                    initial,
                    run,
                    circuit.values(env, drawn_up_to(run, n) + run.last),
                    n,
                ).sp_mul(bound(final_poly, circuit.values(env, last_drawn), order))
            }
        }),
{
    let n = params.round_params@.len();
    let order = params.variable_order;
    let is_suffix = order == VariableOrder::Suffix;
    let start_claim = circuit.value(env, initial_claim);
    lemma_claim_after(start, circuit, env, params, pieces, run, start_claim, n);
    lemma_drawn_up_to(circuit, env, params, pieces, run, n);
    let listed = drawn_up_to(run, n) + run.last;
    let all = circuit.values(env, listed);
    assert(all =~= circuit.values(env, drawn_up_to(run, n)) + circuit.values(env, run.last));
    lemma_weight_after(start, circuit, env, params, pieces, initial, run, all, n);
    let ends = pieces.ends_in_sumcheck(params);
    if ends {
        let sumcheck = pieces.final_sumcheck->0;
        assert forall|k: int| 0 <= k < run.last.len() implies circuit.value(
            env,
            (#[trigger] sumcheck.round_polys@[k])[0],
        ).wf() by {
            assert(start.has(sumcheck.round_polys@[k][0]));
        }
        lemma_summed(
            circuit,
            env,
            sumcheck,
            claim_after(circuit, env, params, pieces, run, start_claim, n),
            run.last,
            run.last.len(),
        );
    }
    let drawn = drawn_before(run, n);
    assert(drawn.len() == pieces.folded_before(n)) by {
        if n > 0 {
            assert(whir_verifier::round_run_fits(
                params.round_params@[n - 1],
                pieces.rounds@[n - 1],
                run.rounds[n - 1],
            ));
        }
    }
    let last_drawn = if ends {
        run.last
    } else {
        drawn
    };
    lemma_fold(start, circuit, env, pieces.final_poly@, last_drawn, order);
    lemma_leaf(start, circuit, env, pieces.final_poly@);
    let generator = F::sp_from_base(params.final_folded_domain_gen);
    assert forall|q: int| 0 <= q < params.final_queries implies {
        &&& whir_verifier::fold_at(
            circuit,
            env,
            (#[trigger] pieces.final_queries@[q]).leaf(),
            whir_verifier::ordered_point(run.folding_before(n), is_suffix),
        ) == bound(
            circuit.values(env, pieces.final_queries@[q].leaf()),
            circuit.values(env, drawn),
            order,
        )
        &&& whir_verifier::final_value(
            circuit,
            env,
            pieces.final_poly@,
            generator,
            run.final_indices[q],
        ) == combination(
            circuit.values(env, pieces.final_poly@),
            whir_gadgets::power_by_bits(generator, circuit.values(env, run.final_indices[q])),
            pieces.final_poly@.len(),
        )
    } by {
        lemma_fold(start, circuit, env, pieces.final_queries@[q].leaf(), drawn, order);
        let bits = circuit.values(env, run.final_indices[q]);
        let factors = whir_gadgets::power_factors(generator, bits);
        assert forall|k: int| 0 <= k < factors.len() implies (#[trigger] factors[k]).wf() by {
            F::closed(
                bits[k].sp_mul(
                    field::repeated_square(generator, k as nat).sp_sub(F::sp_one()),
                ),
                F::sp_one(),
            );
        }
        lemma_product_wf(factors, bits.len());
        whir_gadgets::law_horner_is_combination(
            circuit.values(env, pieces.final_poly@),
            whir_gadgets::power_by_bits(generator, bits),
        );
    }
}

/// The weights of the first `n` constraints, each at its own end of all challenges.
pub open spec fn total_weight<F: Field>(
    builder: CircuitBuilder<F>,
    env: spec_fn(int) -> F,
    constraints: Seq<ConstraintWeightData>,
    all: Seq<F>,
    order: VariableOrder,
    n: nat,
) -> F
    decreases n,
{
    if n == 0 {
        F::sp_zero()
    } else {
        let c = constraints[n - 1];
        weighed(
            end_coordinates(all, c.num_variables as nat, order),
            Seq::new(
                c.eq_points@.len(),
                |j: int|
                    Seq::new(
                        c.eq_points@[j]@.len(),
                        |i: int| builder.value(env, c.eq_points@[j]@[i]),
                    ),
            ),
            Seq::new(c.sel_scalars@.len(), |j: int| builder.value(env, c.sel_scalars@[j])),
            builder.value(env, c.gamma),
        ).sp_add(total_weight(builder, env, constraints, all, order, (n - 1) as nat))
    }
}

proof fn lemma_total_weight_wf<F: CommutativeRing>(
    builder: CircuitBuilder<F>,
    env: spec_fn(int) -> F,
    constraints: Seq<ConstraintWeightData>,
    all: Seq<F>,
    is_suffix: bool,
    n: nat,
)
    ensures
        whir_gadgets::weight_sum(builder, env, constraints, all, is_suffix, n).wf(),
    decreases n,
{
    F::closed(F::sp_zero(), F::sp_zero());
    if n > 0 {
        F::closed(
            whir_gadgets::weight_sum(builder, env, constraints, all, is_suffix, (n - 1) as nat),
            constraints[n - 1].weight_at(builder, env, all, is_suffix),
        );
    }
}

/// The weight polynomial of a verifier is the sum of the weights of its constraints, each in the last
/// of the challenges, taken backwards with the order `Suffix`.
pub proof fn law_weights_are_summed<F: CommutativeRing>(
    builder: CircuitBuilder<F>,
    env: spec_fn(int) -> F,
    constraints: Seq<ConstraintWeightData>,
    all: Seq<F>,
    order: VariableOrder,
    n: nat,
)
    requires
        all_wf(all),
        n <= constraints.len(),
        forall|c: int|
            0 <= c < n ==> {
                &&& builder.value(env, (#[trigger] constraints[c]).gamma).wf()
                &&& constraints[c].fits(all.len())
                &&& forall|j: int|
                    0 <= j < constraints[c].eq_points@.len() ==> all_wf(
                        builder.values(env, (#[trigger] constraints[c].eq_points@[j])@),
                    )
            },
    ensures
        whir_gadgets::weight_sum(
            builder,
            env,
            constraints,
            all,
            order == VariableOrder::Suffix,
            n,
        ) == total_weight(builder, env, constraints, all, order, n),
    decreases n,
{
    if n > 0 {
        let m = (n - 1) as nat;
        let is_suffix = order == VariableOrder::Suffix;
        law_weights_are_summed(builder, env, constraints, all, order, m);
        let c = constraints[n - 1];
        let point = end_coordinates(all, c.num_variables as nat, order);
        lemma_end_coordinates(all, c.num_variables as nat, order);
        let rows = Seq::new(
            c.eq_points@.len(),
            |j: int|
                Seq::new(
                    c.eq_points@[j]@.len(),
                    |i: int| builder.value(env, c.eq_points@[j]@[i]),
                ),
        );
        assert forall|j: int| 0 <= j < rows.len() implies rows[j] == builder.values(
            env,
            (#[trigger] c.eq_points@[j])@,
        ) by {
            assert(rows[j] =~= builder.values(env, c.eq_points@[j]@));
        }
        assert(rows =~= whir_gadgets::value_rows(builder, env, c.eq_points@));
        assert forall|j: int| 0 <= j < rows.len() implies (#[trigger] rows[j]).len() == point.len()
            && all_wf(rows[j]) by {
            assert(all_wf(builder.values(env, c.eq_points@[j]@)));
        }
        let scalars = Seq::new(
            c.sel_scalars@.len(),
            |j: int| builder.value(env, c.sel_scalars@[j]),
        );
        assert(scalars =~= builder.values(env, c.sel_scalars@));
        let gamma = builder.value(env, c.gamma);
        law_weight_is_combination(point, rows, scalars, gamma);
        let terms = Seq::new(
            rows.len() + scalars.len(),
            |j: int|
                if j < rows.len() {
                    agreement(point, rows[j], point.len())
                } else {
                    whir_gadgets::select_at(point, scalars[j - rows.len()])
                },
        );
        lemma_combination_wf(terms, gamma, terms.len());
        lemma_total_weight_wf(builder, env, constraints, all, is_suffix, m);
        F::add_commutes(
            whir_gadgets::weight_sum(builder, env, constraints, all, is_suffix, m),
            c.weight_at(builder, env, all, is_suffix),
        );
    }
}

} // verus!
