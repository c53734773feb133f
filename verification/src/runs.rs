//! Runs of equal values in sequences of node indices.

use vstd::arithmetic::div_mod::*;
use vstd::prelude::*;

verus! {

/// A sequence with adjacent repetitions removed.
pub open spec fn distinct(s: Seq<nat>) -> Seq<nat>
    decreases s.len(),
{
    if s.len() == 0 {
        Seq::empty()
    } else {
        let rest = distinct(s.drop_last());
        if rest.len() > 0 && rest.last() == s.last() {
            rest
        } else {
            rest.push(s.last())
        }
    }
}

pub open spec fn nondecreasing(s: Seq<nat>) -> bool {
    forall|i: int, j: int| 0 <= i <= j < s.len() ==> s[i] <= s[j]
}

pub open spec fn increasing(s: Seq<nat>) -> bool {
    forall|i: int, j: int| 0 <= i < j < s.len() ==> s[i] < s[j]
}

/// Every element divided by `step`.
pub open spec fn quotients(s: Seq<nat>, step: nat) -> Seq<nat> {
    Seq::new(s.len(), |i: int| s[i] / step)
}

/// How many elements are below `x`.
pub open spec fn count_below(s: Seq<nat>, x: nat) -> nat
    decreases s.len(),
{
    if s.len() == 0 {
        0
    } else {
        count_below(s.drop_last(), x) + (if s.last() < x {
            1nat
        } else {
            0
        })
    }
}

/// The first position of `x`, or the length where there is none.
pub open spec fn first_at(s: Seq<nat>, x: nat) -> int
    decreases s.len(),
{
    if s.len() == 0 {
        0
    } else {
        let before = first_at(s.drop_last(), x);
        if before < s.len() - 1 || s.last() == x {
            before
        } else {
            s.len() as int
        }
    }
}

pub proof fn lemma_first_at(s: Seq<nat>, x: nat, p: int)
    requires
        0 <= p < s.len(),
        s[p] == x,
        forall|i: int| 0 <= i < p ==> s[i] != x,
    ensures
        first_at(s, x) == p,
    decreases s.len(),
{
    let t = s.drop_last();
    if p < t.len() {
        lemma_first_at(t, x, p);
    } else {
        lemma_first_at_none(t, x);
    }
}

pub proof fn lemma_first_at_none(s: Seq<nat>, x: nat)
    requires
        forall|i: int| 0 <= i < s.len() ==> s[i] != x,
    ensures
        first_at(s, x) == s.len(),
    decreases s.len(),
{
    if s.len() > 0 {
        lemma_first_at_none(s.drop_last(), x);
    }
}

/// Where the runs of equal values start.
pub open spec fn starts(s: Seq<nat>) -> Seq<int>
    decreases s.len(),
{
    if s.len() == 0 {
        Seq::empty()
    } else {
        let rest = distinct(s.drop_last());
        if rest.len() > 0 && rest.last() == s.last() {
            starts(s.drop_last())
        } else {
            starts(s.drop_last()).push(s.len() - 1)
        }
    }
}

/// Where the `k`-th run starts; the length after the last run.
pub open spec fn run_start(s: Seq<nat>, k: int) -> int {
    if 0 <= k < starts(s).len() {
        starts(s)[k]
    } else {
        s.len() as int
    }
}

pub open spec fn run_nonempty(s: Seq<nat>, k: int) -> bool {
    0 <= run_start(s, k) < run_start(s, k + 1) <= s.len()
}

/// The values of a sequence are its runs.
pub open spec fn runs_cover(s: Seq<nat>) -> bool {
    &&& starts(s).len() == distinct(s).len()
    &&& distinct(s).len() <= s.len()
    &&& s.len() > 0 ==> distinct(s).len() > 0 && starts(s)[0] == 0
    &&& forall|k: int| 0 <= k < distinct(s).len() ==> #[trigger] run_nonempty(s, k)
    &&& forall|k: int, i: int|
        #![trigger distinct(s)[k], s[i]]
        0 <= k < distinct(s).len() && run_start(s, k) <= i < run_start(s, k + 1) ==> s[i]
            == distinct(s)[k]
}

pub proof fn lemma_distinct_last(s: Seq<nat>)
    requires
        s.len() > 0,
    ensures
        distinct(s).len() > 0,
        distinct(s).last() == s.last(),
{
}

/// Dropping repetitions drops no value.
pub proof fn lemma_distinct_contains(s: Seq<nat>, i: int)
    requires
        0 <= i < s.len(),
    ensures
        distinct(s).contains(s[i]),
    decreases s.len(),
{
    let t = s.drop_last();
    let d = distinct(t);
    if i < t.len() {
        lemma_distinct_contains(t, i);
        let k = choose|k: int| 0 <= k < d.len() && d[k] == t[i];
        assert(distinct(s)[k] == s[i]);
    } else {
        lemma_distinct_last(s);
        assert(distinct(s)[distinct(s).len() - 1] == s[i]);
    }
}

/// How the runs change with one more element.
pub proof fn lemma_run_start_push(s: Seq<nat>, k: int)
    requires
        s.len() > 0,
        starts(s.drop_last()).len() == distinct(s.drop_last()).len(),
        0 <= k <= distinct(s).len(),
    ensures
        starts(s).len() == distinct(s).len(),
        k < distinct(s.drop_last()).len() ==> run_start(s, k) == run_start(s.drop_last(), k),
        k == distinct(s.drop_last()).len() ==> run_start(s, k) == (if distinct(s).len() == k {
            s.len() as int
        } else {
            s.len() - 1
        }),
        k > distinct(s.drop_last()).len() ==> run_start(s, k) == s.len(),
{
}

pub proof fn lemma_runs(s: Seq<nat>)
    ensures
        runs_cover(s),
    decreases s.len(),
{
    if s.len() > 0 {
        let t = s.drop_last();
        let n = s.len() - 1;
        let d = distinct(t);
        lemma_runs(t);
        if d.len() > 0 {
            lemma_distinct_last(t);
        }
        assert forall|k: int| 0 <= k < distinct(s).len() implies #[trigger] run_nonempty(
            s,
            k,
        ) by {
            lemma_run_start_push(s, k);
            lemma_run_start_push(s, k + 1);
            if k < d.len() {
                assert(run_nonempty(t, k));
            }
        }
        assert forall|k: int, i: int|
            #![trigger distinct(s)[k], s[i]]
            0 <= k < distinct(s).len() && run_start(s, k) <= i < run_start(s, k + 1) implies s[i]
            == distinct(s)[k] by {
            lemma_run_start_push(s, k);
            lemma_run_start_push(s, k + 1);
            if k < d.len() {
                assert(run_nonempty(t, k));
                if i < n {
                    assert(t[i] == d[k]);
                }
            }
        }
    }
}

/// The distinct values of a nondecreasing sequence increase.
pub proof fn lemma_distinct_increasing(s: Seq<nat>)
    requires
        nondecreasing(s),
    ensures
        increasing(distinct(s)),
    decreases s.len(),
{
    if s.len() > 0 {
        let t = s.drop_last();
        assert(nondecreasing(t));
        lemma_distinct_increasing(t);
        let d = distinct(t);
        if d.len() > 0 {
            lemma_distinct_last(t);
            assert(t.last() <= s.last());
        }
        assert forall|i: int, j: int| 0 <= i < j < distinct(s).len() implies distinct(s)[i]
            < distinct(s)[j] by {
            if j == d.len() {
                assert(d[i] <= d.last());
            }
        }
    }
}

/// In a nondecreasing sequence the first position of a value is the start of its run.
pub proof fn lemma_run_first(s: Seq<nat>, k: int)
    requires
        nondecreasing(s),
        0 <= k < distinct(s).len(),
    ensures
        first_at(s, distinct(s)[k]) == run_start(s, k),
{
    lemma_runs(s);
    lemma_distinct_increasing(s);
    let p = run_start(s, k);
    assert(run_nonempty(s, k));
    assert(s[p] == distinct(s)[k]);
    assert forall|i: int| 0 <= i < p implies s[i] != distinct(s)[k] by {
        if k > 0 {
            let e = p - 1;
            assert(run_nonempty(s, k - 1));
            assert(s[e] == distinct(s)[k - 1]);
            assert(s[i] <= s[e]);
            assert(distinct(s)[k - 1] < distinct(s)[k]);
        }
    }
    lemma_first_at(s, distinct(s)[k], p);
}

/// The values of a prefix are a prefix of the values.
pub proof fn lemma_distinct_take(s: Seq<nat>, m: int)
    requires
        0 <= m <= s.len(),
    ensures
        distinct(s.take(m)).len() <= distinct(s).len(),
        distinct(s.take(m)) == distinct(s).take(distinct(s.take(m)).len() as int),
    decreases s.len(),
{
    if m == s.len() {
        assert(s.take(m) =~= s);
        assert(distinct(s).take(distinct(s).len() as int) =~= distinct(s));
    } else {
        let t = s.drop_last();
        lemma_distinct_take(t, m);
        assert(t.take(m) =~= s.take(m));
        let d = distinct(s.take(m));
        assert(distinct(t).take(d.len() as int) =~= distinct(s).take(d.len() as int));
    }
}

/// One more run adds its value.
pub proof fn lemma_distinct_run(s: Seq<nat>, p: int, e: int, x: nat)
    requires
        0 <= p < e <= s.len(),
        forall|i: int| p <= i < e ==> s[i] == x,
        p == 0 || s[p - 1] != x,
    ensures
        distinct(s.take(e)) == distinct(s.take(p)).push(x),
    decreases e,
{
    let t = s.take(e);
    assert(t.drop_last() =~= s.take(e - 1));
    if e == p + 1 {
        if p > 0 {
            lemma_distinct_last(s.take(p));
        }
    } else {
        lemma_distinct_run(s, p, e - 1, x);
        assert(distinct(s.take(p)).push(x).last() == x);
    }
}

/// Removing repetitions before dividing changes nothing.
pub proof fn lemma_distinct_quotients(s: Seq<nat>, step: nat)
    requires
        step > 0,
    ensures
        distinct(quotients(distinct(s), step)) == distinct(quotients(s, step)),
    decreases s.len(),
{
    if s.len() > 0 {
        let t = s.drop_last();
        lemma_distinct_quotients(t, step);
        assert(quotients(s, step).drop_last() =~= quotients(t, step));
        let d = distinct(t);
        if d.len() > 0 && d.last() == s.last() {
            lemma_distinct_last(t);
            lemma_distinct_last(quotients(t, step));
        } else {
            assert(quotients(d.push(s.last()), step).drop_last() =~= quotients(d, step));
        }
    } else {
        assert(distinct(s) =~= s);
    }
}

pub proof fn lemma_count_below_at(s: Seq<nat>, x: nat, i: int)
    requires
        increasing(s),
        0 <= i <= s.len(),
        i > 0 ==> s[i - 1] < x,
        i < s.len() ==> s[i] >= x,
    ensures
        count_below(s, x) == i,
    decreases s.len(),
{
    if s.len() > 0 {
        let t = s.drop_last();
        assert(increasing(t));
        if i == s.len() {
            if i > 1 {
                assert(s[i - 2] < s[i - 1]);
            }
            lemma_count_below_at(t, x, i - 1);
        } else {
            assert(s[i] <= s.last());
            lemma_count_below_at(t, x, i);
        }
    }
}

/// Counting below the successor counts the value itself.
pub proof fn lemma_count_below_step(s: Seq<nat>, x: nat)
    requires
        increasing(s),
    ensures
        count_below(s, x + 1) == count_below(s, x) + (if s.contains(x) {
            1nat
        } else {
            0
        }),
        count_below(s, x) <= s.len(),
    decreases s.len(),
{
    if s.len() > 0 {
        let t = s.drop_last();
        assert(increasing(t));
        lemma_count_below_step(t, x);
        if s.last() == x {
            assert(s[s.len() - 1] == x);
            assert(!t.contains(x)) by {
                if t.contains(x) {
                    let i = choose|i: int| 0 <= i < t.len() && t[i] == x;
                    assert(s[i] < s[s.len() - 1]);
                }
            }
        } else {
            if s.contains(x) {
                let i = choose|i: int| 0 <= i < s.len() && s[i] == x;
                assert(t[i] == x);
            }
            if t.contains(x) {
                let i = choose|i: int| 0 <= i < t.len() && t[i] == x;
                assert(s[i] == x);
            }
        }
    }
}

/// Positions that the first `m` indices leave behind, seen from the last of them.
pub open spec fn slack(s: Seq<nat>, step: nat, m: int) -> int {
    (distinct(quotients(s, step).take(m)).len() - 1) * step + s[m - 1] % step + 1 - m
}

/// An increasing sequence never has more elements than its quotients have places.
pub proof fn lemma_slack(s: Seq<nat>, step: nat, m: int, n: int)
    requires
        increasing(s),
        step > 0,
        0 < m <= n <= s.len(),
    ensures
        slack(s, step, m) <= slack(s, step, n),
    decreases n - m,
{
    if m < n {
        lemma_slack(s, step, m, n - 1);
        let q = quotients(s, step);
        let a = s[n - 2];
        let b = s[n - 1];
        assert(a < b);
        lemma_fundamental_div_mod(a as int, step as int);
        lemma_fundamental_div_mod(b as int, step as int);
        lemma_mod_bound(a as int, step as int);
        lemma_mod_bound(b as int, step as int);
        assert(q.take(n).drop_last() =~= q.take(n - 1));
        lemma_distinct_last(q.take(n - 1));
        let d = distinct(q.take(n - 1)).len() as int;
        if a / step == b / step {
            assert(distinct(q.take(n)).len() == d);
            assert(a % step < b % step);
        } else {
            assert(distinct(q.take(n)).len() == d + 1);
            assert(d * step == (d - 1) * step + step) by (nonlinear_arith);
        }
    }
}

pub proof fn lemma_distinct_of_increasing(s: Seq<nat>)
    requires
        increasing(s),
    ensures
        distinct(s) == s,
    decreases s.len(),
{
    if s.len() > 0 {
        let t = s.drop_last();
        assert(increasing(t));
        lemma_distinct_of_increasing(t);
        if t.len() > 0 {
            assert(s[s.len() - 2] < s[s.len() - 1]);
        }
        assert(t.push(s.last()) =~= s);
    } else {
        assert(distinct(s) =~= s);
    }
}

/// The count splits an increasing sequence.
pub proof fn lemma_count_below(s: Seq<nat>, x: nat)
    requires
        increasing(s),
    ensures
        count_below(s, x) <= s.len(),
        count_below(s, x) > 0 ==> s[count_below(s, x) - 1] < x,
        count_below(s, x) < s.len() ==> s[count_below(s, x) as int] >= x,
    decreases s.len(),
{
    if s.len() > 0 {
        let t = s.drop_last();
        assert(increasing(t));
        lemma_count_below(t, x);
        let c = count_below(t, x) as int;
        if s.last() < x {
            if c < t.len() {
                assert(s[c] < s[s.len() - 1]);
            }
        }
    }
}

pub proof fn lemma_group_bounds(x: nat, step: nat, p: nat)
    requires
        step > 0,
        x / step == p,
    ensures
        p * step <= x < p * step + step,
        x == p * step + x % step,
        x % step < step,
{
    lemma_fundamental_div_mod(x as int, step as int);
    lemma_mod_bound(x as int, step as int);
    assert(step * p == p * step) by (nonlinear_arith);
}

pub proof fn lemma_group_order(a: nat, p: nat, step: nat)
    requires
        a < p,
    ensures
        a * step + step <= p * step,
{
    assert((a + 1) * step <= p * step) by (nonlinear_arith)
        requires
            a + 1 <= p,
    ;
    assert((a + 1) * step == a * step + step) by (nonlinear_arith);
}

pub proof fn lemma_place(p: nat, step: nat, pos: nat)
    requires
        pos < step,
    ensures
        (p * step + pos) / step == p,
        (p * step + pos) % step == pos,
{
    lemma_fundamental_div_mod_converse((p * step + pos) as int, step as int, p as int, pos as int);
}

/// A value of a group is at one of its positions.
pub proof fn lemma_in_group(s: Seq<nat>, step: nat, p: nat, from: int, to: int, n: int)
    requires
        increasing(s),
        step > 0,
        0 <= from < to <= s.len(),
        0 <= n < s.len(),
        s[n] / step == p,
        from > 0 ==> s[from - 1] / step < p,
        to < s.len() ==> s[to] / step > p,
    ensures
        from <= n < to,
{
    if n < from {
        assert(s[n] <= s[from - 1]);
        lemma_div_is_ordered(s[n] as int, s[from - 1] as int, step as int);
    }
    if n >= to {
        assert(s[to] <= s[n]);
        lemma_div_is_ordered(s[to] as int, s[n] as int, step as int);
    }
}

/// The values below the end of a group are those up to its last position.
pub proof fn lemma_group_end(s: Seq<nat>, step: nat, p: nat, from: int, to: int)
    requires
        increasing(s),
        step > 0,
        0 <= from < to <= s.len(),
        s[to - 1] / step == p,
        to < s.len() ==> s[to] / step > p,
    ensures
        count_below(s, p * step + step) == to,
{
    lemma_group_bounds(s[to - 1], step, p);
    if to < s.len() {
        lemma_group_bounds(s[to], step, s[to] / step);
        lemma_group_order(p, s[to] / step, step);
    }
    lemma_count_below_at(s, p * step + step, to);
}

/// A place that no value of the group fills is one of the places left over in the end.
pub proof fn lemma_shortage(
    s: Seq<nat>,
    step: nat,
    from: int,
    to: int,
    next: int,
    pos: int,
    p: nat,
    k: int,
)
    requires
        increasing(s),
        step > 0,
        0 <= from < to <= s.len(),
        from <= next <= to,
        0 <= pos < step,
        forall|n: int| from <= n < to ==> (#[trigger] s[n]) / step == p,
        from > 0 ==> s[from - 1] / step < p,
        to < s.len() ==> s[to] / step > p,
        distinct(quotients(s, step).take(from)).len() == k,
        next < to ==> s[next] > p * step + pos,
    ensures
        distinct(quotients(s, step)).len() * step - s.len() >= k * step + pos + 1 - next,
{
    let q = quotients(s, step);
    let n = s.len() as int;
    lemma_distinct_run(q, from, to, p);
    assert(q.take(n) =~= q);
    let d = distinct(q).len() as int;
    assert((k + 1) * step == k * step + step) by (nonlinear_arith);
    if next < n {
        let m = next + 1;
        lemma_slack(s, step, m, n);
        lemma_group_bounds(s[n - 1], step, s[n - 1] / step);
        lemma_group_bounds(s[next], step, s[next] / step);
        assert((d - 1) * step == d * step - step) by (nonlinear_arith);
        if next < to {
            lemma_distinct_run(q, from, m, p);
        } else {
            lemma_distinct_run(q, to, m, s[to] / step);
        }
    }
}

} // verus!
