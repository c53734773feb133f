//! Trees of arity two and four hash each matrix where they have a node for each of its rows.

use vstd::prelude::*;
use vstd::arithmetic::div_mod::{lemma_div_denominator, lemma_fundamental_div_mod};
use vstd::arithmetic::power2::{
    lemma2_to64, lemma_pow2_adds, lemma_pow2_pos, lemma_pow2_strictly_increases,
    lemma_pow2_unfold, pow2,
};

use crate::bits;
use crate::field::Field;
use crate::merkle;
use crate::merkle_tree_laws;
use crate::merkle_tree_laws::CommittedTree;

verus! {

// Rounding up to a power of two.

proof fn lemma_ceil_intro(h: nat, k: nat)
    requires
        h <= pow2(k),
        k > 0 ==> pow2((k - 1) as nat) < h,
    ensures
        bits::is_log2_ceil(h, k),
        bits::next_pow2(h) == pow2(k),
{
    assert forall|j: nat| j < k implies #[trigger] pow2(j) < h by {
        if j < k - 1 {
            lemma_pow2_strictly_increases(j, (k - 1) as nat);
        }
    }
    bits::lemma_next_pow2(h, k);
}

proof fn lemma_ceil_elim(h: nat, k: nat)
    requires
        bits::is_log2_ceil(h, k),
    ensures
        h <= pow2(k),
        k > 0 ==> pow2((k - 1) as nat) < h,
        bits::next_pow2(h) == pow2(k),
{
    bits::lemma_next_pow2(h, k);
    if k > 0 {
        assert(pow2((k - 1) as nat) < h);
    }
}

proof fn lemma_ceil_exists(h: nat, k: nat) -> (r: nat)
    requires
        forall|j: nat| j < k ==> #[trigger] pow2(j) < h,
    ensures
        bits::is_log2_ceil(h, r),
    decreases 2 * h - pow2(k),
{
    if pow2(k) >= h {
        k
    } else {
        lemma_pow2_pos(k);
        lemma_pow2_unfold(k + 1);
        lemma_ceil_exists(h, k + 1)
    }
}

/// Powers of two differ where their exponents do.
proof fn lemma_exponent(j: nat, k: nat)
    requires
        pow2(j) == pow2(k),
    ensures
        j == k,
{
    if j < k {
        lemma_pow2_strictly_increases(j, k);
    }
    if k < j {
        lemma_pow2_strictly_increases(k, j);
    }
}

/// Padding a layer to full groups keeps the power of two above it.
proof fn lemma_padded_ceil(x: nat, a: nat, k: nat)
    requires
        a == 1 || a == 2,
        x >= pow2(a),
        bits::is_log2_ceil(x, k),
    ensures
        k >= a,
        bits::is_log2_ceil(merkle::padded(x, pow2(a)), k),
        merkle::padded(x, pow2(a)) % pow2(a) == 0,
        merkle::padded(x, pow2(a)) >= x,
{
    lemma2_to64();
    lemma_ceil_elim(x, k);
    let n = pow2(a);
    if k < a {
        lemma_pow2_strictly_increases(k, a);
    }
    let u = pow2((k - a) as nat);
    lemma_pow2_adds((k - a) as nat, a);
    let q = (x + n - 1) as nat / n;
    lemma_fundamental_div_mod((x + n - 1) as int, n as int);
    assert(q * n == n * q) by (nonlinear_arith);
    assert(x <= q * n < x + n);
    assert(q <= u) by (nonlinear_arith)
        requires
            q * n < x + n,
            x <= u * n,
            n > 0,
    ;
    assert(q * n <= u * n) by (nonlinear_arith)
        requires
            q <= u,
    ;
    assert((q * n) % n == 0) by {
        vstd::arithmetic::div_mod::lemma_mod_multiples_basic(q as int, n as int);
    }
    lemma_ceil_intro(q * n, k);
}

/// Dividing by a power of two lowers the power of two above by as much.
proof fn lemma_divided_ceil(y: nat, b: nat, k: nat)
    requires
        b <= k,
        y % pow2(b) == 0,
        bits::is_log2_ceil(y, k),
    ensures
        bits::is_log2_ceil(y / pow2(b), (k - b) as nat),
{
    let s = pow2(b);
    let q = y / s;
    lemma_pow2_pos(b);
    lemma_ceil_elim(y, k);
    lemma_fundamental_div_mod(y as int, s as int);
    lemma_pow2_adds(b, (k - b) as nat);
    let u = pow2((k - b) as nat);
    assert(q <= u) by (nonlinear_arith)
        requires
            s * q <= s * u,
            s > 0,
    ;
    if k > b {
        lemma_pow2_adds(b, (k - b - 1) as nat);
        let v = pow2((k - b - 1) as nat);
        assert(v < q) by (nonlinear_arith)
            requires
                s * v < s * q,
                s > 0,
        ;
    }
    lemma_ceil_intro(q, (k - b) as nat);
}

// The walk up the tree.

/// How often a step halves.
spec fn halvings(step: nat) -> nat {
    if step == 2 {
        1
    } else {
        2
    }
}

/// How often the levels below `level` halve.
spec fn shift(schedule: Seq<nat>, level: nat) -> nat
    decreases level,
{
    if level == 0 {
        0
    } else {
        shift(schedule, (level - 1) as nat) + halvings(schedule[level - 1])
    }
}

impl<F: Field, const DIGEST_ELEMS: usize> CommittedTree<F, DIGEST_ELEMS> {
    /// The length of a layer before it is padded.
    spec fn layer_len(self, level: nat) -> nat {
        if level == 0 {
            self.leaf_count()
        } else {
            self.geometry().layer((level - 1) as nat).0 / self.schedule[level - 1]
        }
    }

    /// How many matrices are hashed at or below a level.
    spec fn taken(self, level: nat) -> nat {
        self.geometry().layer(level).1
    }

    /// The next matrix rounds to another power of two than the layer.
    spec fn head_differs(self, level: nat) -> bool {
        let g = self.geometry();
        self.taken(level) < g.order().len() ==> bits::next_pow2(
            self.heights[g.order()[self.taken(level) as int] as int],
        ) != bits::next_pow2(self.layer_len(level))
    }

    /// The arity is two or four, and so is each step of the proof; all matrices have rows, and
    /// different heights round to different powers of two.
    pub open spec fn reachable(self) -> bool {
        &&& self.arity == 2 || self.arity == 4
        &&& forall|l: int|
            0 <= l < self.schedule.len() ==> (#[trigger] self.schedule[l]) == 2 || self.schedule[l]
                == self.arity
        &&& self.heights.len() > 0
        &&& self.matrices.len() == self.heights.len()
        &&& forall|m: int| 0 <= m < self.heights.len() ==> (#[trigger] self.heights[m]) > 0
        &&& forall|m: int, n: int|
            #![trigger self.heights[m], self.heights[n]]
            0 <= m < self.heights.len() && 0 <= n < self.heights.len() && bits::next_pow2(
                self.heights[m],
            ) == bits::next_pow2(self.heights[n]) ==> self.heights[m] == self.heights[n]
    }

    proof fn lemma_above(self, level: nat, leaf: nat)
        requires
            self.reachable(),
            level <= self.schedule.len(),
        ensures
            self.above(level, leaf) == leaf / pow2(shift(self.schedule, level)),
        decreases level,
    {
        lemma2_to64();
        if level == 0 {
            assert(leaf / 1 == leaf);
        } else {
            let l = (level - 1) as nat;
            let step = self.schedule[l as int];
            self.lemma_above(l, leaf);
            let t = shift(self.schedule, l);
            lemma_pow2_pos(t);
            lemma_pow2_adds(t, halvings(step));
            assert(pow2(halvings(step)) == step);
            lemma_div_denominator(leaf as int, pow2(t) as int, step as int);
        }
    }

    /// The matrices of a level round to the power of two of the layer, and the next one does not.
    proof fn lemma_taken(self, level: nat)
        requires
            self.reachable(),
            level <= self.schedule.len(),
        ensures
            self.head_differs(level),
            self.taken(level) <= self.geometry().order().len(),
            level > 0 ==> self.taken((level - 1) as nat) <= self.taken(level),
            forall|t: int|
                0 <= t < self.hashed_at(level).len() ==> (#[trigger] self.hashed_at(level)[t])
                    < self.heights.len() && bits::next_pow2(
                    self.heights[self.hashed_at(level)[t] as int],
                ) == bits::next_pow2(self.layer_len(level)),
        decreases level,
    {
        let g = self.geometry();
        let order = g.order();
        merkle::lemma_order_len(self.heights, self.heights.len());
        merkle_tree_laws::lemma_order_members(self.heights, self.heights.len());
        if level == 0 {
            lemma_rounding_end(order, self.heights, 0, bits::next_pow2(self.leaf_count()));
        } else {
            let l = (level - 1) as nat;
            self.lemma_taken(l);
            let from = self.taken(l);
            if from < order.len() {
                let h = self.heights[order[from as int] as int];
                lemma_height_end(order, self.heights, from, h);
            }
        }
    }
}

impl<F: Field, const DIGEST_ELEMS: usize> CommittedTree<F, DIGEST_ELEMS> {
    /// The layer has been halved as often as its length tells.
    spec fn exact(self, level: nat, k: nat) -> bool {
        exists|e: nat| #[trigger]
            bits::is_log2_ceil(self.layer_len(level), e) && e + shift(self.schedule, level) == k
    }

    /// The layer is exact, or is a root, or has been padded up from a pair of nodes that no matrix
    /// waits for any more.
    spec fn walked(self, level: nat, k: nat) -> bool {
        ||| self.layer_len(level) >= 2 && self.exact(level, k)
        ||| self.layer_len(level) <= 1 && shift(self.schedule, level) >= k
        ||| {
            &&& self.arity == 4
            &&& self.layer_len(level) == 2
            &&& shift(self.schedule, level) >= k
            &&& self.hashed_at(level).len() == 0
        }
    }

    proof fn lemma_walked(self, level: nat, k: nat)
        requires
            self.reachable(),
            level <= self.schedule.len(),
            bits::is_log2_ceil(self.leaf_count(), k),
        ensures
            self.walked(level, k),
        decreases level,
    {
        lemma2_to64();
        if level == 0 {
            lemma_ceil_elim(self.leaf_count(), k);
            if self.leaf_count() <= 1 {
                if k > 0 {
                    lemma_pow2_pos((k - 1) as nat);
                }
            } else {
                assert(self.exact(0, k));
            }
        } else {
            let l = (level - 1) as nat;
            let x = self.layer_len(l);
            let step = self.schedule[l as int];
            let a: nat = if self.arity == 2 {
                1
            } else {
                2
            };
            let b = halvings(step);
            let len = self.geometry().layer(l).0;
            assert(len == merkle::padded(x, self.arity));
            assert(self.arity == pow2(a) && step == pow2(b));
            self.lemma_walked(l, k);
            self.lemma_taken(l);
            self.lemma_taken(level);
            if x <= 1 {
                assert(self.layer_len(level) == 0) by (nonlinear_arith)
                    requires
                        self.layer_len(level) == len / step,
                        len <= 1,
                        step == 2 || step == 4,
                ;
            } else if x >= self.arity && self.exact(l, k) {
                let e = choose|e: nat| #[trigger]
                    bits::is_log2_ceil(x, e) && e + shift(self.schedule, l) == k;
                lemma_padded_ceil(x, a, e);
                assert(len % step == 0) by (nonlinear_arith)
                    requires
                        len % self.arity == 0,
                        step == 2 || step == self.arity,
                        self.arity == 2 || self.arity == 4,
                ;
                lemma_divided_ceil(len, b, e);
                let next = self.layer_len(level);
                assert(bits::is_log2_ceil(next, (e - b) as nat));
                lemma_ceil_elim(next, (e - b) as nat);
                if next >= 2 {
                    assert(self.exact(level, k));
                } else if e > b {
                    lemma_pow2_pos((e - b - 1) as nat);
                }
            } else {
                assert(self.arity == 4 && len == 4);
                let next = self.layer_len(level);
                assert(next == 4nat / step);
                if x == 3 {
                    let e = choose|e: nat| #[trigger]
                        bits::is_log2_ceil(x, e) && e + shift(self.schedule, l) == k;
                    lemma_ceil_intro(3, 2);
                    lemma_ceil_elim(3, e);
                    lemma_exponent(e, 2);
                    if step == 2 {
                        lemma_ceil_intro(2, 1);
                        assert(bits::is_log2_ceil(next, 1));
                        assert(self.exact(level, k));
                    }
                } else {
                    if self.exact(l, k) {
                        let e = choose|e: nat| #[trigger]
                            bits::is_log2_ceil(x, e) && e + shift(self.schedule, l) == k;
                        lemma_ceil_intro(2, 1);
                        lemma_ceil_elim(2, e);
                        lemma_exponent(e, 1);
                    }
                    if step == 2 {
                        assert(next == 2);
                        assert(self.head_differs(l));
                        assert(self.taken(level) == self.taken(l));
                        assert(self.hashed_at(level).len() == 0);
                    }
                }
            }
        }
    }
}

/// Trees of arity two and four over heights of which no two round to the same power of two are
/// aligned: each leaf opens, of every matrix, the row that is hashed into the node above it.
pub proof fn law_reachable_trees_are_aligned<F: Field, const DIGEST_ELEMS: usize>(
    tree: CommittedTree<F, DIGEST_ELEMS>,
)
    requires
        tree.reachable(),
    ensures
        tree.aligned(),
{
    let k = lemma_ceil_exists(tree.leaf_count(), 0);
    lemma_ceil_elim(tree.leaf_count(), k);
    assert forall|level: nat, t: int, leaf: nat|
        level <= tree.schedule.len() && 0 <= t < tree.hashed_at(level).len() && leaf
            < tree.leaf_count() implies #[trigger] tree.row_aligned(
        level,
        tree.hashed_at(level)[t],
        leaf,
    ) by {
        let m = tree.hashed_at(level)[t];
        let h = tree.heights[m as int];
        let s = shift(tree.schedule, level);
        tree.lemma_taken(level);
        tree.lemma_walked(level, k);
        tree.lemma_above(level, leaf);
        let e = lemma_ceil_exists(tree.layer_len(level), 0);
        lemma_ceil_elim(tree.layer_len(level), e);
        assert(bits::next_pow2(h) == pow2(e));
        lemma_pow2_pos(e);
        if tree.layer_len(level) >= 2 {
            let f = choose|e: nat| #[trigger]
                bits::is_log2_ceil(tree.layer_len(level), e) && e + s == k;
            lemma_ceil_elim(tree.layer_len(level), f);
            lemma_exponent(e, f);
            lemma_pow2_adds(s, e);
            assert(pow2(k) / pow2(e) == pow2(s)) by {
                vstd::arithmetic::div_mod::lemma_div_multiples_vanish(
                    pow2(s) as int,
                    pow2(e) as int,
                );
                assert(pow2(s) * pow2(e) == pow2(e) * pow2(s)) by (nonlinear_arith);
            }
        } else {
            lemma2_to64();
            if e > 0 {
                lemma_pow2_pos((e - 1) as nat);
            }
            assert(pow2(k) / 1 == pow2(k));
            if k < s {
                lemma_pow2_strictly_increases(k, s);
            }
            vstd::arithmetic::div_mod::lemma_basic_div(leaf as int, pow2(k) as int);
            vstd::arithmetic::div_mod::lemma_basic_div(leaf as int, pow2(s) as int);
        }
    }
}

proof fn lemma_rounding_end(order: Seq<nat>, heights: Seq<nat>, from: nat, npt: nat)
    requires
        from <= order.len(),
    ensures
        ({
            let end = merkle::rounding_end(order, heights, from, npt);
            &&& from <= end <= order.len()
            &&& end < order.len() ==> bits::next_pow2(heights[order[end as int] as int]) != npt
            &&& forall|i: int|
                from <= i < end ==> bits::next_pow2(heights[(#[trigger] order[i]) as int]) == npt
        }),
    decreases order.len() - from,
{
    if from < order.len() && bits::next_pow2(heights[order[from as int] as int]) == npt {
        lemma_rounding_end(order, heights, from + 1, npt);
    }
}

proof fn lemma_height_end(order: Seq<nat>, heights: Seq<nat>, from: nat, height: nat)
    requires
        from <= order.len(),
    ensures
        ({
            let end = merkle::height_end(order, heights, from, height);
            &&& from <= end <= order.len()
            &&& end < order.len() ==> heights[order[end as int] as int] != height
            &&& forall|i: int|
                from <= i < end ==> heights[(#[trigger] order[i]) as int] == height
        }),
    decreases order.len() - from,
{
    if from < order.len() && heights[order[from as int] as int] == height {
        lemma_height_end(order, heights, from + 1, height);
    }
}

} // verus!
