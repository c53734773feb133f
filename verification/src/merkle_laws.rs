//! What the expanded authentication paths satisfy.
use vstd::arithmetic::div_mod::{
    lemma_div_is_ordered, lemma_fundamental_div_mod, lemma_fundamental_div_mod_converse,
    lemma_mod_bound,
};
use vstd::prelude::*;

use crate::field::Field;
use crate::merkle;
use crate::merkle::{
    CryptographicHasher, Dimensions, Frontier, PseudoCompressionFunction,
};
use crate::runs;
use crate::seqs;

verus! {

/// Queries of the same leaf get the same path.
pub proof fn law_equal_queries_share_a_path<F, H, C, const N: usize, const DIGEST_ELEMS: usize>(
    hash: H,
    compress: C,
    cap_height: nat,
    dimensions: Seq<Dimensions>,
    indices: Seq<nat>,
    opened: Seq<Seq<Seq<F>>>,
    siblings: Seq<[F; DIGEST_ELEMS]>,
    first: int,
    second: int,
) where
    F: Field,
    H: CryptographicHasher<F, DIGEST_ELEMS>,
    C: PseudoCompressionFunction<F, N, DIGEST_ELEMS>,

    requires
        indices[first] == indices[second],
    ensures
        merkle::expanded_path::<F, H, C, N, DIGEST_ELEMS>(
            hash,
            compress,
            cap_height,
            dimensions,
            indices,
            opened,
            siblings,
            first,
        ) == merkle::expanded_path::<F, H, C, N, DIGEST_ELEMS>(
            hash,
            compress,
            cap_height,
            dimensions,
            indices,
            opened,
            siblings,
            second,
        ),
{
}

// Boundary digests.

impl<F: Field, const DIGEST_ELEMS: usize> Frontier<F, DIGEST_ELEMS> {
    /// A node that is not recomputed, below one that is: its digest comes with the proof.
    pub open spec fn is_boundary(self, level: nat, index: nat) -> bool {
        &&& level < self.schedule.len()
        &&& !self.indices(level).contains(index)
        &&& self.indices(level + 1).contains(index / self.schedule[level as int])
    }

    /// How many nodes of `level` have a recomputed parent.
    spec fn places(self, level: nat) -> int {
        (self.indices(level + 1).len() * self.schedule[level as int]) as int
    }

    /// The nodes of `level` with a recomputed parent, in order.
    spec fn place(self, level: nat, e: int) -> nat {
        let step = self.schedule[level as int];
        (self.indices(level + 1)[e / step as int] * step + e % step as int) as nat
    }

    /// How many of the first `e` places take a boundary digest.
    spec fn taken(self, level: nat, e: int) -> int {
        e - (if e < self.places(level) {
            runs::count_below(self.indices(level), self.place(level, e))
        } else {
            self.indices(level).len()
        })
    }

    proof fn lemma_place(self, level: nat, e: int)
        requires
            self.valid(),
            level < self.schedule.len(),
            0 <= e < self.places(level),
        ensures
            0 <= e / (self.schedule[level as int] as int),
            e / (self.schedule[level as int] as int) < self.indices(level + 1).len(),
            self.place(level, e) / self.schedule[level as int] == self.indices(level + 1)[e
                / self.schedule[level as int] as int],
            self.place(level, e) % self.schedule[level as int] == e
                % self.schedule[level as int] as int,
            self.indices(level + 1).contains(
                self.place(level, e) / self.schedule[level as int],
            ),
            self.boundary(level, self.place(level, e)) == self.consumed(level) + self.taken(
                level,
                e,
            ),
    {
        let step = self.schedule[level as int] as int;
        let above = self.indices(level + 1);
        let k = e / step;
        lemma_fundamental_div_mod(e, step);
        lemma_mod_bound(e, step);
        assert(0 <= k < above.len()) by (nonlinear_arith)
            requires
                e == step * k + e % step,
                0 <= e % step < step,
                0 <= e < above.len() * step,
                step > 0,
        ;
        let x = self.place(level, e);
        assert(above[k] * step >= 0) by (nonlinear_arith)
            requires
                step > 0,
                above[k] >= 0,
        ;
        assert(x as int == above[k] * step + e % step);
        lemma_fundamental_div_mod_converse(x as int, step, above[k] as int, e % step);
        self.lemma_level(level + 1);
        if k > 0 {
            assert(above[k - 1] < above[k]);
        }
        runs::lemma_count_below_at(above, above[k], k);
        assert(k * step == step * k) by (nonlinear_arith);
    }

    /// The places walk over the recomputed nodes one by one.
    proof fn lemma_taken(self, level: nat, e: int)
        requires
            self.valid(),
            level < self.schedule.len(),
            0 <= e < self.places(level),
        ensures
            self.taken(level, e + 1) == self.taken(level, e) + (if self.indices(level).contains(
                self.place(level, e),
            ) {
                0int
            } else {
                1
            }),
    {
        let step = self.schedule[level as int] as int;
        let above = self.indices(level + 1);
        let ix = self.indices(level);
        let x = self.place(level, e);
        let k = e / step;
        let c = runs::count_below(ix, x + 1) as int;
        self.lemma_level(level);
        self.lemma_level(level + 1);
        self.lemma_next_level(level);
        self.lemma_place(level, e);
        runs::lemma_count_below_step(ix, x);
        runs::lemma_count_below(ix, x + 1);
        lemma_fundamental_div_mod(e, step);
        lemma_mod_bound(e, step);
        runs::lemma_group_bounds(x, step as nat, above[k]);
        if e + 1 < self.places(level) {
            let y = self.place(level, e + 1);
            let j = (e + 1) / step;
            self.lemma_place(level, e + 1);
            lemma_fundamental_div_mod(e + 1, step);
            lemma_mod_bound(e + 1, step);
            runs::lemma_group_bounds(y, step as nat, above[j]);
            if e % step + 1 < step {
                lemma_fundamental_div_mod_converse(e + 1, step, k, e % step + 1);
                assert(y == x + 1);
            } else {
                assert(step * (k + 1) == step * k + step) by (nonlinear_arith);
                lemma_fundamental_div_mod_converse(e + 1, step, k + 1, 0);
                assert(above[k] < above[k + 1]);
                runs::lemma_group_order(above[k], above[k + 1], step as nat);
                if c < ix.len() {
                    self.lemma_parent(level, c);
                    let p = ix[c] / step as nat;
                    runs::lemma_group_bounds(ix[c], step as nat, p);
                    let t = choose|t: int| 0 <= t < above.len() && above[t] == p;
                    if p <= above[k] {
                        if p < above[k] {
                            runs::lemma_group_order(p, above[k], step as nat);
                        }
                        assert(false);
                    }
                    if t <= k {
                        assert(above[t] <= above[k]);
                    }
                    if t > k + 1 {
                        assert(above[k + 1] < above[t]);
                    }
                    assert(above[k + 1] <= p);
                    if above[k + 1] < p {
                        runs::lemma_group_order(above[k + 1], p, step as nat);
                    }
                    assert(ix[c] >= y);
                }
                runs::lemma_count_below_at(ix, y, c);
            }
        } else {
            assert(e % step + 1 == step && k + 1 == above.len()) by (nonlinear_arith)
                requires
                    e == step * k + e % step,
                    0 <= e % step < step,
                    e + 1 == above.len() * step,
                    0 <= k < above.len(),
                    step > 0,
            ;
            if c < ix.len() {
                self.lemma_parent(level, c);
                let p = ix[c] / step as nat;
                runs::lemma_group_bounds(ix[c], step as nat, p);
                let t = choose|t: int| 0 <= t < above.len() && above[t] == p;
                if t < k {
                    assert(above[t] < above[k]);
                    runs::lemma_group_order(p, above[k], step as nat);
                }
                assert(false);
            }
        }
    }

    /// The parent of a recomputed node is recomputed.
    proof fn lemma_parent(self, level: nat, i: int)
        requires
            self.valid(),
            level < self.schedule.len(),
            0 <= i < self.indices(level).len(),
        ensures
            self.indices(level + 1).contains(
                self.indices(level)[i] / self.schedule[level as int],
            ),
    {
        let a = self.ancestors(level);
        let b = self.ancestors(level + 1);
        self.lemma_level(level);
        self.lemma_level(level + 1);
        assert(runs::run_nonempty(a, i));
        let s = runs::run_start(a, i);
        assert(a[s] == self.indices(level)[i]);
        assert(b[s] == a[s] / self.schedule[level as int]);
        runs::lemma_distinct_contains(b, s);
    }

    proof fn lemma_taken_grows(self, level: nat, e: int, f: int)
        requires
            self.valid(),
            level < self.schedule.len(),
            0 <= e <= f <= self.places(level),
        ensures
            self.taken(level, e) <= self.taken(level, f),
        decreases f - e,
    {
        if e < f {
            self.lemma_taken_grows(level, e, f - 1);
            self.lemma_taken(level, f - 1);
        }
    }

    /// The first place precedes every recomputed node.
    proof fn lemma_taken_from(self, level: nat)
        requires
            self.valid(),
            level < self.schedule.len(),
        ensures
            self.places(level) > 0,
            self.taken(level, 0) == 0,
    {
        let step = self.schedule[level as int];
        let ix = self.indices(level);
        let above = self.indices(level + 1);
        self.lemma_level(level);
        self.lemma_level(level + 1);
        assert(self.places(level) > 0) by (nonlinear_arith)
            requires
                self.places(level) == above.len() * step,
                above.len() > 0,
                step > 0,
        ;
        self.lemma_place(level, 0);
        lemma_fundamental_div_mod_converse(0, step as int, 0, 0);
        self.lemma_parent(level, 0);
        let p = ix[0] / step;
        runs::lemma_group_bounds(ix[0], step, p);
        let t = choose|t: int| 0 <= t < above.len() && above[t] == p;
        if t > 0 {
            assert(above[0] < above[t]);
            runs::lemma_group_order(above[0], p, step);
        }
        runs::lemma_count_below_at(ix, self.place(level, 0), 0);
    }

    /// The place of a boundary node.
    proof fn lemma_boundary_place(self, level: nat, index: nat) -> (e: int)
        requires
            self.valid(),
            self.is_boundary(level, index),
        ensures
            0 <= e < self.places(level),
            self.place(level, e) == index,
            self.boundary(level, index) == self.consumed(level) + self.taken(level, e),
    {
        let step = self.schedule[level as int];
        let above = self.indices(level + 1);
        let k = choose|k: int| 0 <= k < above.len() && above[k] == index / step;
        runs::lemma_group_bounds(index, step, above[k]);
        let e = k * step + index % step;
        assert(0 <= e < above.len() * step) by (nonlinear_arith)
            requires
                0 <= k < above.len(),
                0 <= index % step < step,
                e == k * step + index % step,
        ;
        assert(e == k * step + index % step);
        lemma_fundamental_div_mod_converse(e, step as int, k, (index % step) as int);
        self.lemma_place(level, e);
        e
    }

    /// The levels take their boundary digests one after the other.
    pub proof fn lemma_consumed_grows(self, low: nat, high: nat)
        requires
            self.valid(),
            low <= high <= self.schedule.len(),
        ensures
            self.consumed(low) <= self.consumed(high),
        decreases high - low,
    {
        if low < high {
            let l = (high - 1) as nat;
            self.lemma_consumed_grows(low, l);
            self.lemma_taken_from(l);
            self.lemma_taken_grows(l, 0, self.places(l));
        }
    }

    /// Which place takes the boundary digest `at` of its level.
    proof fn lemma_taken_at(self, level: nat, at: int, e: int) -> (p: int)
        requires
            self.valid(),
            level < self.schedule.len(),
            0 <= e <= self.places(level),
            0 <= at < self.taken(level, e),
        ensures
            0 <= p < e,
            self.taken(level, p) == at,
            !self.indices(level).contains(self.place(level, p)),
        decreases e,
    {
        if e == 0 {
            self.lemma_taken_from(level);
            0
        } else {
            self.lemma_taken(level, e - 1);
            if at < self.taken(level, e - 1) {
                self.lemma_taken_at(level, at, e - 1)
            } else {
                e - 1
            }
        }
    }
}

/// Boundary digests are taken in wire order: level by level, and from left to right in a level.
pub proof fn law_boundary_digests_in_wire_order<F: Field, const DIGEST_ELEMS: usize>(
    f: Frontier<F, DIGEST_ELEMS>,
    level: nat,
    index: nat,
    later_level: nat,
    later_index: nat,
)
    requires
        f.valid(),
        f.is_boundary(level, index),
        f.is_boundary(later_level, later_index),
        level < later_level || (level == later_level && index < later_index),
    ensures
        0 <= f.boundary(level, index) < f.boundary(later_level, later_index),
        f.boundary(later_level, later_index) < f.consumed(f.schedule.len()),
{
    let e = f.lemma_boundary_place(level, index);
    let g = f.lemma_boundary_place(later_level, later_index);
    f.lemma_consumed_grows(0, level);
    f.lemma_consumed_grows(later_level + 1, f.schedule.len());
    f.lemma_taken_from(level);
    f.lemma_taken_from(later_level);
    f.lemma_taken_grows(level, 0, e);
    f.lemma_taken_grows(later_level, 0, g);
    f.lemma_taken(level, e);
    f.lemma_taken(later_level, g);
    f.lemma_taken_grows(later_level, g + 1, f.places(later_level));
    if level < later_level {
        f.lemma_taken_grows(level, e + 1, f.places(level));
        f.lemma_consumed_grows(level + 1, later_level);
    } else {
        if g <= e {
            let step = f.schedule[level as int] as int;
            let above = f.indices(level + 1);
            f.lemma_place(level, e);
            f.lemma_place(level, g);
            f.lemma_level(level + 1);
            lemma_div_is_ordered(g, e, step);
            lemma_fundamental_div_mod(e, step);
            lemma_fundamental_div_mod(g, step);
            if g / step < e / step {
                assert(above[g / step] < above[e / step]);
                runs::lemma_group_bounds(index, step as nat, above[e / step]);
                runs::lemma_group_bounds(later_index, step as nat, above[g / step]);
                runs::lemma_group_order(above[g / step], above[e / step], step as nat);
            } else {
                assert(step * (g / step) == step * (e / step));
            }
            assert(false);
        }
        f.lemma_taken_grows(level, e + 1, g);
    }
}

/// No boundary digest is left over: each stands at some node that is not recomputed.
pub proof fn law_every_boundary_digest_is_taken<F: Field, const DIGEST_ELEMS: usize>(
    f: Frontier<F, DIGEST_ELEMS>,
    at: int,
)
    requires
        f.valid(),
        0 <= at < f.consumed(f.schedule.len()),
    ensures
        exists|level: nat, index: nat|
            #![trigger f.is_boundary(level, index)]
            f.is_boundary(level, index) && f.boundary(level, index) == at,
{
    lemma_digest_taken_below(f, at, f.schedule.len());
}

proof fn lemma_digest_taken_below<F: Field, const DIGEST_ELEMS: usize>(
    f: Frontier<F, DIGEST_ELEMS>,
    at: int,
    n: nat,
)
    requires
        f.valid(),
        n <= f.schedule.len(),
        0 <= at < f.consumed(n),
    ensures
        exists|level: nat, index: nat|
            #![trigger f.is_boundary(level, index)]
            f.is_boundary(level, index) && f.boundary(level, index) == at,
    decreases n,
{
    if n > 0 {
        let l = (n - 1) as nat;
        if at < f.consumed(l) {
            lemma_digest_taken_below(f, at, l);
        } else {
            let p = f.lemma_taken_at(l, at - f.consumed(l), f.places(l));
            f.lemma_place(l, p);
            assert(f.is_boundary(l, f.place(l, p)));
        }
    }
}

// Authentication.

/// A group of digests, the rest of its `N` places filled up.
pub open spec fn full_group<F: Field, const N: usize, const DIGEST_ELEMS: usize>(
    group: Seq<[F; DIGEST_ELEMS]>,
) -> Seq<[F; DIGEST_ELEMS]> {
    Seq::new(
        N as nat,
        |i: int|
            if i < group.len() {
                group[i]
            } else {
                merkle::default_digest()
            },
    )
}

impl<F: Field, const DIGEST_ELEMS: usize> Frontier<F, DIGEST_ELEMS> {
    /// How many digests of a path belong to the levels below `level`.
    pub open spec fn path_len(self, level: nat) -> int
        decreases level,
    {
        if level == 0 {
            0
        } else {
            self.path_len((level - 1) as nat) + self.schedule[level - 1] - 1
        }
    }

    /// What a verifier computes from the opened rows of one leaf and a path: the digest of the node
    /// of `level` above that leaf.
    pub open spec fn climbed<H, C, const N: usize>(
        self,
        hash: H,
        compress: C,
        slot: int,
        path: Seq<[F; DIGEST_ELEMS]>,
        level: nat,
    ) -> [F; DIGEST_ELEMS] where
        H: CryptographicHasher<F, DIGEST_ELEMS>,
        C: PseudoCompressionFunction<F, N, DIGEST_ELEMS>,

        decreases level,
    {
        let opened = hash.sp_hash(merkle::concat_rows(self.rows[slot], self.matrices(level)));
        if level == 0 {
            opened
        } else {
            let below = (level - 1) as nat;
            let own = self.ancestor(below, self.leaves[slot]) % self.schedule[below as int];
            let group = path.subrange(self.path_len(below), self.path_len(level)).insert(
                own as int,
                self.climbed::<H, C, N>(hash, compress, slot, path, below),
            );
            let digest = compress.sp_compress(full_group::<F, N, DIGEST_ELEMS>(group));
            if self.matrices(level).len() == 0 {
                digest
            } else {
                compress.sp_compress(
                    merkle::injection_group::<F, N, DIGEST_ELEMS>(digest, opened),
                )
            }
        }
    }
}

/// An expanded path authenticates its leaf: folded over the rows opened there, it gives the digest
/// that the whole opening gives to the node above the leaf. Queries below one cap entry so agree on
/// that entry.
pub proof fn law_path_authenticates<F, H, C, const N: usize, const DIGEST_ELEMS: usize>(
    f: Frontier<F, DIGEST_ELEMS>,
    hash: H,
    compress: C,
    slot: int,
) where
    F: Field,
    H: CryptographicHasher<F, DIGEST_ELEMS>,
    C: PseudoCompressionFunction<F, N, DIGEST_ELEMS>,

    requires
        f.valid(),
        f.failure(f.schedule.len()) is None,
        forall|l: int| 0 <= l < f.schedule.len() ==> #[trigger] f.schedule[l] <= N,
        0 <= slot < f.leaves.len(),
    ensures
        ({
            let path = f.path::<H, C, N>(hash, compress, slot, f.schedule.len());
            &&& path.len() == f.path_len(f.schedule.len())
            &&& f.climbed::<H, C, N>(hash, compress, slot, path, f.schedule.len()) == f.node::<
                H,
                C,
                N,
            >(hash, compress, f.schedule.len(), f.ancestor(f.schedule.len(), f.leaves[slot]))
        }),
{
    let path = f.path::<H, C, N>(hash, compress, slot, f.schedule.len());
    lemma_path_len::<F, H, C, N, DIGEST_ELEMS>(f, hash, compress, slot, f.schedule.len());
    assert(path.take(f.path_len(f.schedule.len())) =~= path);
    lemma_climbed::<F, H, C, N, DIGEST_ELEMS>(f, hash, compress, slot, path, f.schedule.len());
}

proof fn lemma_path_len<F, H, C, const N: usize, const DIGEST_ELEMS: usize>(
    f: Frontier<F, DIGEST_ELEMS>,
    hash: H,
    compress: C,
    slot: int,
    level: nat,
) where
    F: Field,
    H: CryptographicHasher<F, DIGEST_ELEMS>,
    C: PseudoCompressionFunction<F, N, DIGEST_ELEMS>,

    requires
        f.valid(),
        level <= f.schedule.len(),
    ensures
        f.path::<H, C, N>(hash, compress, slot, level).len() == f.path_len(level),
        f.path_len(level) >= 0,
    decreases level,
{
    if level > 0 {
        let l = (level - 1) as nat;
        let step = f.schedule[l as int];
        let index = f.ancestor(l, f.leaves[slot]);
        lemma_path_len::<F, H, C, N, DIGEST_ELEMS>(f, hash, compress, slot, l);
        f.lemma_children::<H, C, N>(hash, compress, l, index / step, step, step);
        lemma_mod_bound(index as int, step as int);
    }
}

/// Rows that agree on the chosen matrices read the same.
pub proof fn lemma_concat_agrees<F>(a: Seq<Seq<F>>, b: Seq<Seq<F>>, matrices: Seq<nat>)
    requires
        forall|t: int|
            0 <= t < matrices.len() ==> a[#[trigger] matrices[t] as int] == b[matrices[t] as int],
    ensures
        merkle::concat_rows(a, matrices) == merkle::concat_rows(b, matrices),
    decreases matrices.len(),
{
    if matrices.len() > 0 {
        let rest = matrices.drop_last();
        assert forall|t: int| 0 <= t < rest.len() implies a[#[trigger] rest[t] as int]
            == b[rest[t] as int] by {
            assert(rest[t] == matrices[t]);
        }
        lemma_concat_agrees(a, b, rest);
        let last = matrices[matrices.len() - 1];
        assert(a[last as int] == b[last as int]);
    }
}

proof fn lemma_climbed<F, H, C, const N: usize, const DIGEST_ELEMS: usize>(
    f: Frontier<F, DIGEST_ELEMS>,
    hash: H,
    compress: C,
    slot: int,
    path: Seq<[F; DIGEST_ELEMS]>,
    level: nat,
) where
    F: Field,
    H: CryptographicHasher<F, DIGEST_ELEMS>,
    C: PseudoCompressionFunction<F, N, DIGEST_ELEMS>,

    requires
        f.valid(),
        f.failure(level) is None,
        forall|l: int| 0 <= l < f.schedule.len() ==> #[trigger] f.schedule[l] <= N,
        0 <= slot < f.leaves.len(),
        level <= f.schedule.len(),
        f.path_len(level) <= path.len(),
        path.take(f.path_len(level)) == f.path::<H, C, N>(hash, compress, slot, level),
    ensures
        f.climbed::<H, C, N>(hash, compress, slot, path, level) == f.node::<H, C, N>(
            hash,
            compress,
            level,
            f.ancestor(level, f.leaves[slot]),
        ),
        f.indices(level).contains(f.ancestor(level, f.leaves[slot])),
    decreases level,
{
    let index = f.ancestor(level, f.leaves[slot]);
    let a = f.ancestors(level);
    assert(a[slot] == index);
    runs::lemma_distinct_contains(a, slot);
    merkle::lemma_first_at_bound(a, slot);
    let lead = f.lead(level, index);
    if level == 0 {
        f.lemma_level_zero();
        if lead < slot {
            assert(f.leaves[lead] < f.leaves[slot]);
        }
    } else {
        let l = (level - 1) as nat;
        let step = f.schedule[l as int];
        let child = f.ancestor(l, f.leaves[slot]);
        let below = f.path::<H, C, N>(hash, compress, slot, l);
        let siblings = f.level_siblings::<H, C, N>(hash, compress, l, child);
        let group = f.children::<H, C, N>(hash, compress, l, index, step);
        let whole = f.children::<H, C, N>(hash, compress, l, index, N as nat);
        lemma_path_len::<F, H, C, N, DIGEST_ELEMS>(f, hash, compress, slot, l);
        f.lemma_children::<H, C, N>(hash, compress, l, index, step, step);
        f.lemma_children::<H, C, N>(hash, compress, l, index, step, N as nat);
        lemma_mod_bound(child as int, step as int);
        assert(path.take(f.path_len(l)) =~= below) by {
            assert(path.take(f.path_len(level)) == below + siblings);
            assert(below =~= (below + siblings).take(f.path_len(l)));
        }
        assert(path.subrange(f.path_len(l), f.path_len(level)) =~= siblings) by {
            assert(path.take(f.path_len(level)) == below + siblings);
            assert(siblings =~= (below + siblings).subrange(f.path_len(l), f.path_len(level)));
            assert(path.subrange(f.path_len(l), f.path_len(level)) =~= path.take(
                f.path_len(level),
            ).subrange(f.path_len(l), f.path_len(level)));
        }
        lemma_climbed::<F, H, C, N, DIGEST_ELEMS>(f, hash, compress, slot, path, l);
        let own = (child % step) as int;
        runs::lemma_group_bounds(child, step, index);
        lemma_child_at::<F, H, C, N, DIGEST_ELEMS>(f, hash, compress, l, index, step, own);
        assert(group[own] == f.node::<H, C, N>(hash, compress, l, child));
        assert(siblings.insert(own, group[own]) =~= group);
        assert(full_group::<F, N, DIGEST_ELEMS>(group) =~= whole) by {
            assert forall|i: int| 0 <= i < N implies full_group::<F, N, DIGEST_ELEMS>(group)[i]
                == whole[i] by {
                if i < step {
                    assert(whole.take(step as int)[i] == group[i]);
                } else {
                    lemma_child_at::<F, H, C, N, DIGEST_ELEMS>(
                        f,
                        hash,
                        compress,
                        l,
                        index,
                        N as nat,
                        i,
                    );
                }
            }
        }
        let p = f.disagreement(level, slot);
        assert(f.level_failure(level) is None);
        assert(!f.disagreeing(level)(slot)) by {
            seqs::lemma_least(f.leaves.len(), f.disagreeing(level));
        }
        assert forall|t: int| 0 <= t < f.matrices(level).len() implies f.rows[slot][#[trigger] f.matrices(
            level,
        )[t] as int] == f.rows[lead][f.matrices(level)[t] as int] by {
            seqs::lemma_least(f.matrices(level).len(), p);
            assert(!p(t));
            assert(!f.disagrees(level, slot, t));
        }
        lemma_concat_agrees(f.rows[slot], f.rows[lead], f.matrices(level));
    }
}

/// One place of a group.
pub proof fn lemma_child_at<F, H, C, const N: usize, const DIGEST_ELEMS: usize>(
    f: Frontier<F, DIGEST_ELEMS>,
    hash: H,
    compress: C,
    level: nat,
    parent: nat,
    n: nat,
    i: int,
) where
    F: Field,
    H: CryptographicHasher<F, DIGEST_ELEMS>,
    C: PseudoCompressionFunction<F, N, DIGEST_ELEMS>,

    requires
        0 <= i < n,
    ensures
        f.children::<H, C, N>(hash, compress, level, parent, n).len() == n,
        f.children::<H, C, N>(hash, compress, level, parent, n)[i] == (if i
            < f.schedule[level as int] {
            f.node::<H, C, N>(
                hash,
                compress,
                level,
                (parent * f.schedule[level as int] + i) as nat,
            )
        } else {
            merkle::default_digest()
        }),
    decreases n,
{
    f.lemma_children::<H, C, N>(hash, compress, level, parent, n, n);
    let prev = (n - 1) as nat;
    f.lemma_children::<H, C, N>(hash, compress, level, parent, prev, prev);
    if i < prev {
        lemma_child_at::<F, H, C, N, DIGEST_ELEMS>(f, hash, compress, level, parent, prev, i);
    }
}

} // verus!
