//! A shared proof taken from a tree expands to the paths of that tree.

use vstd::prelude::*;
use vstd::arithmetic::div_mod::lemma_fundamental_div_mod_converse;

use crate::bits;
use crate::field::Field;
use crate::merkle;
use crate::merkle::{CryptographicHasher, Dimensions, Frontier, PseudoCompressionFunction};
use crate::merkle_laws;
use crate::runs;
use crate::seqs;

verus! {

/// A tree over committed matrices, with the levels that a proof covers.
pub struct CommittedTree<F, const DIGEST_ELEMS: usize> {
    /// The arity of the compression function.
    pub arity: nat,
    /// The heights of the matrices.
    pub heights: Seq<nat>,
    /// The arity of each level of a proof.
    pub schedule: Seq<nat>,
    /// The rows of each matrix.
    pub matrices: Seq<Seq<Seq<F>>>,
    /// What stands at the nodes above no leaf, by level and index.
    pub padding: spec_fn(nat, nat) -> [F; DIGEST_ELEMS],
}

impl<F: Field, const DIGEST_ELEMS: usize> CommittedTree<F, DIGEST_ELEMS> {
    /// How many leaves stand above a row.
    pub open spec fn leaf_count(self) -> nat {
        merkle::max_height(self.heights)
    }

    /// The geometry of the tree.
    pub open spec fn geometry(self) -> Frontier<F, DIGEST_ELEMS> {
        Frontier {
            arity: self.arity,
            heights: self.heights,
            schedule: self.schedule,
            leaves: Seq::empty(),
            rows: Seq::empty(),
            siblings: Seq::empty(),
        }
    }

    /// The matrices hashed into the nodes of `level`.
    pub open spec fn hashed_at(self, level: nat) -> Seq<nat> {
        self.geometry().matrices(level)
    }

    /// The node of `level` above a leaf.
    pub open spec fn above(self, level: nat, leaf: nat) -> nat {
        self.geometry().ancestor(level, leaf)
    }

    /// The node of `level` stands above a leaf.
    pub open spec fn covered(self, level: nat, index: nat) -> bool {
        exists|leaf: nat| leaf < self.leaf_count() && #[trigger] self.above(level, leaf) == index
    }

    /// The row of a matrix that is opened at a leaf: a shorter matrix has one row for several leaves.
    pub open spec fn row_number(self, m: int, leaf: nat) -> nat {
        leaf / (bits::next_pow2(self.leaf_count()) / bits::next_pow2(self.heights[m]))
    }

    /// The rows opened at a leaf.
    pub open spec fn opening(self, leaf: nat) -> Seq<Seq<F>> {
        Seq::new(
            self.matrices.len(),
            |m: int| self.matrices[m][self.row_number(m, leaf) as int],
        )
    }

    /// The row with a given number of every matrix.
    pub open spec fn rows_numbered(self, index: nat) -> Seq<Seq<F>> {
        Seq::new(self.matrices.len(), |m: int| self.matrices[m][index as int])
    }

    /// A leaf opens the row of a matrix that is hashed into the node of `level` above it.
    pub open spec fn row_aligned(self, level: nat, m: nat, leaf: nat) -> bool {
        &&& m < self.matrices.len()
        &&& self.row_number(m as int, leaf) == self.above(level, leaf)
    }

    /// Each matrix is hashed where the tree has one node for each of its rows, so a leaf opens the
    /// row that is hashed into the node above it.
    pub open spec fn aligned(self) -> bool {
        forall|level: nat, t: int, leaf: nat|
            level <= self.schedule.len() && 0 <= t < self.hashed_at(level).len() && leaf
                < self.leaf_count() ==> #[trigger] self.row_aligned(
                level,
                self.hashed_at(level)[t],
                leaf,
            )
    }

    /// The digest of a node.
    pub open spec fn digest<H, C, const N: usize>(
        self,
        hash: H,
        compress: C,
        level: nat,
        index: nat,
    ) -> [F; DIGEST_ELEMS] where
        H: CryptographicHasher<F, DIGEST_ELEMS>,
        C: PseudoCompressionFunction<F, N, DIGEST_ELEMS>,

        decreases level, 0nat,
    {
        let own = hash.sp_hash(
            merkle::concat_rows(self.rows_numbered(index), self.hashed_at(level)),
        );
        if !self.covered(level, index) {
            (self.padding)(level, index)
        } else if level == 0 {
            own
        } else {
            let joined = compress.sp_compress(
                self.group::<H, C, N>(hash, compress, (level - 1) as nat, index, N as nat),
            );
            if self.hashed_at(level).len() == 0 {
                joined
            } else {
                compress.sp_compress(
                    merkle::injection_group::<F, N, DIGEST_ELEMS>(joined, own),
                )
            }
        }
    }

    /// The first `n` places of the group below node `parent` of the level above `level`.
    pub open spec fn group<H, C, const N: usize>(
        self,
        hash: H,
        compress: C,
        level: nat,
        parent: nat,
        n: nat,
    ) -> Seq<[F; DIGEST_ELEMS]> where
        H: CryptographicHasher<F, DIGEST_ELEMS>,
        C: PseudoCompressionFunction<F, N, DIGEST_ELEMS>,

        decreases level, n,
    {
        let step = self.schedule[level as int];
        if n == 0 {
            Seq::empty()
        } else {
            self.group::<H, C, N>(hash, compress, level, parent, (n - 1) as nat).push(
                if n - 1 < step {
                    self.digest::<H, C, N>(hash, compress, level, (parent * step + (n - 1)) as nat)
                } else {
                    merkle::default_digest()
                },
            )
        }
    }

    /// The path that an opening of a single leaf carries up to `level`: at each level the other
    /// digests of the group.
    pub open spec fn path<H, C, const N: usize>(
        self,
        hash: H,
        compress: C,
        leaf: nat,
        level: nat,
    ) -> Seq<[F; DIGEST_ELEMS]> where
        H: CryptographicHasher<F, DIGEST_ELEMS>,
        C: PseudoCompressionFunction<F, N, DIGEST_ELEMS>,

        decreases level,
    {
        if level == 0 {
            Seq::empty()
        } else {
            let below = (level - 1) as nat;
            let step = self.schedule[below as int];
            let index = self.above(below, leaf);
            self.path::<H, C, N>(hash, compress, leaf, below) + self.group::<H, C, N>(
                hash,
                compress,
                below,
                index / step,
                step,
            ).remove((index % step) as int)
        }
    }

    /// The frontier queries leaves of this tree and opens the rows of the tree there.
    pub open spec fn queried_by(self, f: Frontier<F, DIGEST_ELEMS>) -> bool {
        &&& f.arity == self.arity
        &&& f.heights == self.heights
        &&& f.schedule == self.schedule
        &&& f.rows.len() == f.leaves.len()
        &&& forall|s: int|
            0 <= s < f.leaves.len() ==> (#[trigger] f.leaves[s]) < self.leaf_count() && f.rows[s]
                == self.opening(f.leaves[s])
    }

    /// The boundary digests of the frontier are the digests of this tree.
    pub open spec fn shares<H, C, const N: usize>(
        self,
        hash: H,
        compress: C,
        f: Frontier<F, DIGEST_ELEMS>,
    ) -> bool where
        H: CryptographicHasher<F, DIGEST_ELEMS>,
        C: PseudoCompressionFunction<F, N, DIGEST_ELEMS>,
     {
        &&& f.siblings.len() == f.consumed(f.schedule.len())
        &&& forall|level: nat, index: nat| #[trigger]
            f.is_boundary(level, index) ==> f.siblings[f.boundary(level, index)] == self.digest::<
                H,
                C,
                N,
            >(hash, compress, level, index)
    }

    proof fn lemma_same_geometry(self, f: Frontier<F, DIGEST_ELEMS>, level: nat)
        requires
            self.queried_by(f),
        ensures
            f.layer(level) == self.geometry().layer(level),
            f.matrices(level) == self.hashed_at(level),
        decreases level,
    {
        if level > 0 {
            self.lemma_same_geometry(f, (level - 1) as nat);
        }
    }

    proof fn lemma_same_above(self, f: Frontier<F, DIGEST_ELEMS>, level: nat, leaf: nat)
        requires
            self.queried_by(f),
        ensures
            f.ancestor(level, leaf) == self.above(level, leaf),
        decreases level,
    {
        if level > 0 {
            self.lemma_same_above(f, (level - 1) as nat, leaf);
        }
    }

    /// The rows opened at a leaf are those hashed into the node above it.
    proof fn lemma_opened(self, f: Frontier<F, DIGEST_ELEMS>, level: nat, slot: int)
        requires
            self.queried_by(f),
            self.aligned(),
            level <= self.schedule.len(),
            0 <= slot < f.leaves.len(),
        ensures
            forall|t: int|
                0 <= t < f.matrices(level).len() ==> f.rows[slot][#[trigger] f.matrices(
                    level,
                )[t] as int] == self.rows_numbered(f.ancestors(level)[slot])[f.matrices(
                    level,
                )[t] as int],
    {
        let leaf = f.leaves[slot];
        self.lemma_same_geometry(f, level);
        self.lemma_same_above(f, level, leaf);
        assert forall|t: int| 0 <= t < f.matrices(level).len() implies f.rows[slot][
            #[trigger] f.matrices(level)[t] as int
        ] == self.rows_numbered(f.ancestors(level)[slot])[f.matrices(level)[t] as int] by {
            assert(self.row_aligned(level, self.hashed_at(level)[t], leaf));
        }
    }

    /// The leaf that leads a node.
    proof fn lemma_lead(self, f: Frontier<F, DIGEST_ELEMS>, level: nat, index: nat)
        requires
            f.valid(),
            self.queried_by(f),
            level <= self.schedule.len(),
            f.indices(level).contains(index),
        ensures
            0 <= f.lead(level, index) < f.leaves.len(),
            f.ancestors(level)[f.lead(level, index)] == index,
            self.covered(level, index),
    {
        let a = f.ancestors(level);
        f.lemma_level(level);
        let k = choose|k: int| 0 <= k < f.indices(level).len() && f.indices(level)[k] == index;
        assert(runs::run_nonempty(a, k));
        let s = runs::run_start(a, k);
        assert(a[s] == index);
        merkle::lemma_first_at_bound(a, s);
        self.lemma_same_above(f, level, f.leaves[s]);
        assert(self.above(level, f.leaves[s]) == index);
    }

    /// Recomputed nodes get the digests of the tree.
    proof fn lemma_recomputed<H, C, const N: usize>(
        self,
        hash: H,
        compress: C,
        f: Frontier<F, DIGEST_ELEMS>,
        level: nat,
        index: nat,
    ) where
        H: CryptographicHasher<F, DIGEST_ELEMS>,
        C: PseudoCompressionFunction<F, N, DIGEST_ELEMS>,

        requires
            f.valid(),
            self.queried_by(f),
            self.aligned(),
            self.shares::<H, C, N>(hash, compress, f),
            level <= self.schedule.len(),
            f.indices(level).contains(index) || f.is_boundary(level, index),
        ensures
            f.node::<H, C, N>(hash, compress, level, index) == self.digest::<H, C, N>(
                hash,
                compress,
                level,
                index,
            ),
        decreases level, 0nat,
    {
        if f.indices(level).contains(index) {
            self.lemma_same_geometry(f, level);
            self.lemma_lead(f, level, index);
            let lead = f.lead(level, index);
            self.lemma_opened(f, level, lead);
            merkle_laws::lemma_concat_agrees(
                f.rows[lead],
                self.rows_numbered(index),
                f.matrices(level),
            );
            if level > 0 {
                self.lemma_group::<H, C, N>(
                    hash,
                    compress,
                    f,
                    (level - 1) as nat,
                    index,
                    N as nat,
                );
            }
        }
    }

    proof fn lemma_group<H, C, const N: usize>(
        self,
        hash: H,
        compress: C,
        f: Frontier<F, DIGEST_ELEMS>,
        level: nat,
        parent: nat,
        n: nat,
    ) where
        H: CryptographicHasher<F, DIGEST_ELEMS>,
        C: PseudoCompressionFunction<F, N, DIGEST_ELEMS>,

        requires
            f.valid(),
            self.queried_by(f),
            self.aligned(),
            self.shares::<H, C, N>(hash, compress, f),
            level < self.schedule.len(),
            f.indices(level + 1).contains(parent),
        ensures
            f.children::<H, C, N>(hash, compress, level, parent, n) == self.group::<H, C, N>(
                hash,
                compress,
                level,
                parent,
                n,
            ),
        decreases level, n + 1,
    {
        let step = f.schedule[level as int];
        if n > 0 {
            let p = (n - 1) as nat;
            self.lemma_group::<H, C, N>(hash, compress, f, level, parent, p);
            if p < step {
                let index = parent * step + p;
                assert(index == step * parent + p) by (nonlinear_arith)
                    requires
                        index == parent * step + p,
                ;
                lemma_fundamental_div_mod_converse(
                    index as int,
                    step as int,
                    parent as int,
                    p as int,
                );
                assert(f.indices(level).contains(index) || f.is_boundary(level, index));
                self.lemma_recomputed::<H, C, N>(hash, compress, f, level, index);
            }
        }
    }

    proof fn lemma_path<H, C, const N: usize>(
        self,
        hash: H,
        compress: C,
        f: Frontier<F, DIGEST_ELEMS>,
        slot: int,
        level: nat,
    ) where
        H: CryptographicHasher<F, DIGEST_ELEMS>,
        C: PseudoCompressionFunction<F, N, DIGEST_ELEMS>,

        requires
            f.valid(),
            self.queried_by(f),
            self.aligned(),
            self.shares::<H, C, N>(hash, compress, f),
            level <= self.schedule.len(),
            0 <= slot < f.leaves.len(),
        ensures
            f.path::<H, C, N>(hash, compress, slot, level) == self.path::<H, C, N>(
                hash,
                compress,
                f.leaves[slot],
                level,
            ),
        decreases level,
    {
        if level > 0 {
            let below = (level - 1) as nat;
            let step = f.schedule[below as int];
            let index = f.ancestor(below, f.leaves[slot]);
            self.lemma_path::<H, C, N>(hash, compress, f, slot, below);
            self.lemma_same_above(f, below, f.leaves[slot]);
            assert(f.ancestors(level)[slot] == index / step);
            runs::lemma_distinct_contains(f.ancestors(level), slot);
            self.lemma_group::<H, C, N>(hash, compress, f, below, index / step, step);
        }
    }

    /// The openings of a tree never contradict each other.
    proof fn lemma_no_failure<H, C, const N: usize>(
        self,
        hash: H,
        compress: C,
        f: Frontier<F, DIGEST_ELEMS>,
        level: nat,
    ) where
        H: CryptographicHasher<F, DIGEST_ELEMS>,
        C: PseudoCompressionFunction<F, N, DIGEST_ELEMS>,

        requires
            f.valid(),
            self.queried_by(f),
            self.aligned(),
            self.shares::<H, C, N>(hash, compress, f),
            level <= self.schedule.len(),
        ensures
            f.failure(level) is None,
        decreases level,
    {
        if level > 0 {
            self.lemma_no_failure::<H, C, N>(hash, compress, f, (level - 1) as nat);
            f.lemma_consumed_grows(level, f.schedule.len());
            assert forall|slot: int| 0 <= slot < f.leaves.len() implies !(
            #[trigger] f.disagreeing(level)(slot)) by {
                let index = f.ancestors(level)[slot];
                runs::lemma_distinct_contains(f.ancestors(level), slot);
                self.lemma_lead(f, level, index);
                self.lemma_opened(f, level, slot);
                self.lemma_opened(f, level, f.lead(level, index));
                let p = f.disagreement(level, slot);
                assert forall|t: int| 0 <= t < f.matrices(level).len() implies !(#[trigger] p(
                    t,
                )) by {
                    let m = f.matrices(level)[t] as int;
                    assert(f.rows[slot][m] == self.rows_numbered(index)[m]);
                    assert(f.rows[f.lead(level, index)][m] == self.rows_numbered(index)[m]);
                    assert(!f.disagrees(level, slot, t));
                }
                seqs::lemma_least_none(f.matrices(level).len(), p);
            }
            seqs::lemma_least_none(f.leaves.len(), f.disagreeing(level));
        }
    }
}

// Trees of equally tall matrices.

proof fn lemma_insert_members(order: Seq<nat>, heights: Seq<nat>, m: nat, bound: nat)
    requires
        m < bound,
        forall|i: int| 0 <= i < order.len() ==> (#[trigger] order[i]) < bound,
    ensures
        forall|i: int|
            0 <= i < merkle::insert_by_height(order, heights, m).len() ==> (
            #[trigger] merkle::insert_by_height(order, heights, m)[i]) < bound,
    decreases order.len(),
{
    if order.len() == 0 || heights[order.last() as int] >= heights[m as int] {
    } else {
        let rest = order.drop_last();
        lemma_insert_members(rest, heights, m, bound);
        let inserted = merkle::insert_by_height(rest, heights, m);
        assert(order[order.len() - 1] < bound);
        assert forall|i: int| 0 <= i <= inserted.len() implies (#[trigger] inserted.push(
            order.last(),
        )[i]) < bound by {
            if i < inserted.len() {
                assert(inserted[i] < bound);
            }
        }
    }
}

pub proof fn lemma_order_members(heights: Seq<nat>, n: nat)
    ensures
        forall|i: int|
            0 <= i < merkle::tallest_first(heights, n).len() ==> (#[trigger] merkle::tallest_first(
                heights,
                n,
            )[i]) < n,
    decreases n,
{
    if n > 0 {
        let l = (n - 1) as nat;
        lemma_order_members(heights, l);
        lemma_insert_members(merkle::tallest_first(heights, l), heights, l, n);
    }
}

proof fn lemma_equal_max(heights: Seq<nat>, h: nat)
    requires
        heights.len() > 0,
        forall|m: int| 0 <= m < heights.len() ==> heights[m] == h,
    ensures
        merkle::max_height(heights) == h,
    decreases heights.len(),
{
    if heights.len() > 1 {
        lemma_equal_max(heights.drop_last(), h);
    } else {
        assert(merkle::max_height(heights.drop_last()) == 0);
    }
}

proof fn lemma_equal_rounding(order: Seq<nat>, heights: Seq<nat>, from: nat, h: nat)
    requires
        from <= order.len(),
        forall|i: int|
            0 <= i < order.len() ==> (#[trigger] order[i]) < heights.len() && heights[order[i] as int]
                == h,
    ensures
        merkle::rounding_end(order, heights, from, bits::next_pow2(h)) == order.len(),
    decreases order.len() - from,
{
    if from < order.len() {
        lemma_equal_rounding(order, heights, from + 1, h);
    }
}

/// Equally tall matrices are hashed into the leaves, so their tree is aligned.
pub proof fn law_equal_heights_align<F: Field, const DIGEST_ELEMS: usize>(
    tree: CommittedTree<F, DIGEST_ELEMS>,
    h: nat,
)
    requires
        tree.heights.len() > 0,
        tree.matrices.len() == tree.heights.len(),
        forall|m: int| 0 <= m < tree.heights.len() ==> tree.heights[m] == h,
    ensures
        tree.aligned(),
{
    let g = tree.geometry();
    let order = g.order();
    merkle::lemma_order_len(tree.heights, tree.heights.len());
    lemma_order_members(tree.heights, tree.heights.len());
    lemma_equal_max(tree.heights, h);
    lemma_equal_rounding(order, tree.heights, 0, h);
    assert forall|level: nat, t: int, leaf: nat|
        level <= tree.schedule.len() && 0 <= t < tree.hashed_at(level).len() && leaf
            < tree.leaf_count() implies #[trigger] tree.row_aligned(
        level,
        tree.hashed_at(level)[t],
        leaf,
    ) by {
        lemma_all_in_leaves(tree, h, level);
        if level > 0 {
            lemma_all_in_leaves(tree, h, (level - 1) as nat);
        }
        let m = tree.hashed_at(level)[t];
        assert(m == order[t]);
        vstd::arithmetic::power2::lemma_pow2_pos(choose|k: nat| bits::is_log2_ceil(h, k));
        let unit = bits::next_pow2(h);
        assert(unit / unit == 1) by (nonlinear_arith)
            requires
                unit > 0,
        ;
        assert(leaf / 1 == leaf);
    }
}

proof fn lemma_all_in_leaves<F: Field, const DIGEST_ELEMS: usize>(
    tree: CommittedTree<F, DIGEST_ELEMS>,
    h: nat,
    level: nat,
)
    requires
        tree.geometry().leaf_count() == tree.geometry().order().len(),
    ensures
        tree.geometry().layer(level).1 == tree.geometry().order().len(),
    decreases level,
{
    if level > 0 {
        lemma_all_in_leaves(tree, h, (level - 1) as nat);
    }
}

proof fn lemma_no_shape_failure<F>(
    dimensions: Seq<Dimensions>,
    opened: Seq<Seq<Seq<F>>>,
    n: nat,
)
    requires
        n <= opened.len(),
        forall|q: int|
            0 <= q < opened.len() ==> #[trigger] merkle::query_failure(
                dimensions,
                opened[q],
                q,
            ) is None,
    ensures
        merkle::shape_failure(dimensions, opened, n) is None,
    decreases n,
{
    if n > 0 {
        lemma_no_shape_failure(dimensions, opened, (n - 1) as nat);
        assert(merkle::query_failure(dimensions, opened[n - 1], n - 1) is None);
    }
}

proof fn lemma_no_duplicate_failure<F>(indices: Seq<nat>, opened: Seq<Seq<Seq<F>>>, n: nat)
    requires
        n <= indices.len(),
        forall|p: int, q: int|
            #![trigger opened[p], opened[q]]
            0 <= p < indices.len() && 0 <= q < indices.len() && indices[p] == indices[q]
                ==> opened[p] == opened[q],
    ensures
        merkle::duplicate_failure(indices, opened, n) is None,
    decreases n,
{
    if n > 0 {
        lemma_no_duplicate_failure(indices, opened, (n - 1) as nat);
        merkle::lemma_first_at_bound(indices, n - 1);
        let first = merkle::representative(indices, n - 1);
        assert(opened[n - 1] == opened[first]);
    }
}

/// A shared proof taken from a tree expands, and each query gets the path that an opening of its
/// leaf alone carries. Folded over the opened rows, that path gives the tree's own digest above the
/// leaf.
pub proof fn law_shared_proof_expands_to_single_paths<
    F,
    H,
    C,
    const N: usize,
    const DIGEST_ELEMS: usize,
>(
    tree: CommittedTree<F, DIGEST_ELEMS>,
    hash: H,
    compress: C,
    cap_height: nat,
    dimensions: Seq<Dimensions>,
    indices: Seq<nat>,
    opened: Seq<Seq<Seq<F>>>,
    siblings: Seq<[F; DIGEST_ELEMS]>,
) where
    F: Field,
    H: CryptographicHasher<F, DIGEST_ELEMS>,
    C: PseudoCompressionFunction<F, N, DIGEST_ELEMS>,

    requires
        tree.arity == N,
        tree.heights == merkle::heights_of(dimensions),
        tree.leaf_count() > 0,
        merkle::merkle_arity_schedule(N as nat, cap_height, tree.heights) == Some(tree.schedule),
        forall|l: int|
            0 <= l < tree.schedule.len() ==> 0 < (#[trigger] tree.schedule[l]) && tree.schedule[l]
                <= N,
        tree.aligned(),
        opened.len() == indices.len() > 0,
        forall|q: int|
            0 <= q < indices.len() ==> {
                &&& (#[trigger] indices[q]) < tree.leaf_count()
                &&& opened[q] == tree.opening(indices[q])
                &&& merkle::query_failure(dimensions, opened[q], q) is None
            },
        tree.shares::<H, C, N>(
            hash,
            compress,
            merkle::frontier_of(
                N as nat,
                dimensions,
                tree.schedule,
                indices,
                opened,
                siblings,
            ),
        ),
    ensures
        merkle::expansion_failure(
            N as nat,
            cap_height,
            dimensions,
            indices,
            opened,
            siblings,
        ) is None,
        forall|q: int|
            0 <= q < indices.len() ==> {
                let levels = tree.schedule.len();
                let path = #[trigger] merkle::expanded_path::<F, H, C, N, DIGEST_ELEMS>(
                    hash,
                    compress,
                    cap_height,
                    dimensions,
                    indices,
                    opened,
                    siblings,
                    q,
                );
                &&& path == tree.path::<H, C, N>(hash, compress, indices[q], levels)
                &&& merkle::frontier_of(
                    N as nat,
                    dimensions,
                    tree.schedule,
                    indices,
                    opened,
                    siblings,
                ).climbed::<H, C, N>(
                    hash,
                    compress,
                    merkle::slot_of(indices, q),
                    path,
                    levels,
                ) == tree.digest::<H, C, N>(
                    hash,
                    compress,
                    levels,
                    tree.above(levels, indices[q]),
                )
            },
{
    let levels = tree.schedule.len();
    let leaves = merkle::sorted_unique(indices);
    let f = merkle::frontier_of(N as nat, dimensions, tree.schedule, indices, opened, siblings);
    merkle::lemma_sorted_unique(indices);
    assert forall|s: int| 0 <= s < leaves.len() implies (#[trigger] f.leaves[s])
        < tree.leaf_count() && f.rows[s] == tree.opening(f.leaves[s]) by {
        assert(leaves.contains(leaves[s]));
        let i = choose|i: int| 0 <= i < indices.len() && indices[i] == leaves[s];
        merkle::lemma_first_at_bound(indices, i);
        assert(indices[runs::first_at(indices, leaves[s])] == leaves[s]);
    }
    assert(f.valid());
    assert(tree.queried_by(f));
    tree.lemma_no_failure::<H, C, N>(hash, compress, f, levels);
    assert forall|q: int| 0 <= q < opened.len() implies #[trigger] merkle::query_failure(
        dimensions,
        opened[q],
        q,
    ) is None by {
        assert(indices[q] < tree.leaf_count());
    }
    lemma_no_shape_failure(dimensions, opened, opened.len());
    assert forall|p: int, q: int|
        #![trigger opened[p], opened[q]]
        0 <= p < indices.len() && 0 <= q < indices.len() && indices[p] == indices[q] implies opened[p]
        == opened[q] by {
        assert(opened[p] == tree.opening(indices[p]) && opened[q] == tree.opening(indices[q]));
    }
    lemma_no_duplicate_failure(indices, opened, indices.len());
    assert(leaves.contains(leaves.last()));
    assert(f.leaves[leaves.len() - 1] < tree.leaf_count());
    assert forall|q: int| 0 <= q < indices.len() implies {
        let path = #[trigger] merkle::expanded_path::<F, H, C, N, DIGEST_ELEMS>(
            hash,
            compress,
            cap_height,
            dimensions,
            indices,
            opened,
            siblings,
            q,
        );
        &&& path == tree.path::<H, C, N>(hash, compress, indices[q], levels)
        &&& f.climbed::<H, C, N>(hash, compress, merkle::slot_of(indices, q), path, levels)
            == tree.digest::<H, C, N>(hash, compress, levels, tree.above(levels, indices[q]))
    } by {
        assert(indices.contains(indices[q]));
        assert(leaves.contains(indices[q]));
        let s = choose|s: int| 0 <= s < leaves.len() && leaves[s] == indices[q];
        merkle::lemma_first_at_bound(leaves, s);
        let slot = merkle::slot_of(indices, q);
        assert(leaves[slot] == indices[q]);
        tree.lemma_path::<H, C, N>(hash, compress, f, slot, levels);
        merkle_laws::law_path_authenticates::<F, H, C, N, DIGEST_ELEMS>(f, hash, compress, slot);
        tree.lemma_same_above(f, levels, indices[q]);
        assert(f.ancestors(levels)[slot] == f.ancestor(levels, leaves[slot]));
        runs::lemma_distinct_contains(f.ancestors(levels), slot);
        tree.lemma_recomputed::<H, C, N>(
            hash,
            compress,
            f,
            levels,
            f.ancestor(levels, leaves[slot]),
        );
    }
}

} // verus!
