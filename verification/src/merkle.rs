//! Expansion of pruned Merkle multi-openings into full authentication paths.
//!
//! A pruned proof for a set of leaves keeps only the boundary digests: the siblings that cannot be
//! recomputed from the opened rows. [`expand_pruned_merkle_paths`] walks the frontier of recomputed
//! nodes from the leaves to the cap and hands back the complete path of every query.

use p3_merkle_tree::MerkleTreeMmcs;
use vstd::arithmetic::div_mod::*;
use vstd::arithmetic::mul::*;
use vstd::arithmetic::power2::*;
use vstd::prelude::*;

use crate::bits;
use crate::bits::next_power_of_two;
use crate::field::Field;
use crate::runs;
use crate::seqs;
use crate::seqs::{append_copy, copy_vec, elements_equal, filled, rows_equal};

verus! {

/// The shape of a committed matrix.
#[derive(Clone, Copy, Debug, PartialEq, Eq, Structural)]
pub struct Dimensions {
    pub width: usize,
    pub height: usize,
}

/// Failures while expanding a verifier-bound pruned frontier into full paths.
#[derive(Clone, Debug, PartialEq, Eq)]
pub enum MerkleWitnessError {
    /// The heights do not form a tree.
    InvalidGeometry,
    /// A query index is outside the tallest matrix.
    IndexOutOfBounds { max_height: usize, index: usize },
    /// The number of opened queries differs from the number of indices.
    QueryCountMismatch { expected: usize, got: usize },
    /// A query opens the wrong number of matrices.
    MatrixCountMismatch { query: usize, expected: usize, got: usize },
    /// An opened row has the wrong width.
    WidthMismatch { query: usize, matrix: usize, expected: usize, got: usize },
    /// Two queries for one leaf carry different openings.
    InconsistentDuplicateOpenings { slot: usize },
    /// Queries merged into one node disagree on an injected matrix.
    InconsistentGroupOpening { slot: usize, matrix: usize },
    /// The proof carries too few or too many boundary digests.
    SiblingCountMismatch { expected: usize, got: usize },
}

/// A hash function from elements to digests.
pub trait CryptographicHasher<F: Field, const DIGEST_ELEMS: usize> {
    spec fn sp_hash(&self, items: Seq<F>) -> [F; DIGEST_ELEMS];

    fn hash_items(&self, items: &Vec<F>) -> (r: [F; DIGEST_ELEMS])
        ensures
            r == self.sp_hash(items@),
    ;
}

/// A compression function from `N` digests to one.
pub trait PseudoCompressionFunction<F: Field, const N: usize, const DIGEST_ELEMS: usize> {
    spec fn sp_compress(&self, children: Seq<[F; DIGEST_ELEMS]>) -> [F; DIGEST_ELEMS];

    fn compress(&self, children: &Vec<[F; DIGEST_ELEMS]>) -> (r: [F; DIGEST_ELEMS])
        requires
            children@.len() == N,
        ensures
            r == self.sp_compress(children@),
    ;
}

// Padding.

/// The length of a layer of `raw` nodes padded to full groups of `n`.
pub open spec fn padded(raw: nat, n: nat) -> nat {
    if raw <= 1 {
        raw
    } else if raw >= n {
        ((raw + n - 1) as nat / n) * n
    } else {
        n
    }
}

fn padded_len(raw_len: usize, n: usize) -> (r: usize)
    requires
        n >= 2,
        raw_len <= usize::MAX / 2 + 1,
    ensures
        r == padded(raw_len as nat, n as nat),
        raw_len <= usize::MAX / 2 + 1 ==> r <= usize::MAX,
{
    if raw_len <= 1 {
        raw_len
    } else if raw_len >= n {
        let groups: usize = (raw_len - 1) / n + 1;
        proof {
            let q = (raw_len - 1) as int / n as int;
            lemma_fundamental_div_mod((raw_len - 1) as int, n as int);
            lemma_hoist_over_denominator((raw_len - 1) as int, 1, n as nat);
            lemma_mul_is_commutative(n as int, q);
            lemma_mul_is_distributive_add_other_way(n as int, q, 1);
            lemma_mod_bound((raw_len - 1) as int, n as int);
            assert(groups * n == q * n + n);
            assert((raw_len + n - 1) as int / n as int == q + 1);
        }
        groups * n
    } else {
        n
    }
}

// The frontier of recomputed nodes.

/// A pruned opening as the verifier sees it: the tree geometry, the queried leaves in increasing
/// order, the rows opened at each of them, and the boundary digests of the proof.
///
/// Level `0` is the leaf layer; level `l + 1` lies `schedule[l]`-to-one above level `l`.
pub struct Frontier<F, const DIGEST_ELEMS: usize> {
    /// The arity of the compression function.
    pub arity: nat,
    /// The heights of the committed matrices.
    pub heights: Seq<nat>,
    /// The arity of each level of the proof.
    pub schedule: Seq<nat>,
    /// The queried leaves, increasing.
    pub leaves: Seq<nat>,
    /// The rows opened at each leaf, one per matrix.
    pub rows: Seq<Seq<Seq<F>>>,
    /// The boundary digests in wire order.
    pub siblings: Seq<[F; DIGEST_ELEMS]>,
}

/// The digest of all zeroes that pads a group.
pub open spec fn default_digest<F: Field, const DIGEST_ELEMS: usize>() -> [F; DIGEST_ELEMS] {
    vstd::array::spec_array_fill_for_copy_type(F::sp_zero())
}

/// The chosen rows, one after the other.
pub open spec fn concat_rows<F>(rows: Seq<Seq<F>>, matrices: Seq<nat>) -> Seq<F>
    decreases matrices.len(),
{
    if matrices.len() == 0 {
        Seq::empty()
    } else {
        concat_rows(rows, matrices.drop_last()) + rows[matrices.last() as int]
    }
}

/// Inserts matrix `m` behind every matrix that is at least as tall.
pub open spec fn insert_by_height(order: Seq<nat>, heights: Seq<nat>, m: nat) -> Seq<nat>
    decreases order.len(),
{
    if order.len() == 0 || heights[order.last() as int] >= heights[m as int] {
        order.push(m)
    } else {
        insert_by_height(order.drop_last(), heights, m).push(order.last())
    }
}

/// The first `n` matrices by decreasing height; equally tall ones keep their order.
pub open spec fn tallest_first(heights: Seq<nat>, n: nat) -> Seq<nat>
    decreases n,
{
    if n == 0 {
        Seq::empty()
    } else {
        insert_by_height(tallest_first(heights, (n - 1) as nat), heights, (n - 1) as nat)
    }
}

/// The greatest height.
pub open spec fn max_height(heights: Seq<nat>) -> nat
    decreases heights.len(),
{
    if heights.len() == 0 {
        0
    } else {
        let rest = max_height(heights.drop_last());
        if heights.last() > rest {
            heights.last()
        } else {
            rest
        }
    }
}

/// The end of the longest stretch of `order` from `from` on whose heights round up to `npt`.
pub open spec fn rounding_end(order: Seq<nat>, heights: Seq<nat>, from: nat, npt: nat) -> nat
    decreases order.len() - from,
{
    if from < order.len() && bits::next_pow2(heights[order[from as int] as int]) == npt {
        rounding_end(order, heights, from + 1, npt)
    } else {
        from
    }
}

/// The end of the longest stretch of `order` from `from` on whose heights equal `height`.
pub open spec fn height_end(order: Seq<nat>, heights: Seq<nat>, from: nat, height: nat) -> nat
    decreases order.len() - from,
{
    if from < order.len() && heights[order[from as int] as int] == height {
        height_end(order, heights, from + 1, height)
    } else {
        from
    }
}

impl<F: Field, const DIGEST_ELEMS: usize> Frontier<F, DIGEST_ELEMS> {
    pub open spec fn order(self) -> Seq<nat> {
        tallest_first(self.heights, self.heights.len())
    }

    /// How many matrices, tallest first, are hashed into the leaves.
    pub open spec fn leaf_count(self) -> nat {
        rounding_end(self.order(), self.heights, 0, bits::next_pow2(max_height(self.heights)))
    }

    /// The length of the padded layer at `level`, and how many matrices are hashed at or below it.
    pub open spec fn layer(self, level: nat) -> (nat, nat)
        decreases level,
    {
        if level == 0 {
            (padded(max_height(self.heights), self.arity), self.leaf_count())
        } else {
            let (len, taken) = self.layer((level - 1) as nat);
            let next = len / self.schedule[level - 1];
            (
                padded(next, self.arity),
                if taken < self.order().len() && bits::next_pow2(
                    self.heights[self.order()[taken as int] as int],
                ) == bits::next_pow2(next) {
                    height_end(
                        self.order(),
                        self.heights,
                        taken,
                        self.heights[self.order()[taken as int] as int],
                    )
                } else {
                    taken
                },
            )
        }
    }

    /// The matrices hashed into the nodes of `level`.
    pub open spec fn matrices(self, level: nat) -> Seq<nat> {
        if level == 0 {
            self.order().subrange(0, self.leaf_count() as int)
        } else {
            self.order().subrange(
                self.layer((level - 1) as nat).1 as int,
                self.layer(level).1 as int,
            )
        }
    }

    /// The node of `level` above a leaf.
    pub open spec fn ancestor(self, level: nat, leaf: nat) -> nat
        decreases level,
    {
        if level == 0 {
            leaf
        } else {
            self.ancestor((level - 1) as nat, leaf) / self.schedule[level - 1]
        }
    }

    /// The node of `level` above each queried leaf.
    pub open spec fn ancestors(self, level: nat) -> Seq<nat> {
        Seq::new(self.leaves.len(), |i: int| self.ancestor(level, self.leaves[i]))
    }

    /// The recomputed nodes of `level`, increasing.
    pub open spec fn indices(self, level: nat) -> Seq<nat> {
        runs::distinct(self.ancestors(level))
    }

    /// The first queried leaf below a node.
    pub open spec fn lead(self, level: nat, index: nat) -> int {
        runs::first_at(self.ancestors(level), index)
    }

    /// How many boundary digests the levels below `level` take.
    pub open spec fn consumed(self, level: nat) -> int
        decreases level,
    {
        if level == 0 {
            0
        } else {
            self.consumed((level - 1) as nat) + self.indices(level).len() * self.schedule[level - 1]
                - self.indices((level - 1) as nat).len()
        }
    }

    /// Which boundary digest stands at a node that is not recomputed.
    pub open spec fn boundary(self, level: nat, index: nat) -> int {
        let step = self.schedule[level as int];
        self.consumed(level) + runs::count_below(self.indices(level + 1), index / step) * step
            + index % step - runs::count_below(self.indices(level), index)
    }

    /// The digest of any node of `level` whose parent is recomputed.
    pub open spec fn node<H, C, const N: usize>(
        self,
        hash: H,
        compress: C,
        level: nat,
        index: nat,
    ) -> [F; DIGEST_ELEMS] where
        H: CryptographicHasher<F, DIGEST_ELEMS>,
        C: PseudoCompressionFunction<F, N, DIGEST_ELEMS>,

        decreases level, 0nat,
    {
        if !self.indices(level).contains(index) {
            self.siblings[self.boundary(level, index)]
        } else if level == 0 {
            hash.sp_hash(concat_rows(self.rows[self.lead(0, index)], self.matrices(0)))
        } else {
            let digest = compress.sp_compress(
                self.children::<H, C, N>(hash, compress, (level - 1) as nat, index, N as nat),
            );
            if self.matrices(level).len() == 0 {
                digest
            } else {
                compress.sp_compress(
                    injection_group::<F, N, DIGEST_ELEMS>(
                        digest,
                        hash.sp_hash(
                            concat_rows(
                                self.rows[self.lead(level, index)],
                                self.matrices(level),
                            ),
                        ),
                    ),
                )
            }
        }
    }

    /// The first `n` places of the group below node `parent` of the level above `level`.
    pub open spec fn children<H, C, const N: usize>(
        self,
        hash: H,
        compress: C,
        level: nat,
        parent: nat,
        n: nat,
    ) -> Seq<[F; DIGEST_ELEMS]> where
        H: CryptographicHasher<F, DIGEST_ELEMS>,
        C: PseudoCompressionFunction<F, N, DIGEST_ELEMS>,

        decreases level, n,
    {
        let step = self.schedule[level as int];
        if n == 0 {
            Seq::empty()
        } else {
            self.children::<H, C, N>(hash, compress, level, parent, (n - 1) as nat).push(
                if n - 1 < step {
                    self.node::<H, C, N>(hash, compress, level, (parent * step + (n - 1)) as nat)
                } else {
                    default_digest()
                },
            )
        }
    }

    /// The siblings that a path meets at a node of `level`.
    pub open spec fn level_siblings<H, C, const N: usize>(
        self,
        hash: H,
        compress: C,
        level: nat,
        index: nat,
    ) -> Seq<[F; DIGEST_ELEMS]> where
        H: CryptographicHasher<F, DIGEST_ELEMS>,
        C: PseudoCompressionFunction<F, N, DIGEST_ELEMS>,
     {
        let step = self.schedule[level as int];
        self.children::<H, C, N>(hash, compress, level, index / step, step).remove(
            (index % step) as int,
        )
    }

    /// The authentication path of a queried leaf up to `level`.
    pub open spec fn path<H, C, const N: usize>(
        self,
        hash: H,
        compress: C,
        slot: int,
        level: nat,
    ) -> Seq<[F; DIGEST_ELEMS]> where
        H: CryptographicHasher<F, DIGEST_ELEMS>,
        C: PseudoCompressionFunction<F, N, DIGEST_ELEMS>,

        decreases level,
    {
        if level == 0 {
            Seq::empty()
        } else {
            self.path::<H, C, N>(hash, compress, slot, (level - 1) as nat)
                + self.level_siblings::<H, C, N>(
                hash,
                compress,
                (level - 1) as nat,
                self.ancestor((level - 1) as nat, self.leaves[slot]),
            )
        }
    }

    /// Matrix `matrices(level)[t]` opened at leaf `slot` differs from what the first leaf below the
    /// same node of `level` opened.
    pub open spec fn disagrees(self, level: nat, slot: int, t: int) -> bool {
        let m = self.matrices(level)[t] as int;
        self.rows[slot][m] != self.rows[self.lead(level, self.ancestors(level)[slot])][m]
    }

    pub open spec fn disagreement(self, level: nat, slot: int) -> spec_fn(int) -> bool {
        |t: int| self.disagrees(level, slot, t)
    }

    pub open spec fn disagreeing(self, level: nat) -> spec_fn(int) -> bool {
        |slot: int|
            seqs::least(self.matrices(level).len(), self.disagreement(level, slot)) is Some
    }

    /// The failure met while the nodes of `level` are formed.
    pub open spec fn level_failure(self, level: nat) -> Option<MerkleWitnessError> {
        if self.consumed(level) > self.siblings.len() {
            Some(
                MerkleWitnessError::SiblingCountMismatch {
                    expected: (self.siblings.len() + 1) as usize,
                    got: self.siblings.len() as usize,
                },
            )
        } else {
            match seqs::least(self.leaves.len(), self.disagreeing(level)) {
                Some(slot) => {
                    let t = seqs::least(
                        self.matrices(level).len(),
                        self.disagreement(level, slot),
                    )->0;
                    Some(
                        MerkleWitnessError::InconsistentGroupOpening {
                            slot: slot as usize,
                            matrix: self.matrices(level)[t] as usize,
                        },
                    )
                },
                None => None,
            }
        }
    }

    /// The first failure met up to `level`.
    pub open spec fn failure(self, level: nat) -> Option<MerkleWitnessError>
        decreases level,
    {
        if level == 0 {
            None
        } else {
            match self.failure((level - 1) as nat) {
                Some(e) => Some(e),
                None => self.level_failure(level),
            }
        }
    }
}

/// The group that joins a digest with the digest of an injected row.
pub open spec fn injection_group<F: Field, const N: usize, const DIGEST_ELEMS: usize>(
    digest: [F; DIGEST_ELEMS],
    injected: [F; DIGEST_ELEMS],
) -> Seq<[F; DIGEST_ELEMS]> {
    Seq::new(
        N as nat,
        |i: int|
            if i == 0 {
                digest
            } else if i == 1 {
                injected
            } else {
                default_digest()
            },
    )
}

// Facts about the frontier.

impl<F: Field, const DIGEST_ELEMS: usize> Frontier<F, DIGEST_ELEMS> {
    /// The geometry is usable: leaves increase, and every level merges at least one node.
    pub open spec fn valid(self) -> bool {
        &&& runs::increasing(self.leaves)
        &&& self.leaves.len() > 0
        &&& self.rows.len() == self.leaves.len()
        &&& forall|l: int| 0 <= l < self.schedule.len() ==> #[trigger] self.schedule[l] > 0
    }

    proof fn lemma_ancestors(self, level: nat)
        requires
            self.valid(),
            level <= self.schedule.len(),
        ensures
            runs::nondecreasing(self.ancestors(level)),
        decreases level,
    {
        if level > 0 {
            let step = self.schedule[level - 1];
            self.lemma_ancestors((level - 1) as nat);
            assert forall|i: int, j: int|
                0 <= i <= j < self.ancestors(level).len() implies self.ancestors(level)[i]
                <= self.ancestors(level)[j] by {
                let a = self.ancestors((level - 1) as nat);
                assert(a[i] <= a[j]);
                lemma_div_is_ordered(a[i] as int, a[j] as int, step as int);
            }
        } else {
            assert forall|i: int, j: int|
                0 <= i <= j < self.ancestors(level).len() implies self.ancestors(level)[i]
                <= self.ancestors(level)[j] by {
                if i < j {
                    assert(self.leaves[i] < self.leaves[j]);
                }
            }
        }
    }

    /// The nodes of one level: increasing, and one run of leaves each.
    pub proof fn lemma_level(self, level: nat)
        requires
            self.valid(),
            level <= self.schedule.len(),
        ensures
            runs::runs_cover(self.ancestors(level)),
            runs::increasing(self.indices(level)),
            self.indices(level).len() > 0,
    {
        self.lemma_ancestors(level);
        runs::lemma_runs(self.ancestors(level));
        runs::lemma_distinct_increasing(self.ancestors(level));
    }

    /// The nodes of the next level are the distinct quotients.
    pub proof fn lemma_next_level(self, level: nat)
        requires
            self.valid(),
            level < self.schedule.len(),
        ensures
            self.indices(level + 1) == runs::distinct(
                runs::quotients(self.indices(level), self.schedule[level as int]),
            ),
    {
        let step = self.schedule[level as int];
        assert(runs::quotients(self.ancestors(level), step) =~= self.ancestors(level + 1));
        runs::lemma_distinct_quotients(self.ancestors(level), step);
    }

    pub proof fn lemma_level_zero(self)
        requires
            self.valid(),
        ensures
            self.indices(0) == self.leaves,
            self.ancestors(0) == self.leaves,
    {
        assert(self.ancestors(0) =~= self.leaves);
        runs::lemma_distinct_of_increasing(self.leaves);
    }
}

/// A recomputed node: its index, its digest, and the leaves below it by slot.
struct FrontierNode<F, const DIGEST_ELEMS: usize> {
    index: usize,
    digest: [F; DIGEST_ELEMS],
    members: Vec<usize>,
}

/// The slots from `lo` to `hi`.
spec fn slot_range(lo: int, hi: int) -> Seq<usize> {
    Seq::new((hi - lo) as nat, |i: int| (lo + i) as usize)
}

impl<F: Field, const DIGEST_ELEMS: usize> FrontierNode<F, DIGEST_ELEMS> {
    /// The node is the `k`-th recomputed node of `level`, apart from its digest.
    spec fn stands_at(self, f: Frontier<F, DIGEST_ELEMS>, level: nat, k: int) -> bool {
        &&& self.index == f.indices(level)[k]
        &&& self.members@ == slot_range(
            runs::run_start(f.ancestors(level), k),
            runs::run_start(f.ancestors(level), k + 1),
        )
    }
}

/// The places of one group: the recomputed children, and boundary digests for the others.
fn gather_group<F, H, C, const N: usize, const DIGEST_ELEMS: usize>(
    nodes: &Vec<FrontierNode<F, DIGEST_ELEMS>>,
    from: usize,
    to: usize,
    parent: usize,
    step: usize,
    siblings: &Vec<[F; DIGEST_ELEMS]>,
    cursor: usize,
    hash: &H,
    compress: &C,
    Ghost(f): Ghost<Frontier<F, DIGEST_ELEMS>>,
    Ghost(level): Ghost<nat>,
    Ghost(k): Ghost<int>,
) -> (r: Result<(Vec<[F; DIGEST_ELEMS]>, usize), MerkleWitnessError>) where
    F: Field,
    H: CryptographicHasher<F, DIGEST_ELEMS>,
    C: PseudoCompressionFunction<F, N, DIGEST_ELEMS>,

    requires
        f.valid(),
        level < f.schedule.len(),
        f.schedule[level as int] == step,
        0 < step <= N,
        f.siblings == siblings@,
        nodes@.len() == f.indices(level).len(),
        forall|n: int|
            0 <= n < nodes@.len() ==> (#[trigger] nodes@[n]).index == f.indices(level)[n]
                && nodes@[n].digest == f.node::<H, C, N>(
                *hash,
                *compress,
                level,
                f.indices(level)[n],
            ),
        from < to <= nodes@.len(),
        0 <= k < f.indices(level + 1).len(),
        parent == f.indices(level + 1)[k],
        forall|n: int| from <= n < to ==> (#[trigger] f.indices(level)[n]) / step as nat == parent,
        from > 0 ==> f.indices(level)[from - 1] / (step as nat) < parent,
        to < nodes@.len() ==> f.indices(level)[to as int] / (step as nat) > parent,
        runs::distinct(
            runs::quotients(f.indices(level), step as nat).take(from as int),
        ).len() == k,
        cursor == f.consumed(level) + k * step - from,
        cursor <= siblings@.len() < usize::MAX,
    ensures
        match r {
            Ok((places, after)) => {
                &&& places@ == f.children::<H, C, N>(
                    *hash,
                    *compress,
                    level,
                    parent as nat,
                    N as nat,
                )
                &&& after == f.consumed(level) + (k + 1) * step - to
                &&& after <= siblings@.len()
            },
            Err(e) => {
                &&& f.consumed(level + 1) > siblings@.len()
                &&& e == (MerkleWitnessError::SiblingCountMismatch {
                    expected: (siblings@.len() + 1) as usize,
                    got: siblings@.len() as usize,
                })
            },
        },
{
    let ghost ix = f.indices(level);
    let ghost q = runs::quotients(ix, step as nat);
    let group_start: usize = {
        proof {
            runs::lemma_group_bounds(ix[from as int], step as nat, parent as nat);
            assert(nodes@[from as int].index == ix[from as int]);
        }
        parent * step
    };
    proof {
        f.lemma_level(level);
        f.lemma_level(level + 1);
        f.lemma_next_level(level);
    }
    let zero: [F; DIGEST_ELEMS] = [F::zero();DIGEST_ELEMS];
    assert(zero =~= default_digest::<F, DIGEST_ELEMS>());
    let mut places: Vec<[F; DIGEST_ELEMS]> = Vec::with_capacity(N);
    let mut next: usize = from;
    let mut cur: usize = cursor;
    proof {
        // No index before the group reaches its start, and the first one of the group does.
        if from > 0 {
            runs::lemma_group_bounds(ix[from - 1], step as nat, ix[from - 1] / step as nat);
            runs::lemma_group_order(ix[from - 1] / step as nat, parent as nat, step as nat);
        }
        runs::lemma_count_below_at(ix, group_start as nat, from as int);
    }
    let mut pos: usize = 0;
    while pos < N
        invariant
            pos <= N,
            0 < step <= N,
            ix == f.indices(level),
            q == runs::quotients(ix, step as nat),
            f.valid(),
            level < f.schedule.len(),
            f.schedule[level as int] == step,
            f.siblings == siblings@,
            nodes@.len() == ix.len(),
            runs::increasing(ix),
            runs::increasing(f.indices(level + 1)),
            f.indices(level + 1) == runs::distinct(q),
            forall|n: int|
                0 <= n < nodes@.len() ==> (#[trigger] nodes@[n]).index == ix[n] && nodes@[n].digest
                    == f.node::<H, C, N>(*hash, *compress, level, ix[n]),
            from < to <= nodes@.len(),
            from <= next <= to,
            group_start == parent * step,
            0 <= k < f.indices(level + 1).len(),
            parent == f.indices(level + 1)[k],
            forall|n: int| from <= n < to ==> (#[trigger] ix[n]) / step as nat == parent,
            from > 0 ==> ix[from - 1] / (step as nat) < parent,
            to < nodes@.len() ==> ix[to as int] / (step as nat) > parent,
            runs::distinct(q.take(from as int)).len() == k,
            zero == default_digest::<F, DIGEST_ELEMS>(),
            pos <= step ==> next == runs::count_below(ix, (group_start + pos) as nat),
            pos >= step ==> next == to,
            cur == f.consumed(level) + k * step + (if pos < step {
                pos
            } else {
                step
            }) - next,
            cur <= siblings@.len() < usize::MAX,
            places@ == f.children::<H, C, N>(*hash, *compress, level, parent as nat, pos as nat),
        decreases N - pos,
    {
        if pos < step {
            let ghost index = (parent * step + pos) as nat;
            proof {
                runs::lemma_place(parent as nat, step as nat, pos as nat);
                runs::lemma_count_below_step(ix, index);
                runs::lemma_count_below(ix, index);
                // The next unread node of the group is at or past this place.
                if next < to {
                    runs::lemma_group_bounds(ix[next as int], step as nat, parent as nat);
                }
                runs::lemma_count_below_at(f.indices(level + 1), parent as nat, k);
            }
            if next < to && nodes[next].index - group_start == pos {
                proof {
                    assert(ix[next as int] == index);
                    assert(ix.contains(index));
                    assert(nodes@[next as int].digest == f.node::<H, C, N>(
                        *hash,
                        *compress,
                        level,
                        index,
                    ));
                }
                places.push(nodes[next].digest);
                next += 1;
            } else {
                proof {
                    assert(!ix.contains(index)) by {
                        if ix.contains(index) {
                            let n = choose|n: int| 0 <= n < ix.len() && ix[n] == index;
                            runs::lemma_in_group(ix, step as nat, parent as nat, from as int, to as int, n);
                            runs::lemma_count_below_at(ix, index, n);
                        }
                    }
                }
                if cur >= siblings.len() {
                    proof {
                        runs::lemma_shortage(
                            ix,
                            step as nat,
                            from as int,
                            to as int,
                            next as int,
                            pos as int,
                            parent as nat,
                            k,
                        );
                        assert((k + 1) * step == k * step + step) by (nonlinear_arith);
                    }
                    return Err(
                        MerkleWitnessError::SiblingCountMismatch {
                            expected: cur + 1,
                            got: siblings.len(),
                        },
                    );
                }
                proof {
                    assert(f.boundary(level, index) == cur);
                    assert(f.node::<H, C, N>(*hash, *compress, level, index)
                        == siblings@[cur as int]);
                }
                places.push(siblings[cur]);
                cur += 1;
            }
            proof {
                if pos + 1 == step {
                    runs::lemma_group_end(ix, step as nat, parent as nat, from as int, to as int);
                }
            }
        } else {
            places.push(zero);
        }
        pos += 1;
    }
    assert((k + 1) * step == k * step + step) by (nonlinear_arith);
    Ok((places, cur))
}

impl<F: Field, const DIGEST_ELEMS: usize> Frontier<F, DIGEST_ELEMS> {
    /// A group of `level` that starts at node `i` is the `k`-th node above it, and starts at the
    /// same leaf.
    proof fn lemma_group(self, level: nat, i: int, k: int)
        requires
            self.valid(),
            level < self.schedule.len(),
            0 <= i <= self.indices(level).len(),
            runs::distinct(
                runs::quotients(self.indices(level), self.schedule[level as int]).take(i),
            ).len() == k,
            0 < i < self.indices(level).len() ==> self.indices(level)[i - 1]
                / self.schedule[level as int] < self.indices(level)[i]
                / self.schedule[level as int],
        ensures
            runs::run_start(self.ancestors(level + 1), k) == runs::run_start(
                self.ancestors(level),
                i,
            ),
            i < self.indices(level).len() ==> {
                &&& k < self.indices(level + 1).len()
                &&& self.indices(level + 1)[k] == self.indices(level)[i]
                    / self.schedule[level as int]
            },
            i == self.indices(level).len() ==> k == self.indices(level + 1).len(),
    {
        let step = self.schedule[level as int];
        let ix = self.indices(level);
        let q = runs::quotients(ix, step);
        let a = self.ancestors(level);
        let b = self.ancestors(level + 1);
        self.lemma_level(level);
        self.lemma_level(level + 1);
        self.lemma_next_level(level);
        self.lemma_ancestors(level);
        self.lemma_ancestors(level + 1);
        if i == ix.len() {
            assert(q.take(i) =~= q);
        } else {
            runs::lemma_distinct_run(q, i, i + 1, q[i]);
            runs::lemma_distinct_take(q, i + 1);
            let d = runs::distinct(q.take(i + 1));
            assert(d[k] == q[i]);
            assert(self.indices(level + 1).take(d.len() as int)[k] == q[i]);
            runs::lemma_run_first(b, k);
            let p = runs::run_start(a, i);
            assert(runs::run_nonempty(a, i));
            assert(a[p] == ix[i]);
            assert(b[p] == q[i]);
            assert forall|s: int| 0 <= s < p implies b[s] != q[i] by {
                assert(i > 0);
                assert(runs::run_nonempty(a, i - 1));
                assert(a[p - 1] == ix[i - 1]);
                assert(a[s] <= a[p - 1]);
                lemma_div_is_ordered(a[s] as int, a[p - 1] as int, step as int);
            }
            runs::lemma_first_at(b, q[i], p);
        }
    }

    /// A shorter group is a prefix of a longer one.
    pub proof fn lemma_children<H, C, const N: usize>(
        self,
        hash: H,
        compress: C,
        level: nat,
        parent: nat,
        m: nat,
        n: nat,
    ) where
        H: CryptographicHasher<F, DIGEST_ELEMS>,
        C: PseudoCompressionFunction<F, N, DIGEST_ELEMS>,

        requires
            m <= n,
        ensures
            self.children::<H, C, N>(hash, compress, level, parent, n).len() == n,
            self.children::<H, C, N>(hash, compress, level, parent, n).take(m as int)
                == self.children::<H, C, N>(hash, compress, level, parent, m),
        decreases n,
    {
        let c = self.children::<H, C, N>(hash, compress, level, parent, n);
        if n > 0 {
            let prev = (n - 1) as nat;
            if m < n {
                self.lemma_children::<H, C, N>(hash, compress, level, parent, m, prev);
                assert(c.take(m as int) =~= self.children::<H, C, N>(
                    hash,
                    compress,
                    level,
                    parent,
                    prev,
                ).take(m as int));
            } else {
                self.lemma_children::<H, C, N>(hash, compress, level, parent, prev, prev);
                assert(c.take(m as int) =~= c);
            }
        } else {
            assert(c.take(m as int) =~= c);
        }
    }
}

/// Appends every place of a group but one's own.
fn extend_path<F: Field, const DIGEST_ELEMS: usize>(
    path: &mut Vec<[F; DIGEST_ELEMS]>,
    places: &Vec<[F; DIGEST_ELEMS]>,
    step: usize,
    own: usize,
)
    requires
        own < step <= places@.len(),
    ensures
        final(path)@ == old(path)@ + places@.take(step as int).remove(own as int),
{
    let ghost group = places@.take(step as int);
    let mut position: usize = 0;
    while position < step
        invariant
            own < step <= places@.len(),
            position <= step,
            group == places@.take(step as int),
            path@ == old(path)@ + group.remove(own as int).take(
                if position <= own {
                    position as int
                } else {
                    position - 1
                },
            ),
        decreases step - position,
    {
        if position != own {
            path.push(places[position]);
        }
        position += 1;
        assert(path@ =~= old(path)@ + group.remove(own as int).take(
            if position <= own {
                position as int
            } else {
                position - 1
            },
        ));
    }
    assert(group.remove(own as int).take(step - 1) =~= group.remove(own as int));
}

/// Replaces the recomputed nodes of a level by those of the next one, before any injection.
fn merge_level<F, H, C, const N: usize, const DIGEST_ELEMS: usize>(
    nodes: &Vec<FrontierNode<F, DIGEST_ELEMS>>,
    step: usize,
    siblings: &Vec<[F; DIGEST_ELEMS]>,
    cursor: usize,
    paths: &mut Vec<Vec<[F; DIGEST_ELEMS]>>,
    hash: &H,
    compress: &C,
    Ghost(f): Ghost<Frontier<F, DIGEST_ELEMS>>,
    Ghost(level): Ghost<nat>,
) -> (r: Result<(Vec<FrontierNode<F, DIGEST_ELEMS>>, usize), MerkleWitnessError>) where
    F: Field,
    H: CryptographicHasher<F, DIGEST_ELEMS>,
    C: PseudoCompressionFunction<F, N, DIGEST_ELEMS>,

    requires
        f.valid(),
        f.leaves.len() <= usize::MAX,
        level < f.schedule.len(),
        f.schedule[level as int] == step,
        0 < step <= N,
        f.siblings == siblings@,
        nodes@.len() == f.indices(level).len(),
        forall|n: int|
            0 <= n < nodes@.len() ==> (#[trigger] nodes@[n]).stands_at(f, level, n)
                && nodes@[n].digest == f.node::<H, C, N>(
                *hash,
                *compress,
                level,
                f.indices(level)[n],
            ),
        cursor == f.consumed(level),
        cursor <= siblings@.len() < usize::MAX,
        old(paths)@.len() == f.leaves.len(),
        forall|s: int|
            0 <= s < old(paths)@.len() ==> (#[trigger] old(paths)@[s])@ == f.path::<H, C, N>(
                *hash,
                *compress,
                s,
                level,
            ),
    ensures
        match r {
            Ok((parents, after)) => {
                &&& parents@.len() == f.indices(level + 1).len()
                &&& forall|n: int|
                    0 <= n < parents@.len() ==> (#[trigger] parents@[n]).stands_at(f, level + 1, n)
                        && parents@[n].digest == compress.sp_compress(
                        f.children::<H, C, N>(
                            *hash,
                            *compress,
                            level,
                            f.indices(level + 1)[n],
                            N as nat,
                        ),
                    )
                &&& after == f.consumed(level + 1)
                &&& after <= siblings@.len()
                &&& final(paths)@.len() == f.leaves.len()
                &&& forall|s: int|
                    0 <= s < final(paths)@.len() ==> (#[trigger] final(paths)@[s])@ == f.path::<
                        H,
                        C,
                        N,
                    >(*hash, *compress, s, level + 1)
            },
            Err(e) => {
                &&& f.consumed(level + 1) > siblings@.len()
                &&& e == (MerkleWitnessError::SiblingCountMismatch {
                    expected: (siblings@.len() + 1) as usize,
                    got: siblings@.len() as usize,
                })
            },
        },
{
    let ghost ix = f.indices(level);
    let ghost q = runs::quotients(ix, step as nat);
    let ghost a = f.ancestors(level);
    let mut parents: Vec<FrontierNode<F, DIGEST_ELEMS>> = Vec::with_capacity(nodes.len());
    let mut cur: usize = cursor;
    let mut i: usize = 0;
    proof {
        f.lemma_level(level);
        f.lemma_level(level + 1);
        f.lemma_next_level(level);
        assert(q.take(0) =~= Seq::empty());
    }
    while i < nodes.len()
        invariant
            f.valid(),
            f.leaves.len() <= usize::MAX,
            level < f.schedule.len(),
            f.schedule[level as int] == step,
            0 < step <= N,
            f.siblings == siblings@,
            ix == f.indices(level),
            q == runs::quotients(ix, step as nat),
            a == f.ancestors(level),
            runs::runs_cover(a),
            runs::increasing(ix),
            nodes@.len() == ix.len(),
            forall|n: int|
                0 <= n < nodes@.len() ==> (#[trigger] nodes@[n]).stands_at(f, level, n)
                    && nodes@[n].digest == f.node::<H, C, N>(*hash, *compress, level, ix[n]),
            i <= nodes@.len(),
            runs::distinct(q.take(i as int)).len() == parents@.len(),
            0 < i < ix.len() ==> ix[i - 1] / (step as nat) < ix[i as int] / (step as nat),
            cur == f.consumed(level) + parents@.len() * step - i,
            cur <= siblings@.len() < usize::MAX,
            parents@.len() <= f.indices(level + 1).len(),
            forall|n: int|
                0 <= n < parents@.len() ==> (#[trigger] parents@[n]).stands_at(f, level + 1, n)
                    && parents@[n].digest == compress.sp_compress(
                    f.children::<H, C, N>(
                        *hash,
                        *compress,
                        level,
                        f.indices(level + 1)[n],
                        N as nat,
                    ),
                ),
            paths@.len() == f.leaves.len(),
            forall|s: int|
                0 <= s < paths@.len() ==> (#[trigger] paths@[s])@ == f.path::<H, C, N>(
                    *hash,
                    *compress,
                    s,
                    if s < runs::run_start(a, i as int) {
                        level + 1
                    } else {
                        level
                    },
                ),
        decreases nodes@.len() - i,
    {
        let ghost k = parents@.len() as int;
        assert(nodes@[i as int].stands_at(f, level, i as int));
        let parent: usize = nodes[i].index / step;
        let mut j: usize = i + 1;
        while j < nodes.len() && nodes[j].index / step == parent
            invariant
                0 < step,
                nodes@.len() == ix.len(),
                ix == f.indices(level),
                forall|n: int|
                    0 <= n < nodes@.len() ==> (#[trigger] nodes@[n]).stands_at(f, level, n),
                i < j <= nodes@.len(),
                forall|n: int| i <= n < j ==> (#[trigger] ix[n]) / (step as nat) == parent,
            decreases nodes@.len() - j,
        {
            assert(nodes@[j as int].stands_at(f, level, j as int));
            j += 1;
        }
        proof {
            if j < nodes@.len() {
                assert(nodes@[j as int].stands_at(f, level, j as int));
                assert(ix[j - 1] < ix[j as int]);
                lemma_div_is_ordered(ix[j - 1] as int, ix[j as int] as int, step as int);
                assert(ix[j - 1] / (step as nat) == parent);
            }
            f.lemma_group(level, i as int, k);
            runs::lemma_distinct_run(q, i as int, j as int, parent as nat);
            f.lemma_group(level, j as int, k + 1);
            f.lemma_level(level + 1);
            assert(k < f.indices(level + 1).len());
            f.lemma_children::<H, C, N>(
                *hash,
                *compress,
                level,
                parent as nat,
                step as nat,
                N as nat,
            );
        }
        let (places, after) = match gather_group::<F, H, C, N, DIGEST_ELEMS>(
            nodes,
            i,
            j,
            parent,
            step,
            siblings,
            cur,
            hash,
            compress,
            Ghost(f),
            Ghost(level),
            Ghost(k),
        ) {
            Ok(found) => found,
            Err(e) => {
                return Err(e);
            },
        };
        proof {
            runs::lemma_group_bounds(ix[i as int], step as nat, parent as nat);
        }
        let group_start: usize = parent * step;
        let mut members: Vec<usize> = Vec::new();
        let mut n: usize = i;
        assert(members@ =~= slot_range(
            runs::run_start(a, i as int),
            runs::run_start(a, i as int),
        ));
        while n < j
            invariant
                f.leaves.len() <= usize::MAX,
                level < f.schedule.len(),
                f.schedule[level as int] == step,
                0 < step <= N,
                ix == f.indices(level),
                a == f.ancestors(level),
                runs::runs_cover(a),
                nodes@.len() == ix.len(),
                forall|n: int|
                    0 <= n < nodes@.len() ==> (#[trigger] nodes@[n]).stands_at(f, level, n),
                i <= n <= j <= nodes@.len(),
                forall|n: int| i <= n < j ==> (#[trigger] ix[n]) / (step as nat) == parent,
                group_start == parent * step,
                places@.len() == N,
                places@.take(step as int) == f.children::<H, C, N>(
                    *hash,
                    *compress,
                    level,
                    parent as nat,
                    step as nat,
                ),
                runs::run_start(a, i as int) <= runs::run_start(a, n as int),
                members@ == slot_range(
                    runs::run_start(a, i as int),
                    runs::run_start(a, n as int),
                ),
                paths@.len() == f.leaves.len(),
                forall|s: int|
                    0 <= s < paths@.len() ==> (#[trigger] paths@[s])@ == f.path::<H, C, N>(
                        *hash,
                        *compress,
                        s,
                        if s < runs::run_start(a, n as int) {
                            level + 1
                        } else {
                            level
                        },
                    ),
            decreases j - n,
        {
            assert(nodes@[n as int].stands_at(f, level, n as int));
            assert(runs::run_nonempty(a, n as int));
            proof {
                runs::lemma_group_bounds(ix[n as int], step as nat, parent as nat);
            }
            let own: usize = nodes[n].index - group_start;
            let ghost lo = runs::run_start(a, n as int);
            let ghost hi = runs::run_start(a, n + 1);
            let mut t: usize = 0;
            while t < nodes[n].members.len()
                invariant
                    f.leaves.len() <= usize::MAX,
                    level < f.schedule.len(),
                    f.schedule[level as int] == step,
                    n < nodes@.len(),
                    ix == f.indices(level),
                    a == f.ancestors(level),
                    runs::runs_cover(a),
                    n < ix.len(),
                    lo == runs::run_start(a, n as int),
                    hi == runs::run_start(a, n + 1),
                    0 <= lo < hi <= f.leaves.len(),
                    nodes@[n as int].members@ == slot_range(lo, hi),
                    ix[n as int] / (step as nat) == parent,
                    own == ix[n as int] % (step as nat),
                    own < step <= N,
                    places@.len() == N,
                    places@.take(step as int) == f.children::<H, C, N>(
                        *hash,
                        *compress,
                        level,
                        parent as nat,
                        step as nat,
                    ),
                    t <= hi - lo,
                    paths@.len() == f.leaves.len(),
                    forall|s: int|
                        0 <= s < paths@.len() ==> (#[trigger] paths@[s])@ == f.path::<H, C, N>(
                            *hash,
                            *compress,
                            s,
                            if s < lo + t {
                                level + 1
                            } else {
                                level
                            },
                        ),
                decreases hi - lo - t,
            {
                let slot: usize = nodes[n].members[t];
                assert(slot == lo + t);
                extend_path(&mut paths[slot], &places, step, own);
                proof {
                    assert(a[slot as int] == ix[n as int]);
                    assert(f.ancestor(level, f.leaves[slot as int]) == ix[n as int]);
                    assert(paths@[slot as int]@ =~= f.path::<H, C, N>(
                        *hash,
                        *compress,
                        slot as int,
                        level + 1,
                    ));
                }
                t += 1;
            }
            append_copy(&mut members, &nodes[n].members);
            n += 1;
            assert(members@ =~= slot_range(
                runs::run_start(a, i as int),
                runs::run_start(a, n as int),
            ));
        }
        let digest: [F; DIGEST_ELEMS] = compress.compress(&places);
        parents.push(FrontierNode { index: parent, digest, members });
        cur = after;
        i = j;
        assert(parents@.len() * step == (k + 1) * step);
    }
    proof {
        f.lemma_group(level, i as int, parents@.len() as int);
    }
    Ok((parents, cur))
}

/// The machine integers of a sequence as numbers.
pub open spec fn nats(s: Seq<usize>) -> Seq<nat> {
    Seq::new(s.len(), |i: int| s[i] as nat)
}

/// Flattens the chosen rows.
fn gather_rows<F: Field>(rows: &Vec<Vec<F>>, matrices: &Vec<usize>) -> (r: Vec<F>)
    requires
        forall|i: int| 0 <= i < matrices@.len() ==> (#[trigger] matrices@[i]) < rows@.len(),
    ensures
        r@ == concat_rows(seqs::rows(rows@), nats(matrices@)),
{
    let mut r: Vec<F> = Vec::new();
    let mut i: usize = 0;
    proof {
        assert(nats(matrices@).take(0) =~= Seq::empty());
    }
    while i < matrices.len()
        invariant
            i <= matrices@.len(),
            forall|i: int| 0 <= i < matrices@.len() ==> (#[trigger] matrices@[i]) < rows@.len(),
            r@ == concat_rows(seqs::rows(rows@), nats(matrices@).take(i as int)),
        decreases matrices@.len() - i,
    {
        append_copy(&mut r, &rows[matrices[i]]);
        i += 1;
        assert(nats(matrices@).take(i as int).drop_last() =~= nats(matrices@).take(i - 1));
    }
    assert(nats(matrices@).take(i as int) =~= nats(matrices@));
    r
}

/// The rows opened at each leaf are those of its representative query.
spec fn rows_by_slot<F: Field, const DIGEST_ELEMS: usize>(
    f: Frontier<F, DIGEST_ELEMS>,
    opened: Seq<Vec<Vec<F>>>,
    representatives: Seq<usize>,
) -> bool {
    &&& representatives.len() == f.leaves.len()
    &&& f.rows.len() == f.leaves.len()
    &&& forall|s: int|
        0 <= s < representatives.len() ==> (#[trigger] representatives[s]) < opened.len()
            && f.rows[s] == seqs::rows(opened[representatives[s] as int]@)
            && opened[representatives[s] as int]@.len() == f.heights.len()
}

/// The first injected matrix on which a leaf disagrees with the first leaf of its node.
fn find_disagreement<F: Field, const DIGEST_ELEMS: usize>(
    slot: usize,
    lead: usize,
    matrices: &Vec<usize>,
    opened: &[Vec<Vec<F>>],
    representatives: &Vec<usize>,
    Ghost(f): Ghost<Frontier<F, DIGEST_ELEMS>>,
    Ghost(level): Ghost<nat>,
) -> (r: Option<usize>)
    requires
        rows_by_slot(f, opened@, representatives@),
        slot < f.leaves.len(),
        lead < f.leaves.len(),
        lead == f.lead(level, f.ancestors(level)[slot as int]),
        nats(matrices@) == f.matrices(level),
        forall|i: int| 0 <= i < matrices@.len() ==> (#[trigger] matrices@[i]) < f.heights.len(),
    ensures
        match r {
            Some(t) => t < matrices@.len() && seqs::least(
                f.matrices(level).len(),
                f.disagreement(level, slot as int),
            ) == Some(t as int),
            None => seqs::least(f.matrices(level).len(), f.disagreement(level, slot as int)) is None,
        },
{
    let mut t: usize = 0;
    while t < matrices.len()
        invariant
            rows_by_slot(f, opened@, representatives@),
            slot < f.leaves.len(),
            lead < f.leaves.len(),
            lead == f.lead(level, f.ancestors(level)[slot as int]),
            nats(matrices@) == f.matrices(level),
            forall|i: int| 0 <= i < matrices@.len() ==> (#[trigger] matrices@[i]) < f.heights.len(),
            t <= matrices@.len(),
            forall|u: int| 0 <= u < t ==> !#[trigger] f.disagreement(level, slot as int)(u),
        decreases matrices@.len() - t,
    {
        let m: usize = matrices[t];
        let mine: usize = representatives[slot];
        let first: usize = representatives[lead];
        assert(f.matrices(level)[t as int] == m as nat);
        if !elements_equal(&opened[mine][m], &opened[first][m]) {
            proof {
                assert(f.disagreement(level, slot as int)(t as int));
                seqs::lemma_least_some(
                    f.matrices(level).len(),
                    f.disagreement(level, slot as int),
                    t as int,
                );
            }
            return Some(t);
        }
        assert(!f.disagreement(level, slot as int)(t as int));
        t += 1;
    }
    proof {
        seqs::lemma_least_none(f.matrices(level).len(), f.disagreement(level, slot as int));
    }
    None
}

/// Hashes the rows of the matrices that enter at `level` into its nodes.
fn inject<F, H, C, const N: usize, const DIGEST_ELEMS: usize>(
    nodes: &mut Vec<FrontierNode<F, DIGEST_ELEMS>>,
    matrices: &Vec<usize>,
    opened: &[Vec<Vec<F>>],
    representatives: &Vec<usize>,
    hash: &H,
    compress: &C,
    Ghost(f): Ghost<Frontier<F, DIGEST_ELEMS>>,
    Ghost(level): Ghost<nat>,
) -> (r: Result<(), MerkleWitnessError>) where
    F: Field,
    H: CryptographicHasher<F, DIGEST_ELEMS>,
    C: PseudoCompressionFunction<F, N, DIGEST_ELEMS>,

    requires
        f.valid(),
        N >= 2,
        f.leaves.len() <= usize::MAX,
        0 < level <= f.schedule.len(),
        rows_by_slot(f, opened@, representatives@),
        matrices@.len() > 0,
        nats(matrices@) == f.matrices(level),
        forall|i: int| 0 <= i < matrices@.len() ==> (#[trigger] matrices@[i]) < f.heights.len(),
        old(nodes)@.len() == f.indices(level).len(),
        forall|n: int|
            0 <= n < old(nodes)@.len() ==> (#[trigger] old(nodes)@[n]).stands_at(f, level, n)
                && old(nodes)@[n].digest == compress.sp_compress(
                f.children::<H, C, N>(
                    *hash,
                    *compress,
                    (level - 1) as nat,
                    f.indices(level)[n],
                    N as nat,
                ),
            ),
    ensures
        match r {
            Ok(()) => {
                &&& seqs::least(f.leaves.len(), f.disagreeing(level)) is None
                &&& final(nodes)@.len() == f.indices(level).len()
                &&& forall|n: int|
                    0 <= n < final(nodes)@.len() ==> (#[trigger] final(nodes)@[n]).stands_at(
                        f,
                        level,
                        n,
                    ) && final(nodes)@[n].digest == f.node::<H, C, N>(
                        *hash,
                        *compress,
                        level,
                        f.indices(level)[n],
                    )
            },
            Err(e) => match seqs::least(f.leaves.len(), f.disagreeing(level)) {
                Some(slot) => e == (MerkleWitnessError::InconsistentGroupOpening {
                    slot: slot as usize,
                    matrix: f.matrices(level)[seqs::least(
                        f.matrices(level).len(),
                        f.disagreement(level, slot),
                    )->0] as usize,
                }),
                None => false,
            },
        },
{
    let ghost a = f.ancestors(level);
    let ghost ix = f.indices(level);
    let zero: [F; DIGEST_ELEMS] = [F::zero();DIGEST_ELEMS];
    assert(zero =~= default_digest::<F, DIGEST_ELEMS>());
    proof {
        f.lemma_level(level);
        f.lemma_ancestors(level);
    }
    let mut n: usize = 0;
    while n < nodes.len()
        invariant
            f.valid(),
            N >= 2,
            f.leaves.len() <= usize::MAX,
            0 < level <= f.schedule.len(),
            a == f.ancestors(level),
            ix == f.indices(level),
            runs::runs_cover(a),
            runs::nondecreasing(a),
            zero == default_digest::<F, DIGEST_ELEMS>(),
            rows_by_slot(f, opened@, representatives@),
            matrices@.len() > 0,
            nats(matrices@) == f.matrices(level),
            forall|i: int| 0 <= i < matrices@.len() ==> (#[trigger] matrices@[i]) < f.heights.len(),
            n <= nodes@.len() == ix.len(),
            forall|i: int|
                n <= i < nodes@.len() ==> (#[trigger] nodes@[i]).stands_at(f, level, i)
                    && nodes@[i].digest == compress.sp_compress(
                    f.children::<H, C, N>(
                        *hash,
                        *compress,
                        (level - 1) as nat,
                        ix[i],
                        N as nat,
                    ),
                ),
            forall|i: int|
                0 <= i < n ==> (#[trigger] nodes@[i]).stands_at(f, level, i) && nodes@[i].digest
                    == f.node::<H, C, N>(*hash, *compress, level, ix[i]),
            forall|s: int|
                0 <= s < runs::run_start(a, n as int) ==> !#[trigger] f.disagreeing(level)(s),
        decreases nodes@.len() - n,
    {
        let ghost lo = runs::run_start(a, n as int);
        let ghost hi = runs::run_start(a, n + 1);
        assert(nodes@[n as int].stands_at(f, level, n as int));
        assert(runs::run_nonempty(a, n as int));
        proof {
            runs::lemma_run_first(a, n as int);
            assert(a[lo] == ix[n as int]);
        }
        assert(nodes@[n as int].members@[0] == lo as usize);
        let lead: usize = nodes[n].members[0];
        proof {
            // The first leaf agrees with itself.
            assert forall|u: int|
                0 <= u < f.matrices(level).len() implies !#[trigger] f.disagreement(level, lo)(
                u,
            ) by {}
            seqs::lemma_least_none(f.matrices(level).len(), f.disagreement(level, lo));
            assert(!f.disagreeing(level)(lo));
        }
        let mut u: usize = 1;
        while u < nodes[n].members.len()
            invariant
                f.leaves.len() <= usize::MAX,
                a == f.ancestors(level),
                ix == f.indices(level),
                runs::runs_cover(a),
                rows_by_slot(f, opened@, representatives@),
                nats(matrices@) == f.matrices(level),
                forall|i: int|
                    0 <= i < matrices@.len() ==> (#[trigger] matrices@[i]) < f.heights.len(),
                n < nodes@.len() == ix.len(),
                lo == runs::run_start(a, n as int),
                hi == runs::run_start(a, n + 1),
                0 <= lo < hi <= f.leaves.len(),
                lead == lo,
                runs::first_at(a, ix[n as int]) == lo,
                nodes@[n as int].members@ == slot_range(lo, hi),
                1 <= u <= hi - lo,
                forall|s: int| 0 <= s < lo + u ==> !#[trigger] f.disagreeing(level)(s),
            decreases hi - lo - u,
        {
            let slot: usize = nodes[n].members[u];
            assert(slot == lo + u);
            assert(a[slot as int] == ix[n as int]);
            match find_disagreement::<F, DIGEST_ELEMS>(
                slot,
                lead,
                matrices,
                opened,
                representatives,
                Ghost(f),
                Ghost(level),
            ) {
                Some(t) => {
                    proof {
                        assert(f.disagreeing(level)(slot as int));
                        seqs::lemma_least_some(
                            f.leaves.len(),
                            f.disagreeing(level),
                            slot as int,
                        );
                        assert(f.matrices(level)[t as int] == matrices@[t as int]);
                    }
                    return Err(
                        MerkleWitnessError::InconsistentGroupOpening { slot, matrix: matrices[t] },
                    );
                },
                None => {
                    assert(!f.disagreeing(level)(slot as int));
                },
            }
            u += 1;
        }
        let query: usize = representatives[lead];
        let items: Vec<F> = gather_rows(&opened[query], matrices);
        let injected: [F; DIGEST_ELEMS] = hash.hash_items(&items);
        let mut inputs: Vec<[F; DIGEST_ELEMS]> = filled(zero, N);
        inputs[0] = nodes[n].digest;
        inputs[1] = injected;
        proof {
            assert(inputs@ =~= injection_group::<F, N, DIGEST_ELEMS>(
                nodes@[n as int].digest,
                injected,
            ));
            assert(ix.contains(ix[n as int]));
        }
        let digest: [F; DIGEST_ELEMS] = compress.compress(&inputs);
        let ghost before = nodes@;
        let index: usize = nodes[n].index;
        let members: Vec<usize> = copy_vec(&nodes[n].members);
        nodes[n] = FrontierNode { index, digest, members };
        proof {
            assert(nodes@[n as int].digest == f.node::<H, C, N>(
                *hash,
                *compress,
                level,
                ix[n as int],
            ));
            assert forall|i: int| 0 <= i < nodes@.len() && i != n implies nodes@[i] == before[i] by {}
        }
        n += 1;
    }
    proof {
        seqs::lemma_least_none(f.leaves.len(), f.disagreeing(level));
    }
    Ok(())
}

// Preparation of an opening.

/// Inserts `x` into an increasing sequence unless it is there.
pub open spec fn insert_unique(s: Seq<nat>, x: nat) -> Seq<nat>
    decreases s.len(),
{
    if s.len() == 0 || s.last() < x {
        s.push(x)
    } else if s.last() == x {
        s
    } else {
        insert_unique(s.drop_last(), x).push(s.last())
    }
}

/// The values of a sequence, increasing and without repetition.
pub open spec fn sorted_unique(s: Seq<nat>) -> Seq<nat>
    decreases s.len(),
{
    if s.len() == 0 {
        Seq::empty()
    } else {
        insert_unique(sorted_unique(s.drop_last()), s.last())
    }
}

proof fn lemma_insert_unique(s: Seq<nat>, x: nat)
    requires
        runs::increasing(s),
    ensures
        runs::increasing(insert_unique(s, x)),
        insert_unique(s, x).len() <= s.len() + 1,
        insert_unique(s, x).len() > 0,
        forall|y: nat| #[trigger]
            insert_unique(s, x).contains(y) <==> s.contains(y) || y == x,
        insert_unique(s, x).last() == x || (s.len() > 0 && insert_unique(s, x).last() == s.last()
            && s.last() > x),
    decreases s.len(),
{
    let r = insert_unique(s, x);
    if s.len() == 0 || s.last() < x {
        assert forall|i: int, j: int| 0 <= i < j < r.len() implies r[i] < r[j] by {
            if j == s.len() {
                assert(s[i] <= s.last());
            }
        }
        assert forall|y: nat| #[trigger] r.contains(y) <==> s.contains(y) || y == x by {
            if s.contains(y) {
                let i = choose|i: int| 0 <= i < s.len() && s[i] == y;
                assert(r[i] == y);
            }
            assert(r[s.len() as int] == x);
        }
    } else if s.last() == x {
        assert forall|y: nat| #[trigger] r.contains(y) <==> s.contains(y) || y == x by {
            assert(s[s.len() - 1] == x);
        }
    } else {
        let t = s.drop_last();
        assert(runs::increasing(t));
        lemma_insert_unique(t, x);
        let u = insert_unique(t, x);
        if t.len() > 0 {
            assert(s[s.len() - 2] < s[s.len() - 1]);
        }
        assert forall|i: int, j: int| 0 <= i < j < r.len() implies r[i] < r[j] by {
            if j == u.len() {
                assert(u[i] <= u.last());
            }
        }
        assert forall|y: nat| #[trigger] r.contains(y) <==> s.contains(y) || y == x by {
            if s.contains(y) {
                let i = choose|i: int| 0 <= i < s.len() && s[i] == y;
                if i < t.len() {
                    assert(t[i] == y);
                    assert(u.contains(y));
                    let j = choose|j: int| 0 <= j < u.len() && u[j] == y;
                    assert(r[j] == y);
                } else {
                    assert(r[u.len() as int] == y);
                }
            }
            if y == x {
                assert(u.contains(x));
                let j = choose|j: int| 0 <= j < u.len() && u[j] == x;
                assert(r[j] == x);
            }
            if r.contains(y) {
                let j = choose|j: int| 0 <= j < r.len() && r[j] == y;
                if j < u.len() {
                    assert(u[j] == y);
                    assert(u.contains(y));
                    if t.contains(y) {
                        let i = choose|i: int| 0 <= i < t.len() && t[i] == y;
                        assert(s[i] == y);
                    }
                } else {
                    assert(s[s.len() - 1] == y);
                }
            }
        }
    }
}

/// The sorted values increase and are exactly the values.
pub proof fn lemma_sorted_unique(s: Seq<nat>)
    ensures
        runs::increasing(sorted_unique(s)),
        sorted_unique(s).len() <= s.len(),
        s.len() > 0 ==> sorted_unique(s).len() > 0,
        forall|y: nat| #[trigger] sorted_unique(s).contains(y) <==> s.contains(y),
    decreases s.len(),
{
    if s.len() > 0 {
        let t = s.drop_last();
        lemma_sorted_unique(t);
        lemma_insert_unique(sorted_unique(t), s.last());
        assert forall|y: nat| #[trigger] sorted_unique(s).contains(y) <==> s.contains(y) by {
            if s.contains(y) {
                let i = choose|i: int| 0 <= i < s.len() && s[i] == y;
                if i < t.len() {
                    assert(t[i] == y);
                }
            }
            if t.contains(y) {
                let i = choose|i: int| 0 <= i < t.len() && t[i] == y;
                assert(s[i] == y);
            }
            assert(s[s.len() - 1] == s.last());
        }
    }
}

fn insert_index(sorted: &mut Vec<usize>, x: usize)
    requires
        runs::increasing(nats(old(sorted)@)),
    ensures
        nats(final(sorted)@) == insert_unique(nats(old(sorted)@), x as nat),
{
    let ghost s = nats(old(sorted)@);
    let mut i: usize = sorted.len();
    let ghost mut tail: Seq<nat> = Seq::empty();
    assert(s.take(i as int) =~= s);
    assert(insert_unique(s, x as nat) + tail =~= insert_unique(s, x as nat));
    while i > 0 && sorted[i - 1] > x
        invariant
            i <= sorted@.len(),
            sorted@ == old(sorted)@,
            s == nats(sorted@),
            tail == s.skip(i as int),
            insert_unique(s.take(i as int), x as nat) + tail == insert_unique(s, x as nat),
        decreases i,
    {
        proof {
            let t = s.take(i as int);
            assert(t.drop_last() =~= s.take(i - 1));
            assert(s.skip(i - 1) =~= seq![s[i - 1]] + tail);
            assert(insert_unique(t, x as nat) =~= insert_unique(s.take(i - 1), x as nat) + seq![
                s[i - 1],
            ]);
            assert(insert_unique(s.take(i - 1), x as nat) + s.skip(i - 1) =~= insert_unique(
                t,
                x as nat,
            ) + tail);
            tail = s.skip(i - 1);
        }
        i -= 1;
    }
    if i > 0 && sorted[i - 1] == x {
        proof {
            assert(s.take(i as int) + tail =~= s);
        }
    } else {
        sorted.insert(i, x);
        proof {
            assert(nats(sorted@) =~= s.take(i as int).push(x as nat) + tail);
        }
    }
}

fn sort_unique(indices: &[usize]) -> (r: Vec<usize>)
    ensures
        nats(r@) == sorted_unique(nats(indices@)),
        runs::increasing(nats(r@)),
{
    let mut r: Vec<usize> = Vec::new();
    let mut i: usize = 0;
    assert(nats(r@) =~= Seq::empty());
    while i < indices.len()
        invariant
            i <= indices@.len(),
            nats(r@) == sorted_unique(nats(indices@).take(i as int)),
            runs::increasing(nats(r@)),
        decreases indices@.len() - i,
    {
        proof {
            lemma_insert_unique(nats(r@), indices@[i as int] as nat);
        }
        insert_index(&mut r, indices[i]);
        i += 1;
        assert(nats(indices@).take(i as int).drop_last() =~= nats(indices@).take(i - 1));
    }
    assert(nats(indices@).take(i as int) =~= nats(indices@));
    r
}

fn position_of(s: &[usize], x: usize) -> (r: usize)
    ensures
        r == runs::first_at(nats(s@), x as nat),
        r <= s@.len(),
{
    let mut i: usize = 0;
    while i < s.len()
        invariant
            i <= s@.len(),
            forall|j: int| 0 <= j < i ==> nats(s@)[j] != x,
        decreases s@.len() - i,
    {
        if s[i] == x {
            proof {
                runs::lemma_first_at(nats(s@), x as nat, i as int);
            }
            return i;
        }
        i += 1;
    }
    proof {
        runs::lemma_first_at_none(nats(s@), x as nat);
    }
    i
}

/// The heights of the matrices.
pub open spec fn heights_of(dimensions: Seq<Dimensions>) -> Seq<nat> {
    Seq::new(dimensions.len(), |m: int| dimensions[m].height as nat)
}

fn tallest(dimensions: &[Dimensions]) -> (r: usize)
    ensures
        r == max_height(heights_of(dimensions@)),
{
    let mut r: usize = 0;
    let mut i: usize = 0;
    while i < dimensions.len()
        invariant
            i <= dimensions@.len(),
            r == max_height(heights_of(dimensions@).take(i as int)),
        decreases dimensions@.len() - i,
    {
        if dimensions[i].height > r {
            r = dimensions[i].height;
        }
        i += 1;
        assert(heights_of(dimensions@).take(i as int).drop_last() =~= heights_of(
            dimensions@,
        ).take(i - 1));
    }
    assert(heights_of(dimensions@).take(i as int) =~= heights_of(dimensions@));
    r
}

proof fn lemma_max_height(heights: Seq<nat>, bound: nat)
    requires
        forall|m: int| 0 <= m < heights.len() ==> heights[m] <= bound,
    ensures
        max_height(heights) <= bound,
    decreases heights.len(),
{
    if heights.len() > 0 {
        lemma_max_height(heights.drop_last(), bound);
    }
}

fn insert_matrix(order: &mut Vec<usize>, dimensions: &[Dimensions], m: usize)
    requires
        m < dimensions@.len(),
        forall|i: int| 0 <= i < old(order)@.len() ==> (#[trigger] old(order)@[i])
            < dimensions@.len(),
    ensures
        nats(final(order)@) == insert_by_height(
            nats(old(order)@),
            heights_of(dimensions@),
            m as nat,
        ),
        forall|i: int| 0 <= i < final(order)@.len() ==> (#[trigger] final(order)@[i])
            < dimensions@.len(),
{
    let ghost s = nats(old(order)@);
    let ghost h = heights_of(dimensions@);
    let mut i: usize = order.len();
    let ghost mut tail: Seq<nat> = Seq::empty();
    assert(s.take(i as int) =~= s);
    assert(insert_by_height(s, h, m as nat) + tail =~= insert_by_height(s, h, m as nat));
    while i > 0 && dimensions[order[i - 1]].height < dimensions[m].height
        invariant
            i <= order@.len(),
            m < dimensions@.len(),
            forall|i: int| 0 <= i < order@.len() ==> (#[trigger] order@[i]) < dimensions@.len(),
            order@ == old(order)@,
            h == heights_of(dimensions@),
            s == nats(order@),
            tail == s.skip(i as int),
            insert_by_height(s.take(i as int), h, m as nat) + tail == insert_by_height(
                s,
                h,
                m as nat,
            ),
        decreases i,
    {
        proof {
            let t = s.take(i as int);
            assert(t.drop_last() =~= s.take(i - 1));
            assert(s.skip(i - 1) =~= seq![s[i - 1]] + tail);
            assert(insert_by_height(t, h, m as nat) =~= insert_by_height(
                s.take(i - 1),
                h,
                m as nat,
            ) + seq![s[i - 1]]);
            assert(insert_by_height(s.take(i - 1), h, m as nat) + s.skip(i - 1)
                =~= insert_by_height(t, h, m as nat) + tail);
            tail = s.skip(i - 1);
        }
        i -= 1;
    }
    let ghost before = order@;
    order.insert(i, m);
    proof {
        assert(nats(order@) =~= s.take(i as int).push(m as nat) + tail);
        assert forall|j: int| 0 <= j < order@.len() implies (#[trigger] order@[j])
            < dimensions@.len() by {
            if j < i {
                assert(order@[j] == before[j]);
            } else if j > i {
                assert(order@[j] == before[j - 1]);
            }
        }
    }
}

fn order_by_height(dimensions: &[Dimensions]) -> (r: Vec<usize>)
    ensures
        nats(r@) == tallest_first(heights_of(dimensions@), dimensions@.len()),
        forall|i: int| 0 <= i < r@.len() ==> (#[trigger] r@[i]) < dimensions@.len(),
{
    let mut r: Vec<usize> = Vec::with_capacity(dimensions.len());
    let mut m: usize = 0;
    assert(nats(r@) =~= Seq::empty());
    while m < dimensions.len()
        invariant
            m <= dimensions@.len(),
            nats(r@) == tallest_first(heights_of(dimensions@), m as nat),
            forall|i: int| 0 <= i < r@.len() ==> (#[trigger] r@[i]) < dimensions@.len(),
        decreases dimensions@.len() - m,
    {
        insert_matrix(&mut r, dimensions, m);
        m += 1;
    }
    r
}

/// The order holds every matrix once.
pub proof fn lemma_order_len(heights: Seq<nat>, n: nat)
    ensures
        tallest_first(heights, n).len() == n,
    decreases n,
{
    if n > 0 {
        lemma_order_len(heights, (n - 1) as nat);
        lemma_insert_by_height_len(
            tallest_first(heights, (n - 1) as nat),
            heights,
            (n - 1) as nat,
        );
    }
}

proof fn lemma_insert_by_height_len(order: Seq<nat>, heights: Seq<nat>, m: nat)
    ensures
        insert_by_height(order, heights, m).len() == order.len() + 1,
    decreases order.len(),
{
    if order.len() > 0 {
        lemma_insert_by_height_len(order.drop_last(), heights, m);
    }
}

// The expansion of one shared proof.

/// One shared proof: the boundary digests of all its queries in wire order.
#[derive(Clone, Debug)]
pub struct PrunedMerklePaths<F, const DIGEST_ELEMS: usize> {
    pub sibling_hashes: Vec<[F; DIGEST_ELEMS]>,
}

/// What [`proof_arity_schedule`] returns for an arity, a cap height and the matrix heights.
pub uninterp spec fn merkle_arity_schedule(
    arity: nat,
    cap_height: nat,
    heights: Seq<nat>,
) -> Option<Seq<nat>>;

/// No layer of the tree is padded back to itself while a matrix waits for it: a matrix that is not
/// among the tallest has at most one row or more than a quarter of the arity. Up to arity four this
/// holds of all heights.
pub open spec fn schedule_ends(arity: nat, heights: Seq<nat>) -> bool {
    forall|m: int|
        0 <= m < heights.len() ==> (#[trigger] heights[m]) <= 1 || arity < 4 * heights[m]
            || heights[m] == max_height(heights)
}

pub proof fn lemma_schedule_ends(arity: nat, heights: Seq<nat>)
    requires
        arity <= 4 || heights.len() == 1,
    ensures
        schedule_ends(arity, heights),
{
    if heights.len() == 1 {
        assert(max_height(heights.drop_last()) == 0);
    }
}

/// `p3_merkle_tree::MerkleTreeMmcs::proof_arity_schedule`: the compression arity of each proof
/// level, or nothing where the heights form no tree that the commitment can build. Only the arity
/// `N`, the cap height and the matrix heights enter it, and each entry is `N` or `2`. Heights whose
/// layers would be padded back to themselves without end are not asked for.
#[verifier::external_body]
fn proof_arity_schedule<const N: usize>(dimensions: &[Dimensions], cap_height: usize) -> (r: Option<
    Vec<usize>,
>)
    requires
        N >= 2,
        is_pow2(N as int),
        forall|m: int|
            0 <= m < dimensions@.len() ==> (#[trigger] dimensions@[m]).height <= usize::MAX / 2 + 1,
        schedule_ends(N as nat, heights_of(dimensions@)),
    ensures
        match r {
            Some(schedule) => {
                &&& merkle_arity_schedule(N as nat, cap_height as nat, heights_of(dimensions@))
                    == Some(nats(schedule@))
                &&& forall|l: int|
                    0 <= l < schedule@.len() ==> (#[trigger] schedule@[l]) == 2 || schedule@[l] == N
            },
            None => merkle_arity_schedule(
                N as nat,
                cap_height as nat,
                heights_of(dimensions@),
            ) is None,
        },
{
    let dims: Vec<p3_matrix::Dimensions> = dimensions.iter().map(
        |d| p3_matrix::Dimensions { width: d.width, height: d.height },
    ).collect();
    MerkleTreeMmcs::<p3_baby_bear::BabyBear, p3_baby_bear::BabyBear, (), (), N, 8>::new(
        (),
        (),
        cap_height,
    ).proof_arity_schedule(&dims).ok()
}

/// The rows of a query against the matrix widths.
pub open spec fn wrong_width<F>(dimensions: Seq<Dimensions>, rows: Seq<Seq<F>>) -> spec_fn(
    int,
) -> bool {
    |m: int| rows[m].len() != dimensions[m].width
}

/// What is wrong with the shape of one query.
pub open spec fn query_failure<F>(
    dimensions: Seq<Dimensions>,
    rows: Seq<Seq<F>>,
    query: int,
) -> Option<MerkleWitnessError> {
    if rows.len() != dimensions.len() {
        Some(
            MerkleWitnessError::MatrixCountMismatch {
                query: query as usize,
                expected: dimensions.len() as usize,
                got: rows.len() as usize,
            },
        )
    } else {
        match seqs::least(dimensions.len(), wrong_width(dimensions, rows)) {
            Some(m) => Some(
                MerkleWitnessError::WidthMismatch {
                    query: query as usize,
                    matrix: m as usize,
                    expected: dimensions[m].width,
                    got: rows[m].len() as usize,
                },
            ),
            None => None,
        }
    }
}

/// The first query of the first `n` with a wrong shape.
pub open spec fn shape_failure<F>(
    dimensions: Seq<Dimensions>,
    opened: Seq<Seq<Seq<F>>>,
    n: nat,
) -> Option<MerkleWitnessError>
    decreases n,
{
    if n == 0 {
        None
    } else {
        match shape_failure(dimensions, opened, (n - 1) as nat) {
            Some(e) => Some(e),
            None => query_failure(dimensions, opened[n - 1], n - 1),
        }
    }
}

/// The first query that asks for the same leaf.
pub open spec fn representative(indices: Seq<nat>, query: int) -> int {
    runs::first_at(indices, indices[query])
}

/// The place of the leaf of a query among the distinct leaves.
pub open spec fn slot_of(indices: Seq<nat>, query: int) -> int {
    runs::first_at(sorted_unique(indices), indices[query])
}

/// The first query of the first `n` whose opening differs from an earlier one of the same leaf.
pub open spec fn duplicate_failure<F>(
    indices: Seq<nat>,
    opened: Seq<Seq<Seq<F>>>,
    n: nat,
) -> Option<MerkleWitnessError>
    decreases n,
{
    if n == 0 {
        None
    } else {
        match duplicate_failure(indices, opened, (n - 1) as nat) {
            Some(e) => Some(e),
            None => if opened[n - 1] != opened[representative(indices, n - 1)] {
                Some(
                    MerkleWitnessError::InconsistentDuplicateOpenings {
                        slot: slot_of(indices, n - 1) as usize,
                    },
                )
            } else {
                None
            },
        }
    }
}

/// The frontier that a proof and its openings describe.
pub open spec fn frontier_of<F: Field, const DIGEST_ELEMS: usize>(
    arity: nat,
    dimensions: Seq<Dimensions>,
    schedule: Seq<nat>,
    indices: Seq<nat>,
    opened: Seq<Seq<Seq<F>>>,
    siblings: Seq<[F; DIGEST_ELEMS]>,
) -> Frontier<F, DIGEST_ELEMS> {
    let leaves = sorted_unique(indices);
    Frontier {
        arity,
        heights: heights_of(dimensions),
        schedule,
        leaves,
        rows: Seq::new(leaves.len(), |s: int| opened[runs::first_at(indices, leaves[s])]),
        siblings,
    }
}

/// Why a shared proof cannot be expanded along an arity schedule, if it cannot. Without a schedule
/// there is no tree.
pub open spec fn scheduled_failure<F: Field, const DIGEST_ELEMS: usize>(
    arity: nat,
    schedule: Option<Seq<nat>>,
    dimensions: Seq<Dimensions>,
    indices: Seq<nat>,
    opened: Seq<Seq<Seq<F>>>,
    siblings: Seq<[F; DIGEST_ELEMS]>,
) -> Option<MerkleWitnessError> {
    let heights = heights_of(dimensions);
    let leaves = sorted_unique(indices);
    if opened.len() != indices.len() {
        Some(
            MerkleWitnessError::QueryCountMismatch {
                expected: indices.len() as usize,
                got: opened.len() as usize,
            },
        )
    } else if max_height(heights) == 0 {
        Some(MerkleWitnessError::InvalidGeometry)
    } else if shape_failure(dimensions, opened, opened.len()) is Some {
        shape_failure(dimensions, opened, opened.len())
    } else if indices.len() == 0 {
        if siblings.len() == 0 {
            None
        } else {
            Some(
                MerkleWitnessError::SiblingCountMismatch {
                    expected: 0,
                    got: siblings.len() as usize,
                },
            )
        }
    } else {
        match schedule {
            None => Some(MerkleWitnessError::InvalidGeometry),
            Some(schedule) => {
                let f = frontier_of(arity, dimensions, schedule, indices, opened, siblings);
                if leaves.last() >= max_height(heights) {
                    Some(
                        MerkleWitnessError::IndexOutOfBounds {
                            max_height: max_height(heights) as usize,
                            index: leaves.last() as usize,
                        },
                    )
                } else if duplicate_failure(indices, opened, indices.len()) is Some {
                    duplicate_failure(indices, opened, indices.len())
                } else if f.failure(schedule.len()) is Some {
                    f.failure(schedule.len())
                } else if f.consumed(schedule.len()) != siblings.len() {
                    Some(
                        MerkleWitnessError::SiblingCountMismatch {
                            expected: f.consumed(schedule.len()) as usize,
                            got: siblings.len() as usize,
                        },
                    )
                } else {
                    None
                }
            },
        }
    }
}

/// Why a shared proof cannot be expanded, if it cannot.
pub open spec fn expansion_failure<F: Field, const DIGEST_ELEMS: usize>(
    arity: nat,
    cap_height: nat,
    dimensions: Seq<Dimensions>,
    indices: Seq<nat>,
    opened: Seq<Seq<Seq<F>>>,
    siblings: Seq<[F; DIGEST_ELEMS]>,
) -> Option<MerkleWitnessError> {
    scheduled_failure(
        arity,
        merkle_arity_schedule(arity, cap_height, heights_of(dimensions)),
        dimensions,
        indices,
        opened,
        siblings,
    )
}

/// The full authentication path of one query along an arity schedule.
pub open spec fn scheduled_path<F, H, C, const N: usize, const DIGEST_ELEMS: usize>(
    hash: H,
    compress: C,
    schedule: Seq<nat>,
    dimensions: Seq<Dimensions>,
    indices: Seq<nat>,
    opened: Seq<Seq<Seq<F>>>,
    siblings: Seq<[F; DIGEST_ELEMS]>,
    query: int,
) -> Seq<[F; DIGEST_ELEMS]> where
    F: Field,
    H: CryptographicHasher<F, DIGEST_ELEMS>,
    C: PseudoCompressionFunction<F, N, DIGEST_ELEMS>,
 {
    frontier_of(N as nat, dimensions, schedule, indices, opened, siblings).path::<H, C, N>(
        hash,
        compress,
        slot_of(indices, query),
        schedule.len(),
    )
}

/// The full authentication path of one query.
pub open spec fn expanded_path<F, H, C, const N: usize, const DIGEST_ELEMS: usize>(
    hash: H,
    compress: C,
    cap_height: nat,
    dimensions: Seq<Dimensions>,
    indices: Seq<nat>,
    opened: Seq<Seq<Seq<F>>>,
    siblings: Seq<[F; DIGEST_ELEMS]>,
    query: int,
) -> Seq<[F; DIGEST_ELEMS]> where
    F: Field,
    H: CryptographicHasher<F, DIGEST_ELEMS>,
    C: PseudoCompressionFunction<F, N, DIGEST_ELEMS>,
 {
    scheduled_path::<F, H, C, N, DIGEST_ELEMS>(
        hash,
        compress,
        merkle_arity_schedule(N as nat, cap_height, heights_of(dimensions))->0,
        dimensions,
        indices,
        opened,
        siblings,
        query,
    )
}

/// An arity schedule as numbers.
pub open spec fn schedule_of(schedule: Option<Vec<usize>>) -> Option<Seq<nat>> {
    match schedule {
        Some(schedule) => Some(nats(schedule@)),
        None => None,
    }
}

/// Each step of a schedule is a full step or a step of two.
pub open spec fn steps_fit(schedule: Option<Vec<usize>>, arity: nat) -> bool {
    schedule is Some ==> forall|l: int|
        0 <= l < schedule->0@.len() ==> (#[trigger] schedule->0@[l]) == 2 || schedule->0@[l]
            == arity
}

fn check_shapes<F: Field>(dimensions: &[Dimensions], opened: &[Vec<Vec<F>>]) -> (r: Result<
    (),
    MerkleWitnessError,
>)
    ensures
        match r {
            Ok(()) => shape_failure(dimensions@, seqs::tables(opened@), opened@.len()) is None
                && forall|q: int|
                0 <= q < opened@.len() ==> (#[trigger] opened@[q])@.len() == dimensions@.len(),
            Err(e) => shape_failure(dimensions@, seqs::tables(opened@), opened@.len()) == Some(e),
        },
{
    let ghost tables = seqs::tables(opened@);
    let mut query: usize = 0;
    while query < opened.len()
        invariant
            query <= opened@.len(),
            tables == seqs::tables(opened@),
            shape_failure(dimensions@, tables, query as nat) is None,
            forall|q: int|
                0 <= q < query ==> (#[trigger] opened@[q])@.len() == dimensions@.len(),
        decreases opened@.len() - query,
    {
        let ghost rows = tables[query as int];
        let ghost p = wrong_width(dimensions@, rows);
        if opened[query].len() != dimensions.len() {
            proof {
                lemma_shape_failure(dimensions@, tables, query + 1, tables.len());
            }
            return Err(
                MerkleWitnessError::MatrixCountMismatch {
                    query,
                    expected: dimensions.len(),
                    got: opened[query].len(),
                },
            );
        }
        let mut matrix: usize = 0;
        while matrix < dimensions.len()
            invariant
                query < opened@.len(),
                tables == seqs::tables(opened@),
                rows == tables[query as int],
                p == wrong_width(dimensions@, rows),
                opened@[query as int]@.len() == dimensions@.len(),
                shape_failure(dimensions@, tables, query as nat) is None,
                matrix <= dimensions@.len(),
                forall|m: int| 0 <= m < matrix ==> !#[trigger] p(m),
            decreases dimensions@.len() - matrix,
        {
            if opened[query][matrix].len() != dimensions[matrix].width {
                proof {
                    assert(p(matrix as int));
                    seqs::lemma_least_some(dimensions@.len(), p, matrix as int);
                    lemma_shape_failure(dimensions@, tables, query + 1, tables.len());
                }
                return Err(
                    MerkleWitnessError::WidthMismatch {
                        query,
                        matrix,
                        expected: dimensions[matrix].width,
                        got: opened[query][matrix].len(),
                    },
                );
            }
            assert(!p(matrix as int));
            matrix += 1;
        }
        proof {
            seqs::lemma_least_none(dimensions@.len(), p);
        }
        query += 1;
    }
    Ok(())
}

/// A failure among the first queries is the failure of all.
proof fn lemma_shape_failure<F>(
    dimensions: Seq<Dimensions>,
    opened: Seq<Seq<Seq<F>>>,
    m: int,
    n: nat,
)
    requires
        0 <= m <= n,
        shape_failure(dimensions, opened, m as nat) is Some,
    ensures
        shape_failure(dimensions, opened, n) == shape_failure(dimensions, opened, m as nat),
    decreases n,
{
    if m < n {
        lemma_shape_failure(dimensions, opened, m, (n - 1) as nat);
    }
}

proof fn lemma_duplicate_failure<F>(indices: Seq<nat>, opened: Seq<Seq<Seq<F>>>, m: int, n: nat)
    requires
        0 <= m <= n,
        duplicate_failure(indices, opened, m as nat) is Some,
    ensures
        duplicate_failure(indices, opened, n) == duplicate_failure(indices, opened, m as nat),
    decreases n,
{
    if m < n {
        lemma_duplicate_failure(indices, opened, m, (n - 1) as nat);
    }
}

fn check_duplicates<F: Field>(
    indices: &[usize],
    leaves: &Vec<usize>,
    opened: &[Vec<Vec<F>>],
) -> (r: Result<(), MerkleWitnessError>)
    requires
        opened@.len() == indices@.len(),
        nats(leaves@) == sorted_unique(nats(indices@)),
    ensures
        match r {
            Ok(()) => duplicate_failure(
                nats(indices@),
                seqs::tables(opened@),
                indices@.len(),
            ) is None,
            Err(e) => duplicate_failure(nats(indices@), seqs::tables(opened@), indices@.len())
                == Some(e),
        },
{
    let ghost ix = nats(indices@);
    let ghost tables = seqs::tables(opened@);
    let mut query: usize = 0;
    while query < indices.len()
        invariant
            query <= indices@.len(),
            opened@.len() == indices@.len(),
            nats(leaves@) == sorted_unique(nats(indices@)),
            ix == nats(indices@),
            tables == seqs::tables(opened@),
            duplicate_failure(ix, tables, query as nat) is None,
        decreases indices@.len() - query,
    {
        let first: usize = position_of(indices, indices[query]);
        proof {
            assert(ix[query as int] == indices@[query as int] as nat);
            lemma_first_at_bound(ix, query as int);
        }
        if !rows_equal(&opened[query], &opened[first]) {
            let slot: usize = position_of(leaves.as_slice(), indices[query]);
            proof {
                lemma_duplicate_failure(ix, tables, query + 1, ix.len());
            }
            return Err(MerkleWitnessError::InconsistentDuplicateOpenings { slot });
        }
        query += 1;
    }
    Ok(())
}

/// The first position of a value is no later than any other.
pub proof fn lemma_first_at_bound(s: Seq<nat>, i: int)
    requires
        0 <= i < s.len(),
    ensures
        0 <= runs::first_at(s, s[i]) <= i,
        s[runs::first_at(s, s[i])] == s[i],
    decreases s.len(),
{
    let t = s.drop_last();
    let x = s[i];
    if t.contains(x) {
        let j = choose|j: int| 0 <= j < t.len() && t[j] == x;
        if i < t.len() {
            lemma_first_at_bound(t, i);
        } else {
            lemma_first_at_bound(t, j);
        }
    } else {
        if i < t.len() {
            assert(t[i] == x);
        }
        assert forall|j: int| 0 <= j < t.len() implies t[j] != x by {
            if t[j] == x {
                assert(t.contains(x));
            }
        }
        runs::lemma_first_at_none(t, x);
    }
}

fn copy_range(v: &Vec<usize>, from: usize, to: usize) -> (r: Vec<usize>)
    requires
        from <= to <= v@.len(),
    ensures
        r@ == v@.subrange(from as int, to as int),
        nats(r@) == nats(v@).subrange(from as int, to as int),
{
    let mut r: Vec<usize> = Vec::with_capacity(to - from);
    let mut i: usize = from;
    while i < to
        invariant
            from <= i <= to <= v@.len(),
            r@ == v@.subrange(from as int, i as int),
        decreases to - i,
    {
        r.push(v[i]);
        i += 1;
        assert(r@ =~= v@.subrange(from as int, i as int));
    }
    assert(nats(r@) =~= nats(v@).subrange(from as int, to as int));
    r
}

/// Steps over the matrices whose heights round up to `npt`.
fn skip_rounding(order: &Vec<usize>, dimensions: &[Dimensions], from: usize, npt: usize) -> (r:
    usize)
    requires
        from <= order@.len(),
        forall|i: int| 0 <= i < order@.len() ==> (#[trigger] order@[i]) < dimensions@.len(),
        forall|m: int|
            0 <= m < dimensions@.len() ==> (#[trigger] dimensions@[m]).height <= usize::MAX / 2 + 1,
    ensures
        from <= r <= order@.len(),
        r == rounding_end(nats(order@), heights_of(dimensions@), from as nat, npt as nat),
{
    let mut i: usize = from;
    while i < order.len() && next_power_of_two(dimensions[order[i]].height) == npt
        invariant
            from <= i <= order@.len(),
            forall|i: int| 0 <= i < order@.len() ==> (#[trigger] order@[i]) < dimensions@.len(),
            forall|m: int|
                0 <= m < dimensions@.len() ==> (#[trigger] dimensions@[m]).height <= usize::MAX / 2
                    + 1,
            rounding_end(nats(order@), heights_of(dimensions@), from as nat, npt as nat)
                == rounding_end(nats(order@), heights_of(dimensions@), i as nat, npt as nat),
        decreases order@.len() - i,
    {
        i += 1;
    }
    i
}

/// Steps over the matrices of one height.
fn skip_height(order: &Vec<usize>, dimensions: &[Dimensions], from: usize, height: usize) -> (r:
    usize)
    requires
        from <= order@.len(),
        forall|i: int| 0 <= i < order@.len() ==> (#[trigger] order@[i]) < dimensions@.len(),
    ensures
        from <= r <= order@.len(),
        r == height_end(nats(order@), heights_of(dimensions@), from as nat, height as nat),
{
    let mut i: usize = from;
    while i < order.len() && dimensions[order[i]].height == height
        invariant
            from <= i <= order@.len(),
            forall|i: int| 0 <= i < order@.len() ==> (#[trigger] order@[i]) < dimensions@.len(),
            height_end(nats(order@), heights_of(dimensions@), from as nat, height as nat)
                == height_end(nats(order@), heights_of(dimensions@), i as nat, height as nat),
        decreases order@.len() - i,
    {
        i += 1;
    }
    i
}

impl<F: Field, const DIGEST_ELEMS: usize> Frontier<F, DIGEST_ELEMS> {
    /// The first failure stays the first.
    proof fn lemma_failure(self, m: nat, n: nat)
        requires
            m <= n,
            self.failure(m) is Some,
        ensures
            self.failure(n) == self.failure(m),
        decreases n,
    {
        if m < n {
            self.lemma_failure(m, (n - 1) as nat);
        }
    }

    proof fn lemma_nothing_injected(self, level: nat)
        requires
            self.matrices(level).len() == 0,
        ensures
            seqs::least(self.leaves.len(), self.disagreeing(level)) is None,
    {
        assert forall|s: int| 0 <= s < self.leaves.len() implies !#[trigger] self.disagreeing(
            level,
        )(s) by {
            assert(seqs::least(0, self.disagreement(level, s)) is None);
        }
        seqs::lemma_least_none(self.leaves.len(), self.disagreeing(level));
    }
}

/// The query that stands for each leaf.
fn representatives_of(indices: &[usize], leaves: &Vec<usize>) -> (r: Vec<usize>)
    requires
        nats(leaves@) == sorted_unique(nats(indices@)),
    ensures
        r@.len() == leaves@.len(),
        forall|s: int|
            0 <= s < r@.len() ==> (#[trigger] r@[s]) < indices@.len() && r@[s] == runs::first_at(
                nats(indices@),
                leaves@[s] as nat,
            ),
{
    let mut r: Vec<usize> = Vec::with_capacity(leaves.len());
    let mut s: usize = 0;
    while s < leaves.len()
        invariant
            s <= leaves@.len(),
            r@.len() == s,
            nats(leaves@) == sorted_unique(nats(indices@)),
            forall|t: int|
                0 <= t < s ==> (#[trigger] r@[t]) < indices@.len() && r@[t] == runs::first_at(
                    nats(indices@),
                    leaves@[t] as nat,
                ),
        decreases leaves@.len() - s,
    {
        proof {
            let ix = nats(indices@);
            lemma_sorted_unique(ix);
            let x = leaves@[s as int] as nat;
            assert(nats(leaves@)[s as int] == x);
            assert(sorted_unique(ix).contains(x));
            let i = choose|i: int| 0 <= i < ix.len() && ix[i] == x;
            lemma_first_at_bound(ix, i);
        }
        r.push(position_of(indices, leaves[s]));
        s += 1;
    }
    r
}

/// Expand one shared pruned Merkle proof along a given arity schedule, one step for each level of the
/// proof.
pub fn expand_with_schedule<F, H, C, const N: usize, const DIGEST_ELEMS: usize>(
    dimensions: &[Dimensions],
    indices: &[usize],
    opened_values: &[Vec<Vec<F>>],
    pruned: &PrunedMerklePaths<F, DIGEST_ELEMS>,
    hash: &H,
    compress: &C,
    schedule: &Option<Vec<usize>>,
) -> (r: Result<Vec<Vec<[F; DIGEST_ELEMS]>>, MerkleWitnessError>) where
    F: Field,
    H: CryptographicHasher<F, DIGEST_ELEMS>,
    C: PseudoCompressionFunction<F, N, DIGEST_ELEMS>,

    requires
        N >= 2,
        is_pow2(N as int),
        forall|m: int|
            0 <= m < dimensions@.len() ==> (#[trigger] dimensions@[m]).height <= usize::MAX / 2 + 1,
        steps_fit(*schedule, N as nat),
        pruned.sibling_hashes@.len() < usize::MAX,
    ensures
        match r {
            Ok(paths) => {
                &&& scheduled_failure(
                    N as nat,
                    schedule_of(*schedule),
                    dimensions@,
                    nats(indices@),
                    seqs::tables(opened_values@),
                    pruned.sibling_hashes@,
                ) is None
                &&& indices@.len() > 0 ==> *schedule is Some
                &&& paths@.len() == indices@.len()
                &&& forall|q: int|
                    0 <= q < paths@.len() ==> (#[trigger] paths@[q])@ == scheduled_path::<
                        F,
                        H,
                        C,
                        N,
                        DIGEST_ELEMS,
                    >(
                        *hash,
                        *compress,
                        nats(schedule->0@),
                        dimensions@,
                        nats(indices@),
                        seqs::tables(opened_values@),
                        pruned.sibling_hashes@,
                        q,
                    )
            },
            Err(e) => scheduled_failure(
                N as nat,
                schedule_of(*schedule),
                dimensions@,
                nats(indices@),
                seqs::tables(opened_values@),
                pruned.sibling_hashes@,
            ) == Some(e),
        },
{
    let ghost ix = nats(indices@);
    let ghost opened = seqs::tables(opened_values@);
    let ghost heights = heights_of(dimensions@);
    if opened_values.len() != indices.len() {
        return Err(
            MerkleWitnessError::QueryCountMismatch {
                expected: indices.len(),
                got: opened_values.len(),
            },
        );
    }
    let max: usize = tallest(dimensions);
    if max == 0 {
        return Err(MerkleWitnessError::InvalidGeometry);
    }
    match check_shapes(dimensions, opened_values) {
        Ok(()) => {},
        Err(e) => {
            return Err(e);
        },
    }
    let siblings: &Vec<[F; DIGEST_ELEMS]> = &pruned.sibling_hashes;
    if indices.len() == 0 {
        if siblings.len() == 0 {
            return Ok(Vec::new());
        } else {
            return Err(
                MerkleWitnessError::SiblingCountMismatch { expected: 0, got: siblings.len() },
            );
        }
    }
    let steps: &Vec<usize> = match schedule {
        Some(steps) => steps,
        None => {
            return Err(MerkleWitnessError::InvalidGeometry);
        },
    };
    let leaves: Vec<usize> = sort_unique(indices);
    proof {
        lemma_sorted_unique(ix);
        assert(nats(leaves@).last() == leaves@.last());
    }
    let last: usize = leaves[leaves.len() - 1];
    if last >= max {
        return Err(MerkleWitnessError::IndexOutOfBounds { max_height: max, index: last });
    }
    match check_duplicates(indices, &leaves, opened_values) {
        Ok(()) => {},
        Err(e) => {
            return Err(e);
        },
    }
    let ghost f = frontier_of(N as nat, dimensions@, nats(steps@), ix, opened, siblings@);
    let representatives: Vec<usize> = representatives_of(indices, &leaves);
    proof {
        assert(f.valid());
        assert forall|s: int| 0 <= s < representatives@.len() implies (
        #[trigger] representatives@[s]) < opened_values@.len() && f.rows[s] == seqs::rows(
            opened_values@[representatives@[s] as int]@,
        ) && opened_values@[representatives@[s] as int]@.len() == f.heights.len() by {
            assert(f.leaves[s] == leaves@[s] as nat);
        }
        assert(rows_by_slot(f, opened_values@, representatives@));
        lemma_max_height(heights, (usize::MAX / 2 + 1) as nat);
        lemma_order_len(heights, heights.len());
    }
    let order: Vec<usize> = order_by_height(dimensions);
    let leaf_npt: usize = next_power_of_two(max);
    let mut taken: usize = skip_rounding(&order, dimensions, 0, leaf_npt);
    let leaf_matrices: Vec<usize> = copy_range(&order, 0, taken);
    // The leaves.
    let mut nodes: Vec<FrontierNode<F, DIGEST_ELEMS>> = Vec::with_capacity(leaves.len());
    let mut paths: Vec<Vec<[F; DIGEST_ELEMS]>> = Vec::with_capacity(leaves.len());
    proof {
        f.lemma_level_zero();
        f.lemma_level(0);
        f.lemma_ancestors(0);
    }
    let mut slot: usize = 0;
    while slot < leaves.len()
        invariant
            slot <= leaves@.len(),
            nats(leaves@) == f.leaves,
            f.valid(),
            f.indices(0) == f.leaves,
            f.ancestors(0) == f.leaves,
            rows_by_slot(f, opened_values@, representatives@),
            nats(leaf_matrices@) == f.matrices(0),
            forall|i: int|
                0 <= i < leaf_matrices@.len() ==> (#[trigger] leaf_matrices@[i]) < f.heights.len(),
            nodes@.len() == slot,
            paths@.len() == slot,
            forall|n: int|
                0 <= n < slot ==> (#[trigger] nodes@[n]).stands_at(f, 0, n) && nodes@[n].digest
                    == f.node::<H, C, N>(*hash, *compress, 0, f.indices(0)[n]),
            forall|s: int|
                0 <= s < slot ==> (#[trigger] paths@[s])@ == f.path::<H, C, N>(
                    *hash,
                    *compress,
                    s,
                    0,
                ),
        decreases leaves@.len() - slot,
    {
        let query: usize = representatives[slot];
        let items: Vec<F> = gather_rows(&opened_values[query], &leaf_matrices);
        let digest: [F; DIGEST_ELEMS] = hash.hash_items(&items);
        let mut members: Vec<usize> = Vec::with_capacity(1);
        members.push(slot);
        proof {
            let a = f.ancestors(0);
            runs::lemma_runs(a);
            f.lemma_ancestors(0);
            lemma_increasing_starts(f.leaves, slot as int);
            lemma_increasing_starts(f.leaves, slot + 1);
            runs::lemma_run_first(a, slot as int);
            assert(members@ =~= slot_range(slot as int, slot + 1));
            assert(f.leaves[slot as int] == leaves@[slot as int] as nat);
            assert(f.indices(0).contains(f.leaves[slot as int]));
        }
        nodes.push(FrontierNode { index: leaves[slot], digest, members });
        let path: Vec<[F; DIGEST_ELEMS]> = Vec::new();
        proof {
            assert(path@ =~= f.path::<H, C, N>(*hash, *compress, slot as int, 0));
        }
        paths.push(path);
        slot += 1;
    }
    // The levels above them.
    assert(f.leaves.len() == leaves.len());
    let mut cursor: usize = 0;
    let mut layer_len: usize = padded_len(max, N);
    let mut l: usize = 0;
    while l < steps.len()
        invariant
            N >= 2,
            l <= steps@.len(),
            nats(steps@) == f.schedule,
            f.leaves.len() <= usize::MAX,
            f.arity == N,
            f.heights == heights_of(dimensions@),
            nats(leaves@) == f.leaves,
            nats(order@) == f.order(),
            order@.len() == f.heights.len(),
            forall|l: int|
                0 <= l < steps@.len() ==> (#[trigger] steps@[l]) == 2 || steps@[l] == N,
            forall|m: int|
                0 <= m < dimensions@.len() ==> (#[trigger] dimensions@[m]).height <= usize::MAX / 2
                    + 1,
            forall|i: int| 0 <= i < order@.len() ==> (#[trigger] order@[i]) < dimensions@.len(),
            f.siblings == siblings@,
            siblings@.len() < usize::MAX,
            f.valid(),
            rows_by_slot(f, opened_values@, representatives@),
            f.layer(l as nat) == (layer_len as nat, taken as nat),
            taken <= order@.len(),
            cursor == f.consumed(l as nat),
            cursor <= siblings@.len(),
            f.failure(l as nat) is None,
            nodes@.len() == f.indices(l as nat).len(),
            forall|n: int|
                0 <= n < nodes@.len() ==> (#[trigger] nodes@[n]).stands_at(f, l as nat, n)
                    && nodes@[n].digest == f.node::<H, C, N>(
                    *hash,
                    *compress,
                    l as nat,
                    f.indices(l as nat)[n],
                ),
            paths@.len() == f.leaves.len(),
            forall|s: int|
                0 <= s < paths@.len() ==> (#[trigger] paths@[s])@ == f.path::<H, C, N>(
                    *hash,
                    *compress,
                    s,
                    l as nat,
                ),
            scheduled_failure(
                N as nat,
                schedule_of(*schedule),
                dimensions@,
                nats(indices@),
                seqs::tables(opened_values@),
                pruned.sibling_hashes@,
            ) == (if f.failure(f.schedule.len()) is Some {
                f.failure(f.schedule.len())
            } else if f.consumed(f.schedule.len()) != siblings@.len() {
                Some(
                    MerkleWitnessError::SiblingCountMismatch {
                        expected: f.consumed(f.schedule.len()) as usize,
                        got: siblings@.len() as usize,
                    },
                )
            } else {
                None
            }),
        decreases steps@.len() - l,
    {
        let step: usize = steps[l];
        let ghost next = (l + 1) as nat;
        assert(f.schedule[l as int] == step as nat);
        let (mut parents, after) = match merge_level::<F, H, C, N, DIGEST_ELEMS>(
            &nodes,
            step,
            siblings,
            cursor,
            &mut paths,
            hash,
            compress,
            Ghost(f),
            Ghost(l as nat),
        ) {
            Ok(merged) => merged,
            Err(e) => {
                proof {
                    assert(f.failure(next) == Some(e));
                    f.lemma_failure(next, f.schedule.len());
                }
                return Err(e);
            },
        };
        cursor = after;
        let logical: usize = layer_len / step;
        assert(logical <= usize::MAX / 2) by (nonlinear_arith)
            requires
                logical == layer_len as int / step as int,
                step >= 2,
                layer_len <= usize::MAX,
        ;
        layer_len = padded_len(logical, N);
        let logical_npt: usize = next_power_of_two(logical);
        let from: usize = taken;
        if taken < order.len() && next_power_of_two(dimensions[order[taken]].height)
            == logical_npt {
            taken = skip_height(&order, dimensions, taken, dimensions[order[taken]].height);
        }
        proof {
            assert(f.layer(next) == (layer_len as nat, taken as nat));
        }
        if from < taken {
            let matrices: Vec<usize> = copy_range(&order, from, taken);
            match inject::<F, H, C, N, DIGEST_ELEMS>(
                &mut parents,
                &matrices,
                opened_values,
                &representatives,
                hash,
                compress,
                Ghost(f),
                Ghost(next),
            ) {
                Ok(()) => {},
                Err(e) => {
                    proof {
                        assert(f.failure(next) == Some(e));
                        f.lemma_failure(next, f.schedule.len());
                    }
                    return Err(e);
                },
            }
        } else {
            proof {
                f.lemma_nothing_injected(next);
                assert forall|n: int| 0 <= n < parents@.len() implies parents@[n].digest == f.node::<
                    H,
                    C,
                    N,
                >(*hash, *compress, next, f.indices(next)[n]) by {
                    assert(parents@[n].stands_at(f, next, n));
                    assert(f.indices(next).contains(f.indices(next)[n]));
                }
            }
        }
        nodes = parents;
        l += 1;
    }
    if cursor != siblings.len() {
        return Err(
            MerkleWitnessError::SiblingCountMismatch { expected: cursor, got: siblings.len() },
        );
    }
    // One path per query, in the original order.
    let mut r: Vec<Vec<[F; DIGEST_ELEMS]>> = Vec::with_capacity(indices.len());
    let mut query: usize = 0;
    while query < indices.len()
        invariant
            query <= indices@.len(),
            r@.len() == query,
            ix == nats(indices@),
            nats(leaves@) == sorted_unique(ix),
            f.leaves == sorted_unique(ix),
            paths@.len() == f.leaves.len(),
            forall|s: int|
                0 <= s < paths@.len() ==> (#[trigger] paths@[s])@ == f.path::<H, C, N>(
                    *hash,
                    *compress,
                    s,
                    f.schedule.len(),
                ),
            forall|q: int|
                0 <= q < query ==> (#[trigger] r@[q])@ == f.path::<H, C, N>(
                    *hash,
                    *compress,
                    slot_of(ix, q),
                    f.schedule.len(),
                ),
        decreases indices@.len() - query,
    {
        let slot: usize = position_of(leaves.as_slice(), indices[query]);
        proof {
            lemma_sorted_unique(ix);
            assert(ix[query as int] == indices@[query as int] as nat);
            assert(ix.contains(ix[query as int]));
            assert(sorted_unique(ix).contains(ix[query as int]));
            let i = choose|i: int|
                0 <= i < sorted_unique(ix).len() && sorted_unique(ix)[i] == ix[query as int];
            lemma_first_at_bound(sorted_unique(ix), i);
        }
        r.push(copy_vec(&paths[slot]));
        query += 1;
    }
    Ok(r)
}

/// Expand one shared pruned Merkle proof into complete authentication paths.
///
/// The returned paths are in the original query order. Every path is recomputed from the
/// verifier's own indices, dimensions and opened rows with the given hash and compression
/// functions. Boundary digests are consumed exactly once in wire order; a short or long proof is
/// rejected.
pub fn expand_pruned_merkle_paths<F, H, C, const N: usize, const DIGEST_ELEMS: usize>(
    dimensions: &[Dimensions],
    indices: &[usize],
    opened_values: &[Vec<Vec<F>>],
    pruned: &PrunedMerklePaths<F, DIGEST_ELEMS>,
    hash: &H,
    compress: &C,
    cap_height: usize,
) -> (r: Result<Vec<Vec<[F; DIGEST_ELEMS]>>, MerkleWitnessError>) where
    F: Field,
    H: CryptographicHasher<F, DIGEST_ELEMS>,
    C: PseudoCompressionFunction<F, N, DIGEST_ELEMS>,

    requires
        N >= 2,
        is_pow2(N as int),
        forall|m: int|
            0 <= m < dimensions@.len() ==> (#[trigger] dimensions@[m]).height <= usize::MAX / 2 + 1,
        schedule_ends(N as nat, heights_of(dimensions@)),
        pruned.sibling_hashes@.len() < usize::MAX,
    ensures
        match r {
            Ok(paths) => {
                &&& expansion_failure(
                    N as nat,
                    cap_height as nat,
                    dimensions@,
                    nats(indices@),
                    seqs::tables(opened_values@),
                    pruned.sibling_hashes@,
                ) is None
                &&& paths@.len() == indices@.len()
                &&& forall|q: int|
                    0 <= q < paths@.len() ==> (#[trigger] paths@[q])@ == expanded_path::<
                        F,
                        H,
                        C,
                        N,
                        DIGEST_ELEMS,
                    >(
                        *hash,
                        *compress,
                        cap_height as nat,
                        dimensions@,
                        nats(indices@),
                        seqs::tables(opened_values@),
                        pruned.sibling_hashes@,
                        q,
                    )
            },
            Err(e) => expansion_failure(
                N as nat,
                cap_height as nat,
                dimensions@,
                nats(indices@),
                seqs::tables(opened_values@),
                pruned.sibling_hashes@,
            ) == Some(e),
        },
{
    let schedule: Option<Vec<usize>> = proof_arity_schedule::<N>(dimensions, cap_height);
    expand_with_schedule::<F, H, C, N, DIGEST_ELEMS>(
        dimensions,
        indices,
        opened_values,
        pruned,
        hash,
        compress,
        &schedule,
    )
}

/// Every run of an increasing sequence has one element.
proof fn lemma_increasing_starts(s: Seq<nat>, k: int)
    requires
        runs::increasing(s),
        0 <= k <= s.len(),
    ensures
        runs::run_start(s, k) == k,
        runs::starts(s).len() == s.len(),
    decreases s.len(),
{
    if s.len() > 0 {
        let t = s.drop_last();
        assert(runs::increasing(t));
        runs::lemma_distinct_of_increasing(t);
        if t.len() > 0 {
            assert(s[s.len() - 2] < s[s.len() - 1]);
        }
        if k <= t.len() {
            lemma_increasing_starts(t, k);
        } else {
            lemma_increasing_starts(t, t.len() as int);
        }
    }
}

} // verus!
