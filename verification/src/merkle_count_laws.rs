//! How many boundary digests a shared proof must bring.

use vstd::prelude::*;

use crate::field::Field;
use crate::merkle;
use crate::merkle::{Dimensions, Frontier, MerkleWitnessError};

verus! {

/// Two frontiers that differ at most in their boundary digests.
pub open spec fn same_frontier<F, const DIGEST_ELEMS: usize>(
    a: Frontier<F, DIGEST_ELEMS>,
    b: Frontier<F, DIGEST_ELEMS>,
) -> bool {
    &&& a.arity == b.arity
    &&& a.heights == b.heights
    &&& a.schedule == b.schedule
    &&& a.leaves == b.leaves
    &&& a.rows == b.rows
}

/// The boundary digests have no influence on which nodes are recomputed.
pub proof fn lemma_same_level<F: Field, const DIGEST_ELEMS: usize>(
    a: Frontier<F, DIGEST_ELEMS>,
    b: Frontier<F, DIGEST_ELEMS>,
    level: nat,
)
    requires
        same_frontier(a, b),
    ensures
        a.layer(level) == b.layer(level),
        a.matrices(level) == b.matrices(level),
        a.ancestors(level) == b.ancestors(level),
        a.indices(level) == b.indices(level),
        a.consumed(level) == b.consumed(level),
    decreases level,
{
    if level > 0 {
        lemma_same_level(a, b, (level - 1) as nat);
    }
    assert forall|i: int| 0 <= i < a.leaves.len() implies a.ancestor(level, #[trigger] a.leaves[i])
        == b.ancestor(level, b.leaves[i]) by {
        lemma_same_ancestor(a, b, level, a.leaves[i]);
    }
    assert(a.ancestors(level) =~= b.ancestors(level));
}

pub proof fn lemma_same_ancestor<F: Field, const DIGEST_ELEMS: usize>(
    a: Frontier<F, DIGEST_ELEMS>,
    b: Frontier<F, DIGEST_ELEMS>,
    level: nat,
    leaf: nat,
)
    requires
        same_frontier(a, b),
    ensures
        a.ancestor(level, leaf) == b.ancestor(level, leaf),
    decreases level,
{
    if level > 0 {
        lemma_same_ancestor(a, b, (level - 1) as nat, leaf);
    }
}

/// A frontier without failure, given other boundary digests, runs out of them or goes on.
proof fn lemma_same_failure<F: Field, const DIGEST_ELEMS: usize>(
    a: Frontier<F, DIGEST_ELEMS>,
    b: Frontier<F, DIGEST_ELEMS>,
    level: nat,
)
    requires
        same_frontier(a, b),
        a.failure(level) is None,
    ensures
        match b.failure(level) {
            None => level == 0 || b.consumed(level) <= b.siblings.len(),
            Some(e) => {
                &&& e == MerkleWitnessError::SiblingCountMismatch {
                    expected: (b.siblings.len() + 1) as usize,
                    got: b.siblings.len() as usize,
                }
                &&& b.siblings.len() < a.siblings.len()
            },
        },
    decreases level,
{
    if level > 0 {
        lemma_same_failure(a, b, (level - 1) as nat);
        lemma_same_level(a, b, level);
        assert forall|slot: int| #[trigger] a.disagreeing(level)(slot) == b.disagreeing(level)(
            slot,
        ) by {
            assert(a.disagreement(level, slot) =~= b.disagreement(level, slot));
        }
        assert(a.disagreeing(level) =~= b.disagreeing(level));
    }
}

/// A shared proof with a digest too few or too many is rejected. Where a list of boundary digests
/// expands, every list of another length fails: a longer one with the number that is taken, a
/// shorter one with the number that is missing first, which is the number that is taken where one
/// digest is gone.
pub proof fn law_digest_count_is_exact<F: Field, const DIGEST_ELEMS: usize>(
    arity: nat,
    cap_height: nat,
    dimensions: Seq<Dimensions>,
    indices: Seq<nat>,
    opened: Seq<Seq<Seq<F>>>,
    siblings: Seq<[F; DIGEST_ELEMS]>,
    others: Seq<[F; DIGEST_ELEMS]>,
)
    requires
        merkle::expansion_failure(arity, cap_height, dimensions, indices, opened, siblings) is None,
        others.len() != siblings.len(),
    ensures
        merkle::expansion_failure(arity, cap_height, dimensions, indices, opened, others) == Some(
            MerkleWitnessError::SiblingCountMismatch {
                expected: if others.len() < siblings.len() {
                    (others.len() + 1) as usize
                } else {
                    siblings.len() as usize
                },
                got: others.len() as usize,
            },
        ),
{
    if indices.len() > 0 {
        let schedule = merkle::merkle_arity_schedule(
            arity,
            cap_height,
            merkle::heights_of(dimensions),
        )->0;
        let a = merkle::frontier_of(arity, dimensions, schedule, indices, opened, siblings);
        let b = merkle::frontier_of(arity, dimensions, schedule, indices, opened, others);
        lemma_same_failure(a, b, schedule.len());
        lemma_same_level(a, b, schedule.len());
    }
}

} // verus!
