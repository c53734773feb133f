//! Which shared proofs expand, and in which order matrices are hashed.

use vstd::arithmetic::div_mod::*;
use vstd::arithmetic::mul::*;
use vstd::prelude::*;

use crate::bits;
use crate::field::Field;
use crate::merkle;
use crate::merkle::{CryptographicHasher, Dimensions, Frontier, PseudoCompressionFunction};
use crate::replay_laws::joined;
use crate::runs;
use crate::seqs;

verus! {

/// A query opens one row of the right width of each matrix.
pub open spec fn query_fits<F>(
    dimensions: Seq<Dimensions>,
    opened: Seq<Seq<Seq<F>>>,
    q: int,
) -> bool {
    &&& opened[q].len() == dimensions.len()
    &&& forall|m: int|
        0 <= m < dimensions.len() ==> (#[trigger] opened[q][m]).len() == dimensions[m].width
}

proof fn lemma_queries_fit<F>(dimensions: Seq<Dimensions>, opened: Seq<Seq<Seq<F>>>, n: nat)
    ensures
        merkle::shape_failure(dimensions, opened, n) is None <==> forall|q: int|
            0 <= q < n ==> #[trigger] query_fits(dimensions, opened, q),
    decreases n,
{
    if n > 0 {
        lemma_queries_fit(dimensions, opened, (n - 1) as nat);
        let rows = opened[n - 1];
        let wrong = merkle::wrong_width(dimensions, rows);
        seqs::lemma_least(dimensions.len(), wrong);
        match seqs::least(dimensions.len(), wrong) {
            Some(m) => {
                assert(opened[n - 1][m].len() != dimensions[m].width);
            },
            None => {
                assert forall|m: int| 0 <= m < dimensions.len() implies (
                #[trigger] opened[n - 1][m]).len() == dimensions[m].width by {
                    assert(!wrong(m));
                }
            },
        }
        assert(query_fits(dimensions, opened, n - 1) == (merkle::query_failure(
            dimensions,
            rows,
            n - 1,
        ) is None));
        if forall|q: int| 0 <= q < n ==> #[trigger] query_fits(dimensions, opened, q) {
            assert(forall|q: int| 0 <= q < n - 1 ==> #[trigger] query_fits(dimensions, opened, q));
        }
    }
}

proof fn lemma_greatest(heights: Seq<nat>)
    ensures
        forall|i: int|
            0 <= i < heights.len() ==> #[trigger] heights[i] <= merkle::max_height(heights),
        heights.len() > 0 ==> exists|i: int|
            0 <= i < heights.len() && #[trigger] heights[i] == merkle::max_height(heights),
        heights.len() == 0 ==> merkle::max_height(heights) == 0,
    decreases heights.len(),
{
    if heights.len() > 0 {
        let rest = heights.drop_last();
        lemma_greatest(rest);
        assert forall|i: int| 0 <= i < heights.len() implies #[trigger] heights[i]
            <= merkle::max_height(heights) by {
            if i < rest.len() {
                assert(rest[i] == heights[i]);
            }
        }
        if heights.last() == merkle::max_height(heights) {
            assert(heights[heights.len() - 1] == merkle::max_height(heights));
        } else {
            let i = choose|i: int|
                0 <= i < rest.len() && #[trigger] rest[i] == merkle::max_height(rest);
            assert(heights[i] == merkle::max_height(heights));
        }
    }
}

/// A shared proof expands only if there is one opening for each query, each opening has one row of
/// the right width of each matrix, and every query asks for a row of the tallest matrix. Without
/// queries it must hold no digest.
pub proof fn law_expanded_openings_fit<F: Field, const DIGEST_ELEMS: usize>(
    arity: nat,
    schedule: Option<Seq<nat>>,
    dimensions: Seq<Dimensions>,
    indices: Seq<nat>,
    opened: Seq<Seq<Seq<F>>>,
    siblings: Seq<[F; DIGEST_ELEMS]>,
)
    requires
        merkle::scheduled_failure(arity, schedule, dimensions, indices, opened, siblings) is None,
    ensures
        opened.len() == indices.len(),
        exists|m: int| 0 <= m < dimensions.len() && (#[trigger] dimensions[m]).height > 0,
        forall|q: int| 0 <= q < opened.len() ==> #[trigger] query_fits(dimensions, opened, q),
        indices.len() == 0 ==> siblings.len() == 0,
        indices.len() > 0 ==> schedule is Some,
        forall|q: int|
            0 <= q < indices.len() ==> exists|m: int|
                0 <= m < dimensions.len() && (#[trigger] indices[q]) < (
                #[trigger] dimensions[m]).height,
{
    lemma_queries_fit(dimensions, opened, opened.len());
    let heights = merkle::heights_of(dimensions);
    lemma_greatest(heights);
    let top = choose|i: int|
        0 <= i < heights.len() && #[trigger] heights[i] == merkle::max_height(heights);
    assert(dimensions[top].height > 0);
    assert forall|q: int| 0 <= q < indices.len() implies exists|m: int|
        0 <= m < dimensions.len() && (#[trigger] indices[q]) < (#[trigger] dimensions[m]).height by {
        lemma_last_is_greatest(indices, q);
        assert(indices[q] < dimensions[top].height);
    }
}

proof fn lemma_insert_last(s: Seq<nat>, x: nat)
    requires
        forall|i: int| 0 <= i < s.len() ==> #[trigger] s[i] <= s.last(),
    ensures
        ({
            let r = merkle::insert_unique(s, x);
            &&& r.len() > 0
            &&& x <= r.last()
            &&& s.len() > 0 ==> s.last() <= r.last()
            &&& forall|i: int| 0 <= i < r.len() ==> #[trigger] r[i] <= r.last()
            &&& r.last() == x || s.len() > 0 && r.last() == s.last()
        }),
    decreases s.len(),
{
    if s.len() > 0 && s.last() > x {
        let rest = s.drop_last();
        lemma_members(rest, x);
        let inner = merkle::insert_unique(rest, x);
        let r = merkle::insert_unique(s, x);
        assert forall|i: int| 0 <= i < r.len() implies #[trigger] r[i] <= r.last() by {
            if i < inner.len() {
                assert(inner.contains(inner[i]));
                if inner[i] != x {
                    let j = choose|j: int| 0 <= j < rest.len() && rest[j] == inner[i];
                    assert(s[j] == inner[i]);
                }
            }
        }
    }
}

proof fn lemma_members(s: Seq<nat>, x: nat)
    ensures
        forall|y: nat| #[trigger]
            merkle::insert_unique(s, x).contains(y) ==> y == x || s.contains(y),
    decreases s.len(),
{
    let r = merkle::insert_unique(s, x);
    if s.len() > 0 && s.last() > x {
        let rest = s.drop_last();
        lemma_members(rest, x);
        let inner = merkle::insert_unique(rest, x);
        assert forall|y: nat| #[trigger] r.contains(y) implies y == x || s.contains(y) by {
            let i = choose|i: int| 0 <= i < r.len() && r[i] == y;
            if i < inner.len() {
                assert(inner[i] == y);
                assert(inner.contains(y));
                if y != x {
                    let j = choose|j: int| 0 <= j < rest.len() && rest[j] == y;
                    assert(s[j] == y);
                }
            } else {
                assert(s[s.len() - 1] == y);
            }
        }
    } else {
        assert forall|y: nat| #[trigger] r.contains(y) implies y == x || s.contains(y) by {
            let i = choose|i: int| 0 <= i < r.len() && r[i] == y;
            if i < s.len() {
                assert(s[i] == y);
            }
        }
    }
}

/// The last of the distinct leaves is the greatest index.
proof fn lemma_last_is_greatest(indices: Seq<nat>, q: int)
    requires
        0 <= q < indices.len(),
    ensures
        merkle::sorted_unique(indices).len() > 0,
        indices[q] <= merkle::sorted_unique(indices).last(),
        forall|i: int|
            0 <= i < merkle::sorted_unique(indices).len() ==> #[trigger] merkle::sorted_unique(
                indices,
            )[i] <= merkle::sorted_unique(indices).last(),
    decreases indices.len(),
{
    let rest = indices.drop_last();
    if rest.len() > 0 {
        lemma_last_is_greatest(
            rest,
            if q < rest.len() {
                q
            } else {
                0
            },
        );
    }
    lemma_insert_last(merkle::sorted_unique(rest), indices.last());
}

/// Matrix `a` comes before matrix `b`: it is taller, or as tall and listed earlier.
pub open spec fn earlier(heights: Seq<nat>, a: nat, b: nat) -> bool {
    heights[a as int] > heights[b as int] || heights[a as int] == heights[b as int] && a < b
}

proof fn lemma_insert_by_height(order: Seq<nat>, heights: Seq<nat>, m: nat)
    requires
        forall|i: int| 0 <= i < order.len() ==> #[trigger] order[i] < m,
        forall|i: int, j: int|
            0 <= i < j < order.len() ==> earlier(heights, #[trigger] order[i], #[trigger] order[j]),
    ensures
        ({
            let r = merkle::insert_by_height(order, heights, m);
            &&& r.len() == order.len() + 1
            &&& forall|i: int|
                0 <= i < r.len() ==> (#[trigger] r[i]) == m || order.contains(r[i])
            &&& forall|i: int, j: int|
                0 <= i < j < r.len() ==> earlier(heights, #[trigger] r[i], #[trigger] r[j])
            &&& r.contains(m)
            &&& forall|i: int| 0 <= i < order.len() ==> r.contains(#[trigger] order[i])
        }),
    decreases order.len(),
{
    let r = merkle::insert_by_height(order, heights, m);
    if order.len() == 0 || heights[order.last() as int] >= heights[m as int] {
        assert(r[order.len() as int] == m);
        assert forall|i: int| 0 <= i < order.len() implies r.contains(#[trigger] order[i]) by {
            assert(r[i] == order[i]);
        }
        assert forall|i: int| 0 <= i < r.len() implies (#[trigger] r[i]) == m || order.contains(
            r[i],
        ) by {
            if i < order.len() {
                assert(order[i] == r[i]);
            }
        }
        assert forall|i: int, j: int| 0 <= i < j < r.len() implies earlier(
            heights,
            #[trigger] r[i],
            #[trigger] r[j],
        ) by {
            if j == order.len() && i < order.len() - 1 {
                assert(earlier(heights, order[i], order[order.len() - 1]));
            }
        }
    } else {
        let rest = order.drop_last();
        lemma_insert_by_height(rest, heights, m);
        let inner = merkle::insert_by_height(rest, heights, m);
        assert forall|i: int| 0 <= i < r.len() implies (#[trigger] r[i]) == m || order.contains(
            r[i],
        ) by {
            if i < inner.len() {
                assert(inner[i] == m || rest.contains(inner[i]));
                if inner[i] != m {
                    let j = choose|j: int| 0 <= j < rest.len() && rest[j] == inner[i];
                    assert(order[j] == r[i]);
                }
            } else {
                assert(order[order.len() - 1] == r[i]);
            }
        }
        assert forall|i: int, j: int| 0 <= i < j < r.len() implies earlier(
            heights,
            #[trigger] r[i],
            #[trigger] r[j],
        ) by {
            if j < inner.len() {
                assert(earlier(heights, inner[i], inner[j]));
            } else {
                assert(inner[i] == m || rest.contains(inner[i]));
                if inner[i] != m {
                    let k = choose|k: int| 0 <= k < rest.len() && rest[k] == inner[i];
                    assert(earlier(heights, order[k], order[order.len() - 1]));
                }
            }
        }
        let at = choose|k: int| 0 <= k < inner.len() && inner[k] == m;
        assert(r[at] == m);
        assert forall|i: int| 0 <= i < order.len() implies r.contains(#[trigger] order[i]) by {
            if i < rest.len() {
                assert(inner.contains(rest[i]));
                let k = choose|k: int| 0 <= k < inner.len() && inner[k] == rest[i];
                assert(r[k] == order[i]);
            } else {
                assert(r[r.len() - 1] == order[i]);
            }
        }
    }
}

/// The matrices are hashed by decreasing height, equally tall ones in the order in which they are
/// listed, and each exactly once.
pub proof fn law_matrices_by_height(heights: Seq<nat>, n: nat)
    requires
        n <= heights.len(),
    ensures
        ({
            let order = merkle::tallest_first(heights, n);
            &&& order.len() == n
            &&& forall|i: int| 0 <= i < n ==> #[trigger] order[i] < n
            &&& forall|i: int, j: int|
                0 <= i < j < n ==> earlier(heights, #[trigger] order[i], #[trigger] order[j])
            &&& forall|m: nat| m < n ==> #[trigger] order.contains(m)
        }),
    decreases n,
{
    if n > 0 {
        let m = (n - 1) as nat;
        law_matrices_by_height(heights, m);
        let before = merkle::tallest_first(heights, m);
        lemma_insert_by_height(before, heights, m);
        let order = merkle::tallest_first(heights, n);
        assert forall|i: int| 0 <= i < n implies #[trigger] order[i] < n by {
            assert(order[i] == m || before.contains(order[i]));
        }
        assert forall|k: nat| k < n implies #[trigger] order.contains(k) by {
            if k < m {
                assert(before.contains(k));
                let i = choose|i: int| 0 <= i < before.len() && before[i] == k;
                assert(order.contains(before[i]));
            }
        }
    }
}

/// The chosen rows are hashed one after the other.
pub proof fn law_rows_are_joined<F>(rows: Seq<Seq<F>>, matrices: Seq<nat>, n: nat)
    requires
        n <= matrices.len(),
    ensures
        merkle::concat_rows(rows, matrices.take(n as int)) == joined(
            n,
            |i: int| rows[matrices[i] as int],
        ),
    decreases n,
{
    if n > 0 {
        law_rows_are_joined(rows, matrices, (n - 1) as nat);
        assert(matrices.take(n as int).drop_last() =~= matrices.take(n - 1));
    }
}

/// Equal queries must open equal rows.
pub proof fn law_equal_queries_open_equal_rows<F: Field, const DIGEST_ELEMS: usize>(
    arity: nat,
    schedule: Option<Seq<nat>>,
    dimensions: Seq<Dimensions>,
    indices: Seq<nat>,
    opened: Seq<Seq<Seq<F>>>,
    siblings: Seq<[F; DIGEST_ELEMS]>,
    p: int,
    q: int,
)
    requires
        merkle::scheduled_failure(arity, schedule, dimensions, indices, opened, siblings) is None,
        0 <= p < indices.len(),
        0 <= q < indices.len(),
        indices[p] == indices[q],
    ensures
        opened[p] == opened[q],
{
    lemma_representative(indices, opened, indices.len(), p);
    lemma_representative(indices, opened, indices.len(), q);
}

proof fn lemma_representative<F>(
    indices: Seq<nat>,
    opened: Seq<Seq<Seq<F>>>,
    n: nat,
    q: int,
)
    requires
        merkle::duplicate_failure(indices, opened, n) is None,
        0 <= q < n,
    ensures
        opened[q] == opened[runs::first_at(indices, indices[q])],
    decreases n,
{
    if q < n - 1 {
        lemma_representative(indices, opened, (n - 1) as nat, q);
    }
}

/// A layer of more than one node is padded to the least multiple of the arity that holds it. One node
/// or none is not padded.
pub proof fn law_layers_are_padded_to_groups(raw: nat, n: nat, other: nat)
    requires
        n > 0,
    ensures
        raw <= 1 ==> merkle::padded(raw, n) == raw,
        raw > 1 ==> {
            &&& merkle::padded(raw, n) >= raw
            &&& merkle::padded(raw, n) % n == 0
            &&& merkle::padded(raw, n) < raw + n
            &&& other >= raw && other % n == 0 ==> merkle::padded(raw, n) <= other
        },
{
    if raw > 1 {
        let p = merkle::padded(raw, n) as int;
        let d = n as int;
        let groups: int = if raw >= n {
            (raw + n - 1) / d
        } else {
            1
        };
        assert(p == groups * d);
        lemma_mod_multiples_basic(groups, d);
        if raw >= n {
            lemma_fundamental_div_mod(raw + n - 1, d);
            lemma_mul_is_commutative(d, groups);
            lemma_mod_bound(raw + n - 1, d);
        }
        if other >= raw && other % n == 0 && other < p {
            let o = other as int / d;
            lemma_fundamental_div_mod(other as int, d);
            lemma_mul_is_commutative(d, o);
            if o >= groups {
                lemma_mul_inequality(groups, o, d);
            } else {
                lemma_mul_inequality(o, groups - 1, d);
                lemma_mul_is_distributive_sub_other_way(d, groups, 1);
            }
        }
    }
}

proof fn lemma_rounding(order: Seq<nat>, heights: Seq<nat>, from: nat, npt: nat)
    requires
        from <= order.len(),
    ensures
        ({
            let end = merkle::rounding_end(order, heights, from, npt);
            &&& from <= end <= order.len()
            &&& forall|i: int|
                from <= i < end ==> bits::next_pow2(heights[(#[trigger] order[i]) as int]) == npt
            &&& end < order.len() ==> bits::next_pow2(heights[order[end as int] as int]) != npt
        }),
    decreases order.len() - from,
{
    if from < order.len() && bits::next_pow2(heights[order[from as int] as int]) == npt {
        lemma_rounding(order, heights, from + 1, npt);
    }
}

proof fn lemma_height(order: Seq<nat>, heights: Seq<nat>, from: nat, height: nat)
    requires
        from <= order.len(),
    ensures
        ({
            let end = merkle::height_end(order, heights, from, height);
            &&& from <= end <= order.len()
            &&& forall|i: int|
                from <= i < end ==> heights[(#[trigger] order[i]) as int] == height
            &&& end < order.len() ==> heights[order[end as int] as int] != height
        }),
    decreases order.len() - from,
{
    if from < order.len() && heights[order[from as int] as int] == height {
        lemma_height(order, heights, from + 1, height);
    }
}

/// The number of matrices hashed up to a level, tallest first, is at most that of all.
proof fn lemma_taken<F: Field, const DIGEST_ELEMS: usize>(
    f: Frontier<F, DIGEST_ELEMS>,
    level: nat,
)
    ensures
        f.layer(level).1 <= f.order().len(),
    decreases level,
{
    if level == 0 {
        lemma_rounding(
            f.order(),
            f.heights,
            0,
            bits::next_pow2(merkle::max_height(f.heights)),
        );
    } else {
        lemma_taken(f, (level - 1) as nat);
        let taken = f.layer((level - 1) as nat).1;
        if taken < f.order().len() {
            lemma_height(
                f.order(),
                f.heights,
                taken,
                f.heights[f.order()[taken as int] as int],
            );
        }
    }
}

/// The leaves take the matrices, tallest first, that round up to the same power of two as the
/// tallest, and no further one.
pub proof fn law_leaves_take_the_tallest<F: Field, const DIGEST_ELEMS: usize>(
    f: Frontier<F, DIGEST_ELEMS>,
)
    ensures
        ({
            let taken = f.matrices(0);
            let top = bits::next_pow2(merkle::max_height(f.heights));
            &&& taken.len() <= f.order().len()
            &&& taken == f.order().take(taken.len() as int)
            &&& forall|t: int|
                0 <= t < taken.len() ==> bits::next_pow2(f.heights[(#[trigger] taken[t]) as int])
                    == top
            &&& taken.len() < f.order().len() ==> bits::next_pow2(
                f.heights[f.order()[taken.len() as int] as int],
            ) != top
        }),
{
    lemma_rounding(f.order(), f.heights, 0, bits::next_pow2(merkle::max_height(f.heights)));
    assert(f.matrices(0) =~= f.order().take(f.leaf_count() as int));
}

/// How many matrices the levels up to `level` take.
pub open spec fn taken_up_to<F: Field, const DIGEST_ELEMS: usize>(
    f: Frontier<F, DIGEST_ELEMS>,
    level: nat,
) -> nat
    decreases level,
{
    if level == 0 {
        f.matrices(0).len()
    } else {
        taken_up_to(f, (level - 1) as nat) + f.matrices(level).len()
    }
}

proof fn lemma_taken_up_to<F: Field, const DIGEST_ELEMS: usize>(
    f: Frontier<F, DIGEST_ELEMS>,
    level: nat,
)
    ensures
        taken_up_to(f, level) == f.layer(level).1,
    decreases level,
{
    lemma_taken(f, level);
    if level == 0 {
        assert(f.matrices(0).len() == f.leaf_count());
    } else {
        lemma_taken(f, (level - 1) as nat);
        lemma_taken_up_to(f, (level - 1) as nat);
        let taken = f.layer((level - 1) as nat).1;
        if taken < f.order().len() {
            lemma_height(
                f.order(),
                f.heights,
                taken,
                f.heights[f.order()[taken as int] as int],
            );
        }
        assert(f.matrices(level).len() == f.layer(level).1 - taken);
    }
}

/// A level above the leaves takes matrices exactly if the next one in order rounds up to the same
/// power of two as its number of nodes. It then takes all matrices that are as tall as that one.
pub proof fn law_levels_take_one_height<F: Field, const DIGEST_ELEMS: usize>(
    f: Frontier<F, DIGEST_ELEMS>,
    level: nat,
)
    requires
        level > 0,
    ensures
        ({
            let before = taken_up_to(f, (level - 1) as nat);
            let nodes = f.layer((level - 1) as nat).0 / f.schedule[level - 1];
            let taken = f.matrices(level);
            let order = f.order();
            &&& before + taken.len() <= order.len()
            &&& forall|t: int|
                0 <= t < taken.len() ==> {
                    &&& (#[trigger] taken[t]) == order[before + t]
                    &&& f.heights[taken[t] as int] == f.heights[order[before as int] as int]
                }
            &&& taken.len() > 0 <==> before < order.len() && bits::next_pow2(
                f.heights[order[before as int] as int],
            ) == bits::next_pow2(nodes)
            &&& taken.len() > 0 && before + taken.len() < order.len()
                ==> f.heights[order[(before + taken.len()) as int] as int]
                != f.heights[order[before as int] as int]
            &&& f.layer(level).0 == merkle::padded(nodes, f.arity)
        }),
{
    let below = (level - 1) as nat;
    lemma_taken(f, below);
    lemma_taken_up_to(f, below);
    let taken = f.layer(below).1;
    if taken < f.order().len() {
        let h = f.heights[f.order()[taken as int] as int];
        lemma_height(f.order(), f.heights, taken, h);
        lemma_height(f.order(), f.heights, taken + 1, h);
    }
    assert(f.matrices(level).len() == f.layer(level).1 - taken);
}

/// A digest of zeros.
pub open spec fn is_zero_digest<F: Field, const DIGEST_ELEMS: usize>(
    d: [F; DIGEST_ELEMS],
) -> bool {
    forall|i: int| 0 <= i < DIGEST_ELEMS ==> #[trigger] d@[i] == F::sp_zero()
}

/// The nodes below a parent fill its group in order; the places beyond the step hold zeros.
pub proof fn law_groups_in_order<F, H, C, const N: usize, const DIGEST_ELEMS: usize>(
    f: Frontier<F, DIGEST_ELEMS>,
    hash: H,
    compress: C,
    level: nat,
    parent: nat,
    n: nat,
) where
    F: Field,
    H: CryptographicHasher<F, DIGEST_ELEMS>,
    C: PseudoCompressionFunction<F, N, DIGEST_ELEMS>,

    ensures
        ({
            let group = f.children::<H, C, N>(hash, compress, level, parent, n);
            let step = f.schedule[level as int];
            &&& group.len() == n
            &&& forall|j: int|
                0 <= j < n && j < step ==> #[trigger] group[j] == f.node::<H, C, N>(
                    hash,
                    compress,
                    level,
                    (parent * step + j) as nat,
                )
            &&& forall|j: int| 0 <= j < n && step <= j ==> is_zero_digest(#[trigger] group[j])
        }),
    decreases n,
{
    if n > 0 {
        law_groups_in_order::<F, H, C, N, DIGEST_ELEMS>(
            f,
            hash,
            compress,
            level,
            parent,
            (n - 1) as nat,
        );
    }
}

/// A queried leaf is the hash of the rows that its query opens. A node above queried leaves is the
/// compression of its group; where matrices join at its level, that digest comes first and the hash of
/// their rows second in a further group.
pub proof fn law_node_hashes_what_is_opened<F, H, C, const N: usize, const DIGEST_ELEMS: usize>(
    f: Frontier<F, DIGEST_ELEMS>,
    hash: H,
    compress: C,
    level: nat,
    index: nat,
) where
    F: Field,
    H: CryptographicHasher<F, DIGEST_ELEMS>,
    C: PseudoCompressionFunction<F, N, DIGEST_ELEMS>,

    requires
        f.indices(level).contains(index),
        N >= 2,
    ensures
        ({
            let joining = f.matrices(level);
            let rows = f.rows[f.lead(level, index)];
            let opened = hash.sp_hash(joined(joining.len(), |i: int| rows[joining[i] as int]));
            let node = f.node::<H, C, N>(hash, compress, level, index);
            if level == 0 {
                node == opened
            } else {
                let below = compress.sp_compress(
                    f.children::<H, C, N>(hash, compress, (level - 1) as nat, index, N as nat),
                );
                if joining.len() == 0 {
                    node == below
                } else {
                    exists|group: Seq<[F; DIGEST_ELEMS]>|
                        {
                            &&& node == #[trigger] compress.sp_compress(group)
                            &&& group.len() == N
                            &&& group[0] == below
                            &&& group[1] == opened
                            &&& forall|j: int| 2 <= j < N ==> is_zero_digest(#[trigger] group[j])
                        }
                }
            }
        }),
{
    let joining = f.matrices(level);
    let rows = f.rows[f.lead(level, index)];
    law_rows_are_joined(rows, joining, joining.len());
    assert(joining.take(joining.len() as int) =~= joining);
    if level > 0 && joining.len() > 0 {
        let below = compress.sp_compress(
            f.children::<H, C, N>(hash, compress, (level - 1) as nat, index, N as nat),
        );
        let opened = hash.sp_hash(joined(joining.len(), |i: int| rows[joining[i] as int]));
        let group = merkle::injection_group::<F, N, DIGEST_ELEMS>(below, opened);
        assert(f.node::<H, C, N>(hash, compress, level, index) == compress.sp_compress(group));
    }
}

proof fn lemma_first(s: Seq<nat>, p: int)
    requires
        0 <= p < s.len(),
    ensures
        0 <= runs::first_at(s, s[p]) <= p,
        s[runs::first_at(s, s[p])] == s[p],
    decreases p,
{
    if exists|i: int| 0 <= i < p && s[i] == s[p] {
        let i = choose|i: int| 0 <= i < p && s[i] == s[p];
        lemma_first(s, i);
    } else {
        runs::lemma_first_at(s, s[p], p);
    }
}

/// Two leaves below the same node of `level` open the same rows of the matrices that join there.
pub open spec fn agree_at<F: Field, const DIGEST_ELEMS: usize>(
    f: Frontier<F, DIGEST_ELEMS>,
    level: nat,
    p: int,
    q: int,
) -> bool {
    f.ancestor(level, f.leaves[p]) == f.ancestor(level, f.leaves[q]) ==> forall|t: int|
        0 <= t < f.matrices(level).len() ==> f.rows[p][(#[trigger] f.matrices(level)[t]) as int]
            == f.rows[q][f.matrices(level)[t] as int]
}

/// There are enough digests for the levels below `level`, and leaves below the same node of it
/// agree on the rows that join there.
pub open spec fn level_forms<F: Field, const DIGEST_ELEMS: usize>(
    f: Frontier<F, DIGEST_ELEMS>,
    level: nat,
) -> bool {
    &&& f.consumed(level) <= f.siblings.len()
    &&& forall|p: int, q: int|
        0 <= p < f.leaves.len() && 0 <= q < f.leaves.len() ==> #[trigger] agree_at(f, level, p, q)
}

proof fn lemma_level_forms<F: Field, const DIGEST_ELEMS: usize>(
    f: Frontier<F, DIGEST_ELEMS>,
    level: nat,
)
    ensures
        f.level_failure(level) is None <==> level_forms(f, level),
{
    let ancestors = f.ancestors(level);
    let joining = f.matrices(level);
    let first = |p: int| runs::first_at(ancestors, ancestors[p]);
    seqs::lemma_least(f.leaves.len(), f.disagreeing(level));
    if f.consumed(level) <= f.siblings.len() {
        match seqs::least(f.leaves.len(), f.disagreeing(level)) {
            Some(slot) => {
                let d = f.disagreement(level, slot);
                assert(f.disagreeing(level)(slot));
                seqs::lemma_least(joining.len(), d);
                let t = seqs::least(joining.len(), d)->0;
                assert(d(t));
                lemma_first(ancestors, slot);
                let lead = first(slot);
                assert(ancestors[lead] == f.ancestor(level, f.leaves[lead]));
                assert(f.rows[slot][joining[t] as int] != f.rows[lead][joining[t] as int]);
                assert(!agree_at(f, level, slot, lead));
            },
            None => {
                assert forall|p: int, q: int|
                    0 <= p < f.leaves.len() && 0 <= q < f.leaves.len() implies #[trigger] agree_at(
                    f,
                    level,
                    p,
                    q,
                ) by {
                    if f.ancestor(level, f.leaves[p]) == f.ancestor(level, f.leaves[q]) {
                        assert(ancestors[p] == ancestors[q]);
                        assert(!f.disagreeing(level)(p));
                        assert(!f.disagreeing(level)(q));
                        seqs::lemma_least(joining.len(), f.disagreement(level, p));
                        seqs::lemma_least(joining.len(), f.disagreement(level, q));
                        assert forall|t: int| 0 <= t < joining.len() implies f.rows[p][(
                        #[trigger] f.matrices(level)[t]) as int]
                            == f.rows[q][f.matrices(level)[t] as int] by {
                            assert(!f.disagreement(level, p)(t));
                            assert(!f.disagreement(level, q)(t));
                        }
                    }
                }
            },
        }
    }
}

/// The nodes up to `level` can be formed exactly if on each level there are enough digests and the
/// queries below a node agree on the rows that join there.
pub proof fn law_levels_form<F: Field, const DIGEST_ELEMS: usize>(
    f: Frontier<F, DIGEST_ELEMS>,
    level: nat,
)
    ensures
        f.failure(level) is None <==> forall|l: nat|
            0 < l <= level ==> #[trigger] level_forms(f, l),
    decreases level,
{
    if level > 0 {
        law_levels_form(f, (level - 1) as nat);
        lemma_level_forms(f, level);
        if f.failure(level) is None {
            assert forall|l: nat| 0 < l <= level implies #[trigger] level_forms(f, l) by {
                if l < level {
                    assert(0 < l <= level - 1);
                }
            }
        } else if forall|l: nat| 0 < l <= level ==> #[trigger] level_forms(f, l) {
            assert(level_forms(f, level));
        }
    }
}

} // verus!
