//! What the columns, chains and lookups of the Poseidon1 table hold for given operations.

use vstd::arithmetic::div_mod::*;
use vstd::arithmetic::mul::*;
use vstd::prelude::*;

use crate::air_expr::Window;
use crate::context::Row;
use crate::field::{CommutativeRing, Field};
use crate::layout;
use crate::layout::{PoseidonPrepInputLimb, PoseidonPrepOutputLimb};
use crate::poseidon1_air;
use crate::poseidon1_air::{boolean, Poseidon1CircuitAir};
use crate::poseidon1_laws;
use crate::poseidon1_rules;
use crate::poseidon1_rules::{PermutationColumns, TableShape};

verus! {

proof fn lemma_input_at<T>(limbs: Seq<PoseidonPrepInputLimb<T>>, n: nat, i: int)
    requires
        0 <= i < n,
    ensures
        layout::input_columns(limbs, n).len() == 4 * n,
        layout::input_columns(limbs, n)[4 * i] == limbs[i].idx,
        layout::input_columns(limbs, n)[4 * i + 1] == limbs[i].in_ctl,
        layout::input_columns(limbs, n)[4 * i + 2] == limbs[i].normal_chain_sel,
        layout::input_columns(limbs, n)[4 * i + 3] == limbs[i].merkle_chain_sel,
    decreases n,
{
    if n > 1 {
        lemma_input_at(limbs, (n - 1) as nat, if i < n - 1 {
            i
        } else {
            0
        });
    } else {
        reveal_with_fuel(layout::input_columns, 2);
    }
}

proof fn lemma_output_at<T>(limbs: Seq<PoseidonPrepOutputLimb<T>>, n: nat, i: int)
    requires
        0 <= i < n,
    ensures
        layout::output_columns(limbs, n).len() == 2 * n,
        layout::output_columns(limbs, n)[2 * i] == limbs[i].idx,
        layout::output_columns(limbs, n)[2 * i + 1] == limbs[i].out_ctl,
    decreases n,
{
    if n > 1 {
        lemma_output_at(limbs, (n - 1) as nat, if i < n - 1 {
            i
        } else {
            0
        });
    } else {
        reveal_with_fuel(layout::output_columns, 2);
    }
}

/// Every input limb of the operation comes from the witness bus, on a Merkle row that starts a chain.
pub open spec fn given_pair<OF>(op: Row<OF>, limbs: nat) -> bool {
    op.merkle_path && op.new_start && forall|i: int| 0 <= i < limbs ==> #[trigger] op.in_ctl[i]
}

/// The columns of an extracted row, one by one. A limb has its chain selector exactly where it is
/// not looked up and does not start a chain.
pub proof fn law_extracted_columns<F: Field, OF>(
    op: Row<OF>,
    limbs: nat,
    rate: nat,
    d: u32,
    compact: bool,
)
    requires
        limbs > 0,
        rate > 0,
        rate <= limbs,
    ensures
        ({
            let r = poseidon1_air::extracted_row::<F, OF>(op, limbs, rate, d, compact);
            let sponge = |i: int| !op.new_start && !op.merkle_path && !op.in_ctl[i];
            let merkle = |i: int| !op.new_start && op.merkle_path && !op.in_ctl[i];
            let end = (if compact {
                5 * rate + limbs + 2
            } else {
                4 * limbs + 2 * rate
            }) as int;
            &&& r.len() == end + 4
            &&& r[end] == F::sp_from((op.mmcs_index_sum_idx * d) as nat)
            &&& r[end + 1] == boolean::<F>(op.mmcs_ctl_enabled && op.merkle_path)
            &&& r[end + 2] == boolean::<F>(op.new_start)
            &&& r[end + 3] == boolean::<F>(op.merkle_path)
            &&& compact ==> {
                &&& r[rate as int] == boolean::<F>(given_pair(op, limbs))
                &&& r[rate as int + 1] == boolean::<F>(!op.new_start)
                &&& forall|i: int|
                    #![trigger op.in_ctl[i]]
                    0 <= i < rate ==> {
                        &&& r[i] == boolean::<F>(op.in_ctl[i])
                        &&& r[rate + 2 + i] == boolean::<F>(sponge(i))
                        &&& r[2 * rate + 2 + i] == boolean::<F>(merkle(i))
                    }
                &&& forall|i: int|
                    #![trigger op.input_indices[i]]
                    0 <= i < limbs ==> r[3 * rate + 2 + i] == F::sp_from(
                        (op.input_indices[i] * d) as nat,
                    )
                &&& forall|i: int|
                    #![trigger op.output_indices[i]]
                    #![trigger op.out_ctl[i]]
                    0 <= i < rate ==> {
                        &&& r[3 * rate + 2 + limbs + i] == F::sp_from(
                            (op.output_indices[i] * d) as nat,
                        )
                        &&& r[4 * rate + 2 + limbs + i] == boolean::<F>(op.out_ctl[i])
                    }
            }
            &&& !compact ==> {
                &&& forall|i: int|
                    #![trigger op.in_ctl[i]]
                    #![trigger op.input_indices[i]]
                    0 <= i < limbs ==> {
                        &&& r[4 * i] == F::sp_from((op.input_indices[i] * d) as nat)
                        &&& r[4 * i + 1] == boolean::<F>(op.in_ctl[i])
                        &&& r[4 * i + 2] == boolean::<F>(sponge(i))
                        &&& r[4 * i + 3] == boolean::<F>(merkle(i))
                    }
                &&& forall|i: int|
                    #![trigger op.output_indices[i]]
                    #![trigger op.out_ctl[i]]
                    0 <= i < rate ==> {
                        &&& r[4 * limbs + 2 * i] == F::sp_from((op.output_indices[i] * d) as nat)
                        &&& r[4 * limbs + 2 * i + 1] == boolean::<F>(op.out_ctl[i])
                    }
            }
        }),
{
    let r = poseidon1_air::extracted_row::<F, OF>(op, limbs, rate, d, compact);
    if !compact {
        let ins = Seq::new(limbs, |i: int| poseidon1_air::extracted_input::<F, OF>(op, i, d));
        let outs = Seq::new(rate, |i: int| poseidon1_air::extracted_output::<F, OF>(op, i, d));
        lemma_input_at(ins, limbs, 0);
        lemma_output_at(outs, rate, 0);
        assert forall|i: int| 0 <= i < limbs implies {
            &&& r[4 * i] == F::sp_from((#[trigger] op.input_indices[i] * d) as nat)
            &&& r[4 * i + 1] == boolean::<F>(op.in_ctl[i])
            &&& r[4 * i + 2] == boolean::<F>(!op.new_start && !op.merkle_path && !op.in_ctl[i])
            &&& r[4 * i + 3] == boolean::<F>(!op.new_start && op.merkle_path && !op.in_ctl[i])
        } by {
            lemma_input_at(ins, limbs, i);
        }
        assert forall|i: int| 0 <= i < rate implies {
            &&& r[4 * limbs + 2 * i] == F::sp_from((#[trigger] op.output_indices[i] * d) as nat)
            &&& r[4 * limbs + 2 * i + 1] == boolean::<F>(op.out_ctl[i])
        } by {
            lemma_output_at(outs, rate, i);
        }
        assert forall|i: int| 0 <= i < limbs implies {
            &&& r[4 * i] == F::sp_from((op.input_indices[i] * d) as nat)
            &&& r[4 * i + 1] == boolean::<F>(#[trigger] op.in_ctl[i])
        } by {
            lemma_input_at(ins, limbs, i);
        }
        assert forall|i: int| 0 <= i < rate implies r[4 * limbs + 2 * i + 1] == boolean::<F>(
            #[trigger] op.out_ctl[i],
        ) by {
            lemma_output_at(outs, rate, i);
        }
    }
}

/// The rows of several operations stand one after the other.
pub proof fn law_extracted_rows_in_order<F: Field, OF>(
    ops: Seq<Row<OF>>,
    limbs: nat,
    rate: nat,
    d: u32,
    compact: bool,
    n: nat,
    i: int,
)
    requires
        0 <= i < n <= ops.len(),
        0 < rate <= limbs,
    ensures
        ({
            let width = if compact {
                5 * rate + limbs + 6
            } else {
                4 * limbs + 2 * rate + 4
            };
            let all = poseidon1_air::extracted_rows::<F, OF>(ops, limbs, rate, d, compact, n);
            &&& all.len() == n * width
            &&& i * width + width <= all.len()
            &&& all.subrange(i * width, i * width + width) == poseidon1_air::extracted_row::<F, OF>(
                ops[i],
                limbs,
                rate,
                d,
                compact,
            )
        }),
    decreases n,
{
    let width = (if compact {
        5 * rate + limbs + 6
    } else {
        4 * limbs + 2 * rate + 4
    }) as int;
    let all = poseidon1_air::extracted_rows::<F, OF>(ops, limbs, rate, d, compact, n);
    let before = poseidon1_air::extracted_rows::<F, OF>(
        ops,
        limbs,
        rate,
        d,
        compact,
        (n - 1) as nat,
    );
    law_extracted_columns::<F, OF>(ops[n - 1], limbs, rate, d, compact);
    lemma_mul_is_distributive_sub_other_way(width, n as int, 1);
    if n > 1 {
        law_extracted_rows_in_order::<F, OF>(
            ops,
            limbs,
            rate,
            d,
            compact,
            (n - 1) as nat,
            if i < n - 1 {
                i
            } else {
                0
            },
        );
    }
    assert(before.len() == (n - 1) * width);
    if i < n - 1 {
        lemma_mul_is_distributive_add_other_way(width, i, 1);
        lemma_mul_inequality(i + 1, n - 1, width);
        lemma_mul_nonnegative(i, width);
        assert(all.subrange(i * width, i * width + width) =~= before.subrange(
            i * width,
            i * width + width,
        ));
    } else {
        assert(all.subrange(i * width, i * width + width)
            =~= poseidon1_air::extracted_row::<F, OF>(ops[i], limbs, rate, d, compact));
    }
}

proof fn lemma_and<F: CommutativeRing>(a: bool, b: bool)
    ensures
        boolean::<F>(a).sp_mul(boolean::<F>(b)) == boolean::<F>(a && b),
        boolean::<F>(a).wf(),
{
    F::closed(F::sp_one(), F::sp_zero());
    let x = boolean::<F>(b);
    F::mul_commutes(boolean::<F>(a), x);
    if a {
        F::mul_one(x);
    } else {
        F::mul_zero(x);
    }
}

proof fn lemma_or<F: CommutativeRing>(a: bool, b: bool)
    requires
        !(a && b),
    ensures
        boolean::<F>(a).sp_add(boolean::<F>(b)) == boolean::<F>(a || b),
{
    F::closed(F::sp_one(), F::sp_zero());
    F::add_commutes(boolean::<F>(a), boolean::<F>(b));
    F::add_zero(boolean::<F>(a));
    F::add_zero(boolean::<F>(b));
}

proof fn lemma_not<F: CommutativeRing>(a: bool)
    ensures
        F::sp_one().sp_sub(boolean::<F>(a)) == boolean::<F>(!a),
{
    F::closed(F::sp_one(), F::sp_zero());
    F::sub_add(F::sp_one(), F::sp_zero());
    F::add_zero(F::sp_one().sp_sub(F::sp_zero()));
    crate::field::lemma_difference(F::sp_one(), F::sp_one());
}

/// The lookups of a row, for the operation that the row executes and the one on the next row.
///
/// Each limb of the input is received with its index and its elements, and each limb of the rate is
/// sent with its index and the elements of the image under the permutation, all filled up with zeros
/// to the width of the bus. On Merkle rows no input is received, but for a compression of a given
/// pair in the compact layout. At the end of a Merkle chain the accumulator is received.
#[verifier::rlimit(60)]
#[verifier::spinoff_prover]
pub proof fn law_lookups_carry_input_and_image<F: CommutativeRing, P: PermutationColumns<F>, OF>(
    s: TableShape,
    w: Window<F>,
    input: Seq<F>,
    op: Row<OF>,
    next: Row<OF>,
    d: u32,
)
    requires
        s.wf(),
        s.rate_ext > 0,
        s.width_ext * s.d == P::sp_state_width(),
        s.permutation_columns == P::sp_column_count(),
        input.len() == P::sp_state_width(),
        w.local.len() == s.permutation_columns + 2,
        w.local.take(s.permutation_columns as int) == P::sp_columns(input),
        w.preprocessed == poseidon1_laws::row_of::<F, OF>(s, op, d),
        w.preprocessed_next == poseidon1_laws::row_of::<F, OF>(s, next, d),
    ensures
        ({
            let m = poseidon1_rules::row_messages(s, w);
            let limbs = s.width_ext as int;
            let rate = s.rate_ext as int;
            let compact = s.d == 1 && s.width_ext == 2 * s.rate_ext;
            let image = P::sp_permuted(input);
            let pair = compact && given_pair(op, limbs as nat);
            &&& image.len() == input.len()
            &&& m.len() == limbs + rate + 1
            &&& forall|i: int|
                #![trigger m[i]]
                0 <= i < m.len() ==> {
                    &&& m[i].bus == "WitnessChecks"
                    &&& m[i].weight == 1
                    &&& m[i].fields.len() == s.witness_d + 1
                    &&& forall|k: int|
                        #![trigger m[i].fields[k]]
                        (if i == limbs + rate {
                            1
                        } else {
                            s.d as int
                        }) < k <= s.witness_d ==> m[i].fields[k] == F::sp_zero()
                }
            &&& forall|i: int|
                #![trigger m[i]]
                0 <= i < limbs ==> {
                    &&& m[i].fields[0] == F::sp_from((op.input_indices[i] * d) as nat)
                    &&& forall|k: int|
                        #![trigger m[i].fields[k]]
                        1 <= k <= s.d ==> m[i].fields[k] == input[i * s.d + k - 1]
                    &&& m[i].count == F::sp_zero().sp_sub(
                        boolean::<F>(
                            if compact && i >= rate {
                                pair
                            } else {
                                op.in_ctl[i] && (!op.merkle_path || pair)
                            },
                        ),
                    )
                }
            &&& forall|i: int|
                #![trigger m[limbs + i]]
                0 <= i < rate ==> {
                    &&& m[limbs + i].fields[0] == F::sp_from((op.output_indices[i] * d) as nat)
                    &&& forall|k: int|
                        #![trigger m[limbs + i].fields[k]]
                        1 <= k <= s.d ==> m[limbs + i].fields[k] == image[i * s.d + k - 1]
                    &&& m[limbs + i].count == boolean::<F>(op.out_ctl[i])
                }
            &&& m.last().fields[0] == F::sp_from((op.mmcs_index_sum_idx * d) as nat)
            &&& m.last().fields[1] == w.local.last()
            &&& m.last().count == F::sp_zero().sp_sub(
                boolean::<F>(op.mmcs_ctl_enabled && op.merkle_path && next.new_start),
            )
        }),
{
    let m = poseidon1_rules::row_messages(s, w);
    let limbs = s.width_ext as int;
    let rate = s.rate_ext as int;
    let sd = s.d as int;
    let compact = s.d == 1 && s.width_ext == 2 * s.rate_ext;
    let columns = P::sp_columns(input);
    let image = P::sp_permuted(input);
    let p = s.permutation_columns as int;
    let width = limbs * sd;
    P::columns_frame(input);
    law_extracted_columns::<F, OF>(op, s.width_ext as nat, s.rate_ext as nat, d, compact);
    law_extracted_columns::<F, OF>(next, s.width_ext as nat, s.rate_ext as nat, d, compact);
    let pair = compact && given_pair(op, limbs as nat);
    lemma_not::<F>(op.merkle_path);
    lemma_and::<F>(op.mmcs_ctl_enabled && op.merkle_path, next.new_start);
    lemma_and::<F>(given_pair(op, limbs as nat), op.merkle_path);
    lemma_or::<F>(!op.merkle_path, given_pair(op, limbs as nat));
    assert forall|i: int, k: int| 0 <= i < limbs && 1 <= k <= sd implies 0 <= #[trigger] (i * sd + k
        - 1) < width by {
        assert(i * sd + sd <= limbs * sd) by (nonlinear_arith)
            requires
                0 <= i < limbs,
                sd >= 1,
        ;
        lemma_mul_nonnegative(i, sd);
    }
    assert forall|i: int|
        #![trigger m[i]]
        0 <= i < limbs implies {
        &&& m[i].fields[0] == F::sp_from((op.input_indices[i] * d) as nat)
        &&& forall|k: int|
            #![trigger m[i].fields[k]]
            1 <= k <= s.d ==> m[i].fields[k] == input[i * s.d + k - 1]
        &&& m[i].count == F::sp_zero().sp_sub(
            boolean::<F>(
                if compact && i >= rate {
                    pair
                } else {
                    op.in_ctl[i] && (!op.merkle_path || pair)
                },
            ),
        )
    } by {
        lemma_and::<F>(op.in_ctl[i], !op.merkle_path);
        lemma_and::<F>(op.in_ctl[i], !op.merkle_path || given_pair(op, limbs as nat));
        assert(m[i] == poseidon1_rules::input_message(s, w, i));
        assert forall|k: int| 1 <= k <= s.d implies #[trigger] m[i].fields[k] == input[i * s.d + k
            - 1] by {
            let at = i * sd + k - 1;
            assert(columns.take(P::sp_state_width() as int)[at] == columns[at]);
            assert(w.local.take(p)[at] == w.local[at]);
        }
    }
    assert forall|i: int|
        #![trigger m[limbs + i]]
        0 <= i < rate implies {
        &&& m[limbs + i].fields[0] == F::sp_from((op.output_indices[i] * d) as nat)
        &&& forall|k: int|
            #![trigger m[limbs + i].fields[k]]
            1 <= k <= s.d ==> m[limbs + i].fields[k] == image[i * s.d + k - 1]
        &&& m[limbs + i].count == boolean::<F>(op.out_ctl[i])
    } by {
        assert(m[limbs + i] == poseidon1_rules::output_message(s, w, i));
        assert(op.output_indices[i] == op.output_indices[i]);
        assert(op.out_ctl[i] == op.out_ctl[i]);
        assert forall|k: int| 1 <= k <= s.d implies #[trigger] m[limbs + i].fields[k] == image[i
            * s.d + k - 1] by {
            let at = i * sd + k - 1;
            assert(columns.skip(p - width)[at] == columns[p - width + at]);
            assert(w.local.take(p)[p - width + at] == w.local[p - width + at]);
        }
    }
}

/// Two adjacent rows chain exactly if the input of the next one continues from the image of the
/// current one as the next operation says.
///
/// A sponge row takes every element that is not looked up from the image. A left child of a Merkle
/// chain takes the digest as the first part of its input and a right child as the second part, and
/// its accumulator is twice the last one plus the direction bit. In the compact layout the capacity
/// of a sponge row is never looked up, and a sponge chain starts with an empty capacity.
pub proof fn law_chain_continues_from_image<F: CommutativeRing, P: PermutationColumns<F>, OF>(
    s: TableShape,
    w: Window<F>,
    input: Seq<F>,
    next_input: Seq<F>,
    op: Row<OF>,
    d: u32,
)
    requires
        s.wf(),
        s.framed(w),
        poseidon1_laws::canonical(w),
        s.width_ext * s.d == P::sp_state_width(),
        s.permutation_columns == P::sp_column_count(),
        input.len() == P::sp_state_width(),
        next_input.len() == P::sp_state_width(),
        w.local.take(s.permutation_columns as int) == P::sp_columns(input),
        w.next.take(s.permutation_columns as int) == P::sp_columns(next_input),
        w.next[s.permutation_columns as int] == boolean::<F>(op.mmcs_bit),
        w.preprocessed_next == poseidon1_laws::row_of::<F, OF>(s, op, d),
    ensures
        ({
            let compact = s.d == 1 && s.width_ext == 2 * s.rate_ext;
            let image = P::sp_permuted(input);
            let digest = s.rate_ext * s.d;
            let sum = w.local.last();
            &&& image.len() == input.len()
            &&& poseidon1_rules::rows_chain(s, w) <==> {
                &&& !op.new_start && !op.merkle_path ==> forall|k: int|
                    #![trigger next_input[k]]
                    0 <= k < input.len() && (!op.in_ctl[k / s.d as int] || compact && k >= digest)
                        ==> next_input[k] == image[k]
                &&& !op.new_start && op.merkle_path ==> {
                    &&& forall|k: int|
                        #![trigger image[k]]
                        0 <= k < digest && !op.in_ctl[k / s.d as int] ==> image[k]
                            == next_input[if op.mmcs_bit {
                            digest + k
                        } else {
                            k
                        }]
                    &&& w.next.last() == sum.sp_add(sum).sp_add(boolean::<F>(op.mmcs_bit))
                }
                &&& op.new_start && !op.merkle_path && compact ==> forall|k: int|
                    #![trigger next_input[k]]
                    digest <= k < input.len() ==> next_input[k] == F::sp_zero()
            }
        }),
{
    let image = P::sp_permuted(input);
    let p = s.permutation_columns as int;
    let width = s.width() as int;
    let digest = s.digest() as int;
    P::columns_frame(input);
    P::columns_frame(next_input);
    poseidon1_laws::law_rules_accept_what_follows::<F, OF>(s, w, op, d);
    lemma_mul_inequality(2 * s.rate_ext as int, s.width_ext as int, s.d as int);
    lemma_mul_is_associative(2, s.rate_ext as int, s.d as int);
    assert(width == input.len());
    assert forall|k: int| 0 <= k < width implies #[trigger] s.local_out(w, k) == image[k] by {
        let columns = P::sp_columns(input);
        assert(columns.skip(p - width)[k] == columns[p - width + k]);
        assert(w.local.take(p)[p - width + k] == w.local[p - width + k]);
    }
    assert forall|k: int| 0 <= k < width implies #[trigger] s.next_in(w, k) == next_input[k] by {
        let columns = P::sp_columns(next_input);
        assert(columns.take(width)[k] == columns[k]);
        assert(w.next.take(p)[k] == w.next[k]);
    }
    let compact = s.d == 1 && s.width_ext == 2 * s.rate_ext;
    if poseidon1_laws::follows(s, w, op) {
        assert forall|k: int| #![trigger next_input[k]]
            !op.new_start && !op.merkle_path && 0 <= k < input.len() && (!op.in_ctl[k / s.d as int]
                || compact && k >= digest) implies next_input[k] == image[k] by {
            assert(s.next_in(w, k) == next_input[k]);
            assert(s.local_out(w, k) == image[k]);
        }
        assert forall|k: int| #![trigger image[k]]
            !op.new_start && op.merkle_path && 0 <= k < digest && !op.in_ctl[k / s.d as int] implies
            image[k] == next_input[if op.mmcs_bit {
            digest + k
        } else {
            k
        }] by {
            assert(s.local_out(w, k) == image[k]);
            assert(s.next_in(
                w,
                if op.mmcs_bit {
                    digest + k
                } else {
                    k
                },
            ) == s.local_out(w, k));
        }
        assert forall|k: int| #![trigger next_input[k]]
            op.new_start && !op.merkle_path && compact && digest <= k < input.len() implies
            next_input[k] == F::sp_zero() by {
            assert(s.next_in(w, k) == next_input[k]);
        }
    }
    assert forall|k: int| 0 <= k < digest implies {
        &&& image[k] == #[trigger] s.local_out(w, k)
        &&& s.next_in(w, digest + k) == next_input[digest + k]
        &&& s.next_in(w, k) == next_input[k]
    } by {}
}

/// A generated table holds, for each operation, the columns of the permutation of its input, its
/// direction bit and its accumulator: on Merkle rows that continue a chain twice the one before plus
/// the direction bit, else the value that the operation carries.
pub proof fn law_generated_row_columns<
    F: Field,
    P: PermutationColumns<F>,
    const D: usize,
    const WIDTH: usize,
    const WIDTH_EXT: usize,
    const RATE_EXT: usize,
    const CAPACITY_EXT: usize,
    const WITNESS_EXT_D: usize,
>(ops: Seq<Row<F>>, i: nat)
    requires
        i < ops.len(),
        ops[i as int].input_values.len() == P::sp_state_width(),
        i > 0 ==> ops[i - 1].input_values.len() == P::sp_state_width(),
    ensures
        ({
            let row = |j: nat|
                Poseidon1CircuitAir::<
                    F,
                    P,
                    D,
                    WIDTH,
                    WIDTH_EXT,
                    RATE_EXT,
                    CAPACITY_EXT,
                    WITNESS_EXT_D,
                >::trace_row(ops, j);
            let op = ops[i as int];
            let n = P::sp_column_count() as int;
            let bit = boolean::<F>(op.mmcs_bit);
            &&& row(i).len() == n + 2
            &&& row(i).take(n) == P::sp_columns(op.input_values)
            &&& row(i)[n] == bit
            &&& op.new_start || !op.merkle_path || i == 0 ==> row(i)[n + 1] == op.mmcs_index_sum
            &&& !op.new_start && op.merkle_path && i > 0 ==> row(i)[n + 1] == row(
                (i - 1) as nat,
            )[n + 1].sp_add(row((i - 1) as nat)[n + 1]).sp_add(bit)
        }),
{
    let op = ops[i as int];
    P::columns_frame(op.input_values);
    if i > 0 {
        P::columns_frame(ops[i - 1].input_values);
    }
    let row = Poseidon1CircuitAir::<
        F,
        P,
        D,
        WIDTH,
        WIDTH_EXT,
        RATE_EXT,
        CAPACITY_EXT,
        WITNESS_EXT_D,
    >::trace_row(ops, i);
    assert(row.take(P::sp_column_count() as int) =~= P::sp_columns(op.input_values));
}

/// The flags of a preprocessed row: the chain selectors of its limbs, whether the capacity continues,
/// whether a chain starts, and whether the row is a Merkle row.
pub struct RowFlags {
    pub sponge: Seq<bool>,
    pub merkle: Seq<bool>,
    pub capacity: bool,
    pub start: bool,
    pub merkle_path: bool,
}

/// The next preprocessed row holds the flags at their places.
pub open spec fn flagged<F: Field>(s: TableShape, columns: Seq<F>, flags: RowFlags) -> bool {
    let rate = s.rate_ext as int;
    let compact = s.d == 1 && s.width_ext == 2 * s.rate_ext;
    let end = columns.len() as int;
    &&& flags.sponge.len() == if compact {
        rate
    } else {
        s.width_ext as int
    }
    &&& flags.merkle.len() == rate
    &&& forall|i: int|
        0 <= i < flags.sponge.len() ==> columns[if compact {
            rate + 2 + i
        } else {
            4 * i + 2
        }] == boolean::<F>(#[trigger] flags.sponge[i])
    &&& forall|i: int|
        0 <= i < flags.merkle.len() ==> columns[if compact {
            2 * rate + 2 + i
        } else {
            4 * i + 3
        }] == boolean::<F>(#[trigger] flags.merkle[i])
    &&& compact ==> columns[rate + 1] == boolean::<F>(flags.capacity)
    &&& columns[end - 2] == boolean::<F>(flags.start)
    &&& columns[end - 1] == boolean::<F>(flags.merkle_path)
}

/// The next row follows the current one as the flags say.
///
/// Limbs with a sponge selector continue from the output. Limbs of the digest with a Merkle selector
/// continue on the side of the direction bit. In the compact layout the capacity of a sponge row
/// continues or is empty, and in both cases the length tag is added to its first element. On Merkle
/// rows that do not start a chain the accumulator takes up the direction bit.
pub open spec fn follows_flags<F: Field>(
    s: TableShape,
    w: Window<F>,
    flags: RowFlags,
    bit: bool,
) -> bool {
    let compact = s.d == 1 && s.width_ext == 2 * s.rate_ext;
    let d = s.d as int;
    let width = s.width_ext * s.d;
    let digest = s.rate_ext * s.d;
    let p = s.permutation_columns as int;
    let out = w.local.subrange(p - width, p);
    let tag = w.preprocessed_next[s.rate_ext as int];
    &&& forall|k: int|
        #![trigger out[k]]
        0 <= k < flags.sponge.len() * d && flags.sponge[k / d] ==> w.next[k] == out[k]
    &&& forall|k: int|
        #![trigger out[k]]
        0 <= k < digest && flags.merkle[k / d] ==> w.next[if bit {
            digest + k
        } else {
            k
        }] == out[k]
    &&& compact && !flags.merkle_path ==> {
        &&& flags.capacity ==> forall|k: int|
            #![trigger out[k]]
            digest <= k < width ==> w.next[k] == if k == digest {
                out[k].sp_add(tag)
            } else {
                out[k]
            }
        &&& flags.start ==> forall|k: int|
            #![trigger w.next[k]]
            digest <= k < width ==> w.next[k] == if k == digest {
                tag
            } else {
                F::sp_zero()
            }
    }
    &&& !flags.start && flags.merkle_path ==> w.next[p + 1] == w.local[p + 1].sp_add(
        w.local[p + 1],
    ).sp_add(w.next[p])
}

proof fn lemma_tagged<F: CommutativeRing>(x: F, y: F, t: F)
    requires
        x.wf(),
        y.wf(),
        t.wf(),
    ensures
        x.sp_sub(y).sp_sub(t) == F::sp_zero() <==> x == y.sp_add(t),
        x.sp_sub(y).sp_sub(t).wf(),
{
    F::closed(x, y);
    F::closed(x.sp_sub(y), t);
    crate::field::lemma_difference(x.sp_sub(y), t);
    F::sub_add(x, y);
    F::add_commutes(t, y);
    F::sub_add(t, y);
}

proof fn lemma_flag_groups<F: CommutativeRing>(
    s: TableShape,
    w: Window<F>,
    flags: RowFlags,
    bit: bool,
)
    requires
        s.wf(),
        s.framed(w),
        poseidon1_laws::canonical(w),
        flagged(s, w.preprocessed_next, flags),
        w.preprocessed_next[s.rate_ext as int].wf(),
        w.next[s.permutation_columns as int] == boolean::<F>(bit),
    ensures
        forall|k: int|
            0 <= k < (if s.is_compact() {
                s.digest()
            } else {
                s.width()
            }) ==> (#[trigger] poseidon1_rules::sponge_chains(s, w, k) <==> (flags.sponge[k
                / s.d as int] ==> s.next_in(w, k) == s.local_out(w, k))),
        forall|k: int|
            0 <= k < s.digest() ==> (#[trigger] poseidon1_rules::merkle_chains_left(s, w, k) <==> (
            flags.merkle[k / s.d as int] && !bit ==> s.next_in(w, k) == s.local_out(w, k))),
        forall|k: int|
            0 <= k < s.digest() ==> (#[trigger] poseidon1_rules::merkle_chains_right(s, w, k) <==> (
            flags.merkle[k / s.d as int] && bit ==> s.next_in(w, s.digest() + k) == s.local_out(
                w,
                k,
            ))),
        s.is_compact() ==> forall|k: int|
            s.digest() <= k < s.width() ==> (#[trigger] poseidon1_rules::capacity_chains(s, w, k)
                <==> (flags.capacity && !flags.merkle_path ==> s.next_in(w, k) == if k == s.digest() {
                s.local_out(w, k).sp_add(w.preprocessed_next[s.rate_ext as int])
            } else {
                s.local_out(w, k)
            })),
        s.is_compact() ==> forall|k: int|
            s.digest() <= k < s.width() ==> (#[trigger] poseidon1_rules::capacity_starts(s, w, k)
                <==> (flags.start && !flags.merkle_path ==> s.next_in(w, k) == if k == s.digest() {
                w.preprocessed_next[s.rate_ext as int]
            } else {
                F::sp_zero()
            })),
        poseidon1_rules::accumulates(s, w) <==> (!flags.start && flags.merkle_path
            ==> w.next[s.permutation_columns + 1] == w.local[s.permutation_columns + 1].sp_add(
            w.local[s.permutation_columns + 1],
        ).sp_add(w.next[s.permutation_columns as int])),
{
    let p = s.permutation_columns as int;
    let digest = s.digest();
    let width = s.width();
    let d = s.d as int;
    lemma_mul_inequality(2 * s.rate_ext as int, s.width_ext as int, d);
    lemma_mul_is_associative(2, s.rate_ext as int, d);
    assert(2 * digest <= width);
    poseidon1_laws::lemma_flip::<F>(bit);
    poseidon1_laws::lemma_flip::<F>(flags.start);
    poseidon1_laws::lemma_flip::<F>(flags.merkle_path);
    F::closed(F::sp_zero(), F::sp_zero());
    let limbs = if s.is_compact() {
        s.rate_ext
    } else {
        s.width_ext
    };
    assert forall|k: int|
        0 <= k < (if s.is_compact() {
            digest
        } else {
            width
        }) implies (#[trigger] poseidon1_rules::sponge_chains(s, w, k) <==> (flags.sponge[k / d]
        ==> s.next_in(w, k) == s.local_out(w, k))) by {
        poseidon1_laws::lemma_limb(k, limbs as int, d);
        let (x, y) = (s.next_in(w, k), s.local_out(w, k));
        F::closed(x, y);
        assert(s.sponge_selector(w, k / d) == boolean::<F>(flags.sponge[k / d]));
        poseidon1_laws::lemma_gate(flags.sponge[k / d], x.sp_sub(y));
        crate::field::lemma_difference(x, y);
    }
    assert forall|k: int| 0 <= k < digest implies (#[trigger] poseidon1_rules::merkle_chains_left(
        s,
        w,
        k,
    ) <==> (flags.merkle[k / d] && !bit ==> s.next_in(w, k) == s.local_out(w, k))) by {
        poseidon1_laws::lemma_limb(k, s.rate_ext as int, d);
        let (x, y) = (s.next_in(w, k), s.local_out(w, k));
        F::closed(x, y);
        assert(s.merkle_selector(w, k / d) == boolean::<F>(flags.merkle[k / d]));
        poseidon1_laws::lemma_gates(flags.merkle[k / d], !bit, x.sp_sub(y));
        crate::field::lemma_difference(x, y);
    }
    assert forall|k: int| 0 <= k < digest implies (#[trigger] poseidon1_rules::merkle_chains_right(
        s,
        w,
        k,
    ) <==> (flags.merkle[k / d] && bit ==> s.next_in(w, digest + k) == s.local_out(w, k))) by {
        poseidon1_laws::lemma_limb(k, s.rate_ext as int, d);
        let (x, y) = (s.next_in(w, digest + k), s.local_out(w, k));
        F::closed(x, y);
        assert(s.merkle_selector(w, k / d) == boolean::<F>(flags.merkle[k / d]));
        poseidon1_laws::lemma_gates(flags.merkle[k / d], bit, x.sp_sub(y));
        crate::field::lemma_difference(x, y);
    }
    let tag = w.preprocessed_next[s.rate_ext as int];
    if s.is_compact() {
        assert forall|k: int| digest <= k < width implies (
        #[trigger] poseidon1_rules::capacity_chains(s, w, k) <==> (flags.capacity
            && !flags.merkle_path ==> s.next_in(w, k) == if k == digest {
            s.local_out(w, k).sp_add(tag)
        } else {
            s.local_out(w, k)
        })) by {
            let (x, y) = (s.next_in(w, k), s.local_out(w, k));
            let t = poseidon1_rules::tag_of(s, w, k);
            lemma_tagged(x, y, t);
            poseidon1_laws::lemma_gates(
                flags.capacity,
                !flags.merkle_path,
                x.sp_sub(y).sp_sub(t),
            );
            F::add_zero(y);
        }
        assert forall|k: int| digest <= k < width implies (
        #[trigger] poseidon1_rules::capacity_starts(s, w, k) <==> (flags.start
            && !flags.merkle_path ==> s.next_in(w, k) == if k == digest {
            tag
        } else {
            F::sp_zero()
        })) by {
            let x = s.next_in(w, k);
            let t = poseidon1_rules::tag_of(s, w, k);
            F::closed(x, t);
            poseidon1_laws::lemma_gates(flags.start, !flags.merkle_path, x.sp_sub(t));
            crate::field::lemma_difference(x, t);
        }
    }
    let (sum, next_sum, next_bit) = (w.local[p + 1], w.next[p + 1], w.next[p]);
    let expected = sum.sp_add(sum).sp_add(next_bit);
    F::mul_distributes(sum, F::sp_one(), F::sp_one());
    F::mul_one(sum);
    F::closed(sum.sp_add(sum), next_bit);
    F::closed(next_sum, expected);
    poseidon1_laws::lemma_gates(!flags.start, flags.merkle_path, next_sum.sp_sub(expected));
    crate::field::lemma_difference(next_sum, expected);
}

/// Whatever flags the next row has, the constraints between two rows accept exactly the rows that
/// follow each other as the flags say.
#[verifier::rlimit(40)]
#[verifier::spinoff_prover]
pub proof fn law_rules_follow_flags<F: CommutativeRing>(
    s: TableShape,
    w: Window<F>,
    flags: RowFlags,
    bit: bool,
)
    requires
        s.wf(),
        s.framed(w),
        poseidon1_laws::canonical(w),
        flagged(s, w.preprocessed_next, flags),
        w.preprocessed_next[s.rate_ext as int].wf(),
        w.next[s.permutation_columns as int] == boolean::<F>(bit),
    ensures
        poseidon1_rules::rows_chain(s, w) <==> follows_flags(s, w, flags, bit),
{
    lemma_flag_groups(s, w, flags, bit);
    let p = s.permutation_columns as int;
    let digest = s.digest() as int;
    let width = s.width() as int;
    let d = s.d as int;
    let compact = s.is_compact();
    lemma_mul_inequality(2 * s.rate_ext as int, s.width_ext as int, d);
    lemma_mul_is_associative(2, s.rate_ext as int, d);
    let out = w.local.subrange(p - width, p);
    let tag = w.preprocessed_next[s.rate_ext as int];
    assert forall|k: int| 0 <= k < width implies #[trigger] s.local_out(w, k) == out[k] by {}
    assert(flags.sponge.len() * d == if compact {
        digest
    } else {
        width
    });
    if poseidon1_rules::rows_chain(s, w) {
        assert forall|k: int|
            #![trigger out[k]]
            0 <= k < flags.sponge.len() * d && flags.sponge[k / d] implies w.next[k] == out[k] by {
            assert(poseidon1_rules::sponge_chains(s, w, k));
            assert(s.local_out(w, k) == out[k]);
        }
        assert forall|k: int|
            #![trigger out[k]]
            0 <= k < digest && flags.merkle[k / d] implies w.next[if bit {
            digest + k
        } else {
            k
        }] == out[k] by {
            assert(poseidon1_rules::merkle_chains_left(s, w, k));
            assert(poseidon1_rules::merkle_chains_right(s, w, k));
            assert(s.local_out(w, k) == out[k]);
        }
        if compact {
            assert forall|k: int|
                #![trigger out[k]]
                flags.capacity && !flags.merkle_path && digest <= k < width implies w.next[k]
                == if k == digest {
                out[k].sp_add(tag)
            } else {
                out[k]
            } by {
                assert(poseidon1_rules::capacity_chains(s, w, k));
                assert(s.local_out(w, k) == out[k]);
            }
            assert forall|k: int|
                #![trigger w.next[k]]
                flags.start && !flags.merkle_path && digest <= k < width implies w.next[k]
                == if k == digest {
                tag
            } else {
                F::sp_zero()
            } by {
                assert(poseidon1_rules::capacity_starts(s, w, k));
            }
        }
    }
    if follows_flags(s, w, flags, bit) {
        assert forall|k: int|
            0 <= k < (if compact {
                digest
            } else {
                width
            }) implies #[trigger] poseidon1_rules::sponge_chains(s, w, k) by {
            assert(s.local_out(w, k) == out[k]);
        }
        assert forall|k: int| 0 <= k < digest implies #[trigger] poseidon1_rules::merkle_chains_left(
            s,
            w,
            k,
        ) by {
            assert(s.local_out(w, k) == out[k]);
        }
        assert forall|k: int|
            0 <= k < digest implies #[trigger] poseidon1_rules::merkle_chains_right(s, w, k) by {
            assert(s.local_out(w, k) == out[k]);
        }
        if compact {
            assert forall|k: int|
                digest <= k < width implies #[trigger] poseidon1_rules::capacity_chains(
                s,
                w,
                k,
            ) by {
                assert(s.local_out(w, k) == out[k]);
            }
            assert forall|k: int|
                digest <= k < width implies #[trigger] poseidon1_rules::capacity_starts(
                s,
                w,
                k,
            ) by {
                assert(w.next[k] == s.next_in(w, k));
            }
        }
    }
}

} // verus!
