//! What the constraints of the Poseidon1 table mean for rows made from operations.

use vstd::arithmetic::div_mod::*;
use vstd::arithmetic::mul::*;
use vstd::prelude::*;

use crate::air_expr::Window;
use crate::context::Row;
use crate::field;
use crate::field::{CommutativeRing, Field};
use crate::layout;
use crate::layout::{PoseidonPrepInputLimb, PoseidonPrepOutputLimb};
use crate::poseidon1_air;
use crate::poseidon1_air::Poseidon1CircuitAir;
use crate::poseidon1_rules;
use crate::poseidon1_rules::{PermutationColumns, TableShape};

verus! {

proof fn lemma_input_column_at<T>(limbs: Seq<PoseidonPrepInputLimb<T>>, n: nat, i: int)
    requires
        0 <= i < n,
    ensures
        layout::input_columns(limbs, n).len() == 4 * n,
        layout::input_columns(limbs, n)[4 * i] == limbs[i].idx,
        layout::input_columns(limbs, n)[4 * i + 1] == limbs[i].in_ctl,
        layout::input_columns(limbs, n)[4 * i + 2] == limbs[i].normal_chain_sel,
        layout::input_columns(limbs, n)[4 * i + 3] == limbs[i].merkle_chain_sel,
    decreases n,
{
    lemma_input_len(limbs, (n - 1) as nat);
    if i < n - 1 {
        lemma_input_column_at(limbs, (n - 1) as nat, i);
    }
}

proof fn lemma_input_len<T>(limbs: Seq<PoseidonPrepInputLimb<T>>, n: nat)
    ensures
        layout::input_columns(limbs, n).len() == 4 * n,
    decreases n,
{
    if n > 0 {
        lemma_input_len(limbs, (n - 1) as nat);
    }
}

proof fn lemma_output_len<T>(limbs: Seq<PoseidonPrepOutputLimb<T>>, n: nat)
    ensures
        layout::output_columns(limbs, n).len() == 2 * n,
    decreases n,
{
    if n > 0 {
        lemma_output_len(limbs, (n - 1) as nat);
    }
}

/// The preprocessed row that an operation is extracted to in a table.
pub open spec fn row_of<F: Field, OF>(s: TableShape, op: Row<OF>, d: u32) -> Seq<F> {
    poseidon1_air::extracted_row::<F, OF>(
        op,
        s.width_ext as nat,
        s.rate_ext as nat,
        d,
        s.is_compact(),
    )
}

/// An extracted row has exactly the columns that the table announces.
pub proof fn law_extracted_row_fills_width<F: Field, OF>(s: TableShape, op: Row<OF>, d: u32)
    ensures
        row_of::<F, OF>(s, op, d).len() == s.preprocessed_width(),
{
    if !s.is_compact() {
        lemma_input_len(
            Seq::new(
                s.width_ext as nat,
                |i: int| poseidon1_air::extracted_input::<F, OF>(op, i, d),
            ),
            s.width_ext as nat,
        );
        lemma_output_len(
            Seq::new(
                s.rate_ext as nat,
                |i: int| poseidon1_air::extracted_output::<F, OF>(op, i, d),
            ),
            s.rate_ext as nat,
        );
    }
}

/// The columns that constraints read from an extracted row.
proof fn lemma_extracted_columns<F: Field, OF>(s: TableShape, w: Window<F>, op: Row<OF>, d: u32)
    requires
        s.wf(),
        w.preprocessed_next == row_of::<F, OF>(s, op, d),
    ensures
        s.next_new_start(w) == poseidon1_air::boolean::<F>(op.new_start),
        s.next_merkle_path(w) == poseidon1_air::boolean::<F>(op.merkle_path),
        forall|limb: int|
            0 <= limb < (if s.is_compact() {
                s.rate_ext
            } else {
                s.width_ext
            }) ==> #[trigger] s.sponge_selector(w, limb) == poseidon1_air::boolean::<F>(
                !op.new_start && !op.merkle_path && !op.in_ctl[limb],
            ),
        forall|limb: int|
            0 <= limb < s.rate_ext ==> #[trigger] s.merkle_selector(w, limb)
                == poseidon1_air::boolean::<F>(
                !op.new_start && op.merkle_path && !op.in_ctl[limb],
            ),
        s.is_compact() ==> s.length_tag(w) == poseidon1_air::boolean::<F>(
            poseidon1_air::compresses_pair(op, s.width_ext as nat),
        ),
        s.is_compact() ==> s.capacity_chain(w) == poseidon1_air::boolean::<F>(!op.new_start),
{
    law_extracted_row_fills_width::<F, OF>(s, op, d);
    if !s.is_compact() {
        let limbs = Seq::new(
            s.width_ext as nat,
            |i: int| poseidon1_air::extracted_input::<F, OF>(op, i, d),
        );
        lemma_input_len(limbs, s.width_ext as nat);
        lemma_output_len(
            Seq::new(
                s.rate_ext as nat,
                |i: int| poseidon1_air::extracted_output::<F, OF>(op, i, d),
            ),
            s.rate_ext as nat,
        );
        assert forall|limb: int| 0 <= limb < s.width_ext implies #[trigger] s.sponge_selector(
            w,
            limb,
        ) == poseidon1_air::boolean::<F>(
            !op.new_start && !op.merkle_path && !op.in_ctl[limb],
        ) by {
            lemma_input_column_at(limbs, s.width_ext as nat, limb);
        }
        assert forall|limb: int| 0 <= limb < s.rate_ext implies #[trigger] s.merkle_selector(
            w,
            limb,
        ) == poseidon1_air::boolean::<F>(
            !op.new_start && op.merkle_path && !op.in_ctl[limb],
        ) by {
            lemma_input_column_at(limbs, s.width_ext as nat, limb);
        }
    }
}

/// The next row continues the current one as the operation says.
pub open spec fn follows<F: Field, OF>(s: TableShape, w: Window<F>, op: Row<OF>) -> bool {
    let p = s.permutation_columns as int;
    let rate = if s.is_compact() {
        s.digest()
    } else {
        s.width()
    };
    if op.new_start {
        s.is_compact() && !op.merkle_path ==> forall|k: int|
            s.digest() <= k < s.width() ==> #[trigger] s.next_in(w, k) == F::sp_zero()
    } else if op.merkle_path {
        &&& forall|k: int|
            0 <= k < s.digest() && !op.in_ctl[k / s.d as int] ==> s.next_in(
                w,
                if op.mmcs_bit {
                    s.digest() + k
                } else {
                    k
                },
            ) == #[trigger] s.local_out(w, k)
        &&& w.next[p + 1] == w.local[p + 1].sp_add(w.local[p + 1]).sp_add(w.next[p])
    } else {
        &&& forall|k: int|
            0 <= k < rate && !op.in_ctl[k / s.d as int] ==> #[trigger] s.next_in(w, k)
                == s.local_out(w, k)
        &&& s.is_compact() ==> forall|k: int|
            s.digest() <= k < s.width() ==> #[trigger] s.next_in(w, k) == s.local_out(w, k)
    }
}

/// All elements of the rows are canonical.
pub open spec fn canonical<F: Field>(w: Window<F>) -> bool {
    &&& forall|i: int| 0 <= i < w.local.len() ==> (#[trigger] w.local[i]).wf()
    &&& forall|i: int| 0 <= i < w.next.len() ==> (#[trigger] w.next[i]).wf()
}

pub proof fn lemma_gate<F: CommutativeRing>(b: bool, x: F)
    requires
        x.wf(),
    ensures
        poseidon1_air::boolean::<F>(b).sp_mul(x) == (if b {
            x
        } else {
            F::sp_zero()
        }),
{
    F::mul_commutes(poseidon1_air::boolean::<F>(b), x);
    if b {
        F::mul_one(x);
    } else {
        F::mul_zero(x);
    }
}

pub proof fn lemma_flip<F: CommutativeRing>(b: bool)
    ensures
        poseidon1_rules::flipped(poseidon1_air::boolean::<F>(b)) == poseidon1_air::boolean::<F>(!b),
        poseidon1_air::boolean::<F>(b).wf(),
{
    F::closed(F::sp_one(), F::sp_one());
    field::lemma_difference(F::sp_one(), F::sp_one());
    // 1 - 0 = 1
    F::sub_add(F::sp_one(), F::sp_zero());
    F::closed(F::sp_one(), F::sp_zero());
    F::add_zero(F::sp_one().sp_sub(F::sp_zero()));
}

pub proof fn lemma_gates<F: CommutativeRing>(a: bool, b: bool, x: F)
    requires
        x.wf(),
    ensures
        poseidon1_air::boolean::<F>(a).sp_mul(poseidon1_air::boolean::<F>(b)).sp_mul(x) == (if a
            && b {
            x
        } else {
            F::sp_zero()
        }),
        poseidon1_air::boolean::<F>(a).sp_mul(poseidon1_air::boolean::<F>(b).sp_mul(x)) == (if a
            && b {
            x
        } else {
            F::sp_zero()
        }),
{
    let pa = poseidon1_air::boolean::<F>(a);
    let pb = poseidon1_air::boolean::<F>(b);
    F::mul_associates(pa, pb, x);
    lemma_gate(b, x);
    F::closed(x, x);
    lemma_gate(a, pb.sp_mul(x));
}

/// The constraints between two rows accept exactly the rows that follow each other as the operation
/// of the second row says: limbs that are not looked up continue the chain, in Merkle mode on the
/// side of the direction bit, and the accumulator takes up the direction bit. The preprocessed
/// columns are those that are extracted from the operation.
pub proof fn law_rules_accept_what_follows<F: CommutativeRing, OF>(
    s: TableShape,
    w: Window<F>,
    op: Row<OF>,
    d: u32,
)
    requires
        s.wf(),
        s.framed(w),
        canonical(w),
        w.preprocessed_next == row_of::<F, OF>(s, op, d),
        s.next_bit(w) == poseidon1_air::boolean::<F>(op.mmcs_bit),
    ensures
        poseidon1_rules::rows_chain(s, w) <==> follows(s, w, op),
{
    lemma_extracted_columns::<F, OF>(s, w, op, d);
    let width = s.width();
    let digest = s.digest();
    let p = s.permutation_columns as int;
    lemma_mul_inequality(2 * s.rate_ext as int, s.width_ext as int, s.d as int);
    lemma_mul_is_associative(2, s.rate_ext as int, s.d as int);
    assert(2 * digest <= width);
    lemma_flip::<F>(op.mmcs_bit);
    lemma_flip::<F>(op.new_start);
    lemma_flip::<F>(op.merkle_path);
    let continues = !op.new_start;
    let rate = if s.is_compact() {
        digest
    } else {
        width
    };
    let limbs = if s.is_compact() {
        s.rate_ext
    } else {
        s.width_ext
    };
    assert forall|k: int| 0 <= k < rate implies (#[trigger] poseidon1_rules::sponge_chains(s, w, k)
        <==> (continues && !op.merkle_path && !op.in_ctl[k / s.d as int] ==> s.next_in(w, k)
        == s.local_out(w, k))) by {
        lemma_limb(k, limbs as int, s.d as int);
        let x = s.next_in(w, k);
        let y = s.local_out(w, k);
        F::closed(x, y);
        lemma_gate(continues && !op.merkle_path && !op.in_ctl[k / s.d as int], x.sp_sub(y));
        field::lemma_difference(x, y);
    }
    assert forall|k: int| 0 <= k < digest implies (#[trigger] poseidon1_rules::merkle_chains_left(
        s,
        w,
        k,
    ) <==> (continues && op.merkle_path && !op.in_ctl[k / s.d as int] && !op.mmcs_bit ==> s.next_in(
        w,
        k,
    ) == s.local_out(w, k))) by {
        lemma_limb(k, s.rate_ext as int, s.d as int);
        let x = s.next_in(w, k);
        let y = s.local_out(w, k);
        F::closed(x, y);
        lemma_gates(
            continues && op.merkle_path && !op.in_ctl[k / s.d as int],
            !op.mmcs_bit,
            x.sp_sub(y),
        );
        field::lemma_difference(x, y);
    }
    assert forall|k: int| 0 <= k < digest implies (#[trigger] poseidon1_rules::merkle_chains_right(
        s,
        w,
        k,
    ) <==> (continues && op.merkle_path && !op.in_ctl[k / s.d as int] && op.mmcs_bit ==> s.next_in(
        w,
        digest + k,
    ) == s.local_out(w, k))) by {
        lemma_limb(k, s.rate_ext as int, s.d as int);
        let x = s.next_in(w, digest + k);
        let y = s.local_out(w, k);
        F::closed(x, y);
        lemma_gates(
            continues && op.merkle_path && !op.in_ctl[k / s.d as int],
            op.mmcs_bit,
            x.sp_sub(y),
        );
        field::lemma_difference(x, y);
    }
    let sum = w.local[p + 1];
    let next_sum = w.next[p + 1];
    let bit = w.next[p];
    assert(poseidon1_rules::accumulates(s, w) <==> (continues && op.merkle_path ==> next_sum
        == sum.sp_add(sum).sp_add(bit))) by {
        F::mul_distributes(sum, F::sp_one(), F::sp_one());
        F::mul_one(sum);
        F::closed(sum.sp_add(sum), bit);
        F::closed(next_sum, sum.sp_add(sum).sp_add(bit));
        lemma_gates(continues, op.merkle_path, next_sum.sp_sub(sum.sp_add(sum).sp_add(bit)));
        field::lemma_difference(next_sum, sum.sp_add(sum).sp_add(bit));
    }
    if s.is_compact() {
        lemma_capacity::<F, OF>(s, w, op, d);
    }
    if poseidon1_rules::rows_chain(s, w) {
        lemma_chain_follows(s, w, op);
    }
    if follows(s, w, op) {
        lemma_follows_chain(s, w, op);
    }
}

/// The rules of the capacity, for rows that are extracted from operations.
proof fn lemma_capacity<F: CommutativeRing, OF>(s: TableShape, w: Window<F>, op: Row<OF>, d: u32)
    requires
        s.wf(),
        s.framed(w),
        s.is_compact(),
        canonical(w),
        w.preprocessed_next == row_of::<F, OF>(s, op, d),
    ensures
        forall|k: int|
            s.digest() <= k < s.width() ==> (#[trigger] poseidon1_rules::capacity_chains(s, w, k)
                <==> (!op.new_start && !op.merkle_path ==> s.next_in(w, k) == s.local_out(w, k))),
        forall|k: int|
            s.digest() <= k < s.width() ==> (#[trigger] poseidon1_rules::capacity_starts(s, w, k)
                <==> (op.new_start && !op.merkle_path ==> s.next_in(w, k) == F::sp_zero())),
{
    lemma_extracted_columns::<F, OF>(s, w, op, d);
    lemma_flip::<F>(op.merkle_path);
    let tagged = poseidon1_air::compresses_pair(op, s.width_ext as nat);
    lemma_flip::<F>(tagged);
    F::closed(F::sp_zero(), F::sp_zero());
    assert forall|k: int| s.digest() <= k < s.width() implies (
    #[trigger] poseidon1_rules::capacity_chains(s, w, k) <==> (!op.new_start && !op.merkle_path
        ==> s.next_in(w, k) == s.local_out(w, k))) by {
        let x = s.next_in(w, k);
        let y = s.local_out(w, k);
        let tag = poseidon1_rules::tag_of(s, w, k);
        F::closed(x, y);
        F::closed(x.sp_sub(y), tag);
        lemma_gates(!op.new_start, !op.merkle_path, x.sp_sub(y).sp_sub(tag));
        if !op.merkle_path {
            assert(tag == F::sp_zero());
            lemma_minus_zero(x.sp_sub(y));
            field::lemma_difference(x, y);
        }
    }
    assert forall|k: int| s.digest() <= k < s.width() implies (
    #[trigger] poseidon1_rules::capacity_starts(s, w, k) <==> (op.new_start && !op.merkle_path
        ==> s.next_in(w, k) == F::sp_zero())) by {
        let x = s.next_in(w, k);
        let tag = poseidon1_rules::tag_of(s, w, k);
        F::closed(x, tag);
        lemma_gates(op.new_start, !op.merkle_path, x.sp_sub(tag));
        if !op.merkle_path {
            assert(tag == F::sp_zero());
            lemma_minus_zero(x);
        }
    }
}

proof fn lemma_minus_zero<F: CommutativeRing>(x: F)
    requires
        x.wf(),
    ensures
        x.sp_sub(F::sp_zero()) == x,
{
    F::closed(x, F::sp_zero());
    F::sub_add(x, F::sp_zero());
    F::add_zero(x.sp_sub(F::sp_zero()));
}

pub proof fn lemma_limb(k: int, limbs: int, d: int)
    requires
        0 <= k < limbs * d,
        d > 0,
    ensures
        0 <= k / d < limbs,
{
    lemma_fundamental_div_mod(k, d);
    lemma_div_pos_is_pos(k, d);
    assert(k / d < limbs) by (nonlinear_arith)
        requires
            k < limbs * d,
            k == d * (k / d) + k % d,
            0 <= k % d,
            d > 0,
    ;
}

/// What each rule demands of the operation, rule by rule.
spec fn rules_read<F: Field, OF>(s: TableShape, w: Window<F>, op: Row<OF>) -> bool {
    let p = s.permutation_columns as int;
    let rate = if s.is_compact() {
        s.digest()
    } else {
        s.width()
    };
    &&& forall|k: int|
        0 <= k < rate ==> (#[trigger] poseidon1_rules::sponge_chains(s, w, k) <==> (!op.new_start
            && !op.merkle_path && !op.in_ctl[k / s.d as int] ==> s.next_in(w, k) == s.local_out(
            w,
            k,
        )))
    &&& forall|k: int|
        0 <= k < s.digest() ==> (#[trigger] poseidon1_rules::merkle_chains_left(s, w, k) <==> (
        !op.new_start && op.merkle_path && !op.in_ctl[k / s.d as int] && !op.mmcs_bit
            ==> s.next_in(w, k) == s.local_out(w, k)))
    &&& forall|k: int|
        0 <= k < s.digest() ==> (#[trigger] poseidon1_rules::merkle_chains_right(s, w, k) <==> (
        !op.new_start && op.merkle_path && !op.in_ctl[k / s.d as int] && op.mmcs_bit ==> s.next_in(
            w,
            s.digest() + k,
        ) == s.local_out(w, k)))
    &&& poseidon1_rules::accumulates(s, w) <==> (!op.new_start && op.merkle_path ==> w.next[p + 1]
        == w.local[p + 1].sp_add(w.local[p + 1]).sp_add(w.next[p]))
    &&& s.is_compact() ==> forall|k: int|
        s.digest() <= k < s.width() ==> (#[trigger] poseidon1_rules::capacity_chains(s, w, k)
            <==> (!op.new_start && !op.merkle_path ==> s.next_in(w, k) == s.local_out(w, k)))
    &&& s.is_compact() ==> forall|k: int|
        s.digest() <= k < s.width() ==> (#[trigger] poseidon1_rules::capacity_starts(s, w, k)
            <==> (op.new_start && !op.merkle_path ==> s.next_in(w, k) == F::sp_zero()))
}

proof fn lemma_chain_follows<F: Field, OF>(s: TableShape, w: Window<F>, op: Row<OF>)
    requires
        rules_read(s, w, op),
        poseidon1_rules::rows_chain(s, w),
    ensures
        follows(s, w, op),
{
    let rate = if s.is_compact() {
        s.digest()
    } else {
        s.width()
    };
    if op.new_start {
        if s.is_compact() && !op.merkle_path {
            assert forall|k: int| s.digest() <= k < s.width() implies #[trigger] s.next_in(w, k)
                == F::sp_zero() by {
                assert(poseidon1_rules::capacity_starts(s, w, k));
            }
        }
    } else if op.merkle_path {
        assert forall|k: int| 0 <= k < s.digest() && !op.in_ctl[k / s.d as int] implies s.next_in(
            w,
            if op.mmcs_bit {
                s.digest() + k
            } else {
                k
            },
        ) == #[trigger] s.local_out(w, k) by {
            assert(poseidon1_rules::merkle_chains_left(s, w, k));
            assert(poseidon1_rules::merkle_chains_right(s, w, k));
        }
    } else {
        assert forall|k: int| 0 <= k < rate && !op.in_ctl[k / s.d as int] implies #[trigger] s.next_in(
            w,
            k,
        ) == s.local_out(w, k) by {
            assert(poseidon1_rules::sponge_chains(s, w, k));
        }
        if s.is_compact() {
            assert forall|k: int| s.digest() <= k < s.width() implies #[trigger] s.next_in(w, k)
                == s.local_out(w, k) by {
                assert(poseidon1_rules::capacity_chains(s, w, k));
            }
        }
    }
}

proof fn lemma_follows_chain<F: Field, OF>(s: TableShape, w: Window<F>, op: Row<OF>)
    requires
        rules_read(s, w, op),
        follows(s, w, op),
    ensures
        poseidon1_rules::rows_chain(s, w),
{
    let rate = if s.is_compact() {
        s.digest()
    } else {
        s.width()
    };
    assert forall|k: int| 0 <= k < rate implies #[trigger] poseidon1_rules::sponge_chains(
        s,
        w,
        k,
    ) by {
        if !op.new_start && !op.merkle_path && !op.in_ctl[k / s.d as int] {
            assert(s.next_in(w, k) == s.local_out(w, k));
        }
    }
    assert forall|k: int| 0 <= k < s.digest() implies #[trigger] poseidon1_rules::merkle_chains_left(
        s,
        w,
        k,
    ) by {
        if !op.new_start && op.merkle_path && !op.in_ctl[k / s.d as int] && !op.mmcs_bit {
            assert(s.next_in(
                w,
                if op.mmcs_bit {
                    s.digest() + k
                } else {
                    k
                },
            ) == s.local_out(w, k));
        }
    }
    assert forall|k: int| 0 <= k < s.digest() implies #[trigger] poseidon1_rules::merkle_chains_right(
        s,
        w,
        k,
    ) by {
        if !op.new_start && op.merkle_path && !op.in_ctl[k / s.d as int] && op.mmcs_bit {
            assert(s.next_in(
                w,
                if op.mmcs_bit {
                    s.digest() + k
                } else {
                    k
                },
            ) == s.local_out(w, k));
        }
    }
    if s.is_compact() {
        assert forall|k: int| s.digest() <= k < s.width() implies #[trigger] poseidon1_rules::capacity_chains(
            s,
            w,
            k,
        ) by {
            if !op.new_start && !op.merkle_path {
                assert(s.next_in(w, k) == s.local_out(w, k));
            }
        }
        assert forall|k: int| s.digest() <= k < s.width() implies #[trigger] poseidon1_rules::capacity_starts(
            s,
            w,
            k,
        ) by {
            if op.new_start && !op.merkle_path {
                assert(s.next_in(w, k) == F::sp_zero());
            }
        }
    }
}

/// A preprocessed padding row: zeros, and a chain start on the first one.
pub open spec fn padding_row<F: Field>(s: TableShape, first: bool) -> Seq<F> {
    Seq::new(
        s.preprocessed_width(),
        |i: int|
            if first && i == s.tail() + 2 {
                F::sp_one()
            } else {
                F::sp_zero()
            },
    )
}

/// No constraint ties a padding row to the row before it. In the compact layout the first padding
/// row starts a sponge chain, so its capacity must be zero.
pub proof fn law_padding_rows_are_inactive<F: CommutativeRing>(
    s: TableShape,
    w: Window<F>,
    first: bool,
)
    requires
        s.wf(),
        s.framed(w),
        canonical(w),
        w.preprocessed_next == padding_row::<F>(s, first),
        s.is_compact() && first ==> forall|k: int|
            s.digest() <= k < s.width() ==> #[trigger] s.next_in(w, k) == F::sp_zero(),
    ensures
        poseidon1_rules::rows_chain(s, w),
{
    let zero = F::sp_zero();
    lemma_mul_inequality(2 * s.rate_ext as int, s.width_ext as int, s.d as int);
    lemma_mul_is_associative(2, s.rate_ext as int, s.d as int);
    let rate = if s.is_compact() {
        s.digest()
    } else {
        s.width()
    };
    let limbs = if s.is_compact() {
        s.rate_ext
    } else {
        s.width_ext
    };
    assert forall|x: F| #[trigger] zero.sp_mul(x) == zero by {
        F::mul_commutes(zero, x);
        F::mul_zero(x);
    }
    assert forall|x: F| #[trigger] x.sp_mul(zero) == zero by {
        F::mul_zero(x);
    }
    assert forall|k: int| 0 <= k < rate implies #[trigger] poseidon1_rules::sponge_chains(
        s,
        w,
        k,
    ) by {
        lemma_limb(k, limbs as int, s.d as int);
        assert(s.sponge_selector(w, k / s.d as int) == zero);
    }
    assert forall|k: int| 0 <= k < s.digest() implies #[trigger] poseidon1_rules::merkle_chains_left(
        s,
        w,
        k,
    ) by {
        lemma_limb(k, s.rate_ext as int, s.d as int);
        assert(s.merkle_selector(w, k / s.d as int) == zero);
    }
    assert forall|k: int| 0 <= k < s.digest() implies #[trigger] poseidon1_rules::merkle_chains_right(
        s,
        w,
        k,
    ) by {
        lemma_limb(k, s.rate_ext as int, s.d as int);
        assert(s.merkle_selector(w, k / s.d as int) == zero);
    }
    assert(s.next_merkle_path(w) == zero);
    assert(poseidon1_rules::accumulates(s, w));
    if s.is_compact() {
        assert forall|k: int| s.digest() <= k < s.width() implies #[trigger] poseidon1_rules::capacity_chains(
            s,
            w,
            k,
        ) by {
            assert(s.capacity_chain(w) == zero);
        }
        F::closed(zero, zero);
        lemma_minus_zero(zero);
        assert forall|k: int| s.digest() <= k < s.width() implies #[trigger] poseidon1_rules::capacity_starts(
            s,
            w,
            k,
        ) by {
            if first {
                assert(s.next_in(w, k) == zero);
                assert(poseidon1_rules::tag_of(s, w, k) == zero);
            } else {
                assert(s.next_new_start(w) == zero);
            }
        }
    }
}

/// On a generated trace every direction bit is boolean, and on Merkle rows that continue a chain the
/// accumulator takes up the direction bit.
pub proof fn law_generated_rows_accumulate<
    F: CommutativeRing,
    P: PermutationColumns<F>,
    const D: usize,
    const WIDTH: usize,
    const WIDTH_EXT: usize,
    const RATE_EXT: usize,
    const CAPACITY_EXT: usize,
    const WITNESS_EXT_D: usize,
>(ops: Seq<Row<F>>, i: nat, w: Window<F>)
    requires
        i + 1 < ops.len(),
        ops[i as int].input_values.len() == P::sp_state_width(),
        ops[i as int + 1].input_values.len() == P::sp_state_width(),
        P::sp_column_count() <= usize::MAX,
        w.local == Poseidon1CircuitAir::<
            F,
            P,
            D,
            WIDTH,
            WIDTH_EXT,
            RATE_EXT,
            CAPACITY_EXT,
            WITNESS_EXT_D,
        >::trace_row(ops, i),
        w.next == Poseidon1CircuitAir::<
            F,
            P,
            D,
            WIDTH,
            WIDTH_EXT,
            RATE_EXT,
            CAPACITY_EXT,
            WITNESS_EXT_D,
        >::trace_row(ops, i + 1),
    ensures
        poseidon1_rules::bit_is_boolean(
            Poseidon1CircuitAir::<
                F,
                P,
                D,
                WIDTH,
                WIDTH_EXT,
                RATE_EXT,
                CAPACITY_EXT,
                WITNESS_EXT_D,
            >::shape(),
            w,
        ),
        ops[i as int + 1].merkle_path && !ops[i as int + 1].new_start ==> {
            let p = P::sp_column_count() as int;
            w.next[p + 1] == w.local[p + 1].sp_add(w.local[p + 1]).sp_add(w.next[p])
        },
{
    P::columns_frame(ops[i as int].input_values);
    P::columns_frame(ops[i as int + 1].input_values);
    let bit = ops[i as int].mmcs_bit;
    let b = poseidon1_air::boolean::<F>(bit);
    lemma_flip::<F>(bit);
    F::closed(F::sp_one(), F::sp_one());
    if bit {
        field::lemma_difference(F::sp_one(), F::sp_one());
        F::mul_zero(b);
    } else {
        F::mul_commutes(b, b.sp_sub(F::sp_one()));
        F::mul_zero(b.sp_sub(F::sp_one()));
    }
}

/// A generated row obeys the permutation.
pub proof fn law_generated_rows_permute<
    F: Field,
    P: PermutationColumns<F>,
    const D: usize,
    const WIDTH: usize,
    const WIDTH_EXT: usize,
    const RATE_EXT: usize,
    const CAPACITY_EXT: usize,
    const WITNESS_EXT_D: usize,
>(ops: Seq<Row<F>>, i: nat)
    requires
        i < ops.len(),
        ops[i as int].input_values.len() == P::sp_state_width(),
    ensures
        poseidon1_rules::permutes::<F, P>(
            Poseidon1CircuitAir::<
                F,
                P,
                D,
                WIDTH,
                WIDTH_EXT,
                RATE_EXT,
                CAPACITY_EXT,
                WITNESS_EXT_D,
            >::trace_row(ops, i).take(P::sp_column_count() as int),
        ),
{
    let input = ops[i as int].input_values;
    let row = Poseidon1CircuitAir::<
        F,
        P,
        D,
        WIDTH,
        WIDTH_EXT,
        RATE_EXT,
        CAPACITY_EXT,
        WITNESS_EXT_D,
    >::trace_row(ops, i);
    P::columns_frame(input);
    assert(row.take(P::sp_column_count() as int) =~= P::sp_columns(input));
}

/// On a row that the table accepts, the output that chained rows continue from is the image of the
/// input under the permutation.
pub proof fn law_accepted_row_holds_image<F: Field, P: PermutationColumns<F>>(
    s: TableShape,
    w: Window<F>,
    transition: bool,
)
    requires
        s.width() == P::sp_state_width(),
        s.permutation_columns == P::sp_column_count(),
        s.framed(w),
        s.width() <= s.permutation_columns,
        poseidon1_rules::table_rules::<F, P>(s, w, transition),
    ensures
        P::sp_permuted(w.local.take(s.width() as int)).len() == s.width(),
        forall|k: int|
            0 <= k < s.width() ==> #[trigger] s.local_out(w, k) == P::sp_permuted(
                w.local.take(s.width() as int),
            )[k],
{
    let n = s.permutation_columns as int;
    let columns = w.local.take(n);
    let input = w.local.take(s.width() as int);
    assert(columns.take(s.width() as int) =~= input);
    P::columns_frame(input);
    let image = columns.skip(n - s.width());
    assert forall|k: int| 0 <= k < s.width() implies #[trigger] s.local_out(w, k)
        == P::sp_permuted(input)[k] by {
        assert(image[k] == w.local[n - s.width() + k]);
    }
}

} // verus!
