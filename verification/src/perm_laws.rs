//! What a permutation row adds to a circuit, slot by slot.

use vstd::prelude::*;

use crate::circuit;
use crate::circuit::{CircuitBuilder, CircuitBuilderError, Expr};
use crate::config::{PoseidonConfigApi, PoseidonVariant};
use crate::field::Field;
use crate::perm;
use crate::perm::PoseidonPermCall;
use crate::types::{ExprId, NonPrimitiveOpId};

verus! {

/// A slot holds the expression where one is given, else nothing.
pub open spec fn holds(slot: Seq<ExprId>, given: Option<ExprId>) -> bool {
    match given {
        Some(id) => slot.len() == 1 && slot[0] == id,
        None => slot.len() == 0,
    }
}

/// Output `i` of a row is handed out: a limb of the rate if it is asked for, a limb of the capacity
/// if all outputs are.
pub open spec fn handed_out<V: PoseidonVariant>(call: PoseidonPermCall<V>, i: int) -> bool {
    if i < call.config.sizes().rate_ext {
        i < call.out_ctl@.len() && call.out_ctl@[i]
    } else {
        call.return_all_outputs
    }
}

proof fn lemma_outputs<F>(
    op: NonPrimitiveOpId,
    labels: Seq<Option<&'static str>>,
    base: nat,
    n: nat,
)
    requires
        base + n <= usize::MAX,
        n <= labels.len(),
    ensures
        ({
            let ids = circuit::output_ids(labels, base, n);
            let nodes = circuit::output_nodes::<F>(op, labels, n);
            &&& ids.len() == n
            &&& nodes.len() == circuit::labelled(labels, n)
            &&& nodes.len() <= n
            &&& forall|i: int|
                0 <= i < n ==> match #[trigger] ids[i] {
                    Some(id) => {
                        &&& labels[i] is Some
                        &&& base <= id.0 < base + nodes.len()
                        &&& nodes[id.0 - base] == Expr::<F>::Output(op, i as usize, labels[i]->0)
                    },
                    None => labels[i] is None,
                }
        }),
    decreases n,
{
    if n > 0 {
        lemma_outputs::<F>(op, labels, base, (n - 1) as nat);
    }
}

/// An added row names its limbs in order, then the accumulator, the direction bit and, on four-way
/// Merkle rows, the second direction bit. Exactly the outputs that are asked for are handed out, and
/// each stands for the output of the new operation with its own position. Nothing else of the
/// circuit changes.
pub proof fn law_added_row<F: Field, V: PoseidonVariant>(
    before: CircuitBuilder<F>,
    after: CircuitBuilder<F>,
    call: PoseidonPermCall<V>,
    r: Result<(NonPrimitiveOpId, Vec<Option<ExprId>>), CircuitBuilderError>,
    out_label: &'static str,
    out_capacity_label: &'static str,
    tag: &'static str,
)
    requires
        perm::row_added(before, after, call, r, out_label, out_capacity_label, tag),
        before.nodes@.len() + 1 + call.config.sizes().width_ext <= usize::MAX,
    ensures
        r is Ok <==> before.enabled@.contains(V::sp_npo_type_id(call.config)),
        r is Err ==> after == before,
        r matches Ok((id, outputs)) ==> {
            let entry = after.ops@.last()@;
            let limbs = call.inputs@.len() as int;
            let width = call.config.sizes().width_ext as int;
            let four_way = 4 * (width - call.config.sizes().rate_ext) == width && call.merkle_path;
            &&& id.0 == before.ops@.len()
            &&& after.ops@.len() == before.ops@.len() + 1
            &&& forall|k: int|
                0 <= k < before.ops@.len() ==> #[trigger] after.ops@[k] == before.ops@[k]
            &&& forall|k: int|
                0 <= k < before.nodes@.len() ==> #[trigger] after.nodes@[k] == before.nodes@[k]
            &&& after.connections@ == before.connections@
            &&& after.public_inputs == before.public_inputs
            &&& entry.op_type == V::sp_npo_type_id(call.config)
            &&& entry.params.new_start == call.new_start
            &&& entry.params.merkle_path == call.merkle_path
            &&& entry.params.absorb_len == call.absorb_len
            &&& entry.outputs == outputs@
            &&& entry.inputs.len() == limbs + 2 + if four_way {
                1int
            } else {
                0
            }
            &&& forall|i: int|
                0 <= i < limbs ==> holds(#[trigger] entry.inputs[i], call.inputs@[i])
            &&& holds(entry.inputs[limbs], call.mmcs_index_sum)
            &&& holds(entry.inputs[limbs + 1], call.mmcs_bit)
            &&& four_way ==> holds(entry.inputs[limbs + 2], call.mmcs_bit2)
            &&& outputs@.len() == width
            &&& forall|i: int|
                0 <= i < width ==> match #[trigger] outputs@[i] {
                    Some(out) => {
                        &&& handed_out(call, i)
                        &&& before.nodes@.len() < out.0 < after.nodes@.len()
                        &&& after.nodes@[out.0 as int] == Expr::<F>::Output(
                            id,
                            i as usize,
                            if i < call.config.sizes().rate_ext {
                                out_label
                            } else {
                                out_capacity_label
                            },
                        )
                    },
                    None => !handed_out(call, i),
                }
        },
{
    if let Ok((id, outputs)) = r {
        let labels = call.labels(out_label, out_capacity_label);
        let base = before.nodes@.len() + 1;
        lemma_outputs::<F>(id, labels, base, labels.len());
        let nodes = circuit::output_nodes::<F>(id, labels, labels.len());
        let entry = after.ops@.last()@;
        assert(entry.inputs == call.input_slots());
        assert forall|k: int| 0 <= k < before.ops@.len() implies #[trigger] after.ops@[k]
            == before.ops@[k] by {
            assert(before.ops@.is_prefix_of(after.ops@));
        }
        assert forall|i: int| 0 <= i < labels.len() implies match #[trigger] outputs@[i] {
            Some(out) => {
                &&& handed_out(call, i)
                &&& before.nodes@.len() < out.0 < after.nodes@.len()
                &&& after.nodes@[out.0 as int] == Expr::<F>::Output(
                    id,
                    i as usize,
                    if i < call.config.sizes().rate_ext {
                        out_label
                    } else {
                        out_capacity_label
                    },
                )
            },
            None => !handed_out(call, i),
        } by {
            assert(outputs@[i] == circuit::output_ids(labels, base, labels.len())[i]);
        }
    }
}

/// A row asks for its direction bits: one on Merkle rows, a second on four-way Merkle rows and on
/// no others.
pub proof fn law_direction_bits<V: PoseidonVariant>(call: PoseidonPermCall<V>)
    ensures
        ({
            let width = call.config.sizes().width_ext as int;
            let four_way = 4 * (width - call.config.sizes().rate_ext) == width && call.merkle_path;
            call.bits_failure() is None <==> {
                &&& call.merkle_path ==> call.mmcs_bit is Some
                &&& four_way <==> call.mmcs_bit2 is Some
            }
        }),
{
}

} // verus!
