//! What an executed permutation row does to the witness table and to its own table.

use vstd::arithmetic::div_mod::*;
use vstd::prelude::*;

use crate::config::{PoseidonConfigApi, PoseidonVariant};
use crate::context;
use crate::context::{Chain, FieldText, NpoPrivateData};
use crate::executor;
use crate::executor::PoseidonPermExecutor;
use crate::field::Field;
use crate::permutation::Permutation;
use crate::seqs;
use crate::types::{NonPrimitiveOpId, NpoTypeId, WitnessId};

verus! {

/// The limb `place` of a list, or zero where the list has none.
pub open spec fn limb_or_zero<F: Field>(list: Option<Seq<F>>, place: int) -> F {
    match list {
        Some(list) => if place < list.len() {
            list[place]
        } else {
            F::sp_zero()
        },
        None => F::sp_zero(),
    }
}

/// The sibling limbs that come with a row.
pub open spec fn siblings_of<F>(private_data: Option<NpoPrivateData<F>>) -> Option<Seq<F>> {
    match private_data {
        Some(NpoPrivateData::Poseidon1(data)) => Some(data.sibling@),
        Some(NpoPrivateData::Poseidon2(data)) => Some(data.sibling@),
        _ => None,
    }
}

/// What a row continues from: the last output of a Merkle row of its table or of any other row, as
/// the row is itself; nothing at the start of a chain.
pub open spec fn continued<V: PoseidonVariant, F>(
    e: PoseidonPermExecutor<V>,
    states: Map<NpoTypeId, Chain<F>>,
) -> Option<Seq<F>> {
    if e.new_start || !states.contains_key(e.op_type) {
        None
    } else if e.merkle_path {
        states[e.op_type].merkle
    } else {
        states[e.op_type].normal
    }
}

/// What stands at a place of the state where no witness is read.
///
/// A sponge row takes the whole previous output. A two-way Merkle row takes the previous digest and
/// then the sibling. A four-way Merkle row consists of four digests: the previous one at `position`,
/// and the siblings at the other places in ascending order.
pub open spec fn inherited<V: PoseidonVariant, F: Field>(
    e: PoseidonPermExecutor<V>,
    previous: Option<Seq<F>>,
    siblings: Option<Seq<F>>,
    position: int,
    place: int,
) -> F {
    let width = e.config.sizes().width_ext as int;
    let rate = e.config.sizes().rate_ext as int;
    let digest = width - rate;
    if !e.merkle_path {
        limb_or_zero(previous, place)
    } else if 4 * digest != width {
        if place < rate {
            limb_or_zero(previous, place)
        } else {
            limb_or_zero(siblings, place - rate)
        }
    } else if place / digest == position {
        limb_or_zero(previous, place % digest)
    } else if place / digest < position {
        limb_or_zero(siblings, place)
    } else {
        limb_or_zero(siblings, place - digest)
    }
}

/// The witness of a slot, if the slot has exactly one and it has a value.
pub open spec fn read_value<F>(slot: Seq<WitnessId>, witness: Seq<Option<F>>) -> Option<F> {
    if slot.len() == 1 && slot[0].0 < witness.len() {
        witness[slot[0].0 as int]
    } else {
        None
    }
}

proof fn lemma_fed<F>(
    state: Seq<F>,
    inputs: Seq<Seq<WitnessId>>,
    witness: Seq<Option<F>>,
    n: nat,
)
    requires
        n <= state.len(),
    ensures
        match executor::witness_fed(state, inputs, witness, n) {
            Ok(s) => {
                &&& s.len() == state.len()
                &&& forall|i: int|
                    #![trigger s[i]]
                    0 <= i < n ==> if inputs[i].len() == 1 {
                        read_value(inputs[i], witness) == Some(s[i])
                    } else {
                        s[i] == state[i]
                    }
                &&& forall|i: int| n <= i < s.len() ==> #[trigger] s[i] == state[i]
            },
            Err(_) => exists|i: int|
                0 <= i < n && (#[trigger] inputs[i]).len() == 1 && read_value(inputs[i], witness)
                    is None,
        },
    decreases n,
{
    if n > 0 {
        lemma_fed(state, inputs, witness, (n - 1) as nat);
        if executor::witness_fed(state, inputs, witness, (n - 1) as nat) is Ok {
            assert(inputs[n - 1].len() == 1 ==> (context::witness_value(witness, inputs[n - 1][0])
                is Ok <==> read_value(inputs[n - 1], witness) is Some));
        }
    }
}

proof fn lemma_written<F>(
    op: NpoTypeId,
    outputs: Seq<Seq<WitnessId>>,
    values: Seq<F>,
    witness: Seq<Option<F>>,
    n: nat,
)
    ensures
        ({
            let (w, failure) = executor::outputs_written(op, outputs, values, witness, n);
            &&& w.len() == witness.len()
            &&& forall|k: int|
                #![trigger w[k]]
                0 <= k < w.len() && w[k] != witness[k] ==> exists|i: int|
                    0 <= i < n && (#[trigger] outputs[i]).len() == 1 && outputs[i][0].0 == k
                        && w[k] == Some(values[i])
            &&& forall|k: int|
                #![trigger w[k]]
                0 <= k < w.len() && witness[k] is Some ==> w[k] == witness[k]
            &&& failure is None ==> forall|i: int|
                0 <= i < n ==> {
                    &&& (#[trigger] outputs[i]).len() <= 1
                    &&& outputs[i].len() == 1 ==> read_value(outputs[i], w) == Some(values[i])
                }
        }),
    decreases n,
{
    if n > 0 {
        lemma_written(op, outputs, values, witness, (n - 1) as nat);
        let (before, early) = executor::outputs_written(
            op,
            outputs,
            values,
            witness,
            (n - 1) as nat,
        );
        let (w, failure) = executor::outputs_written(op, outputs, values, witness, n);
        assert forall|k: int|
            #![trigger w[k]]
            0 <= k < w.len() && w[k] != witness[k] implies exists|i: int|
            0 <= i < n && (#[trigger] outputs[i]).len() == 1 && outputs[i][0].0 == k && w[k]
                == Some(values[i]) by {
            if w[k] == before[k] {
                let i = choose|i: int|
                    0 <= i < n - 1 && (#[trigger] outputs[i]).len() == 1 && outputs[i][0].0 == k
                        && before[k] == Some(values[i]);
                assert(outputs[i].len() == 1);
            } else {
                assert(outputs[n - 1].len() == 1);
            }
        }
        if failure is None {
            assert forall|i: int| 0 <= i < n implies {
                &&& (#[trigger] outputs[i]).len() <= 1
                &&& outputs[i].len() == 1 ==> read_value(outputs[i], w) == Some(values[i])
            } by {
                if i < n - 1 && outputs[i].len() == 1 {
                    assert(read_value(outputs[i], before) == Some(values[i]));
                }
            }
        }
    }
}

/// The place from which a place of the permuted state is filled: a right child of a two-way Merkle
/// row has its two digests exchanged.
pub open spec fn source_place<V: PoseidonVariant>(
    e: PoseidonPermExecutor<V>,
    right: bool,
    place: int,
) -> int {
    let width = e.config.sizes().width_ext as int;
    let rate = e.config.sizes().rate_ext as int;
    if e.merkle_path && 4 * (width - rate) != width && right {
        if place < rate {
            place + rate
        } else if place < 2 * rate {
            place - rate
        } else {
            place
        }
    } else {
        place
    }
}

proof fn lemma_four_chunks(place: int, digest: int)
    requires
        digest > 0,
        0 <= place < 4 * digest,
    ensures
        place / digest == executor::chunk_at(place, digest as nat),
        place % digest == place - executor::chunk_at(place, digest as nat) * digest,
{
    let c = executor::chunk_at(place, digest as nat) as int;
    lemma_fundamental_div_mod_converse(place, digest, c, place - c * digest);
}

/// A row that is executed without a failure permutes this state: at each place the witness of the
/// slot that feeds it, else what the place inherits. A sponge row over base elements adds the number
/// of absorbed elements to the first element of the capacity.
///
/// The state, the direction bits, the flags and the indices are recorded as one more row of the
/// table, the rows before stay, the image of the state is what later rows continue from, and no
/// other table changes. Exposed outputs hold the elements of the image, and no witness that had a
/// value or is no exposed output changes.
pub proof fn law_executed_row<V: PoseidonVariant, F: FieldText, P: Permutation<F>>(
    e: PoseidonPermExecutor<V>,
    inputs: Seq<Seq<WitnessId>>,
    outputs: Seq<Seq<WitnessId>>,
    witness: Seq<Option<F>>,
    private_data: Option<NpoPrivateData<F>>,
    states: Map<NpoTypeId, Chain<F>>,
    operation_index: NonPrimitiveOpId,
    exec: P,
)
    requires
        e.outcome(
            inputs,
            outputs,
            witness,
            private_data,
            states,
            operation_index,
            Some(exec),
        ).failure is None,
        e.merkle_path && 4 * (e.config.sizes().width_ext - e.config.sizes().rate_ext)
            != e.config.sizes().width_ext ==> 2 * e.config.sizes().rate_ext
            <= e.config.sizes().width_ext,
    ensures
        ({
            let after = e.outcome(
                inputs,
                outputs,
                witness,
                private_data,
                states,
                operation_index,
                Some(exec),
            );
            let width = e.config.sizes().width_ext as int;
            let rate = e.config.sizes().rate_ext as int;
            let four_way = 4 * (width - rate) == width;
            let sponge_of_elements = e.config.sizes().d == 1 && !e.merkle_path;
            let chain = after.states[e.op_type];
            let row = chain.rows.last();
            let position = (if row.mmcs_bit {
                1int
            } else {
                0int
            }) + (if row.mmcs_bit2 {
                2int
            } else {
                0int
            });
            let image = exec.permuted(row.input_values);
            // The state.
            &&& row.input_values.len() == width
            &&& forall|i: int|
                #![trigger row.input_values[i]]
                0 <= i < width ==> {
                    let j = source_place(e, row.mmcs_bit, i);
                    let base = if inputs[j].len() == 1 {
                        read_value(inputs[j], witness)->0
                    } else {
                        inherited(
                            e,
                            continued(e, states),
                            siblings_of(private_data),
                            position,
                            j,
                        )
                    };
                    row.input_values[i] == if sponge_of_elements && i == rate && e.absorb_len > 0 {
                        base.sp_add(F::sp_from((e.absorb_len % 256) as nat))
                    } else {
                        base
                    }
                }
            &&& forall|i: int|
                0 <= i < width && (#[trigger] inputs[i]).len() > 0 ==> read_value(
                    inputs[i],
                    witness,
                ) is Some
            &&& !e.new_start ==> continued(e, states) is Some
            &&& !e.merkle_path && !sponge_of_elements ==> siblings_of(private_data) is None
            // The direction bits.
            &&& e.merkle_path ==> read_value(inputs[width + 1], witness) == Some(
                if row.mmcs_bit {
                    F::sp_one()
                } else {
                    F::sp_zero()
                },
            )
            &&& e.merkle_path && four_way ==> read_value(inputs[width + 2], witness) == Some(
                if row.mmcs_bit2 {
                    F::sp_one()
                } else {
                    F::sp_zero()
                },
            )
            &&& !four_way || sponge_of_elements ==> !row.mmcs_bit2
            &&& sponge_of_elements ==> !row.mmcs_bit
            // The flags and indices.
            &&& row.new_start == e.new_start
            &&& row.merkle_path == e.merkle_path
            &&& row.in_ctl.len() == row.input_indices.len()
            &&& row.in_ctl.len() == width
            &&& forall|i: int|
                #![trigger row.in_ctl[i]]
                0 <= i < width ==> row.in_ctl[i] == (inputs[i].len() > 0 && !(sponge_of_elements
                    && width == 2 * rate && i >= rate))
            &&& forall|i: int|
                #![trigger row.input_indices[i]]
                0 <= i < width ==> row.input_indices[i] == if inputs[i].len() > 0 {
                    inputs[i][0].0
                } else {
                    0
                }
            &&& row.out_ctl.len() == row.output_indices.len()
            &&& row.out_ctl.len() == rate
            &&& forall|i: int|
                #![trigger row.out_ctl[i]]
                0 <= i < rate && i < outputs.len() && i < image.len() ==> row.out_ctl[i] == (
                outputs[i].len() > 0)
            &&& forall|i: int|
                #![trigger row.output_indices[i]]
                0 <= i < rate && i < outputs.len() && i < image.len() ==> row.output_indices[i]
                    == if outputs[i].len() > 0 {
                    outputs[i][0].0
                } else {
                    0
                }
            &&& row.mmcs_ctl_enabled == (!sponge_of_elements && inputs[width].len() == 1)
            &&& row.mmcs_ctl_enabled ==> {
                &&& row.mmcs_index_sum_idx == inputs[width][0].0
                &&& read_value(inputs[width], witness) == Some(row.mmcs_index_sum)
            }
            &&& !row.mmcs_ctl_enabled ==> row.mmcs_index_sum_idx == 0 && row.mmcs_index_sum
                == F::sp_zero()
            // What is kept.
            &&& chain.rows.drop_last() == (if states.contains_key(e.op_type) {
                states[e.op_type].rows
            } else {
                Seq::empty()
            })
            &&& !e.merkle_path ==> chain.normal == Some(image)
            &&& e.merkle_path || four_way ==> chain.merkle == Some(image)
            &&& e.merkle_path && states.contains_key(e.op_type) ==> chain.normal
                == states[e.op_type].normal
            &&& !e.merkle_path && !four_way && states.contains_key(e.op_type) ==> chain.merkle
                == states[e.op_type].merkle
            &&& after.states.remove(e.op_type) == states.remove(e.op_type)
            // The witness table.
            &&& after.witness.len() == witness.len()
            &&& forall|i: int|
                0 <= i < outputs.len() && i < image.len() && (#[trigger] outputs[i]).len() > 0
                    ==> read_value(outputs[i], after.witness) == Some(image[i])
            &&& forall|k: int|
                #![trigger after.witness[k]]
                0 <= k < witness.len() && witness[k] is Some ==> after.witness[k] == witness[k]
            &&& forall|k: int|
                #![trigger after.witness[k]]
                0 <= k < witness.len() && after.witness[k] is Some && witness[k] is None
                    ==> exists|i: int|
                    0 <= i < outputs.len() && (#[trigger] outputs[i]).len() == 1
                        && outputs[i][0].0 == k
        }),
{
    e.config.sizes_split();
    let after = e.outcome(
        inputs,
        outputs,
        witness,
        private_data,
        states,
        operation_index,
        Some(exec),
    );
    let width = e.config.sizes().width_ext as int;
    let rate = e.config.sizes().rate_ext as int;
    let digest = width - rate;
    let chain = after.states[e.op_type];
    let row = chain.rows.last();
    let image = exec.permuted(row.input_values);
    let last = e.chain_output(states);
    let start = e.chained(last, operation_index)->Ok_0;
    seqs::lemma_least(width as nat, executor::slot_exceeds_one(inputs));
    assert forall|i: int| 0 <= i < width implies (#[trigger] inputs[i]).len() <= 1 by {
        assert(!executor::slot_exceeds_one(inputs)(i));
    }
    assert(!e.new_start ==> last == continued(e, states) && last is Some);
    lemma_written(
        e.op_type,
        outputs,
        image,
        witness,
        executor::smaller(outputs.len(), image.len()),
    );
    assert(chain.rows.drop_last() =~= if states.contains_key(e.op_type) {
        states[e.op_type].rows
    } else {
        Seq::empty()
    });
    assert(after.states.remove(e.op_type) =~= states.remove(e.op_type));
    if e.base_mode() {
        lemma_fed(start, inputs, witness, width as nat);
        let fed = executor::witness_fed(start, inputs, witness, width as nat)->Ok_0;
        assert forall|i: int| 0 <= i < width && (#[trigger] inputs[i]).len() > 0 implies read_value(
            inputs[i],
            witness,
        ) is Some by {
            assert(read_value(inputs[i], witness) == Some(fed[i]));
        }
        assert(e.config.sizes().width_ext * e.config.sizes().d == width);
    } else {
        let siblings = siblings_of(private_data);
        let bit = e.mmcs_bit(inputs, witness, operation_index)->Ok_0;
        let bit2 = e.mmcs_bit2(inputs, witness, operation_index)->Ok_0;
        let hashed = e.running_hash_placed(start, last, bit, bit2);
        let placed = e.siblings_placed(hashed, siblings, bit, bit2);
        lemma_fed(placed, inputs, witness, width as nat);
        let position = executor::chunk_of(bit, bit2) as int;
        assert(row.mmcs_bit == bit && row.mmcs_bit2 == bit2);
        assert forall|j: int| 0 <= j < width implies #[trigger] placed[j] == inherited(
            e,
            continued(e, states),
            siblings,
            position,
            j,
        ) by {
            if e.merkle_path && 4 * digest == width {
                lemma_four_chunks(j, digest);
                let c = executor::chunk_at(j, digest as nat) as int;
                if c == position {
                    assert(position * digest <= j < position * digest + digest) by (nonlinear_arith)
                        requires
                            c == position,
                            0 <= j - c * digest < digest,
                    ;
                } else {
                    assert(!(position * digest <= j < position * digest + digest))
                        by (nonlinear_arith)
                        requires
                            c != position,
                            0 <= j - c * digest < digest,
                            digest > 0,
                    ;
                }
            }
        }
        let fed = executor::witness_fed(placed, inputs, witness, width as nat)->Ok_0;
        assert forall|i: int| 0 <= i < width implies #[trigger] row.input_values[i]
            == fed[source_place(e, bit, i)] by {}
        assert forall|i: int| 0 <= i < width && (#[trigger] inputs[i]).len() > 0 implies read_value(
            inputs[i],
            witness,
        ) is Some by {
            assert(read_value(inputs[i], witness) == Some(fed[i]));
        }
    }
}

/// The outputs can be written: each exposed slot names one witness of the table that has no value
/// or the right one, and slots that name the same witness agree.
pub open spec fn writable<F>(
    outputs: Seq<Seq<WitnessId>>,
    values: Seq<F>,
    witness: Seq<Option<F>>,
    n: nat,
) -> bool {
    &&& forall|i: int|
        0 <= i < n ==> {
            &&& (#[trigger] outputs[i]).len() <= 1
            &&& outputs[i].len() == 1 ==> {
                &&& outputs[i][0].0 < witness.len()
                &&& witness[outputs[i][0].0 as int] is None || witness[outputs[i][0].0 as int]
                    == Some(values[i])
            }
        }
    &&& forall|i: int, j: int|
        0 <= i < j < n && (#[trigger] outputs[i]).len() == 1 && (#[trigger] outputs[j]).len() == 1
            && outputs[i][0].0 == outputs[j][0].0 ==> values[i] == values[j]
}

proof fn lemma_writable<F>(
    op: NpoTypeId,
    outputs: Seq<Seq<WitnessId>>,
    values: Seq<F>,
    witness: Seq<Option<F>>,
    n: nat,
)
    ensures
        executor::outputs_written(op, outputs, values, witness, n).1 is None <==> writable(
            outputs,
            values,
            witness,
            n,
        ),
    decreases n,
{
    if n > 0 {
        let m = (n - 1) as nat;
        lemma_writable(op, outputs, values, witness, m);
        lemma_written(op, outputs, values, witness, m);
        lemma_written(op, outputs, values, witness, n);
        let (before, early) = executor::outputs_written(op, outputs, values, witness, m);
        let now = executor::outputs_written(op, outputs, values, witness, n).1;
        if now is None {
            let w = executor::outputs_written(op, outputs, values, witness, n).0;
            assert(early is None);
            let slot = outputs[n - 1];
            assert forall|i: int, j: int|
                0 <= i < j < n && (#[trigger] outputs[i]).len() == 1 && (
                #[trigger] outputs[j]).len() == 1 && outputs[i][0].0
                    == outputs[j][0].0 implies values[i] == values[j] by {
                assert(read_value(outputs[i], w) == Some(values[i]));
                assert(read_value(outputs[j], w) == Some(values[j]));
            }
            assert forall|i: int| 0 <= i < n implies {
                &&& (#[trigger] outputs[i]).len() <= 1
                &&& outputs[i].len() == 1 ==> {
                    &&& outputs[i][0].0 < witness.len()
                    &&& witness[outputs[i][0].0 as int] is None || witness[outputs[i][0].0 as int]
                        == Some(values[i])
                }
            } by {
                if outputs[i].len() == 1 {
                    assert(read_value(outputs[i], w) == Some(values[i]));
                    let k = outputs[i][0].0 as int;
                    assert(witness[k] is Some ==> w[k] == witness[k]);
                }
            }
        } else if writable(outputs, values, witness, n) {
            assert(outputs[n - 1].len() <= 1);
            assert(writable(outputs, values, witness, m));
            assert(early is None);
            let k = outputs[n - 1][0].0 as int;
            assert(outputs[n - 1].len() == 1);
            assert(before[k] is Some && before[k] != Some(values[n - 1]));
            if before[k] != witness[k] {
                let i = choose|i: int|
                    0 <= i < m && (#[trigger] outputs[i]).len() == 1 && outputs[i][0].0 == k
                        && before[k] == Some(values[i]);
                assert(values[i] == values[n - 1]);
            }
        }
    }
}

/// A slot names a witness that is zero or one.
pub open spec fn names_bit<F: Field>(slot: Seq<WitnessId>, witness: Seq<Option<F>>) -> bool {
    &&& slot.len() == 1
    &&& read_value(slot, witness) == Some(F::sp_zero()) || read_value(slot, witness) == Some(
        F::sp_one(),
    )
}

/// The slots of the limbs name at most one witness each, and every named one has a value.
pub open spec fn limbs_readable<F>(
    inputs: Seq<Seq<WitnessId>>,
    witness: Seq<Option<F>>,
    n: int,
) -> bool {
    forall|i: int|
        0 <= i < n ==> {
            &&& (#[trigger] inputs[i]).len() <= 1
            &&& inputs[i].len() == 1 ==> read_value(inputs[i], witness) is Some
        }
}

/// The row has all that it needs to be executed. All limbs can be read and a row that continues a
/// chain finds one. A sponge row over base elements names nothing beyond its limbs. Every other row
/// has slots for the accumulator and for its direction bits; Merkle rows name bits there, and only
/// they bring siblings.
pub open spec fn executable<V: PoseidonVariant, F: Field>(
    e: PoseidonPermExecutor<V>,
    inputs: Seq<Seq<WitnessId>>,
    outputs: nat,
    witness: Seq<Option<F>>,
    private_data: Option<NpoPrivateData<F>>,
    states: Map<NpoTypeId, Chain<F>>,
) -> bool {
    let width = e.config.sizes().width_ext as int;
    let rate = e.config.sizes().rate_ext as int;
    let four_way = 4 * (width - rate) == width && e.merkle_path;
    &&& limbs_readable(inputs, witness, width)
    &&& e.new_start || continued(e, states) is Some
    &&& if e.config.sizes().d == 1 && !e.merkle_path {
        &&& inputs.len() == width || inputs.len() == width + 2 && inputs[width].len() == 0
            && inputs[width + 1].len() == 0
        &&& outputs == width - rate || outputs == width
    } else {
        &&& inputs.len() == width + if four_way {
            3int
        } else {
            2
        }
        &&& outputs == rate || outputs == width
        &&& inputs[width].len() == 0 || inputs[width].len() == 1 && read_value(
            inputs[width],
            witness,
        ) is Some
        &&& names_bit(inputs[width + 1], witness) || !e.merkle_path && inputs[width + 1].len() == 0
        &&& four_way ==> names_bit(inputs[width + 2], witness)
        &&& e.merkle_path || siblings_of(private_data) is None
    }
}

/// A row is executed exactly if it has all that it needs and its outputs can be written. A row that
/// is not executed changes no table.
pub proof fn law_row_is_executed<V: PoseidonVariant, F: FieldText, P: Permutation<F>>(
    e: PoseidonPermExecutor<V>,
    inputs: Seq<Seq<WitnessId>>,
    outputs: Seq<Seq<WitnessId>>,
    witness: Seq<Option<F>>,
    private_data: Option<NpoPrivateData<F>>,
    states: Map<NpoTypeId, Chain<F>>,
    operation_index: NonPrimitiveOpId,
    exec: P,
)
    requires
        F::sp_zero() != F::sp_one(),
    ensures
        ({
            let after = e.outcome(
                inputs,
                outputs,
                witness,
                private_data,
                states,
                operation_index,
                Some(exec),
            );
            let state = if e.config.sizes().d == 1 && !e.merkle_path {
                e.base_state(inputs, witness, states, operation_index)->Ok_0
            } else {
                e.ext_state(inputs, witness, private_data, states, operation_index)->Ok_0.0
            };
            let image = exec.permuted(state);
            &&& after.failure is None <==> executable(
                e,
                inputs,
                outputs.len(),
                witness,
                private_data,
                states,
            ) && writable(
                outputs,
                image,
                witness,
                executor::smaller(outputs.len(), image.len()),
            )
            &&& after.failure is Some ==> after.states == states
        }),
{
    e.config.sizes_split();
    let width = e.config.sizes().width_ext as int;
    let rate = e.config.sizes().rate_ext as int;
    let four_way = 4 * (width - rate) == width && e.merkle_path;
    let last = e.chain_output(states);
    let exceeds = executor::slot_exceeds_one(inputs);
    seqs::lemma_least(width as nat, exceeds);
    let single = forall|i: int| 0 <= i < width ==> (#[trigger] inputs[i]).len() <= 1;
    match seqs::least(width as nat, exceeds) {
        Some(i) => {
            assert(inputs[i].len() > 1);
        },
        None => {
            assert forall|i: int| 0 <= i < width implies (#[trigger] inputs[i]).len() <= 1 by {
                assert(!exceeds(i));
            }
        },
    }
    assert(single == (seqs::least(width as nat, exceeds) is None));
    assert(e.chained(last, operation_index) is Ok <==> (e.new_start || continued(e, states)
        is Some));
    if e.base_mode() {
        let exposed = executor::slot_is_exposed(inputs, width as nat);
        seqs::lemma_least(2, exposed);
        if inputs.len() == width + 2 {
            match seqs::least(2, exposed) {
                Some(k) => {
                    assert(inputs[width + k].len() > 0);
                },
                None => {
                    assert(!exposed(0));
                    assert(!exposed(1));
                },
            }
        }
        if e.chained(last, operation_index) is Ok && single {
            let start = e.chained(last, operation_index)->Ok_0;
            lemma_readable(start, inputs, witness, width as nat);
        }
        let state = e.base_state(inputs, witness, states, operation_index)->Ok_0;
        let image = exec.permuted(state);
        lemma_writable(
            e.op_type,
            outputs,
            image,
            witness,
            executor::smaller(outputs.len(), image.len()),
        );
    } else {
        if e.chained(last, operation_index) is Ok && single {
            let start = e.chained(last, operation_index)->Ok_0;
            let siblings = siblings_of(private_data);
            let bit = e.mmcs_bit(inputs, witness, operation_index);
            let bit2 = e.mmcs_bit2(inputs, witness, operation_index);
            if bit is Ok && bit2 is Ok {
                let hashed = e.running_hash_placed(start, last, bit->Ok_0, bit2->Ok_0);
                let placed = e.siblings_placed(hashed, siblings, bit->Ok_0, bit2->Ok_0);
                lemma_readable(placed, inputs, witness, width as nat);
            }
        }
        let state = e.ext_state(inputs, witness, private_data, states, operation_index)->Ok_0.0;
        let image = exec.permuted(state);
        lemma_writable(
            e.op_type,
            outputs,
            image,
            witness,
            executor::smaller(outputs.len(), image.len()),
        );
        if inputs.len() == e.expected_inputs() && inputs[width + 1].len() <= 1 && (four_way
            ==> inputs[width + 2].len() <= 1) {
            assert(e.mmcs_bit(inputs, witness, operation_index) is Ok <==> (names_bit(
                inputs[width + 1],
                witness,
            ) || !e.merkle_path && inputs[width + 1].len() == 0));
            assert(e.mmcs_bit2(inputs, witness, operation_index) is Ok <==> (four_way
                ==> names_bit(inputs[width + 2], witness)));
        }
    }
}

proof fn lemma_readable<F>(
    state: Seq<F>,
    inputs: Seq<Seq<WitnessId>>,
    witness: Seq<Option<F>>,
    n: nat,
)
    requires
        n <= state.len(),
        forall|i: int| 0 <= i < n ==> (#[trigger] inputs[i]).len() <= 1,
    ensures
        executor::witness_fed(state, inputs, witness, n) is Ok <==> limbs_readable(
            inputs,
            witness,
            n as int,
        ),
{
    lemma_fed(state, inputs, witness, n);
    if executor::witness_fed(state, inputs, witness, n) is Ok {
        let s = executor::witness_fed(state, inputs, witness, n)->Ok_0;
        assert forall|i: int| 0 <= i < n implies {
            &&& (#[trigger] inputs[i]).len() <= 1
            &&& inputs[i].len() == 1 ==> read_value(inputs[i], witness) is Some
        } by {
            assert(inputs[i].len() == 1 ==> read_value(inputs[i], witness) == Some(s[i]));
        }
    }
}

} // verus!
