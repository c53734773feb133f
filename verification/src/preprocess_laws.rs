//! The preprocessed columns of a permutation row, one by one.

use vstd::prelude::*;

use crate::config::{PoseidonConfigApi, PoseidonVariant};
use crate::executor;
use crate::executor::PoseidonPermExecutor;
use crate::field::Field;
use crate::preprocess;
use crate::preprocess::PreprocessedCell;
use crate::seqs;
use crate::types::{NpoTypeId, WitnessId};

verus! {

/// A one where the condition holds, else a zero.
pub open spec fn bit<F: Field>(condition: bool) -> PreprocessedCell<F> {
    PreprocessedCell::Value(
        if condition {
            F::sp_one()
        } else {
            F::sp_zero()
        },
    )
}

/// The witness that an input limb names, if any. Merkle rows only name it, but for four-way rows;
/// all other rows read it.
pub open spec fn named_input<V: PoseidonVariant, F: Field>(
    e: PoseidonPermExecutor<V>,
    slot: Seq<WitnessId>,
) -> PreprocessedCell<F> {
    let four_way = 4 * (e.sizes().width_ext - e.sizes().rate_ext) == e.sizes().width_ext
        && !(e.sizes().d == 1 && e.sizes().width_ext == 2 * e.sizes().rate_ext);
    if slot.len() == 0 {
        PreprocessedCell::Value(F::sp_zero())
    } else if e.merkle_path && !four_way {
        PreprocessedCell::Index(slot[0])
    } else {
        PreprocessedCell::Read(slot[0])
    }
}

/// The witness that an output limb creates, if any.
pub open spec fn created_output<F: Field>(slot: Seq<WitnessId>) -> PreprocessedCell<F> {
    if slot.len() == 0 {
        PreprocessedCell::Value(F::sp_zero())
    } else {
        PreprocessedCell::Output(slot[0])
    }
}

/// Every slot names at most one witness, and on four-way Merkle rows both direction bits are given.
pub open spec fn single_slots<V: PoseidonVariant>(
    e: PoseidonPermExecutor<V>,
    inputs: Seq<Seq<WitnessId>>,
    outputs: Seq<Seq<WitnessId>>,
) -> bool {
    &&& e.slots_for_flags() <= inputs.len()
    &&& e.sizes().rate_ext <= outputs.len()
    &&& forall|i: int| 0 <= i < inputs.len() ==> (#[trigger] inputs[i]).len() <= 1
    &&& forall|i: int| 0 <= i < outputs.len() ==> (#[trigger] outputs[i]).len() <= 1
    &&& e.arity4_merkle() ==> inputs[e.sizes().width_ext as int + 1].len() == 1
        && inputs[e.sizes().width_ext as int + 2].len() == 1
}

proof fn lemma_standard_inputs<V: PoseidonVariant, F: Field>(
    e: PoseidonPermExecutor<V>,
    inputs: Seq<Seq<WitnessId>>,
    n: nat,
)
    requires
        n <= inputs.len(),
        !e.compact(),
        forall|i: int| 0 <= i < inputs.len() ==> (#[trigger] inputs[i]).len() <= 1,
    ensures
        ({
            let cells = e.standard_inputs_cells::<F>(inputs, n);
            &&& cells.len() == 4 * n
            &&& forall|i: int|
                0 <= i < n ==> {
                    &&& cells[4 * i] == named_input::<V, F>(e, #[trigger] inputs[i])
                    &&& cells[4 * i + 1] == bit::<F>(inputs[i].len() > 0)
                    &&& cells[4 * i + 2] == bit::<F>(
                        !e.new_start && !e.merkle_path && inputs[i].len() == 0,
                    )
                    &&& cells[4 * i + 3] == bit::<F>(
                        !e.new_start && e.merkle_path && inputs[i].len() == 0,
                    )
                }
        }),
    decreases n,
{
    if n > 0 {
        lemma_standard_inputs::<V, F>(e, inputs, (n - 1) as nat);
        assert(inputs[n - 1].len() <= 1);
    }
}

proof fn lemma_standard_outputs<V: PoseidonVariant, F: Field>(
    e: PoseidonPermExecutor<V>,
    outputs: Seq<Seq<WitnessId>>,
    n: nat,
)
    requires
        n <= outputs.len(),
        forall|i: int| 0 <= i < outputs.len() ==> (#[trigger] outputs[i]).len() <= 1,
    ensures
        ({
            let cells = e.standard_outputs_cells::<F>(outputs, n);
            &&& cells.len() == 2 * n
            &&& forall|i: int|
                0 <= i < n ==> {
                    &&& cells[2 * i] == created_output::<F>(#[trigger] outputs[i])
                    &&& cells[2 * i + 1] == bit::<F>(outputs[i].len() > 0)
                }
        }),
    decreases n,
{
    if n > 0 {
        lemma_standard_outputs::<V, F>(e, outputs, (n - 1) as nat);
        assert(outputs[n - 1].len() <= 1);
    }
}

/// The cells that a row emits, one by one.
///
/// In the standard layout each input limb has its witness, whether it has one, and its two chain
/// selectors: a limb without a witness that does not start a chain continues it, by one selector
/// outside Merkle mode and by the other in it. Each output limb of the rate has its witness and
/// whether it has one. In the compact layout the same cells are grouped by kind, and the length of
/// the absorbed block and whether the capacity continues stand among them. The control cells end
/// the row: the index of the accumulator with whether it is given on a Merkle row, or on four-way
/// Merkle rows the two direction bits, then whether a chain starts and whether the row is a Merkle
/// row.
#[verifier::rlimit(40)]
pub proof fn law_emitted_cells<V: PoseidonVariant, F: Field>(
    e: PoseidonPermExecutor<V>,
    inputs: Seq<Seq<WitnessId>>,
    outputs: Seq<Seq<WitnessId>>,
)
    requires
        single_slots(e, inputs, outputs),
        e.emitted::<F>(inputs, outputs).failure is None,
    ensures
        ({
            let cells = e.emitted::<F>(inputs, outputs).cells;
            let width = e.sizes().width_ext as int;
            let rate = e.sizes().rate_ext as int;
            let compact = e.sizes().d == 1 && width == 2 * rate;
            let end = cells.len() - 4;
            let chains = |i: int| !e.new_start && inputs[i].len() == 0;
            &&& !compact ==> {
                &&& end == 4 * width + 2 * rate
                &&& forall|i: int|
                    0 <= i < width ==> {
                        &&& cells[4 * i] == named_input::<V, F>(e, #[trigger] inputs[i])
                        &&& cells[4 * i + 1] == bit::<F>(inputs[i].len() > 0)
                        &&& cells[4 * i + 2] == bit::<F>(chains(i) && !e.merkle_path)
                        &&& cells[4 * i + 3] == bit::<F>(chains(i) && e.merkle_path)
                    }
                &&& forall|i: int|
                    0 <= i < rate ==> {
                        &&& cells[4 * width + 2 * i] == created_output::<F>(#[trigger] outputs[i])
                        &&& cells[4 * width + 2 * i + 1] == bit::<F>(outputs[i].len() > 0)
                    }
            }
            &&& compact ==> {
                &&& end == 3 * rate + 2 + width + 2 * rate
                &&& forall|i: int|
                    0 <= i < rate ==> {
                        &&& cells[i] == bit::<F>((#[trigger] inputs[i]).len() > 0)
                        &&& cells[rate + 2 + i] == bit::<F>(chains(i) && !e.merkle_path)
                        &&& cells[2 * rate + 2 + i] == bit::<F>(chains(i) && e.merkle_path)
                    }
                &&& cells[rate] == PreprocessedCell::Value(
                    F::sp_from((e.absorb_len % 256) as nat),
                )
                &&& cells[rate + 1] == bit::<F>(!e.new_start)
                &&& forall|i: int|
                    0 <= i < width ==> cells[3 * rate + 2 + i] == named_input::<V, F>(
                        e,
                        #[trigger] inputs[i],
                    )
                &&& forall|i: int|
                    0 <= i < rate ==> {
                        &&& cells[3 * rate + 2 + width + i] == created_output::<F>(
                            #[trigger] outputs[i],
                        )
                        &&& cells[4 * rate + 2 + width + i] == bit::<F>(outputs[i].len() > 0)
                    }
            }
            &&& cells[end + 2] == bit::<F>(e.new_start)
            &&& cells[end + 3] == bit::<F>(e.merkle_path)
            &&& e.sizes().d == 1 && !e.merkle_path ==> {
                &&& cells[end] == bit::<F>(false)
                &&& cells[end + 1] == bit::<F>(false)
            }
            &&& e.arity4_merkle() ==> {
                &&& cells[end] == PreprocessedCell::<F>::Read(inputs[width + 1][0])
                &&& cells[end + 1] == PreprocessedCell::<F>::Read(inputs[width + 2][0])
            }
            &&& !(e.sizes().d == 1 && !e.merkle_path) && !e.arity4_merkle() ==> {
                &&& cells[end] == if inputs[width].len() == 0 {
                    PreprocessedCell::Value(F::sp_zero())
                } else {
                    PreprocessedCell::<F>::Index(inputs[width][0])
                }
                &&& cells[end + 1] == bit::<F>(inputs[width].len() > 0 && e.merkle_path)
            }
        }),
{
    e.config.sizes_split();
    let width = e.sizes().width_ext as int;
    let rate = e.sizes().rate_ext as int;
    let first = e.inputs_emitted::<F>(inputs).cells;
    let second = e.outputs_emitted::<F>(outputs).cells;
    let third = e.flag_cells::<F>(inputs);
    let cells = e.emitted::<F>(inputs, outputs).cells;
    assert(cells == first + second + third);
    assert(third.len() == 4) by {
        if e.arity4_merkle() {
            assert(inputs[width + 1].len() == 1);
            assert(inputs[width + 2].len() == 1);
        }
    }
    if !e.compact() {
        lemma_standard_inputs::<V, F>(e, inputs, width as nat);
        lemma_standard_outputs::<V, F>(e, outputs, rate as nat);
        assert forall|i: int| 0 <= i < width implies {
            &&& cells[4 * i] == named_input::<V, F>(e, #[trigger] inputs[i])
            &&& cells[4 * i + 1] == bit::<F>(inputs[i].len() > 0)
            &&& cells[4 * i + 2] == bit::<F>(
                !e.new_start && inputs[i].len() == 0 && !e.merkle_path,
            )
            &&& cells[4 * i + 3] == bit::<F>(
                !e.new_start && inputs[i].len() == 0 && e.merkle_path,
            )
        } by {
            assert(first[4 * i] == named_input::<V, F>(e, inputs[i]));
        }
    } else {
        seqs::lemma_least(width as nat, executor::slot_exceeds_one(inputs));
        seqs::lemma_least(rate as nat, executor::slot_exceeds_one(outputs));
        let limbs = Seq::new(
            width as nat,
            |i: int| e.compact_input_cell::<F>(inputs[i]),
        );
        let header = e.compact_header::<F>(inputs);
        assert(header.len() == 3 * rate + 2);
        assert(first =~= header + limbs);
        assert forall|i: int| 0 <= i < width implies cells[3 * rate + 2 + i] == named_input::<V, F>(
            e,
            #[trigger] inputs[i],
        ) by {
            assert(first[3 * rate + 2 + i] == limbs[i]);
        }
        assert forall|i: int| 0 <= i < rate implies {
            &&& cells[i] == bit::<F>((#[trigger] inputs[i]).len() > 0)
            &&& cells[rate + 2 + i] == bit::<F>(
                !e.new_start && inputs[i].len() == 0 && !e.merkle_path,
            )
            &&& cells[2 * rate + 2 + i] == bit::<F>(
                !e.new_start && inputs[i].len() == 0 && e.merkle_path,
            )
        } by {
            assert(cells[i] == header[i]);
            assert(cells[rate + 2 + i] == header[rate + 2 + i]);
            assert(cells[2 * rate + 2 + i] == header[2 * rate + 2 + i]);
        }
    }
}

/// Emission fails exactly if, in the compact layout, a capacity limb outside Merkle mode or two
/// witnesses on one limb are given.
pub proof fn law_emission_fails<V: PoseidonVariant, F: Field>(
    e: PoseidonPermExecutor<V>,
    inputs: Seq<Seq<WitnessId>>,
    outputs: Seq<Seq<WitnessId>>,
)
    requires
        e.sizes().rate_ext <= outputs.len(),
    ensures
        ({
            let width = e.sizes().width_ext as int;
            let rate = e.sizes().rate_ext as int;
            e.emitted::<F>(inputs, outputs).failure is Some <==> {
                &&& e.sizes().d == 1
                &&& width == 2 * rate
                &&& {
                    ||| !e.merkle_path && exists|i: int|
                        rate <= i < width && (#[trigger] inputs[i]).len() > 0
                    ||| exists|i: int| 0 <= i < width && (#[trigger] inputs[i]).len() > 1
                    ||| exists|i: int| 0 <= i < rate && (#[trigger] outputs[i]).len() > 1
                }
            }
        }),
{
    e.config.sizes_split();
    let width = e.sizes().width_ext as int;
    let rate = e.sizes().rate_ext as int;
    let fed = executor::slot_is_exposed(inputs, rate as nat);
    let double = executor::slot_exceeds_one(inputs);
    let output = executor::slot_exceeds_one(outputs);
    seqs::lemma_least(e.capacity(), fed);
    seqs::lemma_least(width as nat, double);
    seqs::lemma_least(rate as nat, output);
    if e.compact() {
        if !e.merkle_path {
            if seqs::least(e.capacity(), fed) is None {
                assert forall|i: int| rate <= i < width implies (#[trigger] inputs[i]).len() == 0 by {
                    assert(!fed(i - rate));
                }
            } else {
                let k = seqs::least(e.capacity(), fed)->0;
                assert(inputs[rate + k].len() > 0);
            }
        }
        if seqs::least(width as nat, double) is None {
            assert forall|i: int| 0 <= i < width implies (#[trigger] inputs[i]).len() <= 1 by {
                assert(!double(i));
            }
        } else {
            let k = seqs::least(width as nat, double)->0;
            assert(inputs[k].len() > 1);
        }
        if seqs::least(rate as nat, output) is None {
            assert forall|i: int| 0 <= i < rate implies (#[trigger] outputs[i]).len() <= 1 by {
                assert(!output(i));
            }
        } else {
            let k = seqs::least(rate as nat, output)->0;
            assert(outputs[k].len() > 1);
        }
    }
}

/// Registering cells of a table appends their values to the columns of that table, witness indices
/// multiplied by the scale, and changes the columns of no other table.
pub proof fn law_registered_cells<F: Field>(
    cells: Seq<(NpoTypeId, PreprocessedCell<F>)>,
    op: NpoTypeId,
    added: Seq<PreprocessedCell<F>>,
    table: NpoTypeId,
    scale: nat,
)
    ensures
        ({
            let all = cells + preprocess::tagged(op, added);
            let before = preprocess::table_columns(cells, table, scale, cells.len());
            let after = preprocess::table_columns(all, table, scale, all.len());
            &&& table != op ==> after == before
            &&& table == op ==> after == before + Seq::new(
                added.len(),
                |i: int|
                    match added[i] {
                        PreprocessedCell::Value(v) => v,
                        PreprocessedCell::Index(id) => F::sp_from(id.0 as nat * scale),
                        PreprocessedCell::Read(id) => F::sp_from(id.0 as nat * scale),
                        PreprocessedCell::Output(id) => F::sp_from(id.0 as nat * scale),
                    },
            )
        }),
    decreases added.len(),
{
    let all = cells + preprocess::tagged(op, added);
    if added.len() == 0 {
        assert(all =~= cells);
        let before = preprocess::table_columns(cells, table, scale, cells.len());
        assert(before + Seq::<F>::empty() =~= before);
    } else {
        let fewer = added.drop_last();
        let rest = cells + preprocess::tagged(op, fewer);
        law_registered_cells(cells, op, fewer, table, scale);
        assert(all.drop_last() =~= rest);
        lemma_columns_prefix(rest, all, table, scale, rest.len());
    }
}

proof fn lemma_columns_prefix<F: Field>(
    a: Seq<(NpoTypeId, PreprocessedCell<F>)>,
    b: Seq<(NpoTypeId, PreprocessedCell<F>)>,
    table: NpoTypeId,
    scale: nat,
    n: nat,
)
    requires
        n <= a.len() <= b.len(),
        forall|i: int| 0 <= i < n ==> #[trigger] a[i] == b[i],
    ensures
        preprocess::table_columns(a, table, scale, n) == preprocess::table_columns(
            b,
            table,
            scale,
            n,
        ),
    decreases n,
{
    if n > 0 {
        lemma_columns_prefix(a, b, table, scale, (n - 1) as nat);
        assert(a[n - 1] == b[n - 1]);
    }
}

} // verus!
