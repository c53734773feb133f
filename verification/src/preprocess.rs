//! Preprocessed columns of one permutation row.

use vstd::prelude::*;

use crate::config::{PoseidonConfigApi, PoseidonVariant};
use crate::executor;
use crate::executor::PoseidonPermExecutor;
use crate::field::Field;
use crate::layout;
use crate::seqs;
use crate::types::{CircuitError, CircuitFailure, NpoTypeId, WitnessId};

verus! {

/// One preprocessed cell.
#[derive(Clone, Copy, Debug, PartialEq, Eq)]
pub enum PreprocessedCell<F> {
    /// A constant.
    Value(F),
    /// The index of a witness, without a read of it.
    Index(WitnessId),
    /// The index of a witness that the row reads.
    Read(WitnessId),
    /// The index of a witness that the row creates.
    Output(WitnessId),
}

/// The preprocessed cells of all tables, in the order in which they are registered.
pub struct PreprocessedWriter<F> {
    pub cells: Vec<(NpoTypeId, PreprocessedCell<F>)>,
}

/// Cells of one table.
pub open spec fn tagged<F>(op: NpoTypeId, cells: Seq<PreprocessedCell<F>>) -> Seq<
    (NpoTypeId, PreprocessedCell<F>),
> {
    Seq::new(cells.len(), |i: int| (op, cells[i]))
}

pub open spec fn read_cells<F>(ids: Seq<WitnessId>) -> Seq<PreprocessedCell<F>> {
    Seq::new(ids.len(), |i: int| PreprocessedCell::Read(ids[i]))
}

pub open spec fn output_cells<F>(ids: Seq<WitnessId>) -> Seq<PreprocessedCell<F>> {
    Seq::new(ids.len(), |i: int| PreprocessedCell::Output(ids[i]))
}

/// A boolean as a cell.
pub open spec fn flag<F: Field>(b: bool) -> PreprocessedCell<F> {
    PreprocessedCell::Value(
        if b {
            F::sp_one()
        } else {
            F::sp_zero()
        },
    )
}

/// What a cell holds when witness indices are multiplied by `scale`.
pub open spec fn cell_value<F: Field>(cell: PreprocessedCell<F>, scale: nat) -> F {
    match cell {
        PreprocessedCell::Value(v) => v,
        PreprocessedCell::Index(id) => F::sp_from(id.0 as nat * scale),
        PreprocessedCell::Read(id) => F::sp_from(id.0 as nat * scale),
        PreprocessedCell::Output(id) => F::sp_from(id.0 as nat * scale),
    }
}

/// The columns of a table among the first `n` cells.
pub open spec fn table_columns<F: Field>(
    cells: Seq<(NpoTypeId, PreprocessedCell<F>)>,
    op: NpoTypeId,
    scale: nat,
    n: nat,
) -> Seq<F>
    decreases n,
{
    if n == 0 {
        Seq::empty()
    } else {
        let earlier = table_columns(cells, op, scale, (n - 1) as nat);
        if cells[n - 1].0 == op {
            earlier.push(cell_value(cells[n - 1].1, scale))
        } else {
            earlier
        }
    }
}

impl<F: Field> PreprocessedWriter<F> {
    pub fn new() -> (r: Self)
        ensures
            r.cells@ == Seq::<(NpoTypeId, PreprocessedCell<F>)>::empty(),
    {
        PreprocessedWriter { cells: Vec::new() }
    }

    /// The columns of a table, with witness indices multiplied by `scale`.
    pub fn columns(&self, op: NpoTypeId, scale: u32) -> (r: Vec<F>)
        ensures
            r@ == table_columns(self.cells@, op, scale as nat, self.cells@.len()),
    {
        let mut r: Vec<F> = Vec::new();
        let mut i: usize = 0;
        while i < self.cells.len()
            invariant
                i <= self.cells@.len(),
                r@ == table_columns(self.cells@, op, scale as nat, i as nat),
            decreases self.cells@.len() - i,
        {
            if self.cells[i].0 == op {
                let v: F = match self.cells[i].1 {
                    PreprocessedCell::Value(v) => v,
                    PreprocessedCell::Index(id) => Self::scaled(id, scale),
                    PreprocessedCell::Read(id) => Self::scaled(id, scale),
                    PreprocessedCell::Output(id) => Self::scaled(id, scale),
                };
                r.push(v);
            }
            i += 1;
        }
        r
    }

    fn scaled(id: WitnessId, scale: u32) -> (r: F)
        ensures
            r == F::sp_from(id.0 as nat * scale as nat),
    {
        assert(id.0 as int * scale as int <= u32::MAX as int * u32::MAX as int) by (nonlinear_arith)
            requires
                0 <= id.0 <= u32::MAX,
                0 <= scale <= u32::MAX,
        ;
        F::from_u64(id.0 as u64 * scale as u64)
    }

    fn register_flag(&mut self, op: NpoTypeId, b: bool)
        ensures
            final(self).cells@ == old(self).cells@ + tagged(op, seq![flag::<F>(b)]),
    {
        let v: F = if b {
            F::one()
        } else {
            F::zero()
        };
        self.cells.push((op, PreprocessedCell::Value(v)));
        assert(self.cells@ =~= old(self).cells@ + tagged(op, seq![flag::<F>(b)]));
    }

    /// Registers the index of a witness without a read of it.
    pub fn register_index(&mut self, op: NpoTypeId, id: WitnessId)
        ensures
            final(self).cells@ == old(self).cells@ + tagged(op, seq![PreprocessedCell::Index(id)]),
    {
        self.cells.push((op, PreprocessedCell::Index(id)));
        assert(self.cells@ =~= old(self).cells@ + tagged(op, seq![PreprocessedCell::Index(id)]));
    }

    /// Registers reads of witnesses.
    pub fn register_witness_reads(&mut self, op: NpoTypeId, ids: &Vec<WitnessId>)
        ensures
            final(self).cells@ == old(self).cells@ + tagged(op, read_cells(ids@)),
    {
        let mut i: usize = 0;
        while i < ids.len()
            invariant
                i <= ids@.len(),
                self.cells@ == old(self).cells@ + tagged(op, read_cells(ids@.take(i as int))),
            decreases ids@.len() - i,
        {
            self.cells.push((op, PreprocessedCell::Read(ids[i])));
            i += 1;
            assert(self.cells@ =~= old(self).cells@ + tagged(
                op,
                read_cells(ids@.take(i as int)),
            ));
        }
        assert(ids@.take(i as int) =~= ids@);
    }

    /// Registers the creation of witnesses.
    pub fn register_output_index(&mut self, op: NpoTypeId, ids: &Vec<WitnessId>)
        ensures
            final(self).cells@ == old(self).cells@ + tagged(op, output_cells(ids@)),
    {
        let mut i: usize = 0;
        while i < ids.len()
            invariant
                i <= ids@.len(),
                self.cells@ == old(self).cells@ + tagged(op, output_cells(ids@.take(i as int))),
            decreases ids@.len() - i,
        {
            self.cells.push((op, PreprocessedCell::Output(ids[i])));
            i += 1;
            assert(self.cells@ =~= old(self).cells@ + tagged(
                op,
                output_cells(ids@.take(i as int)),
            ));
        }
        assert(ids@.take(i as int) =~= ids@);
    }
}

/// Cells, and the failure after which nothing more is emitted.
#[verifier::ext_equal]
pub struct Emission<F> {
    pub cells: Seq<PreprocessedCell<F>>,
    pub failure: Option<CircuitFailure>,
}

proof fn lemma_tagged_append<F>(
    op: NpoTypeId,
    a: Seq<PreprocessedCell<F>>,
    b: Seq<PreprocessedCell<F>>,
)
    ensures
        tagged(op, a + b) == tagged(op, a) + tagged(op, b),
{
    assert(tagged(op, a + b) =~= tagged(op, a) + tagged(op, b));
}

impl<V: PoseidonVariant> PoseidonPermExecutor<V> {
    /// The limb inherits from the previous output of a row outside Merkle mode.
    pub open spec fn normal_chained(self, slot: Seq<WitnessId>) -> bool {
        !self.new_start && !self.merkle_path && slot.len() == 0
    }

    /// The limb inherits from the previous output of a Merkle row.
    pub open spec fn merkle_chained(self, slot: Seq<WitnessId>) -> bool {
        !self.new_start && self.merkle_path && slot.len() == 0
    }

    /// The header of a compact row: which rate limbs are exposed, the length tag, whether the
    /// capacity is chained, and the two chain selectors of each rate limb.
    pub open spec fn compact_header<F: Field>(self, inputs: Seq<Seq<WitnessId>>) -> Seq<
        PreprocessedCell<F>,
    > {
        let rate = self.sizes().rate_ext;
        Seq::new(rate, |i: int| flag::<F>(inputs[i].len() > 0)) + seq![
            PreprocessedCell::Value(F::sp_from((self.absorb_len % 256) as nat)),
            flag::<F>(!self.new_start),
        ] + Seq::new(rate, |i: int| flag::<F>(self.normal_chained(inputs[i]))) + Seq::new(
            rate,
            |i: int| flag::<F>(self.merkle_chained(inputs[i])),
        )
    }

    /// The cell of one input limb of a compact row.
    pub open spec fn compact_input_cell<F: Field>(self, slot: Seq<WitnessId>) -> PreprocessedCell<
        F,
    > {
        if slot.len() == 0 {
            PreprocessedCell::Value(F::sp_zero())
        } else if self.merkle_path {
            PreprocessedCell::Index(slot[0])
        } else {
            PreprocessedCell::Read(slot[0])
        }
    }

    /// The cells of one input limb of a standard row.
    pub open spec fn standard_input_cells<F: Field>(self, slot: Seq<WitnessId>) -> Seq<
        PreprocessedCell<F>,
    > {
        let exposed: Seq<PreprocessedCell<F>> = if slot.len() == 0 {
            seq![flag::<F>(false), flag::<F>(false)]
        } else if self.merkle_path && !self.arity4() {
            seq![PreprocessedCell::Index(slot[0]), flag::<F>(true)]
        } else {
            read_cells::<F>(slot).push(flag::<F>(true))
        };
        exposed + seq![
            flag::<F>(self.normal_chained(slot)),
            flag::<F>(self.merkle_chained(slot)),
        ]
    }

    pub open spec fn standard_inputs_cells<F: Field>(
        self,
        inputs: Seq<Seq<WitnessId>>,
        n: nat,
    ) -> Seq<PreprocessedCell<F>>
        decreases n,
    {
        if n == 0 {
            Seq::empty()
        } else {
            self.standard_inputs_cells::<F>(inputs, (n - 1) as nat) + self.standard_input_cells::<
                F,
            >(inputs[n - 1])
        }
    }

    /// What the input limbs emit.
    pub open spec fn inputs_emitted<F: Field>(self, inputs: Seq<Seq<WitnessId>>) -> Emission<F> {
        let width = self.sizes().width_ext;
        let rate = self.sizes().rate_ext;
        if self.compact() {
            let fed = seqs::least(self.capacity(), executor::slot_is_exposed(inputs, rate));
            let double = seqs::least(width, executor::slot_exceeds_one(inputs));
            if !self.merkle_path && fed is Some {
                Emission {
                    cells: Seq::empty(),
                    failure: Some(
                        CircuitFailure::LayoutMismatch {
                            op: self.op_type,
                            expected:
                                "capacity input slots must be empty on compact D=1 sponge rows"@,
                            got: inputs[rate + fed->0].len(),
                        },
                    ),
                }
            } else {
                let written = if double is Some {
                    double->0 as nat
                } else {
                    width
                };
                Emission {
                    cells: self.compact_header::<F>(inputs) + Seq::new(
                        written,
                        |i: int| self.compact_input_cell::<F>(inputs[i]),
                    ),
                    failure: if double is Some {
                        Some(
                            CircuitFailure::LayoutMismatch {
                                op: self.op_type,
                                expected: "0 or 1 witness per input limb"@,
                                got: inputs[double->0].len(),
                            },
                        )
                    } else {
                        None
                    },
                }
            }
        } else {
            Emission { cells: self.standard_inputs_cells::<F>(inputs, width), failure: None }
        }
    }

    /// Emits the columns of the input limbs: per limb a witness index, whether it is exposed, and
    /// its two chain selectors; in the compact layout the flags precede the indices.
    pub fn preprocess_inputs<F: Field>(
        &self,
        inputs: &[Vec<WitnessId>],
        preprocessed: &mut PreprocessedWriter<F>,
    ) -> (r: Result<(), CircuitError>)
        requires
            self.sizes().width_ext <= inputs@.len(),
        ensures
            final(preprocessed).cells@ == old(preprocessed).cells@ + tagged(
                self.op_type,
                self.inputs_emitted::<F>(executor::slots(inputs@)).cells,
            ),
            match r {
                Ok(()) => self.inputs_emitted::<F>(executor::slots(inputs@)).failure is None,
                Err(e) => self.inputs_emitted::<F>(executor::slots(inputs@)).failure == Some(e@),
            },
    {
        let compact: bool = {
            let rate: usize = self.config.rate_ext();
            let width: usize = self.config.width_ext();
            self.config.d() == 1 && width == 2 * rate
        };
        if compact {
            self.preprocess_compact_inputs(inputs, preprocessed)
        } else {
            self.preprocess_standard_inputs(inputs, preprocessed);
            Ok(())
        }
    }

    fn preprocess_standard_inputs<F: Field>(
        &self,
        inputs: &[Vec<WitnessId>],
        preprocessed: &mut PreprocessedWriter<F>,
    )
        requires
            self.sizes().width_ext <= inputs@.len(),
        ensures
            final(preprocessed).cells@ == old(preprocessed).cells@ + tagged(
                self.op_type,
                self.standard_inputs_cells::<F>(
                    executor::slots(inputs@),
                    self.sizes().width_ext,
                ),
            ),
    {
        let ghost ids = executor::slots(inputs@);
        let ghost start = preprocessed.cells@;
        let width: usize = self.config.width_ext();
        let arity4: bool = self.config.is_arity4_shape();
        let op = self.op_type;
        let mut i: usize = 0;
        assert(start =~= start + tagged(op, Seq::<PreprocessedCell<F>>::empty()));
        while i < width
            invariant
                i <= width <= inputs@.len(),
                ids == executor::slots(inputs@),
                arity4 == self.arity4(),
                op == self.op_type,
                preprocessed.cells@ == start + tagged(
                    op,
                    self.standard_inputs_cells::<F>(ids, i as nat),
                ),
            decreases width - i,
        {
            let slot: &Vec<WitnessId> = &inputs[i];
            assert(ids[i as int] == slot@);
            if slot.len() == 0 {
                preprocessed.register_flag(op, false);
                preprocessed.register_flag(op, false);
            } else if self.merkle_path {
                if arity4 {
                    preprocessed.register_witness_reads(op, slot);
                } else {
                    preprocessed.register_index(op, slot[0]);
                }
                preprocessed.register_flag(op, true);
            } else {
                preprocessed.register_witness_reads(op, slot);
                preprocessed.register_flag(op, true);
            }
            preprocessed.register_flag(
                op,
                !self.new_start && !self.merkle_path && slot.len() == 0,
            );
            preprocessed.register_flag(op, !self.new_start && self.merkle_path && slot.len() == 0);
            i += 1;
            assert(preprocessed.cells@ =~= start + tagged(
                op,
                self.standard_inputs_cells::<F>(ids, i as nat),
            ));
        }
    }

    /// Emits one flag per rate limb of a compact row.
    fn register_rate_flags<F: Field>(
        &self,
        inputs: &[Vec<WitnessId>],
        rate: usize,
        chained: bool,
        merkle: bool,
        preprocessed: &mut PreprocessedWriter<F>,
    )
        requires
            rate <= inputs@.len(),
        ensures
            final(preprocessed).cells@ == old(preprocessed).cells@ + tagged(
                self.op_type,
                Seq::new(
                    rate as nat,
                    |i: int|
                        if !chained {
                            flag::<F>(executor::slots(inputs@)[i].len() > 0)
                        } else if merkle {
                            flag::<F>(self.merkle_chained(executor::slots(inputs@)[i]))
                        } else {
                            flag::<F>(self.normal_chained(executor::slots(inputs@)[i]))
                        },
                ),
            ),
    {
        let ghost ids = executor::slots(inputs@);
        let ghost start = preprocessed.cells@;
        let ghost model = Seq::new(
            rate as nat,
            |i: int|
                if !chained {
                    flag::<F>(executor::slots(inputs@)[i].len() > 0)
                } else if merkle {
                    flag::<F>(self.merkle_chained(executor::slots(inputs@)[i]))
                } else {
                    flag::<F>(self.normal_chained(executor::slots(inputs@)[i]))
                },
        );
        let mut i: usize = 0;
        while i < rate
            invariant
                i <= rate <= inputs@.len(),
                ids == executor::slots(inputs@),
                model == Seq::new(
                    rate as nat,
                    |i: int|
                        if !chained {
                            flag::<F>(executor::slots(inputs@)[i].len() > 0)
                        } else if merkle {
                            flag::<F>(self.merkle_chained(executor::slots(inputs@)[i]))
                        } else {
                            flag::<F>(self.normal_chained(executor::slots(inputs@)[i]))
                        },
                ),
                preprocessed.cells@ == start + tagged(self.op_type, model.take(i as int)),
            decreases rate - i,
        {
            assert(ids[i as int] == inputs@[i as int]@);
            let empty: bool = inputs[i].len() == 0;
            let b: bool = if !chained {
                !empty
            } else {
                !self.new_start && self.merkle_path == merkle && empty
            };
            preprocessed.register_flag(self.op_type, b);
            i += 1;
            assert(preprocessed.cells@ =~= start + tagged(self.op_type, model.take(i as int)));
        }
        assert(model.take(i as int) =~= model);
    }

    fn preprocess_compact_inputs<F: Field>(
        &self,
        inputs: &[Vec<WitnessId>],
        preprocessed: &mut PreprocessedWriter<F>,
    ) -> (r: Result<(), CircuitError>)
        requires
            self.compact(),
            self.sizes().width_ext <= inputs@.len(),
        ensures
            final(preprocessed).cells@ == old(preprocessed).cells@ + tagged(
                self.op_type,
                self.inputs_emitted::<F>(executor::slots(inputs@)).cells,
            ),
            match r {
                Ok(()) => self.inputs_emitted::<F>(executor::slots(inputs@)).failure is None,
                Err(e) => self.inputs_emitted::<F>(executor::slots(inputs@)).failure == Some(e@),
            },
    {
        let ghost ids = executor::slots(inputs@);
        let ghost start = preprocessed.cells@;
        let width: usize = self.config.width_ext();
        let rate: usize = self.config.rate_ext();
        let op = self.op_type;
        if !self.merkle_path {
            let mut i: usize = 0;
            while i < width - rate
                invariant
                    i <= width - rate,
                    rate < width <= inputs@.len(),
                    width == self.sizes().width_ext,
                    rate == self.sizes().rate_ext,
                    self.compact(),
                    !self.merkle_path,
                    ids == executor::slots(inputs@),
                    start == old(preprocessed).cells@,
                    preprocessed.cells@ == start,
                    forall|j: int|
                        0 <= j < i ==> !(#[trigger] executor::slot_is_exposed(ids, rate as nat)(j)),
                decreases width - rate - i,
            {
                assert(ids[rate + i] == inputs@[rate + i]@);
                if inputs[rate + i].len() > 0 {
                    proof {
                        assert(executor::slot_is_exposed(ids, rate as nat)(i as int));
                        seqs::lemma_least_some(
                            self.capacity(),
                            executor::slot_is_exposed(ids, rate as nat),
                            i as int,
                        );
                        assert(start =~= start + tagged(
                            self.op_type,
                            Seq::<PreprocessedCell<F>>::empty(),
                        ));
                    }
                    return Err(
                        CircuitError::NonPrimitiveOpLayoutMismatch {
                            op: self.op_type,
                            expected: String::from_str(
                                "capacity input slots must be empty on compact D=1 sponge rows",
                            ),
                            got: inputs[rate + i].len(),
                        },
                    );
                }
                i += 1;
            }
            proof {
                seqs::lemma_least_none(
                    self.capacity(),
                    executor::slot_is_exposed(ids, rate as nat),
                );
            }
        }
        self.register_rate_flags(inputs, rate, false, false, preprocessed);
        let length: F = F::from_u64((self.absorb_len % 256) as u64);
        preprocessed.cells.push((op, PreprocessedCell::Value(length)));
        preprocessed.register_flag(op, !self.new_start);
        self.register_rate_flags(inputs, rate, true, false, preprocessed);
        self.register_rate_flags(inputs, rate, true, true, preprocessed);
        let ghost header = self.compact_header::<F>(ids);
        assert(preprocessed.cells@ =~= start + tagged(op, header));
        let ghost limbs = Seq::new(
            width as nat,
            |i: int| self.compact_input_cell::<F>(ids[i]),
        );
        let mut i: usize = 0;
        while i < width
            invariant
                i <= width <= inputs@.len(),
                width == self.sizes().width_ext,
                rate == self.sizes().rate_ext,
                self.compact(),
                op == self.op_type,
                ids == executor::slots(inputs@),
                start == old(preprocessed).cells@,
                header == self.compact_header::<F>(ids),
                limbs == Seq::new(width as nat, |i: int| self.compact_input_cell::<F>(ids[i])),
                self.merkle_path || seqs::least(
                    self.capacity(),
                    executor::slot_is_exposed(ids, rate as nat),
                ) is None,
                preprocessed.cells@ == start + tagged(op, header + limbs.take(i as int)),
                forall|j: int| 0 <= j < i ==> !(#[trigger] executor::slot_exceeds_one(ids)(j)),
            decreases width - i,
        {
            let slot: &Vec<WitnessId> = &inputs[i];
            assert(ids[i as int] == slot@);
            if slot.len() == 0 {
                preprocessed.register_flag(op, false);
            } else if slot.len() == 1 {
                if self.merkle_path {
                    preprocessed.register_index(op, slot[0]);
                } else {
                    preprocessed.register_witness_reads(op, slot);
                }
            } else {
                proof {
                    assert(executor::slot_exceeds_one(ids)(i as int));
                    seqs::lemma_least_some(
                        width as nat,
                        executor::slot_exceeds_one(ids),
                        i as int,
                    );
                    assert(limbs.take(i as int) =~= Seq::new(
                        i as nat,
                        |i: int| self.compact_input_cell::<F>(ids[i]),
                    ));
                }
                return Err(
                    CircuitError::NonPrimitiveOpLayoutMismatch {
                        op: self.op_type,
                        expected: String::from_str("0 or 1 witness per input limb"),
                        got: slot.len(),
                    },
                );
            }
            i += 1;
            assert(preprocessed.cells@ =~= start + tagged(op, header + limbs.take(i as int)));
        }
        proof {
            seqs::lemma_least_none(width as nat, executor::slot_exceeds_one(ids));
            assert(limbs.take(i as int) =~= limbs);
        }
        Ok(())
    }

    /// The cells of one output limb of a standard row.
    pub open spec fn standard_output_cells<F: Field>(self, slot: Seq<WitnessId>) -> Seq<
        PreprocessedCell<F>,
    > {
        if slot.len() == 0 {
            seq![flag::<F>(false), flag::<F>(false)]
        } else {
            output_cells::<F>(slot).push(flag::<F>(true))
        }
    }

    pub open spec fn standard_outputs_cells<F: Field>(
        self,
        outputs: Seq<Seq<WitnessId>>,
        n: nat,
    ) -> Seq<PreprocessedCell<F>>
        decreases n,
    {
        if n == 0 {
            Seq::empty()
        } else {
            self.standard_outputs_cells::<F>(outputs, (n - 1) as nat)
                + self.standard_output_cells::<F>(outputs[n - 1])
        }
    }

    /// The cell of one output limb of a compact row.
    pub open spec fn compact_output_cell<F: Field>(self, slot: Seq<WitnessId>) -> PreprocessedCell<
        F,
    > {
        if slot.len() == 0 {
            PreprocessedCell::Value(F::sp_zero())
        } else {
            PreprocessedCell::Output(slot[0])
        }
    }

    /// What the output limbs emit. Only the rate is emitted.
    pub open spec fn outputs_emitted<F: Field>(self, outputs: Seq<Seq<WitnessId>>) -> Emission<F> {
        let n = executor::smaller(self.sizes().rate_ext, outputs.len());
        if self.compact() {
            let double = seqs::least(n, executor::slot_exceeds_one(outputs));
            match double {
                Some(k) => Emission {
                    cells: Seq::new(
                        k as nat,
                        |i: int| self.compact_output_cell::<F>(outputs[i]),
                    ),
                    failure: Some(
                        CircuitFailure::LayoutMismatch {
                            op: self.op_type,
                            expected: "0 or 1 witness per output limb"@,
                            got: outputs[k].len(),
                        },
                    ),
                },
                None => Emission {
                    cells: Seq::new(n, |i: int| self.compact_output_cell::<F>(outputs[i]))
                        + Seq::new(n, |i: int| flag::<F>(outputs[i].len() > 0)),
                    failure: None,
                },
            }
        } else {
            Emission { cells: self.standard_outputs_cells::<F>(outputs, n), failure: None }
        }
    }

    /// Emits the columns of the rate output limbs: per limb a witness index and whether it is
    /// exposed; in the compact layout the indices precede the flags.
    pub fn preprocess_outputs<F: Field>(
        &self,
        outputs: &[Vec<WitnessId>],
        preprocessed: &mut PreprocessedWriter<F>,
    ) -> (r: Result<(), CircuitError>)
        ensures
            final(preprocessed).cells@ == old(preprocessed).cells@ + tagged(
                self.op_type,
                self.outputs_emitted::<F>(executor::slots(outputs@)).cells,
            ),
            match r {
                Ok(()) => self.outputs_emitted::<F>(executor::slots(outputs@)).failure is None,
                Err(e) => self.outputs_emitted::<F>(executor::slots(outputs@)).failure == Some(e@),
            },
    {
        let ghost ids = executor::slots(outputs@);
        let ghost start = preprocessed.cells@;
        let rate: usize = self.config.rate_ext();
        let width: usize = self.config.width_ext();
        let op = self.op_type;
        let mut n: usize = rate;
        if n > outputs.len() {
            n = outputs.len();
        }
        assert(start =~= start + tagged(op, Seq::<PreprocessedCell<F>>::empty()));
        if self.config.d() == 1 && width == 2 * rate {
            let ghost limbs = Seq::new(n as nat, |i: int| self.compact_output_cell::<F>(ids[i]));
            assert(limbs.take(0) =~= Seq::empty());
            let mut i: usize = 0;
            while i < n
                invariant
                    i <= n,
                    n == executor::smaller(self.sizes().rate_ext, outputs@.len()),
                    self.compact(),
                    op == self.op_type,
                    ids == executor::slots(outputs@),
                    start == old(preprocessed).cells@,
                    limbs == Seq::new(n as nat, |i: int| self.compact_output_cell::<F>(ids[i])),
                    preprocessed.cells@ == start + tagged(op, limbs.take(i as int)),
                    forall|j: int| 0 <= j < i ==> !(#[trigger] executor::slot_exceeds_one(ids)(j)),
                decreases n - i,
            {
                let slot: &Vec<WitnessId> = &outputs[i];
                assert(ids[i as int] == slot@);
                if slot.len() == 0 {
                    preprocessed.register_flag(op, false);
                } else if slot.len() == 1 {
                    preprocessed.register_output_index(op, slot);
                } else {
                    proof {
                        assert(executor::slot_exceeds_one(ids)(i as int));
                        seqs::lemma_least_some(
                            n as nat,
                            executor::slot_exceeds_one(ids),
                            i as int,
                        );
                        assert(limbs.take(i as int) =~= Seq::new(
                            i as nat,
                            |i: int| self.compact_output_cell::<F>(ids[i]),
                        ));
                    }
                    return Err(
                        CircuitError::NonPrimitiveOpLayoutMismatch {
                            op: self.op_type,
                            expected: String::from_str("0 or 1 witness per output limb"),
                            got: slot.len(),
                        },
                    );
                }
                i += 1;
                assert(preprocessed.cells@ =~= start + tagged(op, limbs.take(i as int)));
            }
            proof {
                seqs::lemma_least_none(n as nat, executor::slot_exceeds_one(ids));
                assert(limbs.take(i as int) =~= limbs);
            }
            self.register_rate_flags(outputs, n, false, false, preprocessed);
            proof {
                assert(preprocessed.cells@ =~= start + tagged(
                    op,
                    self.outputs_emitted::<F>(ids).cells,
                ));
            }
            return Ok(());
        }
        let mut i: usize = 0;
        while i < n
            invariant
                i <= n <= outputs@.len(),
                op == self.op_type,
                ids == executor::slots(outputs@),
                start == old(preprocessed).cells@,
                preprocessed.cells@ == start + tagged(
                    op,
                    self.standard_outputs_cells::<F>(ids, i as nat),
                ),
            decreases n - i,
        {
            let slot: &Vec<WitnessId> = &outputs[i];
            assert(ids[i as int] == slot@);
            if slot.len() == 0 {
                preprocessed.register_flag(op, false);
                preprocessed.register_flag(op, false);
            } else {
                preprocessed.register_output_index(op, slot);
                preprocessed.register_flag(op, true);
            }
            i += 1;
            assert(preprocessed.cells@ =~= start + tagged(
                op,
                self.standard_outputs_cells::<F>(ids, i as nat),
            ));
        }
        Ok(())
    }

    /// The four control cells of a row. Four-way Merkle rows read the two direction bits in place
    /// of the accumulator index and its flag.
    pub open spec fn flag_cells<F: Field>(self, inputs: Seq<Seq<WitnessId>>) -> Seq<
        PreprocessedCell<F>,
    > {
        let width = self.sizes().width_ext as int;
        let leading: Seq<PreprocessedCell<F>> = if self.base_mode() {
            seq![flag::<F>(false), flag::<F>(false)]
        } else if self.arity4_merkle() {
            read_cells::<F>(inputs[width + 1]) + read_cells::<F>(inputs[width + 2])
        } else if inputs[width].len() == 0 {
            seq![flag::<F>(false), flag::<F>(false)]
        } else {
            seq![PreprocessedCell::Index(inputs[width][0]), flag::<F>(self.merkle_path)]
        };
        leading + seq![flag::<F>(self.new_start), flag::<F>(self.merkle_path)]
    }

    /// The number of input slots that the control cells need.
    pub open spec fn slots_for_flags(self) -> nat {
        if self.base_mode() {
            self.sizes().width_ext
        } else if self.arity4_merkle() {
            self.sizes().width_ext + 3
        } else {
            self.sizes().width_ext + 1
        }
    }

    /// Emits the control columns: the MMCS accumulator index and its flag, and the two mode
    /// selectors.
    pub fn preprocess_flags<F: Field>(
        &self,
        inputs: &[Vec<WitnessId>],
        preprocessed: &mut PreprocessedWriter<F>,
    )
        requires
            self.slots_for_flags() <= inputs@.len(),
        ensures
            final(preprocessed).cells@ == old(preprocessed).cells@ + tagged(
                self.op_type,
                self.flag_cells::<F>(executor::slots(inputs@)),
            ),
    {
        let ghost ids = executor::slots(inputs@);
        let ghost start = preprocessed.cells@;
        let width: usize = self.config.width_ext();
        let op = self.op_type;
        if self.config.d() == 1 && !self.merkle_path {
            preprocessed.register_flag(op, false);
            preprocessed.register_flag(op, false);
        } else if self.config.is_arity4_shape() && self.merkle_path {
            assert(ids[width + 1] == inputs@[width + 1]@);
            assert(ids[width + 2] == inputs@[width + 2]@);
            preprocessed.register_witness_reads(op, &inputs[width + 1]);
            preprocessed.register_witness_reads(op, &inputs[width + 2]);
        } else {
            assert(ids[width as int] == inputs@[width as int]@);
            if inputs[width].len() == 0 {
                preprocessed.register_flag(op, false);
            } else {
                preprocessed.register_index(op, inputs[width][0]);
            }
            preprocessed.register_flag(op, inputs[width].len() > 0 && self.merkle_path);
        }
        preprocessed.register_flag(op, self.new_start);
        preprocessed.register_flag(op, self.merkle_path);
        assert(preprocessed.cells@ =~= start + tagged(op, self.flag_cells::<F>(ids)));
    }

    /// What a row emits: input limbs, output limbs, control cells, up to the first failure.
    pub open spec fn emitted<F: Field>(
        self,
        inputs: Seq<Seq<WitnessId>>,
        outputs: Seq<Seq<WitnessId>>,
    ) -> Emission<F> {
        let first = self.inputs_emitted::<F>(inputs);
        let second = self.outputs_emitted::<F>(outputs);
        if first.failure is Some {
            first
        } else if second.failure is Some {
            Emission { cells: first.cells + second.cells, failure: second.failure }
        } else {
            Emission {
                cells: first.cells + second.cells + self.flag_cells::<F>(inputs),
                failure: None,
            }
        }
    }

    /// Emits the preprocessed columns of the row.
    pub fn preprocess<F: Field>(
        &self,
        inputs: &[Vec<WitnessId>],
        outputs: &[Vec<WitnessId>],
        preprocessed: &mut PreprocessedWriter<F>,
    ) -> (r: Result<(), CircuitError>)
        requires
            self.slots_for_flags() <= inputs@.len(),
        ensures
            final(preprocessed).cells@ == old(preprocessed).cells@ + tagged(
                self.op_type,
                self.emitted::<F>(executor::slots(inputs@), executor::slots(outputs@)).cells,
            ),
            match r {
                Ok(()) => self.emitted::<F>(
                    executor::slots(inputs@),
                    executor::slots(outputs@),
                ).failure is None,
                Err(e) => self.emitted::<F>(
                    executor::slots(inputs@),
                    executor::slots(outputs@),
                ).failure == Some(e@),
            },
    {
        let ghost start = preprocessed.cells@;
        let ghost first = self.inputs_emitted::<F>(executor::slots(inputs@));
        let ghost second = self.outputs_emitted::<F>(executor::slots(outputs@));
        let ghost third = self.flag_cells::<F>(executor::slots(inputs@));
        match self.preprocess_inputs(inputs, preprocessed) {
            Err(e) => {
                return Err(e);
            },
            Ok(()) => {},
        }
        match self.preprocess_outputs(outputs, preprocessed) {
            Err(e) => {
                proof {
                    lemma_tagged_append(self.op_type, first.cells, second.cells);
                    assert(preprocessed.cells@ =~= start + tagged(
                        self.op_type,
                        first.cells + second.cells,
                    ));
                }
                return Err(e);
            },
            Ok(()) => {},
        }
        self.preprocess_flags(inputs, preprocessed);
        proof {
            lemma_tagged_append(self.op_type, first.cells, second.cells);
            lemma_tagged_append(self.op_type, first.cells + second.cells, third);
            assert(preprocessed.cells@ =~= start + tagged(
                self.op_type,
                first.cells + second.cells + third,
            ));
        }
        Ok(())
    }
}

/// The two chain selectors of a limb are never both set.
pub proof fn law_chain_selectors_exclude_each_other<V: PoseidonVariant>(
    e: PoseidonPermExecutor<V>,
    slot: Seq<WitnessId>,
)
    ensures
        !(e.normal_chained(slot) && e.merkle_chained(slot)),
        e.normal_chained(slot) || e.merkle_chained(slot) ==> slot.len() == 0,
        slot.len() == 0 ==> (e.new_start || e.normal_chained(slot) || e.merkle_chained(slot)),
{
}

proof fn lemma_standard_inputs_len<V: PoseidonVariant, F: Field>(
    e: PoseidonPermExecutor<V>,
    inputs: Seq<Seq<WitnessId>>,
    n: nat,
)
    requires
        n <= inputs.len(),
        forall|i: int| 0 <= i < n ==> (#[trigger] inputs[i]).len() <= 1,
    ensures
        e.standard_inputs_cells::<F>(inputs, n).len() == 4 * n,
    decreases n,
{
    if n > 0 {
        lemma_standard_inputs_len::<V, F>(e, inputs, (n - 1) as nat);
        assert(inputs[n - 1].len() <= 1);
    }
}

proof fn lemma_standard_outputs_len<V: PoseidonVariant, F: Field>(
    e: PoseidonPermExecutor<V>,
    outputs: Seq<Seq<WitnessId>>,
    n: nat,
)
    requires
        n <= outputs.len(),
        forall|i: int| 0 <= i < n ==> (#[trigger] outputs[i]).len() <= 1,
    ensures
        e.standard_outputs_cells::<F>(outputs, n).len() == 2 * n,
    decreases n,
{
    if n > 0 {
        lemma_standard_outputs_len::<V, F>(e, outputs, (n - 1) as nat);
        assert(outputs[n - 1].len() <= 1);
    }
}

/// A row whose slots hold at most one witness each, and whose direction bits are given on four-way
/// Merkle rows, emits exactly the columns that its table's row width announces.
pub proof fn law_emitted_row_fills_width<V: PoseidonVariant, F: Field>(
    e: PoseidonPermExecutor<V>,
    inputs: Seq<Seq<WitnessId>>,
    outputs: Seq<Seq<WitnessId>>,
)
    requires
        e.slots_for_flags() <= inputs.len(),
        e.sizes().rate_ext <= outputs.len(),
        forall|i: int| 0 <= i < inputs.len() ==> (#[trigger] inputs[i]).len() <= 1,
        forall|i: int| 0 <= i < outputs.len() ==> (#[trigger] outputs[i]).len() <= 1,
        e.arity4_merkle() ==> inputs[e.sizes().width_ext as int + 1].len() == 1
            && inputs[e.sizes().width_ext as int + 2].len() == 1,
        e.emitted::<F>(inputs, outputs).failure is None,
    ensures
        e.emitted::<F>(inputs, outputs).cells.len() == layout::row_width(
            e.sizes().d,
            e.sizes().width_ext,
            e.sizes().rate_ext,
        ),
{
    e.config.sizes_split();
    let width = e.sizes().width_ext;
    let rate = e.sizes().rate_ext;
    if !e.compact() {
        lemma_standard_inputs_len::<V, F>(e, inputs, width);
        lemma_standard_outputs_len::<V, F>(e, outputs, rate);
    }
}

} // verus!
