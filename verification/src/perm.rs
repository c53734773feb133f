//! Permutation rows in circuits under construction.

use vstd::prelude::*;

use crate::circuit;
use crate::circuit::{CircuitBuilder, CircuitBuilderError, Expr, OpEntry, PermOpParams};
use crate::config;
use crate::config::{
    PermConfig, Poseidon1Variant, Poseidon2Variant, PoseidonConfigApi, PoseidonVariant,
};
use crate::context::{NpoPrivateData, PoseidonPermPrivateData};
use crate::field::Field;
use crate::seqs;
use crate::seqs::{copy_vec, filled};
use crate::types::{ExprId, NonPrimitiveOpId, NpoTypeId};

verus! {

/// Config-less perm-row arguments, shared by Poseidon1 and Poseidon2.
#[derive(Clone, Debug, PartialEq, Eq)]
pub struct PermCall {
    pub new_start: bool,
    pub merkle_path: bool,
    pub mmcs_bit: Option<ExprId>,
    pub mmcs_bit2: Option<ExprId>,
    pub inputs: Vec<Option<ExprId>>,
    pub out_ctl: Vec<bool>,
    pub return_all_outputs: bool,
    pub mmcs_index_sum: Option<ExprId>,
}

/// Private (witness) data for one perm row, typed for the configured hash.
pub fn perm_private_data<F>(cfg: PermConfig, sibling: Vec<F>) -> (r: NpoPrivateData<F>)
    ensures
        r == (match cfg {
            PermConfig::Poseidon1(_) => NpoPrivateData::Poseidon1(
                PoseidonPermPrivateData { sibling },
            ),
            PermConfig::Poseidon2(_) => NpoPrivateData::Poseidon2(
                PoseidonPermPrivateData { sibling },
            ),
        }),
{
    match cfg {
        PermConfig::Poseidon1(_) => NpoPrivateData::Poseidon1(PoseidonPermPrivateData { sibling }),
        PermConfig::Poseidon2(_) => NpoPrivateData::Poseidon2(PoseidonPermPrivateData { sibling }),
    }
}

/// User-facing arguments for adding a Poseidon perm row.
pub struct PoseidonPermCall<V: PoseidonVariant> {
    /// Permutation configuration for this row.
    pub config: V::Config,
    /// Flag indicating whether a new chain is started.
    pub new_start: bool,
    /// Flag indicating whether we are verifying a Merkle path.
    pub merkle_path: bool,
    /// MMCS direction bit input (base field, boolean). Required on Merkle rows.
    pub mmcs_bit: Option<ExprId>,
    /// High MMCS direction bit for four-way compression. Required on four-way Merkle rows, and
    /// absent otherwise. Together with `mmcs_bit` it selects the running-hash chunk
    /// `pos = mmcs_bit + 2·mmcs_bit2`.
    pub mmcs_bit2: Option<ExprId>,
    /// Optional exposure for each input limb.
    pub inputs: Vec<Option<ExprId>>,
    /// Output exposure flags for rate limbs.
    pub out_ctl: Vec<bool>,
    /// Whether to return all output limbs.
    pub return_all_outputs: bool,
    /// Prefix-free duplex-sponge length tag for compact D=1 rows.
    pub absorb_len: usize,
    /// Optional MMCS index accumulator value to expose.
    pub mmcs_index_sum: Option<ExprId>,
}

impl<V: PoseidonVariant> Default for PoseidonPermCall<V> {
    fn default() -> (r: Self)
        ensures
            r.config == V::sp_default_call_config(),
            !r.new_start,
            !r.merkle_path,
            r.mmcs_bit is None,
            r.mmcs_bit2 is None,
            r.inputs@ == Seq::new(r.config.sizes().width_ext, |i: int| None::<ExprId>),
            r.out_ctl@ == Seq::new(r.config.sizes().rate_ext, |i: int| false),
            !r.return_all_outputs,
            r.absorb_len == 0,
            r.mmcs_index_sum is None,
    {
        let config = V::default_call_config();
        let inputs: Vec<Option<ExprId>> = filled(None, config.width_ext());
        let out_ctl: Vec<bool> = filled(false, config.rate_ext());
        assert(inputs@ =~= Seq::new(config.sizes().width_ext, |i: int| None::<ExprId>));
        assert(out_ctl@ =~= Seq::new(config.sizes().rate_ext, |i: int| false));
        PoseidonPermCall {
            config,
            new_start: false,
            merkle_path: false,
            mmcs_bit: None,
            mmcs_bit2: None,
            inputs,
            out_ctl,
            return_all_outputs: false,
            absorb_len: 0,
            mmcs_index_sum: None,
        }
    }
}

/// User-facing arguments for adding a Poseidon perm row over the base field.
pub struct PoseidonPermCallBase<V: PoseidonVariant> {
    /// Permutation configuration for this row (must be D=1).
    pub config: V::Config,
    /// Flag indicating whether a new chain is started.
    pub new_start: bool,
    /// Optional exposure for each of the input elements.
    pub inputs: [Option<ExprId>; 16],
    /// Output exposure flags for the rate elements.
    pub out_ctl: [bool; 8],
    /// Whether to return all output elements.
    pub return_all_outputs: bool,
    /// Prefix-free duplex-sponge length tag: the number of rate elements absorbed on this row.
    pub absorb_len: usize,
}

impl<V: PoseidonVariant> Default for PoseidonPermCallBase<V> {
    fn default() -> (r: Self)
        ensures
            r.config == V::sp_default_base_config(),
            !r.new_start,
            forall|i: int| 0 <= i < 16 ==> #[trigger] r.inputs@[i] is None,
            forall|i: int| 0 <= i < 8 ==> !(#[trigger] r.out_ctl@[i]),
            !r.return_all_outputs,
            r.absorb_len == 0,
    {
        PoseidonPermCallBase {
            config: V::default_base_config(),
            new_start: false,
            inputs: [None;16],
            out_ctl: [false;8],
            return_all_outputs: false,
            absorb_len: 0,
        }
    }
}

/// A slot with an optional expression.
pub open spec fn slot(id: Option<ExprId>) -> Seq<ExprId> {
    match id {
        Some(id) => seq![id],
        None => Seq::empty(),
    }
}

fn slot_vec(id: Option<ExprId>) -> (r: Vec<ExprId>)
    ensures
        r@ == slot(id),
{
    let mut r: Vec<ExprId> = Vec::new();
    if let Some(id) = id {
        r.push(id);
    }
    assert(r@ =~= slot(id));
    r
}

fn push_slot(slots: &mut Vec<Vec<ExprId>>, id: Option<ExprId>)
    ensures
        seqs::rows(final(slots)@) == seqs::rows(old(slots)@).push(slot(id)),
{
    let ghost before = slots@;
    slots.push(slot_vec(id));
    assert(seqs::rows(slots@) =~= seqs::rows(before).push(slot(id)));
}

fn slot_vecs(ids: &[Option<ExprId>]) -> (r: Vec<Vec<ExprId>>)
    ensures
        seqs::rows(r@) == slot_list(ids@),
{
    let mut r: Vec<Vec<ExprId>> = Vec::new();
    let mut i: usize = 0;
    while i < ids.len()
        invariant
            i <= ids@.len(),
            seqs::rows(r@) == slot_list(ids@.take(i as int)),
        decreases ids@.len() - i,
    {
        push_slot(&mut r, ids[i]);
        i += 1;
        assert(seqs::rows(r@) =~= slot_list(ids@.take(i as int)));
    }
    assert(ids@.take(i as int) =~= ids@);
    r
}

pub open spec fn slot_list(ids: Seq<Option<ExprId>>) -> Seq<Seq<ExprId>> {
    Seq::new(ids.len(), |i: int| slot(ids[i]))
}

/// The labels of the outputs of a row: of the exposed rate limbs, and of the capacity limbs where
/// all outputs are returned.
pub open spec fn output_labels(
    rate: nat,
    width: nat,
    out_ctl: Seq<bool>,
    all: bool,
    out_label: &'static str,
    out_capacity_label: &'static str,
) -> Seq<Option<&'static str>> {
    Seq::new(
        width,
        |i: int|
            if i < rate {
                if i < out_ctl.len() && out_ctl[i] {
                    Some(out_label)
                } else {
                    None
                }
            } else if all {
                Some(out_capacity_label)
            } else {
                None
            },
    )
}

fn label_vec(
    rate: usize,
    width: usize,
    out_ctl: &[bool],
    all: bool,
    out_label: &'static str,
    out_capacity_label: &'static str,
) -> (r: Vec<Option<&'static str>>)
    ensures
        r@ == output_labels(
            rate as nat,
            width as nat,
            out_ctl@,
            all,
            out_label,
            out_capacity_label,
        ),
{
    let ghost model = output_labels(
        rate as nat,
        width as nat,
        out_ctl@,
        all,
        out_label,
        out_capacity_label,
    );
    let mut r: Vec<Option<&'static str>> = Vec::new();
    let mut i: usize = 0;
    while i < width
        invariant
            i <= width,
            model == output_labels(
                rate as nat,
                width as nat,
                out_ctl@,
                all,
                out_label,
                out_capacity_label,
            ),
            r@.len() == i,
            forall|j: int| 0 <= j < i ==> #[trigger] r@[j] == model[j],
        decreases width - i,
    {
        if i < rate {
            if i < out_ctl.len() && out_ctl[i] {
                r.push(Some(out_label));
            } else {
                r.push(None);
            }
        } else if all {
            r.push(Some(out_capacity_label));
        } else {
            r.push(None);
        }
        i += 1;
    }
    assert(r@ =~= model);
    r
}

impl<V: PoseidonVariant> PoseidonPermCall<V> {
    /// The row is one of four-way compression.
    pub open spec fn arity4_merkle(self) -> bool {
        config::arity4(self.config.sizes()) && self.merkle_path
    }

    /// The input slots of the row: the limbs, the accumulator and the direction bits.
    pub open spec fn input_slots(self) -> Seq<Seq<ExprId>> {
        let slots = slot_list(self.inputs@).push(slot(self.mmcs_index_sum)).push(
            slot(self.mmcs_bit),
        );
        if self.arity4_merkle() {
            slots.push(slot(self.mmcs_bit2))
        } else {
            slots
        }
    }

    pub open spec fn labels(
        self,
        out_label: &'static str,
        out_capacity_label: &'static str,
    ) -> Seq<Option<&'static str>> {
        output_labels(
            self.config.sizes().rate_ext,
            self.config.sizes().width_ext,
            self.out_ctl@,
            self.return_all_outputs,
            out_label,
            out_capacity_label,
        )
    }

    /// What is wrong with the direction bits of the row.
    pub open spec fn bits_failure(self) -> Option<CircuitBuilderError> {
        let op = V::sp_npo_type_id(self.config);
        if self.merkle_path && self.mmcs_bit is None {
            Some(CircuitBuilderError::MerkleMissingMmcsBit { op })
        } else if self.arity4_merkle() && self.mmcs_bit2 is None {
            Some(CircuitBuilderError::MerkleMissingMmcsBit2 { op })
        } else if !self.arity4_merkle() && self.mmcs_bit2 is Some {
            Some(CircuitBuilderError::UnexpectedMmcsBit2 { op })
        } else {
            None
        }
    }

    fn check_bits(&self) -> (r: Result<(), CircuitBuilderError>)
        ensures
            r == (match self.bits_failure() {
                Some(e) => Err::<(), CircuitBuilderError>(e),
                None => Ok(()),
            }),
    {
        let arity4_merkle: bool = self.config.is_arity4_shape() && self.merkle_path;
        if self.merkle_path && self.mmcs_bit.is_none() {
            Err(CircuitBuilderError::MerkleMissingMmcsBit { op: V::npo_type_id(self.config) })
        } else if arity4_merkle && self.mmcs_bit2.is_none() {
            Err(CircuitBuilderError::MerkleMissingMmcsBit2 { op: V::npo_type_id(self.config) })
        } else if !arity4_merkle && self.mmcs_bit2.is_some() {
            Err(CircuitBuilderError::UnexpectedMmcsBit2 { op: V::npo_type_id(self.config) })
        } else {
            Ok(())
        }
    }
}

/// What adding an operation does to a circuit.
pub open spec fn op_added<F: Field>(
    before: CircuitBuilder<F>,
    after: CircuitBuilder<F>,
    id: NonPrimitiveOpId,
    outputs: Seq<Option<ExprId>>,
    op_type: NpoTypeId,
    inputs: Seq<Seq<ExprId>>,
    labels: Seq<Option<&'static str>>,
    params: PermOpParams,
    tag: &'static str,
) -> bool {
    &&& id.0 == before.ops@.len()
    &&& outputs == circuit::output_ids(labels, before.nodes@.len() + 1, labels.len())
    &&& after.nodes@ == before.nodes@.push(Expr::Call(id)) + circuit::output_nodes(
        id,
        labels,
        labels.len(),
    )
    &&& after.ops@.len() == before.ops@.len() + 1
    &&& after.ops@.last()@ == (OpEntry { op_type, inputs, outputs, params, tag })
    &&& after.connections == before.connections
    &&& after.public_inputs == before.public_inputs
    &&& before.grows_to(after)
}

/// What adding a permutation row does to a circuit.
pub open spec fn row_added<F: Field, V: PoseidonVariant>(
    before: CircuitBuilder<F>,
    after: CircuitBuilder<F>,
    call: PoseidonPermCall<V>,
    r: Result<(NonPrimitiveOpId, Vec<Option<ExprId>>), CircuitBuilderError>,
    out_label: &'static str,
    out_capacity_label: &'static str,
    tag: &'static str,
) -> bool {
    let op = V::sp_npo_type_id(call.config);
    match r {
        Ok((id, outputs)) => {
            &&& before.enabled@.contains(op)
            &&& op_added(
                before,
                after,
                id,
                outputs@,
                op,
                call.input_slots(),
                call.labels(out_label, out_capacity_label),
                PermOpParams {
                    new_start: call.new_start,
                    merkle_path: call.merkle_path,
                    absorb_len: call.absorb_len,
                },
                tag,
            )
        },
        Err(e) => {
            &&& !before.enabled@.contains(op)
            &&& e == (CircuitBuilderError::OpNotAllowed { op })
            &&& after == before
        },
    }
}

impl<F: Field> CircuitBuilder<F> {
    /// Shared body of the builder methods for extension-mode rows.
    ///
    /// The caller validates the direction bits and supplies the labels and the tag.
    pub fn add_poseidon_perm_inner<V: PoseidonVariant>(
        &mut self,
        call: &PoseidonPermCall<V>,
        out_label: &'static str,
        out_capacity_label: &'static str,
        tag: &'static str,
    ) -> (r: Result<(NonPrimitiveOpId, Vec<Option<ExprId>>), CircuitBuilderError>)
        requires
            old(self).wf(),
        ensures
            row_added(*old(self), *final(self), *call, r, out_label, out_capacity_label, tag),
    {
        let op_type = V::npo_type_id(call.config);
        match self.ensure_op_enabled(op_type) {
            Err(e) => {
                return Err(e);
            },
            Ok(()) => {},
        }
        let mut inputs: Vec<Vec<ExprId>> = slot_vecs(call.inputs.as_slice());
        push_slot(&mut inputs, call.mmcs_index_sum);
        push_slot(&mut inputs, call.mmcs_bit);
        if call.config.is_arity4_shape() && call.merkle_path {
            push_slot(&mut inputs, call.mmcs_bit2);
        }
        let labels = label_vec(
            call.config.rate_ext(),
            call.config.width_ext(),
            call.out_ctl.as_slice(),
            call.return_all_outputs,
            out_label,
            out_capacity_label,
        );
        let (op_id, _call_id, outputs) = self.push_non_primitive_op_with_outputs(
            op_type,
            inputs,
            labels,
            PermOpParams {
                new_start: call.new_start,
                merkle_path: call.merkle_path,
                absorb_len: call.absorb_len,
            },
            tag,
        );
        Ok((op_id, outputs))
    }

    /// Shared body of the builder methods for base-field rows.
    ///
    /// The caller validates that the config is D=1 and supplies the labels and the tag.
    pub fn add_poseidon_perm_base_inner<V: PoseidonVariant>(
        &mut self,
        call: &PoseidonPermCallBase<V>,
        out_label: &'static str,
        out_capacity_label: &'static str,
        tag: &'static str,
    ) -> (r: Result<(NonPrimitiveOpId, [Option<ExprId>; 16]), CircuitBuilderError>)
        requires
            old(self).wf(),
        ensures
            ({
                let op = V::sp_npo_type_id(call.config);
                match r {
                    Ok((id, outputs)) => {
                        &&& old(self).enabled@.contains(op)
                        &&& op_added(
                            *old(self),
                            *final(self),
                            id,
                            outputs@,
                            op,
                            slot_list(call.inputs@),
                            output_labels(
                                8,
                                16,
                                call.out_ctl@,
                                call.return_all_outputs,
                                out_label,
                                out_capacity_label,
                            ),
                            (PermOpParams {
                                new_start: call.new_start,
                                merkle_path: false,
                                absorb_len: call.absorb_len,
                            }),
                            tag,
                        )
                    },
                    Err(e) => {
                        &&& !old(self).enabled@.contains(op)
                        &&& e == (CircuitBuilderError::OpNotAllowed { op })
                        &&& *final(self) == *old(self)
                    },
                }
            }),
    {
        let op_type = V::npo_type_id(call.config);
        match self.ensure_op_enabled(op_type) {
            Err(e) => {
                return Err(e);
            },
            Ok(()) => {},
        }
        let inputs: Vec<Vec<ExprId>> = slot_vecs(&call.inputs);
        let labels = label_vec(
            8,
            16,
            &call.out_ctl,
            call.return_all_outputs,
            out_label,
            out_capacity_label,
        );
        proof {
            lemma_output_ids_len(labels@, (self.nodes@.len() + 1) as nat, 16);
        }
        let (op_id, _call_id, outputs) = self.push_non_primitive_op_with_outputs(
            op_type,
            inputs,
            labels,
            PermOpParams {
                new_start: call.new_start,
                merkle_path: false,
                absorb_len: call.absorb_len,
            },
            tag,
        );
        let mut ids: [Option<ExprId>; 16] = [None;16];
        let mut i: usize = 0;
        while i < 16
            invariant
                i <= 16,
                outputs@.len() == 16,
                forall|j: int| 0 <= j < i ==> #[trigger] ids@[j] == outputs@[j],
            decreases 16 - i,
        {
            ids[i] = outputs[i];
            i += 1;
        }
        assert(ids@ =~= outputs@);
        Ok((op_id, ids))
    }

    /// Adds a Poseidon1 row.
    pub fn add_poseidon1_perm(&mut self, call: &PoseidonPermCall<Poseidon1Variant>) -> (r: Result<
        (NonPrimitiveOpId, Vec<Option<ExprId>>),
        CircuitBuilderError,
    >)
        requires
            old(self).wf(),
        ensures
            match call.bits_failure() {
                Some(e) => {
                    &&& *final(self) == *old(self)
                    &&& r == Err::<(NonPrimitiveOpId, Vec<Option<ExprId>>), CircuitBuilderError>(e)
                },
                None => row_added(
                    *old(self),
                    *final(self),
                    *call,
                    r,
                    "poseidon1_perm_out",
                    "poseidon1_perm_out_capacity",
                    "poseidon1_perm",
                ),
            },
    {
        match call.check_bits() {
            Err(e) => Err(e),
            Ok(()) => self.add_poseidon_perm_inner(
                call,
                "poseidon1_perm_out",
                "poseidon1_perm_out_capacity",
                "poseidon1_perm",
            ),
        }
    }

    /// Adds a Poseidon2 row.
    pub fn add_poseidon2_perm(&mut self, call: &PoseidonPermCall<Poseidon2Variant>) -> (r: Result<
        (NonPrimitiveOpId, Vec<Option<ExprId>>),
        CircuitBuilderError,
    >)
        requires
            old(self).wf(),
        ensures
            match call.bits_failure() {
                Some(e) => {
                    &&& *final(self) == *old(self)
                    &&& r == Err::<(NonPrimitiveOpId, Vec<Option<ExprId>>), CircuitBuilderError>(e)
                },
                None => row_added(
                    *old(self),
                    *final(self),
                    *call,
                    r,
                    "poseidon2_perm_out",
                    "poseidon2_perm_out_capacity",
                    "poseidon2_perm",
                ),
            },
    {
        match call.check_bits() {
            Err(e) => Err(e),
            Ok(()) => self.add_poseidon_perm_inner(
                call,
                "poseidon2_perm_out",
                "poseidon2_perm_out_capacity",
                "poseidon2_perm",
            ),
        }
    }

    /// Adds a perm row, dispatching to the Poseidon1 or Poseidon2 operation per `cfg`. Poseidon1
    /// rows have no second direction bit.
    pub fn add_perm(&mut self, cfg: PermConfig, call: &PermCall) -> (r: Result<
        (NonPrimitiveOpId, Vec<Option<ExprId>>),
        CircuitBuilderError,
    >)
        requires
            old(self).wf(),
        ensures
            match cfg {
                PermConfig::Poseidon1(config) => exists|typed: PoseidonPermCall<Poseidon1Variant>|
                    {
                        &&& #[trigger] carries(typed, config, *call, None)
                        &&& match typed.bits_failure() {
                            Some(e) => {
                                &&& *final(self) == *old(self)
                                &&& r == Err::<
                                    (NonPrimitiveOpId, Vec<Option<ExprId>>),
                                    CircuitBuilderError,
                                >(e)
                            },
                            None => row_added(
                                *old(self),
                                *final(self),
                                typed,
                                r,
                                "poseidon1_perm_out",
                                "poseidon1_perm_out_capacity",
                                "poseidon1_perm",
                            ),
                        }
                    },
                PermConfig::Poseidon2(config) => exists|typed: PoseidonPermCall<Poseidon2Variant>|
                    {
                        &&& #[trigger] carries(typed, config, *call, call.mmcs_bit2)
                        &&& match typed.bits_failure() {
                            Some(e) => {
                                &&& *final(self) == *old(self)
                                &&& r == Err::<
                                    (NonPrimitiveOpId, Vec<Option<ExprId>>),
                                    CircuitBuilderError,
                                >(e)
                            },
                            None => row_added(
                                *old(self),
                                *final(self),
                                typed,
                                r,
                                "poseidon2_perm_out",
                                "poseidon2_perm_out_capacity",
                                "poseidon2_perm",
                            ),
                        }
                    },
            },
    {
        match cfg {
            PermConfig::Poseidon1(config) => {
                let typed = PoseidonPermCall::<Poseidon1Variant> {
                    config,
                    new_start: call.new_start,
                    merkle_path: call.merkle_path,
                    mmcs_bit: call.mmcs_bit,
                    mmcs_bit2: None,
                    inputs: copy_vec(&call.inputs),
                    out_ctl: copy_vec(&call.out_ctl),
                    return_all_outputs: call.return_all_outputs,
                    absorb_len: 0,
                    mmcs_index_sum: call.mmcs_index_sum,
                };
                assert(carries(typed, config, *call, None));
                self.add_poseidon1_perm(&typed)
            },
            PermConfig::Poseidon2(config) => {
                let typed = PoseidonPermCall::<Poseidon2Variant> {
                    config,
                    new_start: call.new_start,
                    merkle_path: call.merkle_path,
                    mmcs_bit: call.mmcs_bit,
                    mmcs_bit2: call.mmcs_bit2,
                    inputs: copy_vec(&call.inputs),
                    out_ctl: copy_vec(&call.out_ctl),
                    return_all_outputs: call.return_all_outputs,
                    absorb_len: 0,
                    mmcs_index_sum: call.mmcs_index_sum,
                };
                assert(carries(typed, config, *call, call.mmcs_bit2));
                self.add_poseidon2_perm(&typed)
            },
        }
    }
}

/// A typed call with the arguments of a config-less one, and without a length tag.
pub open spec fn carries<V: PoseidonVariant>(
    typed: PoseidonPermCall<V>,
    config: V::Config,
    call: PermCall,
    mmcs_bit2: Option<ExprId>,
) -> bool {
    &&& typed.config == config
    &&& typed.new_start == call.new_start
    &&& typed.merkle_path == call.merkle_path
    &&& typed.mmcs_bit == call.mmcs_bit
    &&& typed.mmcs_bit2 == mmcs_bit2
    &&& typed.inputs@ == call.inputs@
    &&& typed.out_ctl@ == call.out_ctl@
    &&& typed.return_all_outputs == call.return_all_outputs
    &&& typed.absorb_len == 0
    &&& typed.mmcs_index_sum == call.mmcs_index_sum
}

proof fn lemma_output_ids_len(labels: Seq<Option<&'static str>>, base: nat, n: nat)
    ensures
        circuit::output_ids(labels, base, n).len() == n,
    decreases n,
{
    if n > 0 {
        lemma_output_ids_len(labels, base, (n - 1) as nat);
    }
}

} // verus!
