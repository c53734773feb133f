//! What a permutation row reads and changes while a circuit is executed.

use vstd::prelude::*;
use vstd::string::StringExecFns;

use crate::extension::{BinomialModulus, Ext, ExtensionField};
use crate::field::{Field, Fp, PrimeModulus};
use crate::text;
use crate::text::decimal_text;
use crate::types::{CircuitError, CircuitFailure, NonPrimitiveOpId, NpoTypeId, WitnessId};

verus! {

/// A field whose elements have a text form.
pub trait FieldText: Field {
    spec fn sp_text(self) -> Seq<char>;

    fn text(self) -> (r: String)
        ensures
            r@ == self.sp_text(),
    ;
}

impl<M: PrimeModulus> FieldText for Fp<M> {
    /// The canonical representative, in decimal.
    open spec fn sp_text(self) -> Seq<char> {
        text::decimal(self.val())
    }

    fn text(self) -> (r: String) {
        decimal_text(self.as_canonical_u64())
    }
}

/// The texts of the first `n` coefficients, separated by commas.
pub open spec fn coefficient_texts<M: PrimeModulus>(coefficients: Seq<Fp<M>>, n: nat) -> Seq<char>
    decreases n,
{
    if n == 0 {
        Seq::empty()
    } else {
        let rest = coefficient_texts(coefficients, (n - 1) as nat);
        (if n == 1 {
            rest
        } else {
            rest + ", "@
        }) + text::decimal(coefficients[n - 1].val())
    }
}

impl<M: BinomialModulus<D>, const D: usize> FieldText for Ext<M, D> {
    /// The coefficients in brackets, and the marker of the extension.
    open spec fn sp_text(self) -> Seq<char> {
        "ExtField { value: ["@ + coefficient_texts(self.seq(), D as nat)
            + "], _phantom: PhantomData<"@ + M::sp_marker() + "> }"@
    }

    fn text(self) -> (r: String) {
        let coefficients: Vec<Fp<M>> = self.coefficients();
        let mut r: String = String::from_str("ExtField { value: [");
        let ghost head = r@;
        let mut i: usize = 0;
        assert(r@ =~= head + coefficient_texts(self.seq(), 0));
        while i < D
            invariant
                i <= D,
                coefficients@ == self.seq(),
                coefficients@.len() == D,
                r@ == head + coefficient_texts(self.seq(), i as nat),
            decreases D - i,
        {
            if i > 0 {
                r.append(", ");
            }
            let number: String = decimal_text(coefficients[i].as_canonical_u64());
            r.append(number.as_str());
            i += 1;
            assert(r@ =~= head + coefficient_texts(self.seq(), i as nat));
        }
        r.append("], _phantom: PhantomData<");
        r.append(M::marker());
        r.append("> }");
        r
    }
}

/// Sibling limbs of a Merkle row.
#[derive(Clone, Debug, PartialEq, Eq)]
pub struct PoseidonPermPrivateData<F> {
    pub sibling: Vec<F>,
}

/// Private data of an operation.
#[derive(Clone, Debug, PartialEq, Eq)]
pub enum NpoPrivateData<F> {
    Poseidon1(PoseidonPermPrivateData<F>),
    Poseidon2(PoseidonPermPrivateData<F>),
    /// Data of an operation that is not a permutation.
    Other,
}

/// One row of a permutation table.
#[derive(Clone, Debug, PartialEq, Eq)]
pub struct PoseidonCircuitRow<F> {
    pub new_start: bool,
    pub merkle_path: bool,
    pub mmcs_bit: bool,
    pub mmcs_bit2: bool,
    pub mmcs_index_sum: F,
    pub input_values: Vec<F>,
    pub in_ctl: Vec<bool>,
    pub input_indices: Vec<u32>,
    pub out_ctl: Vec<bool>,
    pub output_indices: Vec<u32>,
    pub mmcs_index_sum_idx: u32,
    pub mmcs_ctl_enabled: bool,
}

/// A row of a permutation table as sequences.
#[verifier::ext_equal]
pub struct Row<F> {
    pub new_start: bool,
    pub merkle_path: bool,
    pub mmcs_bit: bool,
    pub mmcs_bit2: bool,
    pub mmcs_index_sum: F,
    pub input_values: Seq<F>,
    pub in_ctl: Seq<bool>,
    pub input_indices: Seq<u32>,
    pub out_ctl: Seq<bool>,
    pub output_indices: Seq<u32>,
    pub mmcs_index_sum_idx: u32,
    pub mmcs_ctl_enabled: bool,
}

impl<F> View for PoseidonCircuitRow<F> {
    type V = Row<F>;

    open spec fn view(&self) -> Row<F> {
        Row {
            new_start: self.new_start,
            merkle_path: self.merkle_path,
            mmcs_bit: self.mmcs_bit,
            mmcs_bit2: self.mmcs_bit2,
            mmcs_index_sum: self.mmcs_index_sum,
            input_values: self.input_values@,
            in_ctl: self.in_ctl@,
            input_indices: self.input_indices@,
            out_ctl: self.out_ctl@,
            output_indices: self.output_indices@,
            mmcs_index_sum_idx: self.mmcs_index_sum_idx,
            mmcs_ctl_enabled: self.mmcs_ctl_enabled,
        }
    }
}

/// What a table remembers between its rows.
#[derive(Clone, Debug, PartialEq, Eq)]
pub struct PoseidonExecutionState<F> {
    /// The last output of a row outside Merkle mode.
    pub last_output_normal: Option<Vec<F>>,
    /// The last output that a Merkle row continues from.
    pub last_output_merkle: Option<Vec<F>>,
    /// The rows so far.
    pub rows: Vec<PoseidonCircuitRow<F>>,
}

/// What a table remembers between its rows, as sequences.
#[verifier::ext_equal]
pub struct Chain<F> {
    pub normal: Option<Seq<F>>,
    pub merkle: Option<Seq<F>>,
    pub rows: Seq<Row<F>>,
}

/// A table without rows.
pub open spec fn empty_chain<F>() -> Chain<F> {
    Chain { normal: None, merkle: None, rows: Seq::empty() }
}

pub open spec fn optional_seq<F>(v: Option<Vec<F>>) -> Option<Seq<F>> {
    match v {
        Some(v) => Some(v@),
        None => None,
    }
}

impl<F> View for PoseidonExecutionState<F> {
    type V = Chain<F>;

    open spec fn view(&self) -> Chain<F> {
        Chain {
            normal: optional_seq(self.last_output_normal),
            merkle: optional_seq(self.last_output_merkle),
            rows: Seq::new(self.rows@.len(), |i: int| self.rows@[i]@),
        }
    }
}

impl<F> PoseidonExecutionState<F> {
    pub fn new() -> (r: Self)
        ensures
            r@ == empty_chain::<F>(),
    {
        let r = PoseidonExecutionState {
            last_output_normal: None,
            last_output_merkle: None,
            rows: Vec::new(),
        };
        assert(r@ =~= empty_chain::<F>());
        r
    }
}

/// The states of all tables, by table.
pub struct OpStates<F> {
    entries: Vec<(NpoTypeId, PoseidonExecutionState<F>)>,
}

/// The first state of each table among the first `n` entries.
spec fn first_states<F>(entries: Seq<(NpoTypeId, PoseidonExecutionState<F>)>, n: nat) -> Map<
    NpoTypeId,
    Chain<F>,
>
    decreases n,
{
    if n == 0 {
        Map::empty()
    } else {
        let earlier = first_states(entries, (n - 1) as nat);
        let (op, state) = entries[n - 1];
        if earlier.contains_key(op) {
            earlier
        } else {
            earlier.insert(op, state@)
        }
    }
}

proof fn lemma_first_states<F>(
    entries: Seq<(NpoTypeId, PoseidonExecutionState<F>)>,
    op: NpoTypeId,
    k: nat,
    n: nat,
)
    requires
        k <= n <= entries.len(),
        forall|j: int| 0 <= j < k ==> (#[trigger] entries[j]).0 != op,
    ensures
        !first_states(entries, k).contains_key(op),
        k < n && entries[k as int].0 == op ==> {
            &&& first_states(entries, n).contains_key(op)
            &&& first_states(entries, n)[op] == entries[k as int].1@
        },
    decreases n,
{
    if k < n {
        lemma_first_states(entries, op, k, (n - 1) as nat);
    } else if k > 0 {
        lemma_first_states(entries, op, (k - 1) as nat, (k - 1) as nat);
    }
}

proof fn lemma_first_states_update<F>(
    before: Seq<(NpoTypeId, PoseidonExecutionState<F>)>,
    after: Seq<(NpoTypeId, PoseidonExecutionState<F>)>,
    k: nat,
    n: nat,
)
    requires
        n <= before.len() == after.len(),
        k < before.len(),
        forall|j: int| 0 <= j < k ==> (#[trigger] before[j]).0 != before[k as int].0,
        forall|j: int| 0 <= j < before.len() && j != k ==> after[j] == #[trigger] before[j],
        after[k as int].0 == before[k as int].0,
    ensures
        first_states(after, n) == if k < n {
            first_states(before, n).insert(before[k as int].0, after[k as int].1@)
        } else {
            first_states(before, n)
        },
    decreases n,
{
    if n > 0 {
        lemma_first_states_update(before, after, k, (n - 1) as nat);
        if k <= n {
            lemma_first_states(before, before[k as int].0, k, n);
        }
        if k < n - 1 {
            lemma_first_states(before, before[k as int].0, k, (n - 1) as nat);
        }
        let op = before[k as int].0;
        assert(first_states(after, n) =~= if k < n {
            first_states(before, n).insert(op, after[k as int].1@)
        } else {
            first_states(before, n)
        });
    }
}

impl<F> View for OpStates<F> {
    type V = Map<NpoTypeId, Chain<F>>;

    closed spec fn view(&self) -> Map<NpoTypeId, Chain<F>> {
        first_states(self.entries@, self.entries@.len())
    }
}

impl<F> OpStates<F> {
    pub fn new() -> (r: Self)
        ensures
            r@ == Map::<NpoTypeId, Chain<F>>::empty(),
    {
        OpStates { entries: Vec::new() }
    }

    fn find(&self, op: NpoTypeId) -> (r: usize)
        ensures
            r <= self.entries@.len(),
            forall|j: int| 0 <= j < r ==> (#[trigger] self.entries@[j]).0 != op,
            r < self.entries@.len() ==> self.entries@[r as int].0 == op,
    {
        let mut k: usize = 0;
        while k < self.entries.len()
            invariant
                k <= self.entries@.len(),
                forall|j: int| 0 <= j < k ==> (#[trigger] self.entries@[j]).0 != op,
            decreases self.entries@.len() - k,
        {
            if self.entries[k].0 == op {
                return k;
            }
            k += 1;
        }
        k
    }

    /// The state of a table, if it has one.
    pub fn get(&self, op: NpoTypeId) -> (r: Option<&PoseidonExecutionState<F>>)
        ensures
            match r {
                Some(state) => self@.contains_key(op) && self@[op] == state@,
                None => !self@.contains_key(op),
            },
    {
        let k: usize = self.find(op);
        proof {
            lemma_first_states(self.entries@, op, k as nat, self.entries@.len());
        }
        if k < self.entries.len() {
            Some(&self.entries[k].1)
        } else {
            None
        }
    }

    /// Takes the state of a table out, or an empty one.
    fn take(&mut self, op: NpoTypeId) -> (r: (usize, PoseidonExecutionState<F>))
        ensures
            r.1@ == if old(self)@.contains_key(op) {
                old(self)@[op]
            } else {
                empty_chain()
            },
            r.0 < final(self).entries@.len(),
            forall|j: int| 0 <= j < r.0 ==> (#[trigger] final(self).entries@[j]).0 != op,
            final(self).entries@[r.0 as int].0 == op,
            final(self)@ == old(self)@.insert(op, empty_chain()),
    {
        let k: usize = self.find(op);
        proof {
            lemma_first_states(self.entries@, op, k as nat, self.entries@.len());
        }
        if k < self.entries.len() {
            let ghost before = self.entries@;
            let mut slot = (op, PoseidonExecutionState::new());
            std::mem::swap(&mut slot, &mut self.entries[k]);
            proof {
                lemma_first_states_update(before, self.entries@, k as nat, before.len());
            }
            (k, slot.1)
        } else {
            let ghost before = self.entries@;
            self.entries.push((op, PoseidonExecutionState::new()));
            proof {
                lemma_first_states_prefix(before, self.entries@, before.len());
                lemma_first_states(self.entries@, op, k as nat, self.entries@.len());
                assert(self@ =~= old(self)@.insert(op, empty_chain()));
            }
            (k, PoseidonExecutionState::new())
        }
    }

    /// Puts the state of a table back.
    fn put(&mut self, op: NpoTypeId, k: usize, state: PoseidonExecutionState<F>)
        requires
            k < old(self).entries@.len(),
            forall|j: int| 0 <= j < k ==> (#[trigger] old(self).entries@[j]).0 != op,
            old(self).entries@[k as int].0 == op,
        ensures
            final(self)@ == old(self)@.insert(op, state@),
    {
        let ghost before = self.entries@;
        self.entries[k] = (op, state);
        proof {
            lemma_first_states_update(before, self.entries@, k as nat, before.len());
        }
    }

    /// Records an output and a row of a table. With `merkle` the output is the one that Merkle
    /// rows continue from, otherwise the one that other rows continue from; with `seed` it is
    /// both.
    pub fn record(
        &mut self,
        op: NpoTypeId,
        merkle: bool,
        seed: bool,
        output: Vec<F>,
        row: PoseidonCircuitRow<F>,
    ) where F: Copy
        ensures
            final(self)@ == old(self)@.insert(
                op,
                recorded(
                    if old(self)@.contains_key(op) {
                        old(self)@[op]
                    } else {
                        empty_chain()
                    },
                    merkle,
                    seed,
                    output@,
                    row@,
                ),
            ),
    {
        let ghost start = self@;
        let (k, mut state) = self.take(op);
        let ghost chain = state@;
        let ghost out = output@;
        let ghost added = row@;
        let mut rows = Vec::new();
        std::mem::swap(&mut rows, &mut state.rows);
        rows.push(row);
        let next = if merkle {
            PoseidonExecutionState {
                last_output_normal: state.last_output_normal,
                last_output_merkle: Some(output),
                rows,
            }
        } else if seed {
            let copy = crate::seqs::copy_vec(&output);
            PoseidonExecutionState {
                last_output_normal: Some(output),
                last_output_merkle: Some(copy),
                rows,
            }
        } else {
            PoseidonExecutionState {
                last_output_normal: Some(output),
                last_output_merkle: state.last_output_merkle,
                rows,
            }
        };
        assert(next@ =~= recorded(chain, merkle, seed, out, added));
        self.put(op, k, next);
        assert(self@ =~= start.insert(op, next@));
    }
}

/// A table after one more row.
pub open spec fn recorded<F>(
    chain: Chain<F>,
    merkle: bool,
    seed: bool,
    output: Seq<F>,
    row: Row<F>,
) -> Chain<F> {
    Chain {
        normal: if merkle {
            chain.normal
        } else {
            Some(output)
        },
        merkle: if merkle || seed {
            Some(output)
        } else {
            chain.merkle
        },
        rows: chain.rows.push(row),
    }
}

proof fn lemma_first_states_prefix<F>(
    before: Seq<(NpoTypeId, PoseidonExecutionState<F>)>,
    after: Seq<(NpoTypeId, PoseidonExecutionState<F>)>,
    n: nat,
)
    requires
        n <= before.len() <= after.len(),
        forall|j: int| 0 <= j < n ==> after[j] == #[trigger] before[j],
    ensures
        first_states(after, n) == first_states(before, n),
    decreases n,
{
    if n > 0 {
        lemma_first_states_prefix(before, after, (n - 1) as nat);
    }
}

/// Everything that a row reads and changes.
pub struct ExecutionContext<F> {
    /// The witness table. A slot is set at most once.
    pub witness: Vec<Option<F>>,
    /// The private data of the operation.
    pub private_data: Option<NpoPrivateData<F>>,
    /// The operation that the row executes.
    pub operation_id: NonPrimitiveOpId,
    /// The states of all tables.
    pub op_states: OpStates<F>,
}

/// The value of a witness slot.
pub open spec fn witness_value<F>(witness: Seq<Option<F>>, id: WitnessId) -> Result<
    F,
    CircuitFailure,
> {
    if id.0 < witness.len() && witness[id.0 as int] is Some {
        Ok(witness[id.0 as int]->0)
    } else {
        Err(CircuitFailure::WitnessNotSet { witness_id: id })
    }
}

/// Why a witness slot cannot take a value.
pub open spec fn write_failure<F>(witness: Seq<Option<F>>, id: WitnessId, value: F) -> Option<
    CircuitFailure,
> {
    if id.0 >= witness.len() {
        Some(CircuitFailure::WitnessIdOutOfBounds { witness_id: id })
    } else if witness[id.0 as int] is Some && witness[id.0 as int]->0 != value {
        Some(CircuitFailure::WitnessConflict { witness_id: id })
    } else {
        None
    }
}

impl<F: Field> ExecutionContext<F> {
    pub fn new(
        witness: Vec<Option<F>>,
        private_data: Option<NpoPrivateData<F>>,
        operation_id: NonPrimitiveOpId,
    ) -> (r: Self)
        ensures
            r.witness == witness,
            r.private_data == private_data,
            r.operation_id == operation_id,
            r.op_states@ == Map::<NpoTypeId, Chain<F>>::empty(),
    {
        ExecutionContext { witness, private_data, operation_id, op_states: OpStates::new() }
    }

    /// Reads a witness slot.
    pub fn get_witness(&self, id: WitnessId) -> (r: Result<F, CircuitError>)
        ensures
            match r {
                Ok(v) => witness_value(self.witness@, id) == Ok::<F, CircuitFailure>(v),
                Err(e) => witness_value(self.witness@, id) == Err::<F, CircuitFailure>(e@),
            },
    {
        let k: usize = id.0 as usize;
        if k < self.witness.len() {
            if let Some(v) = self.witness[k] {
                return Ok(v);
            }
        }
        Err(CircuitError::WitnessNotSet { witness_id: id })
    }

    /// Sets a witness slot. Setting it again to the value that it holds changes nothing.
    pub fn set_witness(&mut self, id: WitnessId, value: F) -> (r: Result<(), CircuitError>)
        ensures
            match r {
                Ok(()) => {
                    &&& write_failure(old(self).witness@, id, value) is None
                    &&& final(self).witness@ == old(self).witness@.update(
                        id.0 as int,
                        Some(value),
                    )
                },
                Err(e) => {
                    &&& write_failure(old(self).witness@, id, value) == Some(e@)
                    &&& final(self).witness@ == old(self).witness@
                },
            },
            final(self).private_data == old(self).private_data,
            final(self).operation_id == old(self).operation_id,
            final(self).op_states == old(self).op_states,
    {
        let k: usize = id.0 as usize;
        if k >= self.witness.len() {
            return Err(CircuitError::WitnessIdOutOfBounds { witness_id: id });
        }
        if let Some(v) = self.witness[k] {
            if v.equals(value) {
                assert(self.witness@ =~= old(self).witness@.update(id.0 as int, Some(value)));
                return Ok(());
            }
            return Err(CircuitError::WitnessConflict { witness_id: id });
        }
        self.witness[k] = Some(value);
        Ok(())
    }
}

} // verus!
