//! Execution of one permutation row.

use vstd::prelude::*;

use crate::config;
use crate::config::{PoseidonConfigApi, PoseidonVariant, Sizes};
use crate::context;
use crate::context::{
    Chain, ExecutionContext, FieldText, NpoPrivateData, PoseidonCircuitRow, Row,
};
use crate::field::Field;
use crate::layout;
use crate::permutation::Permutation;
use crate::seqs;
use crate::text;
use crate::text::{decimal_text, join3};
use crate::types::{CircuitError, CircuitFailure, NonPrimitiveOpId, NpoTypeId, WitnessId};

verus! {

/// Runtime executor for a single Poseidon permutation row.
///
/// Handles both D=1 (base field) and D>1 (extension field) modes, as well as standard hashing and
/// Merkle-path verification.
pub struct PoseidonPermExecutor<V: PoseidonVariant> {
    /// Operation type identifier for state lookups.
    pub op_type: NpoTypeId,
    /// Permutation parameters.
    pub config: V::Config,
    /// When true, this row starts a fresh chain instead of continuing from the previous
    /// permutation output.
    pub new_start: bool,
    /// When true, the executor arranges inputs for Merkle-path verification and conditionally
    /// swaps left and right halves based on the direction bit.
    pub merkle_path: bool,
    /// Prefix-free duplex-sponge length tag: the number of rate elements absorbed on this row.
    /// Zero for rows outside a sponge.
    pub absorb_len: usize,
}

pub open spec fn zeros<F: Field>(n: nat) -> Seq<F> {
    Seq::new(n, |i: int| F::sp_zero())
}

pub open spec fn smaller(a: nat, b: nat) -> nat {
    if a <= b {
        a
    } else {
        b
    }
}

/// The sequence with its elements from `base` on replaced by the first `n` of `src`.
pub open spec fn overwritten<F>(s: Seq<F>, base: nat, src: Seq<F>, n: nat) -> Seq<F> {
    Seq::new(
        s.len(),
        |i: int|
            if base <= i < base + n {
                src[i - base]
            } else {
                s[i]
            },
    )
}

/// The place of a running hash among the four chunks of a state.
pub open spec fn chunk_of(mmcs_bit: bool, mmcs_bit2: bool) -> nat {
    (if mmcs_bit {
        1nat
    } else {
        0nat
    }) + (if mmcs_bit2 {
        2nat
    } else {
        0nat
    })
}

/// The chunk that holds place `i` of a state of four chunks of `cap` limbs.
pub open spec fn chunk_at(i: int, cap: nat) -> nat {
    if i < cap {
        0
    } else if i < 2 * cap {
        1
    } else if i < 3 * cap {
        2
    } else {
        3
    }
}

/// The sibling limb that goes to place `i` of a state of four chunks, of which `pos` holds the
/// running hash: the siblings fill the other chunks in ascending order.
pub open spec fn sibling_at(i: int, cap: nat, pos: nat) -> int {
    if chunk_at(i, cap) > pos {
        i - cap
    } else {
        i
    }
}

/// A state of four chunks with siblings in the chunks other than `pos`.
pub open spec fn with_siblings<F>(s: Seq<F>, siblings: Seq<F>, cap: nat, pos: nat) -> Seq<F> {
    Seq::new(
        s.len(),
        |i: int|
            if i < 4 * cap && chunk_at(i, cap) != pos && sibling_at(i, cap, pos) < siblings.len() {
                siblings[sibling_at(i, cap, pos)]
            } else {
                s[i]
            },
    )
}

/// The sequence with its first `2 * half` elements exchanged in halves.
pub open spec fn halves_swapped<F>(s: Seq<F>, half: nat) -> Seq<F> {
    Seq::new(
        s.len(),
        |i: int|
            if i < half {
                s[i + half]
            } else if i < 2 * half {
                s[i - half]
            } else {
                s[i]
            },
    )
}

/// Swapping the halves of a state twice gives the state back.
pub proof fn law_swap_is_involution<F>(s: Seq<F>, half: nat)
    requires
        2 * half <= s.len(),
    ensures
        halves_swapped(halves_swapped(s, half), half) == s,
{
    assert(halves_swapped(halves_swapped(s, half), half) =~= s);
}

/// Writes the first `n` elements of `src` over `state` from `base` on.
fn overwrite<F: Copy>(state: &mut Vec<F>, base: usize, src: &[F], n: usize)
    requires
        base + n <= old(state)@.len(),
        n <= src@.len(),
    ensures
        final(state)@ == overwritten(old(state)@, base as nat, src@, n as nat),
{
    let ghost before = state@;
    let len: usize = state.len();
    let mut i: usize = 0;
    while i < n
        invariant
            i <= n <= src@.len(),
            before.len() == state@.len() == len,
            base + n <= len,
            state@ == overwritten(before, base as nat, src@, i as nat),
        decreases n - i,
    {
        state[base + i] = src[i];
        i += 1;
        assert(state@ =~= overwritten(before, base as nat, src@, i as nat));
    }
    assert(state@ =~= overwritten(before, base as nat, src@, n as nat));
}

/// The slots of a row, as sequences of witness identifiers.
pub open spec fn slots(v: Seq<Vec<WitnessId>>) -> Seq<Seq<WitnessId>> {
    seqs::rows(v)
}

/// The state with the first `n` slots of one witness each read into it, or the first failure.
pub open spec fn witness_fed<F>(
    state: Seq<F>,
    inputs: Seq<Seq<WitnessId>>,
    witness: Seq<Option<F>>,
    n: nat,
) -> Result<Seq<F>, CircuitFailure>
    decreases n,
{
    if n == 0 {
        Ok(state)
    } else {
        match witness_fed(state, inputs, witness, (n - 1) as nat) {
            Err(e) => Err(e),
            Ok(s) => if inputs[n - 1].len() == 1 {
                match context::witness_value(witness, inputs[n - 1][0]) {
                    Ok(v) => Ok(s.update(n - 1, v)),
                    Err(e) => Err(e),
                }
            } else {
                Ok(s)
            },
        }
    }
}

/// The witness table after the first `n` outputs are written, and the first failure: nothing is
/// written after it.
pub open spec fn outputs_written<F>(
    op: NpoTypeId,
    outputs: Seq<Seq<WitnessId>>,
    values: Seq<F>,
    witness: Seq<Option<F>>,
    n: nat,
) -> (Seq<Option<F>>, Option<CircuitFailure>)
    decreases n,
{
    if n == 0 {
        (witness, None)
    } else {
        let (w, failure) = outputs_written(op, outputs, values, witness, (n - 1) as nat);
        if failure is Some {
            (w, failure)
        } else if outputs[n - 1].len() == 0 {
            (w, None)
        } else if outputs[n - 1].len() == 1 {
            match context::write_failure(w, outputs[n - 1][0], values[n - 1]) {
                Some(e) => (w, Some(e)),
                None => (w.update(outputs[n - 1][0].0 as int, Some(values[n - 1])), None),
            }
        } else {
            (
                w,
                Some(
                    CircuitFailure::LayoutMismatch {
                        op,
                        expected: "0 or 1 witness per output limb"@,
                        got: outputs[n - 1].len(),
                    },
                ),
            )
        }
    }
}

proof fn lemma_written_failure<F>(
    op: NpoTypeId,
    outputs: Seq<Seq<WitnessId>>,
    values: Seq<F>,
    witness: Seq<Option<F>>,
    k: nat,
    n: nat,
)
    requires
        k <= n,
        outputs_written(op, outputs, values, witness, k).1 is Some,
    ensures
        outputs_written(op, outputs, values, witness, n) == outputs_written(
            op,
            outputs,
            values,
            witness,
            k,
        ),
    decreases n,
{
    if k < n {
        lemma_written_failure(op, outputs, values, witness, k, (n - 1) as nat);
    }
}

proof fn lemma_fed_failure<F>(
    state: Seq<F>,
    inputs: Seq<Seq<WitnessId>>,
    witness: Seq<Option<F>>,
    k: nat,
    n: nat,
)
    requires
        k <= n,
        witness_fed(state, inputs, witness, k) is Err,
    ensures
        witness_fed(state, inputs, witness, n) == witness_fed(state, inputs, witness, k),
    decreases n,
{
    if k < n {
        lemma_fed_failure(state, inputs, witness, k, (n - 1) as nat);
    }
}

pub open spec fn slot_exceeds_one(inputs: Seq<Seq<WitnessId>>) -> spec_fn(int) -> bool {
    |i: int| inputs[i].len() > 1
}

/// The first identifier of each of the first `n` slots.
pub open spec fn slot_flags(inputs: Seq<Seq<WitnessId>>, n: nat) -> Seq<bool> {
    Seq::new(n, |i: int| i < inputs.len() && inputs[i].len() > 0)
}

pub open spec fn slot_indices(inputs: Seq<Seq<WitnessId>>, n: nat) -> Seq<u32> {
    Seq::new(
        n,
        |i: int|
            if i < inputs.len() && inputs[i].len() > 0 {
                inputs[i][0].0
            } else {
                0
            },
    )
}

/// Of each of the first `n` slots, whether it holds exactly one witness.
pub open spec fn single_flags(inputs: Seq<Seq<WitnessId>>, n: nat) -> Seq<bool> {
    Seq::new(n, |i: int| i < inputs.len() && inputs[i].len() == 1)
}

pub open spec fn single_indices(inputs: Seq<Seq<WitnessId>>, n: nat) -> Seq<u32> {
    Seq::new(
        n,
        |i: int|
            if i < inputs.len() && inputs[i].len() == 1 {
                inputs[i][0].0
            } else {
                0
            },
    )
}

/// What becomes of the witness table and of the tables when a row is executed, and whether the
/// execution fails.
#[verifier::ext_equal]
pub struct Outcome<F> {
    pub witness: Seq<Option<F>>,
    pub states: Map<NpoTypeId, Chain<F>>,
    pub failure: Option<CircuitFailure>,
}

pub open spec fn slot_is_exposed(inputs: Seq<Seq<WitnessId>>, first: nat) -> spec_fn(int) -> bool {
    |i: int| inputs[first + i].len() > 0
}

impl<V: PoseidonVariant> PoseidonPermExecutor<V> {
    pub open spec fn sizes(self) -> Sizes {
        self.config.sizes()
    }

    pub open spec fn capacity(self) -> nat {
        (self.sizes().width_ext - self.sizes().rate_ext) as nat
    }

    pub open spec fn arity4(self) -> bool {
        config::arity4(self.sizes())
    }

    pub open spec fn compact(self) -> bool {
        layout::compact_d1(self.sizes().d, self.sizes().width_ext, self.sizes().rate_ext)
    }

    pub fn new(
        op_type: NpoTypeId,
        config: V::Config,
        new_start: bool,
        merkle_path: bool,
        absorb_len: usize,
    ) -> (r: Self)
        ensures
            r.op_type == op_type,
            r.config == config,
            r.new_start == new_start,
            r.merkle_path == merkle_path,
            r.absorb_len == absorb_len,
    {
        PoseidonPermExecutor { op_type, config, new_start, merkle_path, absorb_len }
    }

    fn compact_d1_preprocessed_layout(&self) -> (r: bool)
        ensures
            r == self.compact(),
    {
        let rate: usize = self.config.rate_ext();
        let width: usize = self.config.width_ext();
        self.config.d() == 1 && width == 2 * rate
    }

    fn is_arity4(&self) -> (r: bool)
        ensures
            r == self.arity4(),
    {
        self.config.is_arity4_shape()
    }

    /// The state before siblings and witnesses are placed in it: zeros at the start of a chain;
    /// afterwards the previous output, of which a Merkle row keeps the rate only. Four-way Merkle
    /// rows place the previous output later.
    pub open spec fn chained<F: Field>(
        self,
        last: Option<Seq<F>>,
        operation_index: NonPrimitiveOpId,
    ) -> Result<Seq<F>, CircuitFailure> {
        let width = self.sizes().width_ext;
        if self.new_start {
            Ok(zeros(width))
        } else {
            match last {
                None => Err(V::sp_chain_missing(operation_index)),
                Some(prev) => {
                    let kept = if self.merkle_path {
                        if self.arity4() {
                            0
                        } else {
                            self.sizes().rate_ext
                        }
                    } else {
                        width
                    };
                    Ok(overwritten(zeros(width), 0, prev, smaller(kept, prev.len())))
                },
            }
        }
    }

    /// Builds the initial permutation state.
    pub fn init_chain_state<F: Field>(
        &self,
        last_output: Option<&[F]>,
        ctx: &ExecutionContext<F>,
    ) -> (r: Result<Vec<F>, CircuitError>)
        ensures
            match r {
                Ok(s) => self.chained(
                    match last_output {
                        Some(p) => Some(p@),
                        None => None,
                    },
                    ctx.operation_id,
                ) == Ok::<Seq<F>, CircuitFailure>(s@),
                Err(e) => self.chained(
                    match last_output {
                        Some(p) => Some(p@),
                        None => None,
                    },
                    ctx.operation_id,
                ) == Err::<Seq<F>, CircuitFailure>(e@),
            },
    {
        let width: usize = self.config.width_ext();
        let mut resolved: Vec<F> = seqs::filled(F::zero(), width);
        assert(resolved@ =~= zeros::<F>(width as nat));
        if self.new_start {
            return Ok(resolved);
        }
        match last_output {
            None => Err(V::chain_missing_error(ctx.operation_id)),
            Some(prev) => {
                let mut kept: usize = width;
                if self.merkle_path {
                    if self.is_arity4() {
                        kept = 0;
                    } else {
                        kept = self.config.rate_ext();
                    }
                }
                if kept > prev.len() {
                    kept = prev.len();
                }
                overwrite(&mut resolved, 0, prev, kept);
                Ok(resolved)
            },
        }
    }

    pub open spec fn running_hash_placed<F>(
        self,
        state: Seq<F>,
        last: Option<Seq<F>>,
        mmcs_bit: bool,
        mmcs_bit2: bool,
    ) -> Seq<F> {
        if !self.merkle_path || !self.arity4() || self.new_start || last is None {
            state
        } else {
            overwritten(
                state,
                chunk_of(mmcs_bit, mmcs_bit2) * self.capacity(),
                last->0,
                smaller(self.capacity(), last->0.len()),
            )
        }
    }

    /// Places the previous row's running-hash digest into the four-way chunk indexed by
    /// `pos = mmcs_bit + 2·mmcs_bit2`. Does nothing for two-way shapes, outside Merkle mode, or at
    /// the start of a chain.
    pub fn place_arity4_running_hash<F: Field>(
        &self,
        state: &mut Vec<F>,
        last_output: Option<&[F]>,
        mmcs_bit: bool,
        mmcs_bit2: bool,
    )
        requires
            self.merkle_path && self.arity4() && !self.new_start && last_output is Some ==> old(
                state,
            )@.len() >= self.sizes().width_ext,
        ensures
            final(state)@ == self.running_hash_placed(
                old(state)@,
                match last_output {
                    Some(p) => Some(p@),
                    None => None,
                },
                mmcs_bit,
                mmcs_bit2,
            ),
    {
        if !self.merkle_path || !self.is_arity4() || self.new_start {
            return;
        }
        if let Some(prev) = last_output {
            let _width: usize = self.config.width_ext();
            let cap: usize = self.config.capacity_ext();
            let mut base: usize = 0;
            if mmcs_bit {
                base = cap;
            }
            if mmcs_bit2 {
                base += 2 * cap;
            }
            let mut n: usize = cap;
            if n > prev.len() {
                n = prev.len();
            }
            assert(base == chunk_of(mmcs_bit, mmcs_bit2) * self.capacity()) by (nonlinear_arith)
                requires
                    cap == self.capacity(),
                    base == (if mmcs_bit {
                        cap as int
                    } else {
                        0
                    }) + (if mmcs_bit2 {
                        2 * cap
                    } else {
                        0
                    }),
                    chunk_of(mmcs_bit, mmcs_bit2) == (if mmcs_bit {
                        1int
                    } else {
                        0
                    }) + (if mmcs_bit2 {
                        2int
                    } else {
                        0
                    }),
            ;
            overwrite(state, base, prev, n);
        }
    }

    pub open spec fn siblings_placed<F>(
        self,
        state: Seq<F>,
        private: Option<Seq<F>>,
        mmcs_bit: bool,
        mmcs_bit2: bool,
    ) -> Seq<F> {
        if private is None || !self.merkle_path {
            state
        } else if self.arity4() {
            with_siblings(state, private->0, self.capacity(), chunk_of(mmcs_bit, mmcs_bit2))
        } else {
            overwritten(
                state,
                self.sizes().rate_ext,
                private->0,
                smaller(self.capacity(), private->0.len()),
            )
        }
    }

    /// Copies sibling limbs into the state, in Merkle mode only: after the rate in two-way shapes,
    /// and into the three chunks not indexed by `pos = mmcs_bit + 2·mmcs_bit2` in four-way shapes.
    pub fn fill_sibling_data<F: Field>(
        &self,
        state: &mut Vec<F>,
        private: Option<&[F]>,
        mmcs_bit: bool,
        mmcs_bit2: bool,
    )
        requires
            self.merkle_path && private is Some ==> old(state)@.len() >= self.sizes().width_ext,
        ensures
            final(state)@ == self.siblings_placed(
                old(state)@,
                match private {
                    Some(p) => Some(p@),
                    None => None,
                },
                mmcs_bit,
                mmcs_bit2,
            ),
    {
        if let Some(siblings) = private {
            if !self.merkle_path {
                return;
            }
            let width: usize = self.config.width_ext();
            let cap: usize = self.config.capacity_ext();
            if self.is_arity4() {
                let mut pos: usize = 0;
                if mmcs_bit {
                    pos = 1;
                }
                if mmcs_bit2 {
                    pos += 2;
                }
                let ghost before = state@;
                let mut i: usize = 0;
                while i < width
                    invariant
                        i <= width,
                        width == 4 * cap,
                        width <= 64,
                        cap > 0,
                        pos <= 3,
                        before.len() >= width,
                        state@.len() == before.len(),
                        forall|j: int|
                            0 <= j < i ==> #[trigger] state@[j] == with_siblings(
                                before,
                                siblings@,
                                cap as nat,
                                pos as nat,
                            )[j],
                        forall|j: int| i <= j < before.len() ==> #[trigger] state@[j] == before[j],
                    decreases width - i,
                {
                    let mut chunk: usize = 3;
                    if i < cap {
                        chunk = 0;
                    } else if i < 2 * cap {
                        chunk = 1;
                    } else if i < 3 * cap {
                        chunk = 2;
                    }
                    if chunk != pos {
                        let mut source: usize = i;
                        if chunk > pos {
                            source = i - cap;
                        }
                        if source < siblings.len() {
                            state[i] = siblings[source];
                        }
                    }
                    i += 1;
                }
                assert(state@ =~= with_siblings(before, siblings@, cap as nat, pos as nat));
            } else {
                let mut n: usize = cap;
                if n > siblings.len() {
                    n = siblings.len();
                }
                overwrite(state, self.config.rate_ext(), siblings, n);
            }
        }
    }

    /// Overwrites state elements with witness values from exposed input slots. Only slots with
    /// exactly one witness are read.
    pub fn apply_witness_values<F: Field>(
        &self,
        state: &mut Vec<F>,
        inputs: &[Vec<WitnessId>],
        ctx: &ExecutionContext<F>,
    ) -> (r: Result<(), CircuitError>)
        requires
            old(state)@.len() >= self.sizes().width_ext,
        ensures
            final(state)@.len() == old(state)@.len(),
            match r {
                Ok(()) => witness_fed(
                    old(state)@,
                    slots(inputs@),
                    ctx.witness@,
                    smaller(self.sizes().width_ext, inputs@.len()),
                ) == Ok::<Seq<F>, CircuitFailure>(final(state)@),
                Err(e) => witness_fed(
                    old(state)@,
                    slots(inputs@),
                    ctx.witness@,
                    smaller(self.sizes().width_ext, inputs@.len()),
                ) == Err::<Seq<F>, CircuitFailure>(e@),
            },
    {
        let mut n: usize = self.config.width_ext();
        if n > inputs.len() {
            n = inputs.len();
        }
        let ghost before = state@;
        let ghost ids = slots(inputs@);
        let mut i: usize = 0;
        while i < n
            invariant
                i <= n <= inputs@.len(),
                n <= state@.len(),
                n == smaller(self.sizes().width_ext, inputs@.len()),
                state@.len() == before.len(),
                ids == slots(inputs@),
                before == old(state)@,
                witness_fed(before, ids, ctx.witness@, i as nat) == Ok::<Seq<F>, CircuitFailure>(
                    state@,
                ),
            decreases n - i,
        {
            assert(ids[i as int] == inputs@[i as int]@);
            if inputs[i].len() == 1 {
                match ctx.get_witness(inputs[i][0]) {
                    Ok(v) => {
                        state[i] = v;
                    },
                    Err(e) => {
                        proof {
                            lemma_fed_failure(before, ids, ctx.witness@, (i + 1) as nat, n as nat);
                        }
                        return Err(e);
                    },
                }
            }
            i += 1;
        }
        Ok(())
    }

    pub open spec fn swapped<F>(self, state: Seq<F>, mmcs_bit: bool) -> Seq<F> {
        if self.merkle_path && !self.arity4() && mmcs_bit {
            halves_swapped(state, self.sizes().rate_ext)
        } else {
            state
        }
    }

    /// Swaps the two halves of the state in place, in two-way Merkle mode when the direction bit
    /// is set. This places the computed hash on the correct side before the permutation.
    pub fn apply_merkle_swap<F: Field>(&self, state: &mut Vec<F>, mmcs_bit: bool)
        requires
            self.merkle_path && !self.arity4() && mmcs_bit ==> 2 * self.sizes().rate_ext <= old(
                state,
            )@.len(),
        ensures
            final(state)@ == self.swapped(old(state)@, mmcs_bit),
    {
        if self.merkle_path && !self.is_arity4() && mmcs_bit {
            let rate: usize = self.config.rate_ext();
            let ghost before = state@;
            let mut i: usize = 0;
            while i < rate
                invariant
                    i <= rate <= 64,
                    2 * rate <= before.len(),
                    state@.len() == before.len(),
                    forall|j: int|
                        0 <= j < before.len() ==> #[trigger] state@[j] == if j < i {
                            before[j + rate]
                        } else if rate <= j < rate + i {
                            before[j - rate]
                        } else {
                            before[j]
                        },
                decreases rate - i,
            {
                let low: F = state[i];
                state[i] = state[rate + i];
                state[rate + i] = low;
                i += 1;
            }
            assert(state@ =~= halves_swapped(before, rate as nat));
        }
    }

    /// The sibling limbs of the private data, or the failure of private data outside Merkle mode.
    pub open spec fn private_siblings<F>(
        self,
        private_data: Option<NpoPrivateData<F>>,
        operation_index: NonPrimitiveOpId,
    ) -> Result<Option<Seq<F>>, CircuitFailure> {
        let sibling = match private_data {
            Some(NpoPrivateData::Poseidon1(data)) => Some(data.sibling@),
            Some(NpoPrivateData::Poseidon2(data)) => Some(data.sibling@),
            _ => None,
        };
        if sibling is Some && !self.merkle_path {
            Err(
                CircuitFailure::IncorrectData {
                    op: self.op_type,
                    operation_index,
                    expected: "no private data (only Merkle mode accepts private data)"@,
                    got: "private data provided for non-Merkle operation"@,
                },
            )
        } else {
            Ok(sibling)
        }
    }

    /// Extracts Merkle sibling data from the operation's private payload.
    pub fn resolve_private_data<'a, F: Field>(&self, ctx: &'a ExecutionContext<F>) -> (r: Result<
        Option<&'a [F]>,
        CircuitError,
    >)
        ensures
            match r {
                Ok(s) => self.private_siblings(ctx.private_data, ctx.operation_id) == Ok::<
                    Option<Seq<F>>,
                    CircuitFailure,
                >(
                    match s {
                        Some(p) => Some(p@),
                        None => None,
                    },
                ),
                Err(e) => self.private_siblings(ctx.private_data, ctx.operation_id) == Err::<
                    Option<Seq<F>>,
                    CircuitFailure,
                >(e@),
            },
    {
        let sibling: &Vec<F> = match &ctx.private_data {
            Some(NpoPrivateData::Poseidon1(data)) => &data.sibling,
            Some(NpoPrivateData::Poseidon2(data)) => &data.sibling,
            _ => {
                return Ok(None);
            },
        };
        if !self.merkle_path {
            return Err(
                CircuitError::IncorrectNonPrimitiveOpPrivateData {
                    op: self.op_type,
                    operation_index: ctx.operation_id,
                    expected: String::from_str(
                        "no private data (only Merkle mode accepts private data)",
                    ),
                    got: String::from_str("private data provided for non-Merkle operation"),
                },
            );
        }
        Ok(Some(sibling.as_slice()))
    }

    /// The boolean in a slot: false when the slot is empty outside Merkle mode.
    pub open spec fn boolean_in<F: FieldText>(
        self,
        inputs: Seq<Seq<WitnessId>>,
        witness: Seq<Option<F>>,
        operation_index: NonPrimitiveOpId,
        slot: nat,
        label: Seq<char>,
    ) -> Result<bool, CircuitFailure> {
        if slot < inputs.len() && inputs[slot as int].len() > 0 {
            match context::witness_value(witness, inputs[slot as int][0]) {
                Err(e) => Err(e),
                Ok(v) => if v == F::sp_zero() {
                    Ok(false)
                } else if v == F::sp_one() {
                    Ok(true)
                } else {
                    Err(
                        CircuitFailure::IncorrectData {
                            op: self.op_type,
                            operation_index,
                            expected: "boolean "@ + label + " (0 or 1)"@,
                            got: v.sp_text(),
                        },
                    )
                },
            }
        } else if self.merkle_path {
            Err(
                CircuitFailure::IncorrectData {
                    op: self.op_type,
                    operation_index,
                    expected: label + " must be provided when merkle_path=true"@,
                    got: "missing "@ + label,
                },
            )
        } else {
            Ok(false)
        }
    }

    pub open spec fn mmcs_bit<F: FieldText>(
        self,
        inputs: Seq<Seq<WitnessId>>,
        witness: Seq<Option<F>>,
        operation_index: NonPrimitiveOpId,
    ) -> Result<bool, CircuitFailure> {
        self.boolean_in(
            inputs,
            witness,
            operation_index,
            self.sizes().width_ext + 1,
            "mmcs_bit"@,
        )
    }

    pub open spec fn mmcs_bit2<F: FieldText>(
        self,
        inputs: Seq<Seq<WitnessId>>,
        witness: Seq<Option<F>>,
        operation_index: NonPrimitiveOpId,
    ) -> Result<bool, CircuitFailure> {
        if self.arity4() {
            self.boolean_in(
                inputs,
                witness,
                operation_index,
                self.sizes().width_ext + 2,
                "mmcs_bit2"@,
            )
        } else {
            Ok(false)
        }
    }

    /// Reads the MMCS direction bit from the witness table.
    pub fn resolve_mmcs_bit<F: FieldText>(
        &self,
        inputs: &[Vec<WitnessId>],
        ctx: &ExecutionContext<F>,
    ) -> (r: Result<bool, CircuitError>)
        ensures
            match r {
                Ok(b) => self.mmcs_bit(slots(inputs@), ctx.witness@, ctx.operation_id) == Ok::<
                    bool,
                    CircuitFailure,
                >(b),
                Err(e) => self.mmcs_bit(slots(inputs@), ctx.witness@, ctx.operation_id) == Err::<
                    bool,
                    CircuitFailure,
                >(e@),
            },
    {
        let width: usize = self.config.width_ext();
        self.resolve_boolean_witness(inputs, ctx, width + 1, "mmcs_bit")
    }

    /// Reads the second MMCS direction bit from the witness table. Only four-way shapes have one;
    /// for all other shapes it is false.
    pub fn resolve_mmcs_bit2<F: FieldText>(
        &self,
        inputs: &[Vec<WitnessId>],
        ctx: &ExecutionContext<F>,
    ) -> (r: Result<bool, CircuitError>)
        ensures
            match r {
                Ok(b) => self.mmcs_bit2(slots(inputs@), ctx.witness@, ctx.operation_id) == Ok::<
                    bool,
                    CircuitFailure,
                >(b),
                Err(e) => self.mmcs_bit2(slots(inputs@), ctx.witness@, ctx.operation_id) == Err::<
                    bool,
                    CircuitFailure,
                >(e@),
            },
    {
        if !self.is_arity4() {
            return Ok(false);
        }
        let width: usize = self.config.width_ext();
        self.resolve_boolean_witness(inputs, ctx, width + 2, "mmcs_bit2")
    }

    /// Reads a boolean direction bit from a slot.
    fn resolve_boolean_witness<F: FieldText>(
        &self,
        inputs: &[Vec<WitnessId>],
        ctx: &ExecutionContext<F>,
        slot: usize,
        label: &'static str,
    ) -> (r: Result<bool, CircuitError>)
        ensures
            match r {
                Ok(b) => self.boolean_in(
                    slots(inputs@),
                    ctx.witness@,
                    ctx.operation_id,
                    slot as nat,
                    label@,
                ) == Ok::<bool, CircuitFailure>(b),
                Err(e) => self.boolean_in(
                    slots(inputs@),
                    ctx.witness@,
                    ctx.operation_id,
                    slot as nat,
                    label@,
                ) == Err::<bool, CircuitFailure>(e@),
            },
    {
        if slot < inputs.len() && inputs[slot].len() > 0 {
            match ctx.get_witness(inputs[slot][0]) {
                Err(e) => Err(e),
                Ok(v) => {
                    if v.equals(F::zero()) {
                        Ok(false)
                    } else if v.equals(F::one()) {
                        Ok(true)
                    } else {
                        Err(
                            CircuitError::IncorrectNonPrimitiveOpPrivateData {
                                op: self.op_type,
                                operation_index: ctx.operation_id,
                                expected: join3("boolean ", label, " (0 or 1)"),
                                got: v.text(),
                            },
                        )
                    }
                },
            }
        } else if self.merkle_path {
            let mut expected: String = String::from_str(label);
            expected.append(" must be provided when merkle_path=true");
            let mut got: String = String::from_str("missing ");
            got.append(label);
            Err(
                CircuitError::IncorrectNonPrimitiveOpPrivateData {
                    op: self.op_type,
                    operation_index: ctx.operation_id,
                    expected,
                    got,
                },
            )
        } else {
            Ok(false)
        }
    }

    pub open spec fn chain_output<F>(self, states: Map<NpoTypeId, Chain<F>>) -> Option<Seq<F>> {
        if !states.contains_key(self.op_type) {
            None
        } else if self.merkle_path {
            states[self.op_type].merkle
        } else {
            states[self.op_type].normal
        }
    }

    /// The previous permutation output that a row of this mode continues from, if any.
    pub fn get_chain_output<'a, F: Field>(&self, ctx: &'a ExecutionContext<F>) -> (r: Option<
        &'a [F],
    >)
        ensures
            self.chain_output(ctx.op_states@) == (match r {
                Some(p) => Some(p@),
                None => None,
            }),
    {
        match ctx.op_states.get(self.op_type) {
            None => None,
            Some(state) => {
                let output: &Option<Vec<F>> = if self.merkle_path {
                    &state.last_output_merkle
                } else {
                    &state.last_output_normal
                };
                match output {
                    Some(v) => Some(v.as_slice()),
                    None => None,
                }
            },
        }
    }

    /// The row of an extension-field operation.
    pub open spec fn trace_row<F: Field>(
        self,
        inputs: Seq<Seq<WitnessId>>,
        outputs: Seq<Seq<WitnessId>>,
        mmcs_bit: bool,
        mmcs_bit2: bool,
        input_values: Seq<F>,
        witness: Seq<Option<F>>,
    ) -> Result<Row<F>, CircuitFailure> {
        let width = self.sizes().width_ext;
        let rate = self.sizes().rate_ext;
        let accumulated = inputs[width as int].len() == 1;
        let sum = if accumulated {
            context::witness_value(witness, inputs[width as int][0])
        } else {
            Ok(F::sp_zero())
        };
        match sum {
            Err(e) => Err(e),
            Ok(mmcs_index_sum) => Ok(
                Row {
                    new_start: self.new_start,
                    merkle_path: self.merkle_path,
                    mmcs_bit,
                    mmcs_bit2,
                    mmcs_index_sum,
                    input_values,
                    in_ctl: slot_flags(inputs, width),
                    input_indices: slot_indices(inputs, width),
                    out_ctl: slot_flags(outputs, rate),
                    output_indices: slot_indices(outputs, rate),
                    mmcs_index_sum_idx: if accumulated {
                        inputs[width as int][0].0
                    } else {
                        0
                    },
                    mmcs_ctl_enabled: accumulated,
                },
            ),
        }
    }

    /// Constructs the circuit trace row of an extension-field operation.
    pub fn build_trace_row<F: Field>(
        &self,
        inputs: &[Vec<WitnessId>],
        outputs: &[Vec<WitnessId>],
        mmcs_bit: bool,
        mmcs_bit2: bool,
        input_values: Vec<F>,
        ctx: &ExecutionContext<F>,
    ) -> (r: Result<PoseidonCircuitRow<F>, CircuitError>)
        requires
            inputs@.len() > self.sizes().width_ext,
        ensures
            match r {
                Ok(row) => self.trace_row(
                    slots(inputs@),
                    slots(outputs@),
                    mmcs_bit,
                    mmcs_bit2,
                    input_values@,
                    ctx.witness@,
                ) == Ok::<Row<F>, CircuitFailure>(row@),
                Err(e) => self.trace_row(
                    slots(inputs@),
                    slots(outputs@),
                    mmcs_bit,
                    mmcs_bit2,
                    input_values@,
                    ctx.witness@,
                ) == Err::<Row<F>, CircuitFailure>(e@),
            },
    {
        let width: usize = self.config.width_ext();
        let rate: usize = self.config.rate_ext();
        let (in_ctl, input_indices) = scan_slots(inputs, width, false);
        let (out_ctl, output_indices) = scan_slots(outputs, rate, false);
        let mut mmcs_index_sum: F = F::zero();
        let mut mmcs_index_sum_idx: u32 = 0;
        let mut mmcs_ctl_enabled: bool = false;
        if inputs[width].len() == 1 {
            let id: WitnessId = inputs[width][0];
            match ctx.get_witness(id) {
                Err(e) => {
                    return Err(e);
                },
                Ok(v) => {
                    mmcs_index_sum = v;
                },
            }
            mmcs_index_sum_idx = id.0;
            mmcs_ctl_enabled = true;
        }
        Ok(
            PoseidonCircuitRow {
                new_start: self.new_start,
                merkle_path: self.merkle_path,
                mmcs_bit,
                mmcs_bit2,
                mmcs_index_sum,
                input_values,
                in_ctl,
                input_indices,
                out_ctl,
                output_indices,
                mmcs_index_sum_idx,
                mmcs_ctl_enabled,
            },
        )
    }

    /// The row of a base-field operation. In the compact layout no capacity slot is exposed.
    pub open spec fn base_row<F: Field>(
        self,
        inputs: Seq<Seq<WitnessId>>,
        outputs: Seq<Seq<WitnessId>>,
        input_values: Seq<F>,
    ) -> Row<F> {
        let width = self.sizes().width_ext * self.sizes().d;
        let rate = self.sizes().rate_ext;
        Row {
            new_start: self.new_start,
            merkle_path: false,
            mmcs_bit: false,
            mmcs_bit2: false,
            mmcs_index_sum: F::sp_zero(),
            input_values,
            in_ctl: Seq::new(
                width,
                |i: int| single_flags(inputs, width)[i] && !(self.compact() && i >= rate),
            ),
            input_indices: single_indices(inputs, width),
            out_ctl: single_flags(outputs, rate),
            output_indices: single_indices(outputs, rate),
            mmcs_index_sum_idx: 0,
            mmcs_ctl_enabled: false,
        }
    }

    /// Constructs the circuit trace row of a base-field operation.
    pub fn build_base_trace_row<F: Field>(
        &self,
        inputs: &[Vec<WitnessId>],
        outputs: &[Vec<WitnessId>],
        input_values: &Vec<F>,
    ) -> (r: PoseidonCircuitRow<F>)
        ensures
            r@ == self.base_row(slots(inputs@), slots(outputs@), input_values@),
    {
        let width: usize = self.config.width();
        let rate: usize = self.config.rate_ext();
        let (mut in_ctl, input_indices) = scan_slots(inputs, width, true);
        let ghost scanned = in_ctl@;
        if self.compact_d1_preprocessed_layout() {
            let mut i: usize = rate;
            while i < width
                invariant
                    rate <= i,
                    rate <= width ==> i <= width,
                    in_ctl@.len() == width == scanned.len(),
                    forall|j: int|
                        0 <= j < width ==> #[trigger] in_ctl@[j] == (scanned[j] && !(rate <= j
                            < i)),
                decreases width - i,
            {
                in_ctl[i] = false;
                i += 1;
            }
        }
        let (out_ctl, output_indices) = scan_slots(outputs, rate, true);
        let row = PoseidonCircuitRow {
            new_start: self.new_start,
            merkle_path: false,
            mmcs_bit: false,
            mmcs_bit2: false,
            mmcs_index_sum: F::zero(),
            input_values: seqs::copy_vec(input_values),
            in_ctl,
            input_indices,
            out_ctl,
            output_indices,
            mmcs_index_sum_idx: 0,
            mmcs_ctl_enabled: false,
        };
        assert(row@.in_ctl =~= self.base_row(
            slots(inputs@),
            slots(outputs@),
            input_values@,
        ).in_ctl);
        row
    }

    pub open spec fn chain_after<F>(
        self,
        states: Map<NpoTypeId, Chain<F>>,
        output: Seq<F>,
        row: Row<F>,
    ) -> Map<NpoTypeId, Chain<F>> {
        states.insert(
            self.op_type,
            context::recorded(
                if states.contains_key(self.op_type) {
                    states[self.op_type]
                } else {
                    context::empty_chain()
                },
                self.merkle_path,
                !self.merkle_path && self.arity4(),
                output,
                row,
            ),
        )
    }

    /// Stores the permutation output in the chain state and appends the trace row.
    ///
    /// A four-way leaf sponge absorbs outside Merkle mode yet must seed the Merkle chain, so its
    /// output is kept for both modes.
    pub fn update_chain_state<F: Field>(
        &self,
        ctx: &mut ExecutionContext<F>,
        output: Vec<F>,
        row: PoseidonCircuitRow<F>,
    )
        ensures
            final(ctx).op_states@ == self.chain_after(old(ctx).op_states@, output@, row@),
            final(ctx).witness == old(ctx).witness,
            final(ctx).private_data == old(ctx).private_data,
            final(ctx).operation_id == old(ctx).operation_id,
    {
        let seed: bool = !self.merkle_path && self.is_arity4();
        ctx.op_states.record(self.op_type, self.merkle_path, seed, output, row);
    }

    /// A row of four-way compression: it has a second direction bit.
    pub open spec fn arity4_merkle(self) -> bool {
        self.arity4() && self.merkle_path
    }

    pub open spec fn expected_inputs(self) -> nat {
        self.sizes().width_ext + if self.arity4_merkle() {
            3nat
        } else {
            2nat
        }
    }

    /// What is wrong with the inputs of an extension-field operation.
    pub open spec fn ext_inputs_failure(self, inputs: Seq<Seq<WitnessId>>) -> Option<
        CircuitFailure,
    > {
        let width = self.sizes().width_ext as int;
        let op = self.op_type;
        if inputs.len() != self.expected_inputs() {
            Some(
                CircuitFailure::LayoutMismatch {
                    op,
                    expected: text::decimal(self.expected_inputs()) + " input vectors"@,
                    got: inputs.len(),
                },
            )
        } else {
            match seqs::least(width as nat, slot_exceeds_one(inputs)) {
                Some(i) => Some(
                    CircuitFailure::LayoutMismatch {
                        op,
                        expected: "0 or 1 witness per input limb (extension-only)"@,
                        got: inputs[i].len(),
                    },
                ),
                None => if inputs[width].len() > 1 {
                    Some(
                        CircuitFailure::IncorrectDataSize {
                            op,
                            expected: "0 or 1 element for mmcs_index_sum"@,
                            got: inputs[width].len(),
                        },
                    )
                } else if inputs[width + 1].len() > 1 {
                    Some(
                        CircuitFailure::IncorrectDataSize {
                            op,
                            expected: "0 or 1 element for mmcs_bit"@,
                            got: inputs[width + 1].len(),
                        },
                    )
                } else if self.arity4_merkle() && inputs[width + 2].len() > 1 {
                    Some(
                        CircuitFailure::IncorrectDataSize {
                            op,
                            expected: "0 or 1 element for mmcs_bit2"@,
                            got: inputs[width + 2].len(),
                        },
                    )
                } else {
                    None
                },
            }
        }
    }

    /// Validates the input layout of an extension-field operation: one slot per limb, one for the
    /// MMCS index accumulator and one per direction bit, each with at most one witness.
    pub fn validate_ext_inputs(&self, inputs: &[Vec<WitnessId>]) -> (r: Result<(), CircuitError>)
        ensures
            match r {
                Ok(()) => self.ext_inputs_failure(slots(inputs@)) is None,
                Err(e) => self.ext_inputs_failure(slots(inputs@)) == Some(e@),
            },
    {
        let ghost ids = slots(inputs@);
        let width: usize = self.config.width_ext();
        let arity4_merkle: bool = self.is_arity4() && self.merkle_path;
        let mut expected: usize = width + 2;
        if arity4_merkle {
            expected = width + 3;
        }
        if inputs.len() != expected {
            let mut message: String = decimal_text(expected as u64);
            message.append(" input vectors");
            return Err(
                CircuitError::NonPrimitiveOpLayoutMismatch {
                    op: self.op_type,
                    expected: message,
                    got: inputs.len(),
                },
            );
        }
        let mut i: usize = 0;
        while i < width
            invariant
                i <= width <= inputs@.len(),
                width == self.sizes().width_ext,
                ids == slots(inputs@),
                inputs@.len() == self.expected_inputs(),
                forall|j: int| 0 <= j < i ==> !(#[trigger] slot_exceeds_one(ids)(j)),
            decreases width - i,
        {
            assert(ids[i as int] == inputs@[i as int]@);
            if inputs[i].len() > 1 {
                proof {
                    assert(slot_exceeds_one(ids)(i as int));
                    seqs::lemma_least_some(width as nat, slot_exceeds_one(ids), i as int);
                }
                return Err(
                    CircuitError::NonPrimitiveOpLayoutMismatch {
                        op: self.op_type,
                        expected: String::from_str(
                            "0 or 1 witness per input limb (extension-only)",
                        ),
                        got: inputs[i].len(),
                    },
                );
            }
            i += 1;
        }
        proof {
            seqs::lemma_least_none(width as nat, slot_exceeds_one(ids));
        }
        if inputs[width].len() > 1 {
            return Err(
                CircuitError::IncorrectNonPrimitiveOpPrivateDataSize {
                    op: self.op_type,
                    expected: String::from_str("0 or 1 element for mmcs_index_sum"),
                    got: inputs[width].len(),
                },
            );
        }
        if inputs[width + 1].len() > 1 {
            return Err(
                CircuitError::IncorrectNonPrimitiveOpPrivateDataSize {
                    op: self.op_type,
                    expected: String::from_str("0 or 1 element for mmcs_bit"),
                    got: inputs[width + 1].len(),
                },
            );
        }
        if arity4_merkle && inputs[width + 2].len() > 1 {
            return Err(
                CircuitError::IncorrectNonPrimitiveOpPrivateDataSize {
                    op: self.op_type,
                    expected: String::from_str("0 or 1 element for mmcs_bit2"),
                    got: inputs[width + 2].len(),
                },
            );
        }
        Ok(())
    }

    pub open spec fn ext_outputs_failure(self, outputs: nat) -> Option<CircuitFailure> {
        let rate = self.sizes().rate_ext;
        let width = self.sizes().width_ext;
        if outputs != rate && outputs != width {
            Some(
                CircuitFailure::LayoutMismatch {
                    op: self.op_type,
                    expected: text::decimal(rate) + " or "@ + text::decimal(width)
                        + " output vectors"@,
                    got: outputs,
                },
            )
        } else {
            None
        }
    }

    /// Validates the output layout of an extension-field operation: the rate or the full state.
    pub fn validate_ext_outputs(&self, outputs: &[Vec<WitnessId>]) -> (r: Result<(), CircuitError>)
        ensures
            match r {
                Ok(()) => self.ext_outputs_failure(outputs@.len()) is None,
                Err(e) => self.ext_outputs_failure(outputs@.len()) == Some(e@),
            },
    {
        let rate: usize = self.config.rate_ext();
        let width: usize = self.config.width_ext();
        if outputs.len() != rate && outputs.len() != width {
            let mut expected: String = decimal_text(rate as u64);
            expected.append(" or ");
            expected.append(decimal_text(width as u64).as_str());
            expected.append(" output vectors");
            return Err(
                CircuitError::NonPrimitiveOpLayoutMismatch {
                    op: self.op_type,
                    expected,
                    got: outputs.len(),
                },
            );
        }
        Ok(())
    }

    /// Writes permutation output values to witness slots. Empty slots are skipped; slots with more
    /// than one witness are rejected.
    pub fn write_outputs<F: Field>(
        &self,
        outputs: &[Vec<WitnessId>],
        output_values: &Vec<F>,
        ctx: &mut ExecutionContext<F>,
    ) -> (r: Result<(), CircuitError>)
        ensures
            ({
                let written = outputs_written(
                    self.op_type,
                    slots(outputs@),
                    output_values@,
                    old(ctx).witness@,
                    smaller(outputs@.len(), output_values@.len()),
                );
                &&& final(ctx).witness@ == written.0
                &&& match r {
                    Ok(()) => written.1 is None,
                    Err(e) => written.1 == Some(e@),
                }
            }),
            final(ctx).private_data == old(ctx).private_data,
            final(ctx).operation_id == old(ctx).operation_id,
            final(ctx).op_states == old(ctx).op_states,
    {
        let ghost ids = slots(outputs@);
        let ghost start = ctx.witness@;
        let ghost before = *ctx;
        let mut n: usize = outputs.len();
        if n > output_values.len() {
            n = output_values.len();
        }
        let mut i: usize = 0;
        while i < n
            invariant
                i <= n,
                n == smaller(outputs@.len(), output_values@.len()),
                ids == slots(outputs@),
                before == *old(ctx),
                start == old(ctx).witness@,
                outputs_written(self.op_type, ids, output_values@, start, i as nat) == (
                    ctx.witness@,
                    None::<CircuitFailure>,
                ),
                ctx.private_data == before.private_data,
                ctx.operation_id == before.operation_id,
                ctx.op_states == before.op_states,
            decreases n - i,
        {
            assert(ids[i as int] == outputs@[i as int]@);
            if outputs[i].len() == 0 {
            } else if outputs[i].len() == 1 {
                match ctx.set_witness(outputs[i][0], output_values[i]) {
                    Ok(()) => {},
                    Err(e) => {
                        proof {
                            lemma_written_failure(
                                self.op_type,
                                ids,
                                output_values@,
                                start,
                                (i + 1) as nat,
                                n as nat,
                            );
                        }
                        return Err(e);
                    },
                }
            } else {
                proof {
                    lemma_written_failure(
                        self.op_type,
                        ids,
                        output_values@,
                        start,
                        (i + 1) as nat,
                        n as nat,
                    );
                }
                return Err(
                    CircuitError::NonPrimitiveOpLayoutMismatch {
                        op: self.op_type,
                        expected: String::from_str("0 or 1 witness per output limb"),
                        got: outputs[i].len(),
                    },
                );
            }
            i += 1;
        }
        Ok(())
    }
}

/// Of each of the first `n` slots, whether it is exposed and its first witness. With `single`, only
/// slots with exactly one witness are exposed.
fn scan_slots(v: &[Vec<WitnessId>], n: usize, single: bool) -> (r: (Vec<bool>, Vec<u32>))
    ensures
        r.0@ == if single {
            single_flags(slots(v@), n as nat)
        } else {
            slot_flags(slots(v@), n as nat)
        },
        r.1@ == if single {
            single_indices(slots(v@), n as nat)
        } else {
            slot_indices(slots(v@), n as nat)
        },
{
    let ghost ids = slots(v@);
    let ghost flag_model = if single {
        single_flags(ids, n as nat)
    } else {
        slot_flags(ids, n as nat)
    };
    let ghost index_model = if single {
        single_indices(ids, n as nat)
    } else {
        slot_indices(ids, n as nat)
    };
    let mut flags: Vec<bool> = Vec::new();
    let mut indices: Vec<u32> = Vec::new();
    let mut i: usize = 0;
    while i < n
        invariant
            i <= n,
            ids == slots(v@),
            flags@.len() == i,
            indices@.len() == i,
            flag_model == if single {
                single_flags(ids, n as nat)
            } else {
                slot_flags(ids, n as nat)
            },
            index_model == if single {
                single_indices(ids, n as nat)
            } else {
                slot_indices(ids, n as nat)
            },
            forall|j: int| 0 <= j < i ==> #[trigger] flags@[j] == flag_model[j],
            forall|j: int| 0 <= j < i ==> #[trigger] indices@[j] == index_model[j],
        decreases n - i,
    {
        if i < v.len() && v[i].len() > 0 && (!single || v[i].len() == 1) {
            flags.push(true);
            indices.push(v[i][0].0);
        } else {
            flags.push(false);
            indices.push(0);
        }
        i += 1;
    }
    assert(flags@ =~= flag_model);
    assert(indices@ =~= index_model);
    (flags, indices)
}

impl<V: PoseidonVariant> PoseidonPermExecutor<V> {
    /// What is wrong with the layout of a base-field operation.
    pub open spec fn base_layout_failure(
        self,
        inputs: Seq<Seq<WitnessId>>,
        outputs: nat,
    ) -> Option<CircuitFailure> {
        let width = self.sizes().width_ext;
        let op = self.op_type;
        let tail = seqs::least(2, slot_is_exposed(inputs, width));
        let limb = seqs::least(width, slot_exceeds_one(inputs));
        if inputs.len() != width && inputs.len() != width + 2 {
            Some(
                CircuitFailure::LayoutMismatch {
                    op,
                    expected: text::decimal(width) + " or "@ + text::decimal(width + 2)
                        + " input vectors for D=1 mode"@,
                    got: inputs.len(),
                },
            )
        } else if inputs.len() == width + 2 && tail is Some {
            Some(
                CircuitFailure::LayoutMismatch {
                    op,
                    expected: "empty mmcs slots for D=1 non-Merkle (tail slot "@ + text::decimal(
                        tail->0 as nat,
                    ) + ")"@,
                    got: inputs[width + tail->0].len(),
                },
            )
        } else if limb is Some {
            Some(
                CircuitFailure::LayoutMismatch {
                    op,
                    expected: "0 or 1 witness per input element "@ + text::decimal(
                        limb->0 as nat,
                    ),
                    got: inputs[limb->0].len(),
                },
            )
        } else if outputs != self.capacity() && outputs != width {
            Some(
                CircuitFailure::LayoutMismatch {
                    op,
                    expected: text::decimal(self.capacity()) + " or "@ + text::decimal(width)
                        + " output vectors for D=1 mode"@,
                    got: outputs,
                },
            )
        } else {
            None
        }
    }

    fn validate_base_layout(&self, inputs: &[Vec<WitnessId>], outputs: &[Vec<WitnessId>]) -> (r:
        Result<(), CircuitError>)
        requires
            self.sizes().d == 1,
        ensures
            match r {
                Ok(()) => self.base_layout_failure(slots(inputs@), outputs@.len()) is None,
                Err(e) => self.base_layout_failure(slots(inputs@), outputs@.len()) == Some(e@),
            },
    {
        let ghost ids = slots(inputs@);
        let width: usize = self.config.width_ext();
        if inputs.len() != width && inputs.len() != width + 2 {
            let mut expected: String = decimal_text(width as u64);
            expected.append(" or ");
            expected.append(decimal_text((width + 2) as u64).as_str());
            expected.append(" input vectors for D=1 mode");
            return Err(
                CircuitError::NonPrimitiveOpLayoutMismatch {
                    op: self.op_type,
                    expected,
                    got: inputs.len(),
                },
            );
        }
        if inputs.len() == width + 2 {
            let mut i: usize = 0;
            while i < 2
                invariant
                    i <= 2,
                    width <= 64,
                    width == self.sizes().width_ext,
                    inputs@.len() == width + 2,
                    ids == slots(inputs@),
                    forall|j: int|
                        0 <= j < i ==> !(#[trigger] slot_is_exposed(ids, width as nat)(j)),
                decreases 2 - i,
            {
                assert(ids[width + i] == inputs@[width + i]@);
                if inputs[width + i].len() > 0 {
                    proof {
                        assert(slot_is_exposed(ids, width as nat)(i as int));
                        seqs::lemma_least_some(2, slot_is_exposed(ids, width as nat), i as int);
                    }
                    return Err(
                        CircuitError::NonPrimitiveOpLayoutMismatch {
                            op: self.op_type,
                            expected: join3(
                                "empty mmcs slots for D=1 non-Merkle (tail slot ",
                                decimal_text(i as u64).as_str(),
                                ")",
                            ),
                            got: inputs[width + i].len(),
                        },
                    );
                }
                i += 1;
            }
            proof {
                seqs::lemma_least_none(2, slot_is_exposed(ids, width as nat));
            }
        }
        let mut i: usize = 0;
        while i < width
            invariant
                i <= width <= inputs@.len(),
                width == self.sizes().width_ext,
                ids == slots(inputs@),
                inputs@.len() == width || inputs@.len() == width + 2,
                inputs@.len() == width + 2 ==> seqs::least(
                    2,
                    slot_is_exposed(ids, width as nat),
                ) is None,
                forall|j: int| 0 <= j < i ==> !(#[trigger] slot_exceeds_one(ids)(j)),
            decreases width - i,
        {
            assert(ids[i as int] == inputs@[i as int]@);
            if inputs[i].len() > 1 {
                proof {
                    assert(slot_exceeds_one(ids)(i as int));
                    seqs::lemma_least_some(width as nat, slot_exceeds_one(ids), i as int);
                }
                let mut expected: String = String::from_str("0 or 1 witness per input element ");
                expected.append(decimal_text(i as u64).as_str());
                return Err(
                    CircuitError::NonPrimitiveOpLayoutMismatch {
                        op: self.op_type,
                        expected,
                        got: inputs[i].len(),
                    },
                );
            }
            i += 1;
        }
        proof {
            seqs::lemma_least_none(width as nat, slot_exceeds_one(ids));
        }
        let capacity: usize = self.config.capacity_ext();
        if outputs.len() != capacity && outputs.len() != width {
            let mut expected: String = decimal_text(capacity as u64);
            expected.append(" or ");
            expected.append(decimal_text(width as u64).as_str());
            expected.append(" output vectors for D=1 mode");
            return Err(
                CircuitError::NonPrimitiveOpLayoutMismatch {
                    op: self.op_type,
                    expected,
                    got: outputs.len(),
                },
            );
        }
        Ok(())
    }

    /// The state with the length tag added to its first capacity element.
    pub open spec fn length_tagged<F: Field>(self, state: Seq<F>) -> Seq<F> {
        if self.absorb_len > 0 {
            state.update(
                self.sizes().rate_ext as int,
                state[self.sizes().rate_ext as int].sp_add(
                    F::sp_from((self.absorb_len % 256) as nat),
                ),
            )
        } else {
            state
        }
    }

    /// The state that a base-field operation permutes.
    pub open spec fn base_state<F: Field>(
        self,
        inputs: Seq<Seq<WitnessId>>,
        witness: Seq<Option<F>>,
        states: Map<NpoTypeId, Chain<F>>,
        operation_index: NonPrimitiveOpId,
    ) -> Result<Seq<F>, CircuitFailure> {
        match self.chained(self.chain_output(states), operation_index) {
            Err(e) => Err(e),
            Ok(s) => match witness_fed(s, inputs, witness, self.sizes().width_ext) {
                Err(e) => Err(e),
                Ok(s) => Ok(self.length_tagged(s)),
            },
        }
    }

    /// What remains once a row is known: its output is written, and then the row is recorded.
    pub open spec fn concluded<F: Field>(
        self,
        outputs: Seq<Seq<WitnessId>>,
        output: Seq<F>,
        row: Row<F>,
        witness: Seq<Option<F>>,
        states: Map<NpoTypeId, Chain<F>>,
    ) -> Outcome<F> {
        let written = outputs_written(
            self.op_type,
            outputs,
            output,
            witness,
            smaller(outputs.len(), output.len()),
        );
        Outcome {
            witness: written.0,
            states: if written.1 is Some {
                states
            } else {
                self.chain_after(states, output, row)
            },
            failure: written.1,
        }
    }

    /// The outcome of a base-field operation.
    pub open spec fn base_outcome<F: Field, P: Permutation<F>>(
        self,
        inputs: Seq<Seq<WitnessId>>,
        outputs: Seq<Seq<WitnessId>>,
        witness: Seq<Option<F>>,
        states: Map<NpoTypeId, Chain<F>>,
        operation_index: NonPrimitiveOpId,
        exec: P,
    ) -> Outcome<F> {
        let layout = self.base_layout_failure(inputs, outputs.len());
        if layout is Some {
            Outcome { witness, states, failure: layout }
        } else {
            match self.base_state(inputs, witness, states, operation_index) {
                Err(e) => Outcome { witness, states, failure: Some(e) },
                Ok(state) => self.concluded(
                    outputs,
                    exec.permuted(state),
                    self.base_row(inputs, outputs, state),
                    witness,
                    states,
                ),
            }
        }
    }

    /// Executes the base-field permutation: validates the layout, resolves witness values, runs
    /// the permutation, writes outputs and records a trace row.
    pub fn execute_base<F: Field, P: Permutation<F>>(
        &self,
        inputs: &[Vec<WitnessId>],
        outputs: &[Vec<WitnessId>],
        ctx: &mut ExecutionContext<F>,
        exec: &P,
    ) -> (r: Result<(), CircuitError>)
        requires
            self.sizes().d == 1,
            exec.limbs() == self.sizes().width_ext,
        ensures
            ({
                let outcome = self.base_outcome(
                    slots(inputs@),
                    slots(outputs@),
                    old(ctx).witness@,
                    old(ctx).op_states@,
                    old(ctx).operation_id,
                    *exec,
                );
                &&& final(ctx).witness@ == outcome.witness
                &&& final(ctx).op_states@ == outcome.states
                &&& match r {
                    Ok(()) => outcome.failure is None,
                    Err(e) => outcome.failure == Some(e@),
                }
            }),
            final(ctx).private_data == old(ctx).private_data,
            final(ctx).operation_id == old(ctx).operation_id,
    {
        match self.validate_base_layout(inputs, outputs) {
            Err(e) => {
                return Err(e);
            },
            Ok(()) => {},
        }
        let rate: usize = self.config.rate_ext();
        assert(self.sizes().width_ext * self.sizes().d == self.sizes().width_ext);
        let mut state: Vec<F> = match self.init_chain_state(self.get_chain_output(ctx), ctx) {
            Err(e) => {
                return Err(e);
            },
            Ok(s) => s,
        };
        match self.apply_witness_values(&mut state, inputs, ctx) {
            Err(e) => {
                return Err(e);
            },
            Ok(()) => {},
        }
        if self.absorb_len > 0 {
            let tag: F = F::from_u64((self.absorb_len % 256) as u64);
            let tagged: F = state[rate].add(tag);
            state[rate] = tagged;
        }
        let output: Vec<F> = exec.permute(&state);
        let row = self.build_base_trace_row(inputs, outputs, &state);
        match self.write_outputs(outputs, &output, ctx) {
            Err(e) => {
                return Err(e);
            },
            Ok(()) => {},
        }
        self.update_chain_state(ctx, output, row);
        Ok(())
    }

    /// The state that an extension-field operation permutes, and its direction bits.
    pub open spec fn ext_state<F: FieldText>(
        self,
        inputs: Seq<Seq<WitnessId>>,
        witness: Seq<Option<F>>,
        private_data: Option<NpoPrivateData<F>>,
        states: Map<NpoTypeId, Chain<F>>,
        operation_index: NonPrimitiveOpId,
    ) -> Result<(Seq<F>, bool, bool), CircuitFailure> {
        let last = self.chain_output(states);
        match self.private_siblings(private_data, operation_index) {
            Err(e) => Err(e),
            Ok(siblings) => match self.mmcs_bit(inputs, witness, operation_index) {
                Err(e) => Err(e),
                Ok(bit) => match self.mmcs_bit2(inputs, witness, operation_index) {
                    Err(e) => Err(e),
                    Ok(bit2) => match self.chained(last, operation_index) {
                        Err(e) => Err(e),
                        Ok(start) => {
                            let hashed = self.running_hash_placed(start, last, bit, bit2);
                            let placed = self.siblings_placed(hashed, siblings, bit, bit2);
                            match witness_fed(placed, inputs, witness, self.sizes().width_ext) {
                                Err(e) => Err(e),
                                Ok(fed) => Ok((self.swapped(fed, bit), bit, bit2)),
                            }
                        },
                    },
                },
            },
        }
    }

    /// The outcome of an extension-field operation.
    pub open spec fn ext_outcome<F: FieldText, P: Permutation<F>>(
        self,
        inputs: Seq<Seq<WitnessId>>,
        outputs: Seq<Seq<WitnessId>>,
        witness: Seq<Option<F>>,
        private_data: Option<NpoPrivateData<F>>,
        states: Map<NpoTypeId, Chain<F>>,
        operation_index: NonPrimitiveOpId,
        exec: P,
    ) -> Outcome<F> {
        let layout = match self.ext_inputs_failure(inputs) {
            Some(e) => Some(e),
            None => self.ext_outputs_failure(outputs.len()),
        };
        if layout is Some {
            Outcome { witness, states, failure: layout }
        } else {
            match self.ext_state(inputs, witness, private_data, states, operation_index) {
                Err(e) => Outcome { witness, states, failure: Some(e) },
                Ok((state, bit, bit2)) => match self.trace_row(
                    inputs,
                    outputs,
                    bit,
                    bit2,
                    state,
                    witness,
                ) {
                    Err(e) => Outcome { witness, states, failure: Some(e) },
                    Ok(row) => self.concluded(outputs, exec.permuted(state), row, witness, states),
                },
            }
        }
    }

    /// The row gets as far as swapping the halves of its state: it is a two-way Merkle row with the
    /// direction bit set, its layout is in order and its state can be assembled.
    pub open spec fn swaps_halves<F: FieldText>(
        self,
        inputs: Seq<Seq<WitnessId>>,
        outputs: Seq<Seq<WitnessId>>,
        witness: Seq<Option<F>>,
        private_data: Option<NpoPrivateData<F>>,
        states: Map<NpoTypeId, Chain<F>>,
        operation_index: NonPrimitiveOpId,
    ) -> bool {
        &&& self.merkle_path && !self.arity4()
        &&& self.ext_inputs_failure(inputs) is None
        &&& self.ext_outputs_failure(outputs.len()) is None
        &&& self.ext_state(inputs, witness, private_data, states, operation_index) matches Ok((
            _,
            bit,
            _,
        ))
        &&& bit
    }

    /// The operation has the base-field row shape.
    pub open spec fn base_mode(self) -> bool {
        self.sizes().d == 1 && !self.merkle_path
    }

    /// The outcome of the operation. Without a permutation nothing is executed.
    pub open spec fn outcome<F: FieldText, P: Permutation<F>>(
        self,
        inputs: Seq<Seq<WitnessId>>,
        outputs: Seq<Seq<WitnessId>>,
        witness: Seq<Option<F>>,
        private_data: Option<NpoPrivateData<F>>,
        states: Map<NpoTypeId, Chain<F>>,
        operation_index: NonPrimitiveOpId,
        exec: Option<P>,
    ) -> Outcome<F> {
        match exec {
            None => Outcome {
                witness,
                states,
                failure: Some(CircuitFailure::InvalidConfiguration { op: self.op_type }),
            },
            Some(exec) => if self.base_mode() {
                self.base_outcome(inputs, outputs, witness, states, operation_index, exec)
            } else {
                self.ext_outcome(
                    inputs,
                    outputs,
                    witness,
                    private_data,
                    states,
                    operation_index,
                    exec,
                )
            },
        }
    }

    /// Executes the row: assembles the state from the previous output, the siblings and the
    /// exposed witnesses, permutes it, writes the exposed outputs and records the row.
    ///
    /// Swapping the halves of a two-way Merkle row needs a state of two rates.
    pub fn execute<F: FieldText, P: Permutation<F>>(
        &self,
        inputs: &[Vec<WitnessId>],
        outputs: &[Vec<WitnessId>],
        ctx: &mut ExecutionContext<F>,
        exec: Option<&P>,
    ) -> (r: Result<(), CircuitError>)
        requires
            exec is Some && self.swaps_halves(
                slots(inputs@),
                slots(outputs@),
                old(ctx).witness@,
                old(ctx).private_data,
                old(ctx).op_states@,
                old(ctx).operation_id,
            ) ==> 2 * self.sizes().rate_ext <= self.sizes().width_ext,
            exec matches Some(p) ==> p.limbs() == self.sizes().width_ext,
        ensures
            ({
                let outcome = self.outcome(
                    slots(inputs@),
                    slots(outputs@),
                    old(ctx).witness@,
                    old(ctx).private_data,
                    old(ctx).op_states@,
                    old(ctx).operation_id,
                    match exec {
                        Some(p) => Some(*p),
                        None => None,
                    },
                );
                &&& final(ctx).witness@ == outcome.witness
                &&& final(ctx).op_states@ == outcome.states
                &&& match r {
                    Ok(()) => outcome.failure is None,
                    Err(e) => outcome.failure == Some(e@),
                }
            }),
            final(ctx).private_data == old(ctx).private_data,
            final(ctx).operation_id == old(ctx).operation_id,
    {
        let exec: &P = match exec {
            None => {
                return Err(CircuitError::InvalidNonPrimitiveOpConfiguration { op: self.op_type });
            },
            Some(p) => p,
        };
        if self.config.d() == 1 && !self.merkle_path {
            return self.execute_base(inputs, outputs, ctx, exec);
        }
        match self.validate_ext_inputs(inputs) {
            Err(e) => {
                return Err(e);
            },
            Ok(()) => {},
        }
        match self.validate_ext_outputs(outputs) {
            Err(e) => {
                return Err(e);
            },
            Ok(()) => {},
        }
        let siblings: Option<&[F]> = match self.resolve_private_data(ctx) {
            Err(e) => {
                return Err(e);
            },
            Ok(s) => s,
        };
        let mmcs_bit: bool = match self.resolve_mmcs_bit(inputs, ctx) {
            Err(e) => {
                return Err(e);
            },
            Ok(b) => b,
        };
        let mmcs_bit2: bool = match self.resolve_mmcs_bit2(inputs, ctx) {
            Err(e) => {
                return Err(e);
            },
            Ok(b) => b,
        };
        let last: Option<&[F]> = self.get_chain_output(ctx);
        let mut state: Vec<F> = match self.init_chain_state(last, ctx) {
            Err(e) => {
                return Err(e);
            },
            Ok(s) => s,
        };
        self.place_arity4_running_hash(&mut state, last, mmcs_bit, mmcs_bit2);
        self.fill_sibling_data(&mut state, siblings, mmcs_bit, mmcs_bit2);
        match self.apply_witness_values(&mut state, inputs, ctx) {
            Err(e) => {
                return Err(e);
            },
            Ok(()) => {},
        }
        self.apply_merkle_swap(&mut state, mmcs_bit);
        let output: Vec<F> = exec.permute(&state);
        let row = match self.build_trace_row(inputs, outputs, mmcs_bit, mmcs_bit2, state, ctx) {
            Err(e) => {
                return Err(e);
            },
            Ok(row) => row,
        };
        match self.write_outputs(outputs, &output, ctx) {
            Err(e) => {
                return Err(e);
            },
            Ok(()) => {},
        }
        self.update_chain_state(ctx, output, row);
        Ok(())
    }

    pub fn op_type(&self) -> (r: NpoTypeId)
        ensures
            r == self.op_type,
    {
        self.op_type
    }

    pub fn num_exposed_outputs(&self) -> (r: Option<usize>)
        ensures
            r is Some,
            r->0 == self.sizes().rate_ext,
    {
        Some(self.config.rate_ext())
    }
}

} // verus!
