//! Transcripts that are replayed inside a circuit.

use vstd::prelude::*;

use crate::circuit::{CircuitBuilder, CircuitBuilderError};
use crate::field::Field;
use crate::types::{ExprId, Target};

verus! {

/// One step of a transcript.
#[verifier::ext_equal]
pub enum TranscriptStep {
    /// A base element is absorbed.
    Observe(Target),
    /// An extension element is absorbed.
    ObserveExt(Target),
    /// A base element is squeezed.
    Sample(Target),
    /// An extension element is squeezed.
    SampleExt(Target),
    /// The low bits of a base element are squeezed, the lowest first.
    SampleBits(Seq<Target>),
    /// A proof-of-work witness is absorbed and the bits squeezed after it must be zero.
    CheckPow(usize, Target),
}

/// What `after` has beyond `before`.
pub open spec fn beyond<T>(before: Seq<T>, after: Seq<T>) -> Seq<T> {
    after.skip(before.len() as int)
}

/// The account of a transcript.
#[verifier::ext_equal]
pub struct TranscriptLog {
    /// The steps taken so far.
    pub steps: Seq<TranscriptStep>,
    /// The connections made so far.
    pub asserted: Seq<(ExprId, ExprId)>,
    /// The failures so far.
    pub failures: Seq<CircuitBuilderError>,
}

/// One step is taken, and the circuit grows by nothing else than what the step needs.
pub open spec fn advances<F: Field>(
    before: TranscriptLog,
    after: TranscriptLog,
    circuit: CircuitBuilder<F>,
    grown: CircuitBuilder<F>,
    step: TranscriptStep,
) -> bool {
    replays(before, after, circuit, grown, seq![step])
}

/// The given steps are taken, and the circuit grows by nothing else than what they need.
pub open spec fn replays<F: Field>(
    before: TranscriptLog,
    after: TranscriptLog,
    circuit: CircuitBuilder<F>,
    grown: CircuitBuilder<F>,
    steps: Seq<TranscriptStep>,
) -> bool {
    &&& circuit.grows_to(grown)
    &&& after.steps == before.steps + steps
    &&& after.failures == before.failures
    &&& before.asserted.is_prefix_of(after.asserted)
    &&& grown.connections@ == circuit.connections@ + beyond(before.asserted, after.asserted)
}

/// A transcript inside a circuit.
///
/// An implementation may add expressions, operations and connections of its own to the circuit. It
/// keeps account of the steps taken, of its connections, and of failures.
pub trait RecursiveChallenger<F: Field>: Sized {
    /// What happened so far.
    spec fn log(&self) -> TranscriptLog;

    fn observe(&mut self, circuit: &mut CircuitBuilder<F>, value: Target)
        requires
            old(circuit).wf(),
            old(circuit).has(value),
        ensures
            advances(
                old(self).log(),
                final(self).log(),
                *old(circuit),
                *final(circuit),
                TranscriptStep::Observe(value),
            ),
    ;

    fn observe_ext(&mut self, circuit: &mut CircuitBuilder<F>, value: Target)
        requires
            old(circuit).wf(),
            old(circuit).has(value),
        ensures
            advances(
                old(self).log(),
                final(self).log(),
                *old(circuit),
                *final(circuit),
                TranscriptStep::ObserveExt(value),
            ),
    ;

    fn sample(&mut self, circuit: &mut CircuitBuilder<F>) -> (r: Target)
        requires
            old(circuit).wf(),
        ensures
            final(circuit).has(r),
            advances(
                old(self).log(),
                final(self).log(),
                *old(circuit),
                *final(circuit),
                TranscriptStep::Sample(r),
            ),
    ;

    fn sample_ext(&mut self, circuit: &mut CircuitBuilder<F>) -> (r: Target)
        requires
            old(circuit).wf(),
        ensures
            final(circuit).has(r),
            advances(
                old(self).log(),
                final(self).log(),
                *old(circuit),
                *final(circuit),
                TranscriptStep::SampleExt(r),
            ),
    ;

    fn sample_bits(&mut self, circuit: &mut CircuitBuilder<F>, count: usize) -> (r: Result<
        Vec<Target>,
        CircuitBuilderError,
    >)
        requires
            old(circuit).wf(),
        ensures
            match r {
                Ok(bits) => {
                    &&& bits@.len() == count
                    &&& final(circuit).has_all(bits@)
                    &&& advances(
                        old(self).log(),
                        final(self).log(),
                        *old(circuit),
                        *final(circuit),
                        TranscriptStep::SampleBits(bits@),
                    )
                },
                Err(e) => final(self).log().failures == old(self).log().failures.push(e),
            },
    ;

    fn check_pow_witness(
        &mut self,
        circuit: &mut CircuitBuilder<F>,
        bits: usize,
        witness: Target,
    ) -> (r: Result<(), CircuitBuilderError>)
        requires
            old(circuit).wf(),
            old(circuit).has(witness),
        ensures
            match r {
                Ok(_) => advances(
                    old(self).log(),
                    final(self).log(),
                    *old(circuit),
                    *final(circuit),
                    TranscriptStep::CheckPow(bits, witness),
                ),
                Err(e) => final(self).log().failures == old(self).log().failures.push(e),
            },
    ;
}

/// Replays follow each other.
pub proof fn lemma_replays_on<F: Field>(
    a: TranscriptLog,
    b: TranscriptLog,
    c: TranscriptLog,
    circuit_a: CircuitBuilder<F>,
    circuit_b: CircuitBuilder<F>,
    circuit_c: CircuitBuilder<F>,
    first: Seq<TranscriptStep>,
    second: Seq<TranscriptStep>,
)
    requires
        circuit_a.wf(),
        replays(a, b, circuit_a, circuit_b, first),
        replays(b, c, circuit_b, circuit_c, second),
    ensures
        replays(a, c, circuit_a, circuit_c, first + second),
{
    circuit_a.lemma_grows_on(circuit_b, circuit_c);
    assert(a.steps + (first + second) =~= (a.steps + first) + second);
    assert(c.asserted.take(a.asserted.len() as int) =~= a.asserted);
    assert(beyond(a.asserted, c.asserted) =~= beyond(a.asserted, b.asserted) + beyond(
        b.asserted,
        c.asserted,
    ));
    assert(circuit_c.connections@ =~= circuit_a.connections@ + beyond(
        a.asserted,
        c.asserted,
    ));
}

/// Nothing happens in no step.
pub proof fn lemma_replays_nothing<F: Field>(
    a: TranscriptLog,
    circuit: CircuitBuilder<F>,
)
    requires
        circuit.wf(),
    ensures
        replays(a, a, circuit, circuit, Seq::empty()),
{
    circuit.lemma_grows_to_itself();
    assert(a.steps + Seq::<TranscriptStep>::empty() =~= a.steps);
    assert(circuit.connections@ + beyond(a.asserted, a.asserted) =~= circuit.connections@);
}

/// Computing values in the circuit takes no step.
pub proof fn lemma_replays_computed<F: Field>(
    a: TranscriptLog,
    b: TranscriptLog,
    circuit_a: CircuitBuilder<F>,
    circuit_b: CircuitBuilder<F>,
    circuit_c: CircuitBuilder<F>,
    steps: Seq<TranscriptStep>,
)
    requires
        circuit_a.wf(),
        replays(a, b, circuit_a, circuit_b, steps),
        circuit_b.computes_into(circuit_c),
    ensures
        replays(a, b, circuit_a, circuit_c, steps),
{
    circuit_a.lemma_grows_on(circuit_b, circuit_c);
}

/// The absorption of base elements.
pub open spec fn observed(values: Seq<Target>) -> Seq<TranscriptStep> {
    Seq::new(values.len(), |i: int| TranscriptStep::Observe(values[i]))
}

/// The absorption of extension elements.
pub open spec fn observed_ext(values: Seq<Target>) -> Seq<TranscriptStep> {
    Seq::new(values.len(), |i: int| TranscriptStep::ObserveExt(values[i]))
}

/// Absorbs base elements.
pub fn observe_slice<F: Field, Ch: RecursiveChallenger<F>>(
    challenger: &mut Ch,
    circuit: &mut CircuitBuilder<F>,
    values: &[Target],
)
    requires
        old(circuit).wf(),
        old(circuit).has_all(values@),
    ensures
        replays(
            old(challenger).log(),
            final(challenger).log(),
            *old(circuit),
            *final(circuit),
            observed(values@),
        ),
{
    let ghost ch0 = challenger.log();
    let ghost c0 = *circuit;
    proof {
        lemma_replays_nothing(ch0, c0);
        assert(observed(values@.take(0)) =~= Seq::empty());
    }
    let mut i: usize = 0;
    while i < values.len()
        invariant
            i <= values@.len(),
            c0.wf(),
            c0.has_all(values@),
            replays(ch0, challenger.log(), c0, *circuit, observed(values@.take(i as int))),
        decreases values@.len() - i,
    {
        let ghost ch1 = challenger.log();
        let ghost c1 = *circuit;
        assert(c0.has(values@[i as int]));
        challenger.observe(circuit, values[i]);
        proof {
            lemma_replays_on(
                ch0,
                ch1,
                challenger.log(),
                c0,
                c1,
                *circuit,
                observed(values@.take(i as int)),
                seq![TranscriptStep::Observe(values@[i as int])],
            );
            assert(observed(values@.take(i + 1)) =~= observed(values@.take(i as int))
                + seq![TranscriptStep::Observe(values@[i as int])]);
        }
        i += 1;
    }
    assert(values@.take(values@.len() as int) =~= values@);
}

/// Absorbs extension elements.
pub fn observe_ext_slice<F: Field, Ch: RecursiveChallenger<F>>(
    challenger: &mut Ch,
    circuit: &mut CircuitBuilder<F>,
    values: &[Target],
)
    requires
        old(circuit).wf(),
        old(circuit).has_all(values@),
    ensures
        replays(
            old(challenger).log(),
            final(challenger).log(),
            *old(circuit),
            *final(circuit),
            observed_ext(values@),
        ),
{
    let ghost ch0 = challenger.log();
    let ghost c0 = *circuit;
    proof {
        lemma_replays_nothing(ch0, c0);
        assert(observed_ext(values@.take(0)) =~= Seq::empty());
    }
    let mut i: usize = 0;
    while i < values.len()
        invariant
            i <= values@.len(),
            c0.wf(),
            c0.has_all(values@),
            replays(ch0, challenger.log(), c0, *circuit, observed_ext(values@.take(i as int))),
        decreases values@.len() - i,
    {
        let ghost ch1 = challenger.log();
        let ghost c1 = *circuit;
        assert(c0.has(values@[i as int]));
        challenger.observe_ext(circuit, values[i]);
        proof {
            lemma_replays_on(
                ch0,
                ch1,
                challenger.log(),
                c0,
                c1,
                *circuit,
                observed_ext(values@.take(i as int)),
                seq![TranscriptStep::ObserveExt(values@[i as int])],
            );
            assert(observed_ext(values@.take(i + 1)) =~= observed_ext(values@.take(i as int))
                + seq![TranscriptStep::ObserveExt(values@[i as int])]);
        }
        i += 1;
    }
    assert(values@.take(values@.len() as int) =~= values@);
}

/// A transcript whose challenges are public inputs of the circuit, in the order in which they are
/// squeezed. Proof-of-work witnesses are not checked.
pub struct InputChallenger {
    steps: Ghost<Seq<TranscriptStep>>,
}

impl InputChallenger {
    pub closed spec fn account(self) -> TranscriptLog {
        TranscriptLog { steps: self.steps@, asserted: Seq::empty(), failures: Seq::empty() }
    }

    pub fn new() -> (r: Self)
        ensures
            r.account() == (TranscriptLog {
                steps: Seq::empty(),
                asserted: Seq::empty(),
                failures: Seq::empty(),
            }),
    {
        InputChallenger { steps: Ghost(Seq::empty()) }
    }

    /// Such a transcript connects nothing and never fails.
    pub proof fn lemma_account(self)
        ensures
            self.account().asserted == Seq::<(ExprId, ExprId)>::empty(),
            self.account().failures.len() == 0,
    {
    }
}

impl<F: Field> RecursiveChallenger<F> for InputChallenger {
    open spec fn log(&self) -> TranscriptLog {
        self.account()
    }

    fn observe(&mut self, circuit: &mut CircuitBuilder<F>, value: Target) {
        self.steps = Ghost(self.steps@ + seq![TranscriptStep::Observe(value)]);
        proof {
            circuit.lemma_grows_to_itself();
            assert(circuit.connections@ =~= circuit.connections@ + beyond(
                Seq::<(ExprId, ExprId)>::empty(),
                Seq::<(ExprId, ExprId)>::empty(),
            ));
        }
    }

    fn observe_ext(&mut self, circuit: &mut CircuitBuilder<F>, value: Target) {
        self.steps = Ghost(self.steps@ + seq![TranscriptStep::ObserveExt(value)]);
        proof {
            circuit.lemma_grows_to_itself();
            assert(circuit.connections@ =~= circuit.connections@ + beyond(
                Seq::<(ExprId, ExprId)>::empty(),
                Seq::<(ExprId, ExprId)>::empty(),
            ));
        }
    }

    fn sample(&mut self, circuit: &mut CircuitBuilder<F>) -> (r: Target) {
        let r = circuit.public_input();
        self.steps = Ghost(self.steps@ + seq![TranscriptStep::Sample(r)]);
        proof {
            assert(circuit.connections@ =~= circuit.connections@ + beyond(
                Seq::<(ExprId, ExprId)>::empty(),
                Seq::<(ExprId, ExprId)>::empty(),
            ));
        }
        r
    }

    fn sample_ext(&mut self, circuit: &mut CircuitBuilder<F>) -> (r: Target) {
        let r = circuit.public_input();
        self.steps = Ghost(self.steps@ + seq![TranscriptStep::SampleExt(r)]);
        proof {
            assert(circuit.connections@ =~= circuit.connections@ + beyond(
                Seq::<(ExprId, ExprId)>::empty(),
                Seq::<(ExprId, ExprId)>::empty(),
            ));
        }
        r
    }

    fn sample_bits(&mut self, circuit: &mut CircuitBuilder<F>, count: usize) -> (r: Result<
        Vec<Target>,
        CircuitBuilderError,
    >) {
        let ghost start = *circuit;
        let mut bits: Vec<Target> = Vec::new();
        let mut i: usize = 0;
        proof {
            circuit.lemma_grows_to_itself();
        }
        while i < count
            invariant
                i <= count,
                start.wf(),
                start.computes_into(*circuit),
                bits@.len() == i,
                circuit.has_all(bits@),
            decreases count - i,
        {
            let ghost before = *circuit;
            let bit = circuit.public_input();
            proof {
                start.lemma_grows_on(before, *circuit);
                assert forall|j: int| 0 <= j < bits@.push(bit).len() implies circuit.has(
                    #[trigger] bits@.push(bit)[j],
                ) by {
                    if j < bits@.len() {
                        assert(before.has(bits@[j]));
                    }
                }
            }
            bits.push(bit);
            i += 1;
        }
        self.steps = Ghost(self.steps@ + seq![TranscriptStep::SampleBits(bits@)]);
        proof {
            assert(circuit.connections@ =~= circuit.connections@ + beyond(
                Seq::<(ExprId, ExprId)>::empty(),
                Seq::<(ExprId, ExprId)>::empty(),
            ));
        }
        Ok(bits)
    }

    fn check_pow_witness(
        &mut self,
        circuit: &mut CircuitBuilder<F>,
        bits: usize,
        witness: Target,
    ) -> (r: Result<(), CircuitBuilderError>) {
        self.steps = Ghost(self.steps@ + seq![TranscriptStep::CheckPow(bits, witness)]);
        proof {
            circuit.lemma_grows_to_itself();
            assert(circuit.connections@ =~= circuit.connections@ + beyond(
                Seq::<(ExprId, ExprId)>::empty(),
                Seq::<(ExprId, ExprId)>::empty(),
            ));
        }
        Ok(())
    }
}

} // verus!
