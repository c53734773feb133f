//! The course of a verifier that is laid out in a circuit: what it absorbs and squeezes, which
//! openings it hands over, and which connections it makes.

use vstd::prelude::*;

use crate::circuit::{CircuitBuilder, CircuitBuilderError};
use crate::field::Field;
use crate::path_checks;
use crate::path_checks::{DeferredPaths, PathCheck, PathLog};
use crate::transcript;
use crate::transcript::{InputChallenger, TranscriptLog, TranscriptStep};
use crate::types::{ExprId, NonPrimitiveOpId};

verus! {

/// The accounts of the transcript and of the path verifier.
#[verifier::ext_equal]
pub struct Session {
    pub transcript: TranscriptLog,
    pub paths: PathLog,
}

/// The connections of `now` are those of the four parts.
pub open spec fn joined(
    now: Seq<(ExprId, ExprId)>,
    start: Seq<(ExprId, ExprId)>,
    transcript: Seq<(ExprId, ExprId)>,
    paths: Seq<(ExprId, ExprId)>,
    own: Seq<(ExprId, ExprId)>,
) -> bool {
    forall|pair: (ExprId, ExprId)| #[trigger]
        now.contains(pair) <==> start.contains(pair) || transcript.contains(pair)
            || paths.contains(pair) || own.contains(pair)
}

/// The given steps are taken, the given openings handed over and the given connections made; the
/// circuit grows by nothing else than what these need. Without an opening the path verifier is left
/// alone.
pub open spec fn proceeds<F: Field>(
    before: Session,
    after: Session,
    circuit: CircuitBuilder<F>,
    grown: CircuitBuilder<F>,
    steps: Seq<TranscriptStep>,
    checks: Seq<PathCheck>,
    own: Seq<(ExprId, ExprId)>,
) -> bool {
    &&& circuit.grows_to(grown)
    &&& after.transcript.steps == before.transcript.steps + steps
    &&& after.transcript.failures == before.transcript.failures
    &&& before.transcript.asserted.is_prefix_of(after.transcript.asserted)
    &&& after.paths.checks == before.paths.checks + checks
    &&& after.paths.failures == before.paths.failures
    &&& before.paths.issued.is_prefix_of(after.paths.issued)
    &&& before.paths.asserted.is_prefix_of(after.paths.asserted)
    &&& checks.len() == 0 ==> after.paths == before.paths
    &&& joined(
        grown.connections@,
        circuit.connections@,
        transcript::beyond(before.transcript.asserted, after.transcript.asserted),
        transcript::beyond(before.paths.asserted, after.paths.asserted),
        own,
    )
}

/// One call of the transcript or of the path verifier failed, and nothing else did.
pub open spec fn failed(before: Session, after: Session, e: CircuitBuilderError) -> bool {
    ||| {
        &&& after.transcript.failures == before.transcript.failures.push(e)
        &&& after.paths.failures == before.paths.failures
    }
    ||| {
        &&& after.transcript.failures == before.transcript.failures
        &&& after.paths.failures == before.paths.failures.push(e)
    }
}

/// With challenges from public inputs and deferred openings, no call fails.
pub proof fn law_deferred_session_never_fails(
    transcript: InputChallenger,
    paths: DeferredPaths,
    later_transcript: InputChallenger,
    later_paths: DeferredPaths,
    e: CircuitBuilderError,
)
    ensures
        !failed(
            Session { transcript: transcript.account(), paths: paths.account() },
            Session { transcript: later_transcript.account(), paths: later_paths.account() },
            e,
        ),
{
    later_transcript.lemma_account();
    assert(transcript.account().failures.push(e).len() > 0);
    assert(paths.account().failures.push(e).len() > 0);
}

pub proof fn lemma_contains_either<T>(a: Seq<T>, b: Seq<T>, x: T)
    ensures
        (a + b).contains(x) <==> a.contains(x) || b.contains(x),
{
    if a.contains(x) {
        let i = choose|i: int| 0 <= i < a.len() && a[i] == x;
        assert((a + b)[i] == x);
    }
    if b.contains(x) {
        let i = choose|i: int| 0 <= i < b.len() && b[i] == x;
        assert((a + b)[a.len() + i] == x);
    }
    if (a + b).contains(x) {
        let i = choose|i: int| 0 <= i < (a + b).len() && (a + b)[i] == x;
        if i < a.len() {
            assert(a[i] == x);
        } else {
            assert(b[i - a.len()] == x);
        }
    }
}

pub proof fn lemma_beyond_on<T>(a: Seq<T>, b: Seq<T>, c: Seq<T>)
    requires
        a.is_prefix_of(b),
        b.is_prefix_of(c),
    ensures
        a.is_prefix_of(c),
        transcript::beyond(a, c) == transcript::beyond(a, b) + transcript::beyond(b, c),
{
    assert(c.take(a.len() as int) =~= a);
    assert(transcript::beyond(a, c) =~= transcript::beyond(a, b) + transcript::beyond(b, c));
}

/// Sessions follow each other.
pub proof fn lemma_proceeds_on<F: Field>(
    a: Session,
    b: Session,
    c: Session,
    circuit_a: CircuitBuilder<F>,
    circuit_b: CircuitBuilder<F>,
    circuit_c: CircuitBuilder<F>,
    first: (Seq<TranscriptStep>, Seq<PathCheck>, Seq<(ExprId, ExprId)>),
    second: (Seq<TranscriptStep>, Seq<PathCheck>, Seq<(ExprId, ExprId)>),
)
    requires
        circuit_a.wf(),
        proceeds(a, b, circuit_a, circuit_b, first.0, first.1, first.2),
        proceeds(b, c, circuit_b, circuit_c, second.0, second.1, second.2),
    ensures
        proceeds(
            a,
            c,
            circuit_a,
            circuit_c,
            first.0 + second.0,
            first.1 + second.1,
            first.2 + second.2,
        ),
{
    circuit_a.lemma_grows_on(circuit_b, circuit_c);
    assert(a.transcript.steps + (first.0 + second.0) =~= (a.transcript.steps + first.0)
        + second.0);
    assert(a.paths.checks + (first.1 + second.1) =~= (a.paths.checks + first.1) + second.1);
    lemma_beyond_on(a.transcript.asserted, b.transcript.asserted, c.transcript.asserted);
    lemma_beyond_on(a.paths.asserted, b.paths.asserted, c.paths.asserted);
    lemma_beyond_on(a.paths.issued, b.paths.issued, c.paths.issued);
    assert forall|pair: (ExprId, ExprId)| #[trigger]
        circuit_c.connections@.contains(pair) <==> circuit_a.connections@.contains(pair)
            || transcript::beyond(a.transcript.asserted, c.transcript.asserted).contains(pair)
            || transcript::beyond(a.paths.asserted, c.paths.asserted).contains(pair) || (first.2
            + second.2).contains(pair) by {
        lemma_contains_either(
            transcript::beyond(a.transcript.asserted, b.transcript.asserted),
            transcript::beyond(b.transcript.asserted, c.transcript.asserted),
            pair,
        );
        lemma_contains_either(
            transcript::beyond(a.paths.asserted, b.paths.asserted),
            transcript::beyond(b.paths.asserted, c.paths.asserted),
            pair,
        );
        lemma_contains_either(first.2, second.2, pair);
        assert(circuit_b.connections@.contains(pair) <==> circuit_a.connections@.contains(pair)
            || transcript::beyond(a.transcript.asserted, b.transcript.asserted).contains(pair)
            || transcript::beyond(a.paths.asserted, b.paths.asserted).contains(pair)
            || first.2.contains(pair));
    }
}

pub proof fn lemma_beyond_nothing<T>(a: Seq<T>)
    ensures
        transcript::beyond(a, a) == Seq::<T>::empty(),
        forall|x: T| !#[trigger] transcript::beyond(a, a).contains(x),
        forall|x: T| !#[trigger] Seq::<T>::empty().contains(x),
{
    assert(transcript::beyond(a, a) =~= Seq::empty());
}

/// Steps of the transcript alone.
pub proof fn lemma_replay_proceeds<F: Field>(
    a: TranscriptLog,
    b: TranscriptLog,
    paths: PathLog,
    circuit: CircuitBuilder<F>,
    grown: CircuitBuilder<F>,
    steps: Seq<TranscriptStep>,
)
    requires
        transcript::replays(a, b, circuit, grown, steps),
    ensures
        proceeds(
            Session { transcript: a, paths },
            Session { transcript: b, paths },
            circuit,
            grown,
            steps,
            Seq::empty(),
            Seq::empty(),
        ),
{
    lemma_beyond_nothing(paths.asserted);
    lemma_beyond_nothing::<(ExprId, ExprId)>(Seq::empty());
    assert(paths.checks + Seq::<PathCheck>::empty() =~= paths.checks);
    assert forall|pair: (ExprId, ExprId)| #[trigger]
        grown.connections@.contains(pair) <==> circuit.connections@.contains(pair)
            || transcript::beyond(a.asserted, b.asserted).contains(pair) || transcript::beyond(
            paths.asserted,
            paths.asserted,
        ).contains(pair) || Seq::<(ExprId, ExprId)>::empty().contains(pair) by {
        lemma_contains_either(
            circuit.connections@,
            transcript::beyond(a.asserted, b.asserted),
            pair,
        );
    }
}

/// One opening alone.
pub proof fn lemma_check_proceeds<F: Field>(
    transcript: TranscriptLog,
    a: PathLog,
    b: PathLog,
    circuit: CircuitBuilder<F>,
    grown: CircuitBuilder<F>,
    check: PathCheck,
    ops: Seq<NonPrimitiveOpId>,
)
    requires
        path_checks::hands_over(a, b, circuit, grown, check, ops),
    ensures
        proceeds(
            Session { transcript, paths: a },
            Session { transcript, paths: b },
            circuit,
            grown,
            Seq::empty(),
            seq![check],
            Seq::empty(),
        ),
        transcript::beyond(a.issued, b.issued) == ops,
{
    lemma_beyond_nothing(transcript.asserted);
    lemma_beyond_nothing::<(ExprId, ExprId)>(Seq::empty());
    assert(transcript.steps + Seq::<TranscriptStep>::empty() =~= transcript.steps);
    assert(a.checks + seq![check] =~= a.checks.push(check));
    assert(b.issued.take(a.issued.len() as int) =~= a.issued);
    assert(transcript::beyond(a.issued, b.issued) =~= ops);
    assert forall|pair: (ExprId, ExprId)| #[trigger]
        grown.connections@.contains(pair) <==> circuit.connections@.contains(pair)
            || transcript::beyond(transcript.asserted, transcript.asserted).contains(pair)
            || transcript::beyond(a.asserted, b.asserted).contains(pair) || Seq::<
            (ExprId, ExprId),
        >::empty().contains(pair) by {
        lemma_contains_either(
            circuit.connections@,
            transcript::beyond(a.asserted, b.asserted),
            pair,
        );
    }
}

/// Nothing but new expressions, or one connection.
pub proof fn lemma_connect_proceeds<F: Field>(
    session: Session,
    circuit: CircuitBuilder<F>,
    grown: CircuitBuilder<F>,
    own: Seq<(ExprId, ExprId)>,
)
    requires
        circuit.grows_to(grown),
        grown.connections@ == circuit.connections@ + own,
    ensures
        proceeds(session, session, circuit, grown, Seq::empty(), Seq::empty(), own),
{
    lemma_beyond_nothing(session.transcript.asserted);
    lemma_beyond_nothing(session.paths.asserted);
    assert(session.transcript.steps + Seq::<TranscriptStep>::empty()
        =~= session.transcript.steps);
    assert(session.paths.checks + Seq::<PathCheck>::empty() =~= session.paths.checks);
    assert forall|pair: (ExprId, ExprId)| #[trigger]
        grown.connections@.contains(pair) <==> circuit.connections@.contains(pair)
            || transcript::beyond(
            session.transcript.asserted,
            session.transcript.asserted,
        ).contains(pair) || transcript::beyond(
            session.paths.asserted,
            session.paths.asserted,
        ).contains(pair) || own.contains(pair) by {
        lemma_contains_either(circuit.connections@, own, pair);
    }
}

/// New expressions after a session.
pub proof fn lemma_proceeds_computed<F: Field>(
    a: Session,
    b: Session,
    circuit_a: CircuitBuilder<F>,
    circuit_b: CircuitBuilder<F>,
    circuit_c: CircuitBuilder<F>,
    steps: Seq<TranscriptStep>,
    checks: Seq<PathCheck>,
    own: Seq<(ExprId, ExprId)>,
)
    requires
        circuit_a.wf(),
        proceeds(a, b, circuit_a, circuit_b, steps, checks, own),
        circuit_b.computes_into(circuit_c),
    ensures
        proceeds(a, b, circuit_a, circuit_c, steps, checks, own),
{
    circuit_a.lemma_grows_on(circuit_b, circuit_c);
}

} // verus!
