//! What the replayed transcripts absorb and draw, event by event.

use vstd::arithmetic::power2::pow2;
use vstd::prelude::*;

use crate::challenger;
use crate::challenger::{Challenger, PrimeField64};
use crate::extension::ExtensionField;
use crate::field::{Field, TwoAdicField};
use crate::fri_witness::FriProof;
use crate::generation;
use crate::generation::{Claims, FriGenerationParams, FriReplayState, Round};
use crate::stark_generation;
use crate::stark_generation::BatchReplay;
use crate::uni_generation::UniReplay;

verus! {

/// What happens to a transcript: it takes in a base element, or it gives one out.
pub enum Event<F> {
    Absorb(F),
    Draw,
}

/// The state of a transcript after events.
pub open spec fn after<F: PrimeField64, C: Challenger<F>>(
    s: C::State,
    events: Seq<Event<F>>,
) -> C::State
    decreases events.len(),
{
    if events.len() == 0 {
        s
    } else {
        let before = after::<F, C>(s, events.drop_last());
        match events.last() {
            Event::Absorb(v) => C::absorbed(before, v),
            Event::Draw => C::squeezed(before).1,
        }
    }
}

/// The element that the transcript gives out after events.
pub open spec fn next_draw<F: PrimeField64, C: Challenger<F>>(
    s: C::State,
    events: Seq<Event<F>>,
) -> F {
    C::squeezed(after::<F, C>(s, events)).0
}

/// The elements are taken in, one after the other.
pub open spec fn absorbs<F>(elements: Seq<F>) -> Seq<Event<F>> {
    Seq::new(elements.len(), |i: int| Event::Absorb(elements[i]))
}

/// So many elements are given out.
pub open spec fn draws<F>(n: nat) -> Seq<Event<F>> {
    Seq::new(n, |i: int| Event::Draw)
}

/// The coefficients of the extension element are what the transcript gives out after events.
pub open spec fn is_drawn<F: PrimeField64, EF: ExtensionField<F>, C: Challenger<F>>(
    s: C::State,
    events: Seq<Event<F>>,
    x: EF,
) -> bool {
    &&& x.sp_coefficients().len() == EF::sp_dimension()
    &&& forall|i: int|
        #![trigger x.sp_coefficients()[i]]
        0 <= i < EF::sp_dimension() ==> x.sp_coefficients()[i] == next_draw::<F, C>(
            s,
            events + draws(i as nat),
        )
}

/// The lists `f(0)`, ..., `f(n - 1)`, one after the other.
pub open spec fn joined<T>(n: nat, f: spec_fn(int) -> Seq<T>) -> Seq<T>
    decreases n,
{
    if n == 0 {
        Seq::empty()
    } else {
        joined((n - 1) as nat, f) + f(n - 1)
    }
}

/// The list where there is one.
pub open spec fn if_any<F>(list: Option<Vec<F>>) -> Seq<F> {
    match list {
        Some(list) => list@,
        None => Seq::empty(),
    }
}

/// The coefficients of extension elements, one element after the other.
pub open spec fn flattened<F: Field, EF: ExtensionField<F>>(xs: Seq<EF>) -> Seq<F> {
    joined(xs.len(), |i: int| xs[i].sp_coefficients())
}

/// The coefficients of a number.
pub open spec fn number<F: Field, EF: ExtensionField<F>>(n: nat) -> Seq<F> {
    EF::sp_from_base(F::sp_from(n)).sp_coefficients()
}

pub proof fn lemma_after_joined<F: PrimeField64, C: Challenger<F>>(
    s: C::State,
    a: Seq<Event<F>>,
    b: Seq<Event<F>>,
)
    ensures
        after::<F, C>(s, a + b) == after::<F, C>(after::<F, C>(s, a), b),
    decreases b.len(),
{
    if b.len() == 0 {
        assert(a + b =~= a);
    } else {
        assert((a + b).drop_last() =~= a + b.drop_last());
        assert((a + b).last() == b.last());
        lemma_after_joined::<F, C>(s, a, b.drop_last());
    }
}

proof fn lemma_absorbs_join<F>(a: Seq<F>, b: Seq<F>)
    ensures
        absorbs(a + b) == absorbs(a) + absorbs(b),
{
    assert(absorbs(a + b) =~= absorbs(a) + absorbs(b));
}

proof fn lemma_absorbed_all<F: PrimeField64, C: Challenger<F>>(
    s: C::State,
    elements: Seq<F>,
    n: nat,
)
    requires
        n <= elements.len(),
    ensures
        challenger::absorbed_all::<F, C>(s, elements, n) == after::<F, C>(
            s,
            absorbs(elements.take(n as int)),
        ),
    decreases n,
{
    let events = absorbs(elements.take(n as int));
    if n > 0 {
        lemma_absorbed_all::<F, C>(s, elements, (n - 1) as nat);
        assert(events.drop_last() =~= absorbs(elements.take(n - 1)));
        assert(events.last() == Event::Absorb(elements[n - 1]));
    }
}

proof fn lemma_absorbed_slice<F: PrimeField64, C: Challenger<F>>(
    s: C::State,
    events: Seq<Event<F>>,
    elements: Seq<F>,
)
    ensures
        challenger::absorbed_slice::<F, C>(after::<F, C>(s, events), elements) == after::<F, C>(
            s,
            events + absorbs(elements),
        ),
{
    lemma_absorbed_all::<F, C>(after::<F, C>(s, events), elements, elements.len());
    assert(elements.take(elements.len() as int) =~= elements);
    lemma_after_joined::<F, C>(s, events, absorbs(elements));
}

proof fn lemma_absorbed_elements<F: PrimeField64, EF: ExtensionField<F>, C: Challenger<F>>(
    s: C::State,
    events: Seq<Event<F>>,
    xs: Seq<EF>,
    n: nat,
)
    requires
        n <= xs.len(),
    ensures
        challenger::absorbed_elements::<F, EF, C>(after::<F, C>(s, events), xs, n) == after::<F, C>(
            s,
            events + absorbs(joined(n, |i: int| xs[i].sp_coefficients())),
        ),
    decreases n,
{
    let f = |i: int| xs[i].sp_coefficients();
    if n == 0 {
        assert(events + absorbs(joined(n, f)) =~= events);
    } else {
        lemma_absorbed_elements::<F, EF, C>(s, events, xs, (n - 1) as nat);
        let before = events + absorbs(joined((n - 1) as nat, f));
        lemma_absorbed_slice::<F, C>(s, before, xs[n - 1].sp_coefficients());
        assert(before + absorbs(xs[n - 1].sp_coefficients()) =~= events + absorbs(joined(n, f)));
    }
}

proof fn lemma_squeezed_many<F: PrimeField64, C: Challenger<F>>(s: C::State, n: nat)
    ensures
        challenger::squeezed_many::<F, C>(s, n).1 == after::<F, C>(s, draws(n)),
        challenger::squeezed_many::<F, C>(s, n).0.len() == n,
        forall|i: int|
            0 <= i < n ==> #[trigger] challenger::squeezed_many::<F, C>(s, n).0[i] == next_draw::<
                F,
                C,
            >(s, draws(i as nat)),
    decreases n,
{
    if n > 0 {
        lemma_squeezed_many::<F, C>(s, (n - 1) as nat);
        assert(draws::<F>(n).drop_last() =~= draws((n - 1) as nat));
        assert(draws::<F>(n).last() == Event::<F>::Draw);
    }
}

/// An extension element is drawn coefficient by coefficient, the lowest first.
pub proof fn law_element_is_drawn_by_coefficients<
    F: PrimeField64,
    EF: ExtensionField<F>,
    C: Challenger<F>,
>(s: C::State, events: Seq<Event<F>>)
    ensures
        ({
            let drawn = challenger::squeezed_element::<F, EF, C>(after::<F, C>(s, events));
            &&& drawn.1 == after::<F, C>(s, events + draws(EF::sp_dimension()))
            &&& forall|x: EF| #[trigger] is_drawn::<F, EF, C>(s, events, x) ==> x == drawn.0
        }),
{
    let t = after::<F, C>(s, events);
    let n = EF::sp_dimension();
    lemma_squeezed_many::<F, C>(t, n);
    lemma_after_joined::<F, C>(s, events, draws(n));
    let coefficients = challenger::squeezed_many::<F, C>(t, n).0;
    assert forall|x: EF| #[trigger] is_drawn::<F, EF, C>(s, events, x) implies x
        == challenger::squeezed_element::<F, EF, C>(t).0 by {
        assert forall|i: int| 0 <= i < n implies x.sp_coefficients()[i] == coefficients[i] by {
            lemma_after_joined::<F, C>(s, events, draws(i as nat));
        }
        assert(x.sp_coefficients() =~= coefficients);
        EF::coefficients_determine(x, challenger::element_of::<F, EF>(coefficients));
    }
}

/// A proof-of-work witness is taken in before the bits are drawn, and it is right exactly if those
/// bits are zero. Without bits nothing happens.
pub proof fn law_work_is_checked<F: PrimeField64, C: Challenger<F>>(
    s: C::State,
    events: Seq<Event<F>>,
    bits: nat,
    witness: F,
)
    ensures
        ({
            let (ok, state) = challenger::witness_checked::<F, C>(
                after::<F, C>(s, events),
                bits,
                witness,
            );
            let taken = events.push(Event::Absorb(witness));
            &&& bits == 0 ==> ok && state == after::<F, C>(s, events)
            &&& bits > 0 ==> {
                &&& ok <==> next_draw::<F, C>(s, taken).sp_canonical() % pow2(bits) == 0
                &&& state == after::<F, C>(s, taken.push(Event::Draw))
            }
        }),
{
    let taken = events.push(Event::Absorb(witness));
    assert(taken.drop_last() =~= events);
    assert(after::<F, C>(s, taken) == C::absorbed(after::<F, C>(s, events), witness));
    assert(taken.push(Event::Draw).drop_last() =~= taken);
}

// Batch proofs.

/// What a batch transcript takes in before its permutation challenges: the number of instances; of
/// each its two degrees, its width and its number of quotient chunks; the trace commitment; all
/// public values; of each instance its preprocessed width; the preprocessed commitment.
pub open spec fn batch_opening<F: PrimeField64 + TwoAdicField, EF: ExtensionField<F>, O>(
    r: BatchReplay<F, EF, O>,
) -> Seq<F> {
    let n = r.airs.len();
    let zk: nat = if r.zk {
        1
    } else {
        0
    };
    number::<F, EF>(n) + joined(
        n,
        |i: int|
            number::<F, EF>(r.stark.degree_bits@[i] as nat) + number::<F, EF>(
                (r.stark.degree_bits@[i] as nat - zk) as nat,
            ) + number::<F, EF>(r.airs[i].width as nat) + number::<F, EF>(
                pow2(r.airs[i].log_quotient_chunks as nat + zk),
            ),
    ) + r.stark.commitments.main@ + joined(n, |i: int| r.public_values[i]) + joined(
        n,
        |i: int|
            number::<F, EF>(
                match r.preprocessed {
                    Some(global) => match global.instances@[i] {
                        Some(meta) => meta.width as nat,
                        None => 0,
                    },
                    None => 0,
                },
            ),
    ) + match r.preprocessed {
        Some(global) => global.commitment@,
        None => Seq::empty(),
    }
}

/// What it takes in between the permutation challenges and the constraint challenge: the
/// permutation commitment and all lookup terminals.
pub open spec fn batch_permuted<F: PrimeField64 + TwoAdicField, EF: ExtensionField<F>, O>(
    r: BatchReplay<F, EF, O>,
) -> Seq<F> {
    match r.stark.commitments.permutation {
        Some(commitment) => commitment@ + joined(
            r.stark.lookup_terminals@.len(),
            |i: int|
                match r.stark.lookup_terminals@[i] {
                    Some(terminal) => terminal.sp_coefficients(),
                    None => Seq::empty(),
                },
        ),
        None => Seq::empty(),
    }
}

/// The challenges of a batch proof are drawn after everything that the proof says before them has
/// been taken in, in a fixed order.
pub proof fn law_batch_transcript<
    F: PrimeField64 + TwoAdicField,
    EF: ExtensionField<F>,
    C: Challenger<F>,
    O,
>(r: BatchReplay<F, EF, O>, s: C::State)
    ensures
        ({
            let drawn = r.draws::<C>(s);
            let element = draws::<F>(EF::sp_dimension());
            let looks_up = r.lookups.contains(true);
            let first = absorbs(batch_opening(r));
            let second = first + (if looks_up {
                element + element
            } else {
                Seq::empty()
            }) + absorbs(batch_permuted(r));
            let third = second + element + absorbs(
                r.stark.commitments.quotient_chunks@ + if_any(r.stark.commitments.random),
            );
            &&& drawn.permutation.len() == if looks_up {
                2nat
            } else {
                0
            }
            &&& looks_up ==> forall|x: EF| #[trigger]
                is_drawn::<F, EF, C>(s, first, x) ==> x == drawn.permutation[0]
            &&& looks_up ==> forall|x: EF| #[trigger]
                is_drawn::<F, EF, C>(s, first + element, x) ==> x == drawn.permutation[1]
            &&& forall|x: EF| #[trigger] is_drawn::<F, EF, C>(s, second, x) ==> x == drawn.alpha
            &&& forall|x: EF| #[trigger] is_drawn::<F, EF, C>(s, third, x) ==> x == drawn.zeta
            &&& drawn.state == after::<F, C>(s, third + element)
        }),
{
    let element = draws::<F>(EF::sp_dimension());
    let e0: Seq<Event<F>> = Seq::empty();
    let first = absorbs(batch_opening(r));
    lemma_batch_opening::<F, EF, C, O>(r, s);
    law_element_is_drawn_by_coefficients::<F, EF, C>(s, first);
    law_element_is_drawn_by_coefficients::<F, EF, C>(s, first + element);
    let looks_up = r.lookups.contains(true);
    let pair = if looks_up {
        element + element
    } else {
        e0
    };
    assert(first + element + element =~= first + (element + element));
    assert(first + e0 =~= first);
    let drawn = first + pair;
    let second = drawn + absorbs(batch_permuted(r));
    lemma_batch_permuted::<F, EF, C, O>(r, s, drawn);
    law_element_is_drawn_by_coefficients::<F, EF, C>(s, second);
    let quotient = r.stark.commitments.quotient_chunks@;
    let random = if_any(r.stark.commitments.random);
    let third = second + element + absorbs(quotient + random);
    lemma_committed::<F, C>(s, second + element, quotient, r.stark.commitments.random);
    law_element_is_drawn_by_coefficients::<F, EF, C>(s, third);
}

proof fn lemma_committed<F: PrimeField64, C: Challenger<F>>(
    s: C::State,
    events: Seq<Event<F>>,
    quotient: Seq<F>,
    random: Option<Vec<F>>,
)
    ensures
        ({
            let t = challenger::absorbed_slice::<F, C>(after::<F, C>(s, events), quotient);
            match random {
                Some(commitment) => challenger::absorbed_slice::<F, C>(t, commitment@),
                None => t,
            }
        }) == after::<F, C>(s, events + absorbs(quotient + if_any(random))),
{
    let list = if_any(random);
    lemma_absorbed_slice::<F, C>(s, events, quotient);
    lemma_absorbed_slice::<F, C>(s, events + absorbs(quotient), list);
    assert(events + absorbs(quotient + list) =~= events + absorbs(quotient) + absorbs(list));
    if random is None {
        assert(events + absorbs(quotient + list) =~= events + absorbs(quotient));
    }
}

proof fn lemma_batch_opening<
    F: PrimeField64 + TwoAdicField,
    EF: ExtensionField<F>,
    C: Challenger<F>,
    O,
>(r: BatchReplay<F, EF, O>, s: C::State)
    ensures
        ({
            let s = stark_generation::absorbed_number::<F, EF, C>(s, r.count());
            let s = r.bound::<C>(s, r.count());
            let s = challenger::absorbed_slice::<F, C>(s, r.stark.commitments.main@);
            let s = r.publicised::<C>(s, r.count());
            let s = r.widths_absorbed::<C>(s, r.count());
            match r.preprocessed {
                Some(global) => challenger::absorbed_slice::<F, C>(s, global.commitment@),
                None => s,
            }
        }) == after::<F, C>(s, absorbs(batch_opening(r))),
{
    let n = r.airs.len();
    let zk: nat = if r.zk {
        1
    } else {
        0
    };
    let shapes = |i: int|
        number::<F, EF>(r.stark.degree_bits@[i] as nat) + number::<F, EF>(
            (r.stark.degree_bits@[i] as nat - zk) as nat,
        ) + number::<F, EF>(r.airs[i].width as nat) + number::<F, EF>(
            pow2(r.airs[i].log_quotient_chunks as nat + zk),
        );
    let publics = |i: int| r.public_values[i];
    let widths = |i: int|
        number::<F, EF>(
            match r.preprocessed {
                Some(global) => match global.instances@[i] {
                    Some(meta) => meta.width as nat,
                    None => 0,
                },
                None => 0,
            },
        );
    let e0: Seq<Event<F>> = Seq::empty();
    let a0 = number::<F, EF>(n);
    lemma_absorbed_slice::<F, C>(s, e0, a0);
    assert(e0 + absorbs(a0) =~= absorbs(a0));
    lemma_bound::<F, EF, C, O>(r, s, absorbs(a0), shapes, n);
    let a1 = a0 + joined(n, shapes);
    assert(absorbs(a0) + absorbs(joined(n, shapes)) =~= absorbs(a1));
    let a2 = a1 + r.stark.commitments.main@;
    lemma_absorbed_slice::<F, C>(s, absorbs(a1), r.stark.commitments.main@);
    lemma_absorbs_join(a1, r.stark.commitments.main@);
    lemma_publicised::<F, EF, C, O>(r, s, absorbs(a2), publics, n);
    let a3 = a2 + joined(n, publics);
    lemma_absorbs_join(a2, joined(n, publics));
    lemma_widths::<F, EF, C, O>(r, s, absorbs(a3), widths, n);
    let a4 = a3 + joined(n, widths);
    lemma_absorbs_join(a3, joined(n, widths));
    let commitment = match r.preprocessed {
        Some(global) => global.commitment@,
        None => Seq::empty(),
    };
    lemma_absorbed_slice::<F, C>(s, absorbs(a4), commitment);
    lemma_absorbs_join(a4, commitment);
    assert(absorbs(a4) + absorbs(Seq::<F>::empty()) =~= absorbs(a4));
    assert(batch_opening(r) =~= a4 + commitment);
}

proof fn lemma_batch_permuted<
    F: PrimeField64 + TwoAdicField,
    EF: ExtensionField<F>,
    C: Challenger<F>,
    O,
>(r: BatchReplay<F, EF, O>, s: C::State, drawn: Seq<Event<F>>)
    ensures
        (match r.stark.commitments.permutation {
            Some(commitment) => r.terminals_absorbed::<C>(
                challenger::absorbed_slice::<F, C>(after::<F, C>(s, drawn), commitment@),
                r.stark.lookup_terminals@.len(),
            ),
            None => after::<F, C>(s, drawn),
        }) == after::<F, C>(s, drawn + absorbs(batch_permuted(r))),
{
    let second = drawn + absorbs(batch_permuted(r));
    match r.stark.commitments.permutation {
        Some(commitment) => {
            let terminals = |i: int|
                match r.stark.lookup_terminals@[i] {
                    Some(terminal) => terminal.sp_coefficients(),
                    None => Seq::<F>::empty(),
                };
            let count = r.stark.lookup_terminals@.len();
            lemma_absorbed_slice::<F, C>(s, drawn, commitment@);
            lemma_terminals::<F, EF, C, O>(
                r,
                s,
                drawn + absorbs(commitment@),
                terminals,
                count,
            );
            lemma_absorbs_join(commitment@, joined(count, terminals));
            assert(second =~= drawn + absorbs(commitment@) + absorbs(joined(count, terminals)));
        },
        None => {
            assert(second =~= drawn);
        },
    }
}

proof fn lemma_bound<
    F: PrimeField64 + TwoAdicField,
    EF: ExtensionField<F>,
    C: Challenger<F>,
    O,
>(
    r: BatchReplay<F, EF, O>,
    s: C::State,
    events: Seq<Event<F>>,
    f: spec_fn(int) -> Seq<F>,
    n: nat,
)
    requires
        forall|i: int|
            0 <= i < n ==> #[trigger] f(i) == number::<F, EF>(r.stark.degree_bits@[i] as nat)
                + number::<F, EF>(
                (r.stark.degree_bits@[i] as nat - (if r.zk {
                    1nat
                } else {
                    0
                })) as nat,
            ) + number::<F, EF>(r.airs[i].width as nat) + number::<F, EF>(
                pow2(
                    r.airs[i].log_quotient_chunks as nat + (if r.zk {
                        1nat
                    } else {
                        0
                    }),
                ),
            ),
    ensures
        r.bound::<C>(after::<F, C>(s, events), n) == after::<F, C>(
            s,
            events + absorbs(joined(n, f)),
        ),
    decreases n,
{
    if n == 0 {
        assert(events + absorbs(joined(n, f)) =~= events);
    } else {
        lemma_bound::<F, EF, C, O>(r, s, events, f, (n - 1) as nat);
        let i = n - 1;
        let e = events + absorbs(joined((n - 1) as nat, f));
        let a = number::<F, EF>(r.degree(i));
        let b = number::<F, EF>(r.base_degree(i));
        let c = number::<F, EF>(r.airs[i].width as nat);
        let d = number::<F, EF>(pow2(r.log_chunks(i)));
        lemma_absorbed_slice::<F, C>(s, e, a);
        lemma_absorbed_slice::<F, C>(s, e + absorbs(a), b);
        lemma_absorbed_slice::<F, C>(s, e + absorbs(a) + absorbs(b), c);
        lemma_absorbed_slice::<F, C>(s, e + absorbs(a) + absorbs(b) + absorbs(c), d);
        assert(f(i) == a + b + c + d);
        assert(e + absorbs(a) + absorbs(b) + absorbs(c) + absorbs(d) =~= events + absorbs(
            joined(n, f),
        ));
    }
}

proof fn lemma_publicised<
    F: PrimeField64 + TwoAdicField,
    EF: ExtensionField<F>,
    C: Challenger<F>,
    O,
>(
    r: BatchReplay<F, EF, O>,
    s: C::State,
    events: Seq<Event<F>>,
    f: spec_fn(int) -> Seq<F>,
    n: nat,
)
    requires
        forall|i: int| 0 <= i < n ==> #[trigger] f(i) == r.public_values[i],
    ensures
        r.publicised::<C>(after::<F, C>(s, events), n) == after::<F, C>(
            s,
            events + absorbs(joined(n, f)),
        ),
    decreases n,
{
    if n == 0 {
        assert(events + absorbs(joined(n, f)) =~= events);
    } else {
        lemma_publicised::<F, EF, C, O>(r, s, events, f, (n - 1) as nat);
        let e = events + absorbs(joined((n - 1) as nat, f));
        lemma_absorbed_slice::<F, C>(s, e, f(n - 1));
        assert(e + absorbs(f(n - 1)) =~= events + absorbs(joined(n, f)));
    }
}

proof fn lemma_widths<
    F: PrimeField64 + TwoAdicField,
    EF: ExtensionField<F>,
    C: Challenger<F>,
    O,
>(
    r: BatchReplay<F, EF, O>,
    s: C::State,
    events: Seq<Event<F>>,
    f: spec_fn(int) -> Seq<F>,
    n: nat,
)
    requires
        forall|i: int|
            0 <= i < n ==> #[trigger] f(i) == number::<F, EF>(
                match r.preprocessed {
                    Some(global) => match global.instances@[i] {
                        Some(meta) => meta.width as nat,
                        None => 0,
                    },
                    None => 0,
                },
            ),
    ensures
        r.widths_absorbed::<C>(after::<F, C>(s, events), n) == after::<F, C>(
            s,
            events + absorbs(joined(n, f)),
        ),
    decreases n,
{
    if n == 0 {
        assert(events + absorbs(joined(n, f)) =~= events);
    } else {
        lemma_widths::<F, EF, C, O>(r, s, events, f, (n - 1) as nat);
        let e = events + absorbs(joined((n - 1) as nat, f));
        lemma_absorbed_slice::<F, C>(s, e, f(n - 1));
        assert(e + absorbs(f(n - 1)) =~= events + absorbs(joined(n, f)));
    }
}

proof fn lemma_terminals<
    F: PrimeField64 + TwoAdicField,
    EF: ExtensionField<F>,
    C: Challenger<F>,
    O,
>(
    r: BatchReplay<F, EF, O>,
    s: C::State,
    events: Seq<Event<F>>,
    f: spec_fn(int) -> Seq<F>,
    n: nat,
)
    requires
        forall|i: int|
            0 <= i < n ==> #[trigger] f(i) == match r.stark.lookup_terminals@[i] {
                Some(terminal) => terminal.sp_coefficients(),
                None => Seq::<F>::empty(),
            },
    ensures
        r.terminals_absorbed::<C>(after::<F, C>(s, events), n) == after::<F, C>(
            s,
            events + absorbs(joined(n, f)),
        ),
    decreases n,
{
    if n == 0 {
        assert(events + absorbs(joined(n, f)) =~= events);
    } else {
        lemma_terminals::<F, EF, C, O>(r, s, events, f, (n - 1) as nat);
        let e = events + absorbs(joined((n - 1) as nat, f));
        lemma_absorbed_slice::<F, C>(s, e, f(n - 1));
        assert(e + absorbs(f(n - 1)) =~= events + absorbs(joined(n, f)));
        if r.stark.lookup_terminals@[n - 1] is None {
            assert(e =~= events + absorbs(joined(n, f)));
        }
    }
}

// Single proofs.

/// What the transcript of a single proof takes in before its constraint challenge: the degree bits
/// with and without the hiding bit, the preprocessed width, the trace commitment, the preprocessed
/// commitment where there is a key, and the public values.
pub open spec fn uni_opening<F: PrimeField64 + TwoAdicField, EF: ExtensionField<F>, O>(
    r: UniReplay<F, EF, O>,
) -> Seq<F> {
    let degree = r.stark.degree_bits as nat;
    seq![
        F::sp_from(degree),
        F::sp_from(
            (degree - (if r.zk {
                1nat
            } else {
                0
            })) as nat,
        ),
        F::sp_from(
            match r.key {
                Some(key) => key.width as nat,
                None => r.air.preprocessed_width as nat,
            },
        ),
    ] + r.stark.commitments.trace@ + (match r.key {
        Some(key) => key.commitment@,
        None => Seq::empty(),
    }) + r.public_values
}

/// The out-of-domain point of a single proof is drawn after everything that the proof says before it
/// has been taken in, in a fixed order, and after the constraint challenge.
pub proof fn law_uni_transcript<
    F: PrimeField64 + TwoAdicField,
    EF: ExtensionField<F>,
    C: Challenger<F>,
    O,
>(r: UniReplay<F, EF, O>, s: C::State)
    ensures
        ({
            let (zeta, state) = r.draw::<C>(s);
            let element = draws::<F>(EF::sp_dimension());
            let events = absorbs(uni_opening(r)) + element + absorbs(
                r.stark.commitments.quotient_chunks@ + if_any(r.stark.commitments.random),
            );
            &&& forall|x: EF| #[trigger] is_drawn::<F, EF, C>(s, events, x) ==> x == zeta
            &&& state == after::<F, C>(s, events + element)
        }),
{
    let element = draws::<F>(EF::sp_dimension());
    let opening = uni_opening(r);
    let numbers = opening.take(3);
    let commitment = match r.key {
        Some(key) => key.commitment@,
        None => Seq::empty(),
    };
    let trace = r.stark.commitments.trace@;
    let e0: Seq<Event<F>> = Seq::empty();
    let e3 = absorbs(numbers);
    assert(numbers.len() == 3);
    let s3 = C::absorbed(
        C::absorbed(C::absorbed(s, numbers[0]), numbers[1]),
        numbers[2],
    );
    assert(after::<F, C>(s, e3) == s3) by {
        reveal_with_fuel(after, 4);
        assert(e3.drop_last().drop_last().drop_last() =~= e0);
    }
    lemma_absorbed_slice::<F, C>(s, e3, trace);
    let e4 = e3 + absorbs(trace);
    lemma_absorbed_slice::<F, C>(s, e4, commitment);
    let e5 = e4 + absorbs(commitment);
    if r.key is None {
        assert(e5 =~= e4);
    }
    lemma_absorbed_slice::<F, C>(s, e5, r.public_values);
    let e6 = e5 + absorbs(r.public_values);
    assert(e6 =~= absorbs(opening));
    law_element_is_drawn_by_coefficients::<F, EF, C>(s, e6);
    let quotient = r.stark.commitments.quotient_chunks@;
    let random = if_any(r.stark.commitments.random);
    lemma_absorbed_slice::<F, C>(s, e6 + element, quotient);
    lemma_absorbed_slice::<F, C>(s, e6 + element + absorbs(quotient), random);
    let e7 = e6 + element + absorbs(quotient) + absorbs(random);
    assert(e7 =~= absorbs(opening) + element + absorbs(quotient + random));
    if r.stark.commitments.random is None {
        assert(e7 =~= e6 + element + absorbs(quotient));
    }
    law_element_is_drawn_by_coefficients::<F, EF, C>(s, e7);
}

/// Keys with different commitments of the same length make transcripts take in different elements.
pub proof fn law_uni_transcript_binds_key<
    F: PrimeField64 + TwoAdicField,
    EF: ExtensionField<F>,
    O,
>(a: UniReplay<F, EF, O>, b: UniReplay<F, EF, O>)
    requires
        a.key is Some,
        b.key is Some,
        a.key->0.commitment@ != b.key->0.commitment@,
        a.key->0.commitment@.len() == b.key->0.commitment@.len(),
        a.stark.commitments.trace@.len() == b.stark.commitments.trace@.len(),
    ensures
        uni_opening(a) != uni_opening(b),
{
    let from = 3 + a.stark.commitments.trace@.len() as int;
    let len = a.key->0.commitment@.len() as int;
    if uni_opening(a) == uni_opening(b) {
        assert(uni_opening(a).subrange(from, from + len) =~= a.key->0.commitment@);
        assert(uni_opening(b).subrange(from, from + len) =~= b.key->0.commitment@);
    }
}

// FRI proofs.

/// All values opened, in the order of the rounds, matrices and points.
pub open spec fn all_openings<F: Field, EF: ExtensionField<F>>(
    rounds: Seq<Round<F, EF>>,
) -> Seq<F> {
    joined(
        rounds.len(),
        |r: int|
            joined(
                rounds[r].matrices.len(),
                |m: int|
                    joined(
                        rounds[r].matrices[m].points.len(),
                        |p: int| flattened::<F, EF>(rounds[r].matrices[m].points[p].1),
                    ),
            ),
    )
}

/// A proof of work: the witness is taken in and one element given out. None for zero bits.
pub open spec fn grinding<F>(bits: nat, witness: F) -> Seq<Event<F>> {
    if bits == 0 {
        Seq::empty()
    } else {
        seq![Event::Absorb(witness), Event::Draw]
    }
}

/// The events of the first `n` commit phases: the commitment, the proof of work, the folding
/// challenge.
pub open spec fn phase_events<F: Field, EF: ExtensionField<F>, P>(
    fri: FriProof<F, EF, Vec<F>, P>,
    bits: nat,
    n: nat,
) -> Seq<Event<F>> {
    joined(
        n,
        |k: int|
            absorbs(fri.commit_phase_commits@[k]@) + grinding(bits, fri.commit_pow_witnesses@[k])
                + draws(EF::sp_dimension()),
    )
}

/// The events of a FRI proof up to its queries.
pub open spec fn fri_events<F: Field, EF: ExtensionField<F>, P>(
    rounds: Seq<Round<F, EF>>,
    fri: FriProof<F, EF, Vec<F>, P>,
    params: FriGenerationParams,
) -> Seq<Event<F>> {
    absorbs(all_openings(rounds)) + draws(EF::sp_dimension()) + phase_events::<F, EF, P>(
        fri,
        params.commit_pow_bits as nat,
        fri.commit_phase_commits@.len(),
    ) + absorbs(
        flattened::<F, EF>(fri.final_poly@) + Seq::new(
            fri.commit_phase_openings@.len(),
            |k: int| F::sp_from(fri.commit_phase_openings@[k].log_arity as nat),
        ),
    ) + grinding(params.query_pow_bits as nat, fri.query_pow_witness)
}

proof fn lemma_points<F: PrimeField64, EF: ExtensionField<F>, C: Challenger<F>>(
    s: C::State,
    events: Seq<Event<F>>,
    points: Seq<(EF, Seq<EF>)>,
    f: spec_fn(int) -> Seq<F>,
    n: nat,
)
    requires
        n <= points.len(),
        forall|p: int| 0 <= p < n ==> #[trigger] f(p) == flattened::<F, EF>(points[p].1),
    ensures
        generation::absorbed_points::<F, EF, C>(after::<F, C>(s, events), points, n) == after::<
            F,
            C,
        >(s, events + absorbs(joined(n, f))),
    decreases n,
{
    if n == 0 {
        assert(events + absorbs(joined(n, f)) =~= events);
    } else {
        lemma_points::<F, EF, C>(s, events, points, f, (n - 1) as nat);
        let e = events + absorbs(joined((n - 1) as nat, f));
        let xs = points[n - 1].1;
        lemma_absorbed_elements::<F, EF, C>(s, e, xs, xs.len());
        assert(e + absorbs(f(n - 1)) =~= events + absorbs(joined(n, f)));
    }
}

proof fn lemma_matrices<F: PrimeField64, EF: ExtensionField<F>, C: Challenger<F>>(
    s: C::State,
    events: Seq<Event<F>>,
    matrices: Seq<Claims<F, EF>>,
    f: spec_fn(int) -> Seq<F>,
    n: nat,
)
    requires
        n <= matrices.len(),
        forall|m: int|
            0 <= m < n ==> #[trigger] f(m) == joined(
                matrices[m].points.len(),
                |p: int| flattened::<F, EF>(matrices[m].points[p].1),
            ),
    ensures
        generation::absorbed_matrices::<F, EF, C>(after::<F, C>(s, events), matrices, n) == after::<
            F,
            C,
        >(s, events + absorbs(joined(n, f))),
    decreases n,
{
    if n == 0 {
        assert(events + absorbs(joined(n, f)) =~= events);
    } else {
        lemma_matrices::<F, EF, C>(s, events, matrices, f, (n - 1) as nat);
        let e = events + absorbs(joined((n - 1) as nat, f));
        let m = n - 1;
        let points = matrices[m].points;
        lemma_points::<F, EF, C>(
            s,
            e,
            points,
            |p: int| flattened::<F, EF>(matrices[m].points[p].1),
            points.len(),
        );
        assert(e + absorbs(f(m)) =~= events + absorbs(joined(n, f)));
    }
}

proof fn lemma_rounds<F: PrimeField64, EF: ExtensionField<F>, C: Challenger<F>>(
    s: C::State,
    rounds: Seq<Round<F, EF>>,
    f: spec_fn(int) -> Seq<F>,
    n: nat,
)
    requires
        n <= rounds.len(),
        forall|r: int|
            0 <= r < n ==> #[trigger] f(r) == joined(
                rounds[r].matrices.len(),
                |m: int|
                    joined(
                        rounds[r].matrices[m].points.len(),
                        |p: int| flattened::<F, EF>(rounds[r].matrices[m].points[p].1),
                    ),
            ),
    ensures
        generation::absorbed_rounds::<F, EF, C>(s, rounds, n) == after::<F, C>(
            s,
            absorbs(joined(n, f)),
        ),
    decreases n,
{
    if n > 0 {
        lemma_rounds::<F, EF, C>(s, rounds, f, (n - 1) as nat);
        let e = absorbs(joined((n - 1) as nat, f));
        let r = n - 1;
        lemma_matrices::<F, EF, C>(
            s,
            e,
            rounds[r].matrices,
            |m: int|
                joined(
                    rounds[r].matrices[m].points.len(),
                    |p: int| flattened::<F, EF>(rounds[r].matrices[m].points[p].1),
                ),
            rounds[r].matrices.len(),
        );
        assert(e + absorbs(f(r)) =~= absorbs(joined(n, f)));
    }
}

proof fn lemma_grinding<F: PrimeField64, C: Challenger<F>>(
    s: C::State,
    events: Seq<Event<F>>,
    bits: nat,
    witness: F,
)
    ensures
        ({
            let (ok, v, next) = generation::pow_replayed::<F, C>(
                after::<F, C>(s, events),
                bits,
                witness,
            );
            let found = next_draw::<F, C>(s, events.push(Event::Absorb(witness)));
            &&& next == after::<F, C>(s, events + grinding(bits, witness))
            &&& bits == 0 ==> ok && v is None
            &&& bits > 0 ==> v == Some(found) && (ok <==> found.sp_canonical() % pow2(bits) == 0)
        }),
{
    let taken = events.push(Event::Absorb(witness));
    assert(taken.drop_last() =~= events);
    assert(after::<F, C>(s, taken) == C::absorbed(after::<F, C>(s, events), witness));
    if bits == 0 {
        assert(events + grinding(bits, witness) =~= events);
    } else {
        let all = events + grinding(bits, witness);
        assert(all.drop_last() =~= taken);
        assert(all.last() == Event::<F>::Draw);
        assert(after::<F, C>(s, all) == C::squeezed(after::<F, C>(s, taken)).1);
    }
}

/// What comes before the folding challenge of commit phase `k`.
pub open spec fn before_phase<F: Field, EF: ExtensionField<F>, P>(
    rounds: Seq<Round<F, EF>>,
    fri: FriProof<F, EF, Vec<F>, P>,
    bits: nat,
    k: nat,
) -> Seq<Event<F>> {
    absorbs(all_openings(rounds)) + draws(EF::sp_dimension()) + phase_events::<F, EF, P>(
        fri,
        bits,
        k,
    ) + absorbs(fri.commit_phase_commits@[k as int]@)
}

/// The public value of a proof-of-work element.
pub open spec fn ground_value<F: PrimeField64, EF: Field>(v: F) -> EF {
    EF::sp_from((v.sp_canonical() as u64 as usize) as nat)
}

/// The first `n` phases have been replayed.
spec fn phases_done<F: PrimeField64, EF: ExtensionField<F>, C: Challenger<F>, P>(
    s: C::State,
    rounds: Seq<Round<F, EF>>,
    fri: FriProof<F, EF, Vec<F>, P>,
    bits: nat,
    alpha: EF,
    n: nat,
    at: FriReplayState<EF, C::State>,
) -> bool {
    let start = absorbs(all_openings(rounds)) + draws(EF::sp_dimension());
    let per: nat = if bits > 0 {
        2
    } else {
        1
    };
    &&& at.state == after::<F, C>(s, start + phase_events::<F, EF, P>(fri, bits, n))
    &&& at.betas.len() == n
    &&& at.query_indices.len() == 0
    &&& at.public_values.len() == 1 + n * per
    &&& at.public_values[0] == alpha
    &&& forall|k: int| 0 <= k < n ==> #[trigger] phase_done::<F, EF, C, P>(
        s,
        rounds,
        fri,
        bits,
        k,
        at.betas,
        at.public_values,
    )
}

/// Commit phase `k` has passed its proof of work and given its challenges.
pub open spec fn phase_done<F: PrimeField64, EF: ExtensionField<F>, C: Challenger<F>, P>(
    s: C::State,
    rounds: Seq<Round<F, EF>>,
    fri: FriProof<F, EF, Vec<F>, P>,
    bits: nat,
    k: int,
    betas: Seq<EF>,
    public_values: Seq<EF>,
) -> bool {
    let before = before_phase::<F, EF, P>(rounds, fri, bits, k as nat);
    let witness = fri.commit_pow_witnesses@[k];
    let found = next_draw::<F, C>(s, before.push(Event::Absorb(witness)));
    &&& forall|x: EF| #[trigger]
        is_drawn::<F, EF, C>(s, before + grinding(bits, witness), x) ==> x == betas[k]
    &&& bits == 0 ==> public_values[1 + k] == betas[k]
    &&& bits > 0 ==> {
        &&& found.sp_canonical() % pow2(bits) == 0
        &&& public_values[1 + 2 * k] == ground_value::<F, EF>(found)
        &&& public_values[2 + 2 * k] == betas[k]
    }
}

proof fn lemma_phases<F: PrimeField64, EF: ExtensionField<F>, C: Challenger<F>, P>(
    s: C::State,
    rounds: Seq<Round<F, EF>>,
    fri: FriProof<F, EF, Vec<F>, P>,
    bits: nat,
    start: FriReplayState<EF, C::State>,
    n: nat,
)
    requires
        n <= fri.commit_phase_commits@.len(),
        n <= fri.commit_pow_witnesses@.len(),
        !start.failed,
        start.state == after::<F, C>(
            s,
            absorbs(all_openings(rounds)) + draws(EF::sp_dimension()),
        ),
        start.betas.len() == 0,
        start.query_indices.len() == 0,
        start.public_values.len() == 1,
    ensures
        ({
            let at = generation::phases_replayed::<F, EF, C, P>(start, fri, bits, n);
            &&& !at.failed ==> phases_done::<F, EF, C, P>(
                s,
                rounds,
                fri,
                bits,
                start.public_values[0],
                n,
                at,
            )
            &&& at.failed ==> bits > 0 && exists|k: int|
                0 <= k < n && #[trigger] next_draw::<F, C>(
                    s,
                    before_phase::<F, EF, P>(rounds, fri, bits, k as nat).push(
                        Event::Absorb(fri.commit_pow_witnesses@[k]),
                    ),
                ).sp_canonical() % pow2(bits) != 0
        }),
    decreases n,
{
    let first = absorbs(all_openings(rounds)) + draws::<F>(EF::sp_dimension());
    let at = generation::phases_replayed::<F, EF, C, P>(start, fri, bits, n);
    let per: nat = if bits > 0 {
        2
    } else {
        1
    };
    if n == 0 {
        assert(first + phase_events::<F, EF, P>(fri, bits, 0) =~= first);
    } else {
        let k = n - 1;
        lemma_phases::<F, EF, C, P>(s, rounds, fri, bits, start, (n - 1) as nat);
        let prev = generation::phases_replayed::<F, EF, C, P>(start, fri, bits, (n - 1) as nat);
        if !prev.failed {
            let e = first + phase_events::<F, EF, P>(fri, bits, (n - 1) as nat);
            let commitment = fri.commit_phase_commits@[k]@;
            let witness = fri.commit_pow_witnesses@[k];
            let before = e + absorbs(commitment);
            lemma_absorbed_slice::<F, C>(s, e, commitment);
            assert(before == before_phase::<F, EF, P>(rounds, fri, bits, k as nat));
            lemma_grinding::<F, C>(s, before, bits, witness);
            let ground = before + grinding(bits, witness);
            law_element_is_drawn_by_coefficients::<F, EF, C>(s, ground);
            if at.failed {
                assert(next_draw::<F, C>(
                    s,
                    before_phase::<F, EF, P>(rounds, fri, bits, k as nat).push(
                        Event::Absorb(fri.commit_pow_witnesses@[k]),
                    ),
                ).sp_canonical() % pow2(bits) != 0);
            } else {
                let element = draws::<F>(EF::sp_dimension());
                assert(ground + element =~= first + phase_events::<F, EF, P>(fri, bits, n));
                assert(n * per == (n - 1) * per + per) by (nonlinear_arith)
                    requires
                        n >= 1,
                ;
                assert(phase_done::<F, EF, C, P>(
                    s,
                    rounds,
                    fri,
                    bits,
                    k,
                    at.betas,
                    at.public_values,
                ));
                assert forall|j: int| 0 <= j < n implies #[trigger] phase_done::<F, EF, C, P>(
                    s,
                    rounds,
                    fri,
                    bits,
                    j,
                    at.betas,
                    at.public_values,
                ) by {
                    if j < k {
                        assert(phase_done::<F, EF, C, P>(
                            s,
                            rounds,
                            fri,
                            bits,
                            j,
                            prev.betas,
                            prev.public_values,
                        ));
                    }
                }
            }
        }
    }
}

proof fn lemma_arities<F: PrimeField64, EF: ExtensionField<F>, C: Challenger<F>, P>(
    s: C::State,
    events: Seq<Event<F>>,
    fri: FriProof<F, EF, Vec<F>, P>,
    n: nat,
)
    requires
        n <= fri.commit_phase_openings@.len(),
    ensures
        generation::absorbed_arities::<F, EF, C, P>(after::<F, C>(s, events), fri, n) == after::<
            F,
            C,
        >(
            s,
            events + absorbs(
                Seq::new(
                    n,
                    |k: int| F::sp_from(fri.commit_phase_openings@[k].log_arity as nat),
                ),
            ),
        ),
    decreases n,
{
    let f = |k: int| F::sp_from(fri.commit_phase_openings@[k].log_arity as nat);
    let all = events + absorbs(Seq::new(n, f));
    if n == 0 {
        assert(all =~= events);
    } else {
        lemma_arities::<F, EF, C, P>(s, events, fri, (n - 1) as nat);
        assert(all.drop_last() =~= events + absorbs(Seq::new((n - 1) as nat, f)));
        assert(all.last() == Event::Absorb(f(n - 1)));
    }
}

proof fn lemma_queries<F: PrimeField64, EF: ExtensionField<F>, C: Challenger<F>>(
    s: C::State,
    events: Seq<Event<F>>,
    start: FriReplayState<EF, C::State>,
    bits: nat,
    n: nat,
)
    requires
        start.state == after::<F, C>(s, events),
        start.query_indices.len() == 0,
    ensures
        ({
            let at = generation::queries_replayed::<F, EF, C>(start, bits, n);
            &&& at.state == after::<F, C>(s, events + draws(n))
            &&& at.betas == start.betas
            &&& at.failed == start.failed
            &&& at.query_indices.len() == n
            &&& at.public_values.len() == start.public_values.len() + n
            &&& at.public_values.take(start.public_values.len() as int) == start.public_values
            &&& forall|q: int|
                #![trigger at.query_indices[q]]
                0 <= q < n ==> {
                    &&& at.query_indices[q] == next_draw::<F, C>(
                        s,
                        events + draws(q as nat),
                    ).sp_canonical() % pow2(bits)
                    &&& at.public_values[start.public_values.len() + q] == EF::sp_from(
                        at.query_indices[q],
                    )
                }
        }),
    decreases n,
{
    let at = generation::queries_replayed::<F, EF, C>(start, bits, n);
    if n == 0 {
        assert(events + draws::<F>(0) =~= events);
        assert(at.public_values.take(start.public_values.len() as int) =~= start.public_values);
    } else {
        lemma_queries::<F, EF, C>(s, events, start, bits, (n - 1) as nat);
        let prev = generation::queries_replayed::<F, EF, C>(start, bits, (n - 1) as nat);
        let all = events + draws::<F>(n);
        assert(all.drop_last() =~= events + draws((n - 1) as nat));
        assert(all.last() == Event::<F>::Draw);
        assert(at.public_values.take(start.public_values.len() as int)
            =~= prev.public_values.take(start.public_values.len() as int));
    }
}

/// The sum of the folding arities and the final height: the bits of a query index.
pub open spec fn index_bits<F, EF, P>(
    fri: FriProof<F, EF, Vec<F>, P>,
    params: FriGenerationParams,
) -> nat {
    joined(
        fri.commit_phase_openings@.len(),
        |k: int| Seq::new(fri.commit_phase_openings@[k].log_arity as nat, |i: int| ()),
    ).len() + params.log_final_height as nat
}

proof fn lemma_index_bits<F, EF, P>(fri: FriProof<F, EF, Vec<F>, P>, n: nat)
    ensures
        generation::log_reduction(fri, n) == joined(
            n,
            |k: int| Seq::new(fri.commit_phase_openings@[k].log_arity as nat, |i: int| ()),
        ).len(),
    decreases n,
{
    if n > 0 {
        lemma_index_bits(fri, (n - 1) as nat);
    }
}

/// The replay of a FRI proof. The batching challenge is drawn after all openings, each folding
/// challenge after its commitment and proof of work, and the query indices after the final
/// polynomial, the arities and the last proof of work. The public values hold all that is drawn, in
/// that order. The replay fails exactly if a proof-of-work element does not end in zero bits.
pub proof fn law_fri_transcript<F: PrimeField64, EF: ExtensionField<F>, C: Challenger<F>, P>(
    s: C::State,
    rounds: Seq<Round<F, EF>>,
    fri: FriProof<F, EF, Vec<F>, P>,
    params: FriGenerationParams,
)
    requires
        fri.commit_pow_witnesses@.len() == fri.commit_phase_commits@.len(),
    ensures
        ({
            let played = generation::fri_replayed::<F, EF, C, P>(s, rounds, fri, params);
            let n = fri.commit_phase_commits@.len();
            let commit_bits = params.commit_pow_bits as nat;
            let query_bits = params.query_pow_bits as nat;
            let events = fri_events::<F, EF, P>(rounds, fri, params);
            let bound = events.take(
                events.len() - grinding(query_bits, fri.query_pow_witness).len(),
            );
            let found = next_draw::<F, C>(s, bound.push(Event::Absorb(fri.query_pow_witness)));
            let bits = index_bits(fri, params);
            let per: nat = if commit_bits > 0 {
                2
            } else {
                1
            };
            let folded = (1 + n * per) as int;
            let asked: int = if query_bits > 0 {
                folded + 1
            } else {
                folded
            };
            &&& forall|x: EF| #[trigger]
                is_drawn::<F, EF, C>(s, absorbs(all_openings(rounds)), x) ==> x == played.alpha
            &&& !played.last.failed ==> {
                &&& played.last.public_values[0] == played.alpha
                &&& played.last.betas.len() == n
                &&& forall|k: int|
                    0 <= k < n ==> #[trigger] phase_done::<F, EF, C, P>(
                        s,
                        rounds,
                        fri,
                        commit_bits,
                        k,
                        played.last.betas,
                        played.last.public_values,
                    )
                &&& query_bits > 0 ==> {
                    &&& found.sp_canonical() % pow2(query_bits) == 0
                    &&& played.last.public_values[folded] == ground_value::<F, EF>(found)
                }
                &&& played.last.query_indices.len() == params.num_queries
                &&& played.last.public_values.len() == asked + params.num_queries
                &&& forall|q: int|
                    #![trigger played.last.query_indices[q]]
                    0 <= q < params.num_queries ==> {
                        &&& played.last.query_indices[q] == next_draw::<F, C>(
                            s,
                            events + draws(q as nat),
                        ).sp_canonical() % pow2(bits)
                        &&& played.last.public_values[asked + q] == EF::sp_from(
                            played.last.query_indices[q],
                        )
                    }
            }
            &&& played.last.failed ==> {
                ||| commit_bits > 0 && exists|k: int|
                    0 <= k < n && #[trigger] next_draw::<F, C>(
                        s,
                        before_phase::<F, EF, P>(rounds, fri, commit_bits, k as nat).push(
                            Event::Absorb(fri.commit_pow_witnesses@[k]),
                        ),
                    ).sp_canonical() % pow2(commit_bits) != 0
                ||| query_bits > 0 && found.sp_canonical() % pow2(query_bits) != 0
            }
        }),
{
    let f = |r: int|
        joined(
            rounds[r].matrices.len(),
            |m: int|
                joined(
                    rounds[r].matrices[m].points.len(),
                    |p: int| flattened::<F, EF>(rounds[r].matrices[m].points[p].1),
                ),
        );
    lemma_rounds::<F, EF, C>(s, rounds, f, rounds.len());
    let opened = absorbs(all_openings(rounds));
    law_element_is_drawn_by_coefficients::<F, EF, C>(s, opened);
    let (alpha, batched) = challenger::squeezed_element::<F, EF, C>(
        generation::absorbed_rounds::<F, EF, C>(s, rounds, rounds.len()),
    );
    let start = FriReplayState {
        state: batched,
        public_values: seq![alpha],
        betas: Seq::empty(),
        query_indices: Seq::empty(),
        failed: false,
    };
    let n = fri.commit_phase_commits@.len();
    let commit_bits = params.commit_pow_bits as nat;
    let query_bits = params.query_pow_bits as nat;
    lemma_phases::<F, EF, C, P>(s, rounds, fri, commit_bits, start, n);
    let folded = generation::phases_replayed::<F, EF, C, P>(start, fri, commit_bits, n);
    let played = generation::fri_replayed::<F, EF, C, P>(s, rounds, fri, params);
    if !folded.failed {
        let e = opened + draws::<F>(EF::sp_dimension()) + phase_events::<F, EF, P>(
            fri,
            commit_bits,
            n,
        );
        let poly = flattened::<F, EF>(fri.final_poly@);
        let arities = Seq::new(
            fri.commit_phase_openings@.len(),
            |k: int| F::sp_from(fri.commit_phase_openings@[k].log_arity as nat),
        );
        lemma_absorbed_elements::<F, EF, C>(s, e, fri.final_poly@, fri.final_poly@.len());
        lemma_arities::<F, EF, C, P>(
            s,
            e + absorbs(poly),
            fri,
            fri.commit_phase_openings@.len(),
        );
        let bound = e + absorbs(poly + arities);
        assert(bound =~= e + absorbs(poly) + absorbs(arities));
        lemma_grinding::<F, C>(s, bound, query_bits, fri.query_pow_witness);
        let events = fri_events::<F, EF, P>(rounds, fri, params);
        assert(events =~= bound + grinding(query_bits, fri.query_pow_witness));
        assert(events.take(events.len() - grinding(query_bits, fri.query_pow_witness).len())
            =~= bound);
        lemma_index_bits(fri, fri.commit_phase_openings@.len());
        let (ok, v, ground) = generation::pow_replayed::<F, C>(
            after::<F, C>(s, bound),
            query_bits,
            fri.query_pow_witness,
        );
        if ok {
            let before = FriReplayState {
                state: ground,
                public_values: folded.public_values + generation::pow_value::<F, EF>(v),
                failed: false,
                ..folded
            };
            lemma_queries::<F, EF, C>(
                s,
                events,
                before,
                generation::query_bits(fri, params),
                params.num_queries as nat,
            );
            assert(played.last == generation::queries_replayed::<F, EF, C>(
                before,
                generation::query_bits(fri, params),
                params.num_queries as nat,
            ));
            let values = played.last.public_values;
            assert forall|i: int| 0 <= i < before.public_values.len() implies #[trigger] values[i]
                == before.public_values[i] by {
                assert(values.take(before.public_values.len() as int)[i] == values[i]);
            }
            let per: nat = if commit_bits > 0 {
                2
            } else {
                1
            };
            assert forall|k: int| 0 <= k < n implies #[trigger] phase_done::<F, EF, C, P>(
                s,
                rounds,
                fri,
                commit_bits,
                k,
                played.last.betas,
                played.last.public_values,
            ) by {
                assert(phase_done::<F, EF, C, P>(
                    s,
                    rounds,
                    fri,
                    commit_bits,
                    k,
                    folded.betas,
                    folded.public_values,
                ));
                assert(k * per + per <= n * per) by (nonlinear_arith)
                    requires
                        0 <= k < n,
                ;
            }
        }
    }
}

} // verus!
