//! Quadratic sumcheck rounds inside a circuit.

use vstd::prelude::*;

use crate::circuit::{CircuitBuilder, CircuitBuilderError};
use crate::field;
use crate::field::{CommutativeRing, Field};
use crate::transcript;
use crate::transcript::{RecursiveChallenger, TranscriptStep};
use crate::types::Target;

verus! {

/// The messages of sumcheck rounds: for each round the value at zero and the leading coefficient of
/// a quadratic, and the proof-of-work witnesses.
#[derive(Clone, Debug, PartialEq, Eq)]
pub struct SumcheckTargets {
    pub round_polys: Vec<[Target; 2]>,
    pub pow_witnesses: Vec<Target>,
}

impl SumcheckTargets {
    /// All messages are expressions of the circuit, with a proof-of-work witness for each round if
    /// they are asked for.
    pub open spec fn within<F: Field>(self, circuit: CircuitBuilder<F>, pow_bits: usize) -> bool {
        &&& forall|i: int|
            0 <= i < self.round_polys@.len() ==> {
                &&& circuit.has((#[trigger] self.round_polys@[i])[0])
                &&& circuit.has(self.round_polys@[i][1])
            }
        &&& pow_bits > 0 ==> {
            &&& self.round_polys@.len() <= self.pow_witnesses@.len()
            &&& circuit.has_all(self.pow_witnesses@)
        }
    }

    /// The steps of the first `n` rounds.
    pub open spec fn steps(self, pow_bits: usize, challenges: Seq<Target>, n: nat) -> Seq<
        TranscriptStep,
    >
        decreases n,
    {
        if n == 0 {
            Seq::empty()
        } else {
            let k = n - 1;
            self.steps(pow_bits, challenges, k as nat) + (seq![
                TranscriptStep::ObserveExt(self.round_polys@[k][0]),
                TranscriptStep::ObserveExt(self.round_polys@[k][1]),
            ] + (if pow_bits > 0 {
                seq![TranscriptStep::CheckPow(pow_bits, self.pow_witnesses@[k])]
            } else {
                Seq::empty()
            }) + seq![TranscriptStep::SampleExt(challenges[k])])
        }
    }

    /// The claim after the first `n` rounds.
    pub open spec fn claim<F: Field>(
        self,
        circuit: CircuitBuilder<F>,
        env: spec_fn(int) -> F,
        start: F,
        challenges: Seq<Target>,
        n: nat,
    ) -> F
        decreases n,
    {
        if n == 0 {
            start
        } else {
            let k = n - 1;
            round_claim(
                self.claim(circuit, env, start, challenges, k as nat),
                circuit.value(env, self.round_polys@[k][0]),
                circuit.value(env, self.round_polys@[k][1]),
                circuit.value(env, challenges[k]),
            )
        }
    }
}

/// The value at `r` of the quadratic `h` with `h(0) = c0`, `h(0) + h(1) = claim` and leading
/// coefficient `c_inf`: `h(0)·(1 - r) + h(1)·r + c_inf·r·(r - 1)`.
pub open spec fn round_claim<F: Field>(claim: F, c0: F, c_inf: F, r: F) -> F {
    c0.sp_mul(F::sp_one().sp_sub(r)).sp_add(claim.sp_sub(c0).sp_mul(r)).sp_add(
        c_inf.sp_mul(r.sp_mul(r.sp_sub(F::sp_one()))),
    )
}

/// A sumcheck round extends the line through its two values: it takes the first message at zero and
/// the rest of the claim at one, so that both add up to the claim.
pub proof fn law_round_splits_claim<F: CommutativeRing>(claim: F, c0: F, c_inf: F)
    requires
        claim.wf(),
        c0.wf(),
        c_inf.wf(),
    ensures
        round_claim(claim, c0, c_inf, F::sp_zero()) == c0,
        round_claim(claim, c0, c_inf, F::sp_one()) == claim.sp_sub(c0),
        round_claim(claim, c0, c_inf, F::sp_one()).sp_add(
            round_claim(claim, c0, c_inf, F::sp_zero()),
        ) == claim,
{
    let (zero, one) = (F::sp_zero(), F::sp_one());
    let h1 = claim.sp_sub(c0);
    F::closed(claim, c0);
    F::closed(zero, one);
    F::closed(one, one);
    F::closed(h1, c0);
    F::sub_add(claim, c0);
    F::sub_add(one, zero);
    F::sub_add(one, one);
    F::add_zero(one);
    F::add_zero(c0);
    F::add_zero(h1);
    F::add_zero(zero);
    F::mul_one(c0);
    F::mul_one(h1);
    F::mul_zero(c0);
    F::mul_zero(h1);
    F::mul_zero(c_inf);
    F::mul_zero(one);
    F::mul_commutes(zero, zero.sp_sub(one));
    F::mul_zero(zero.sp_sub(one));
    F::closed(zero, zero.sp_sub(one));
    F::add_commutes(zero, h1);
    F::add_commutes(one, zero);
    field::lemma_difference(one, one);
}

/// The claim that a sumcheck round leaves.
pub fn sumcheck_round_claim_update<F: Field>(
    circuit: &mut CircuitBuilder<F>,
    claim: Target,
    c0: Target,
    c_inf: Target,
    r: Target,
) -> (next: Target)
    requires
        old(circuit).wf(),
        old(circuit).has(claim),
        old(circuit).has(c0),
        old(circuit).has(c_inf),
        old(circuit).has(r),
    ensures
        old(circuit).computes_into(*final(circuit)),
        final(circuit).has(next),
        forall|env: spec_fn(int) -> F| #[trigger]
            final(circuit).value(env, next) == round_claim(
                old(circuit).value(env, claim),
                old(circuit).value(env, c0),
                old(circuit).value(env, c_inf),
                old(circuit).value(env, r),
            ),
{
    let ghost start = *circuit;
    let one: Target = circuit.define_const(F::one());
    let ghost a = *circuit;
    let away: Target = circuit.sub(one, r);
    let ghost b = *circuit;
    let at_zero: Target = circuit.mul(c0, away);
    let ghost c = *circuit;
    let h1: Target = circuit.sub(claim, c0);
    let ghost d = *circuit;
    let at_one: Target = circuit.mul(h1, r);
    let ghost e = *circuit;
    let linear: Target = circuit.add(at_zero, at_one);
    let ghost f = *circuit;
    let shifted: Target = circuit.sub(r, one);
    let ghost g = *circuit;
    let weight: Target = circuit.mul(r, shifted);
    let ghost h = *circuit;
    let at_infinity: Target = circuit.mul(c_inf, weight);
    let ghost i = *circuit;
    let next: Target = circuit.add(linear, at_infinity);
    proof {
        i.lemma_grows_to_itself();
        h.lemma_grows_on(i, *circuit);
        g.lemma_grows_on(h, *circuit);
        f.lemma_grows_on(g, *circuit);
        e.lemma_grows_on(f, *circuit);
        d.lemma_grows_on(e, *circuit);
        c.lemma_grows_on(d, *circuit);
        b.lemma_grows_on(c, *circuit);
        a.lemma_grows_on(b, *circuit);
        start.lemma_grows_on(a, *circuit);
        assert forall|env: spec_fn(int) -> F| #[trigger] circuit.value(env, next) == round_claim(
            start.value(env, claim),
            start.value(env, c0),
            start.value(env, c_inf),
            start.value(env, r),
        ) by {
            let v = |id: Target| circuit.value(env, id);
            assert(v(claim) == start.value(env, claim) && v(claim) == c.value(env, claim));
            assert(v(c0) == start.value(env, c0) && v(c0) == b.value(env, c0) && v(c0) == c.value(
                env,
                c0,
            ));
            assert(v(c_inf) == start.value(env, c_inf) && v(c_inf) == h.value(env, c_inf));
            assert(v(r) == start.value(env, r) && v(r) == a.value(env, r) && v(r) == d.value(env, r)
                && v(r) == f.value(env, r) && v(r) == g.value(env, r));
            assert(v(one) == a.value(env, one) && v(one) == f.value(env, one));
            assert(v(away) == b.value(env, away));
            assert(v(at_zero) == c.value(env, at_zero) && v(at_zero) == e.value(env, at_zero));
            assert(v(h1) == d.value(env, h1));
            assert(v(at_one) == e.value(env, at_one));
            assert(v(linear) == f.value(env, linear) && v(linear) == i.value(env, linear));
            assert(v(shifted) == g.value(env, shifted));
            assert(v(weight) == h.value(env, weight));
            assert(v(at_infinity) == i.value(env, at_infinity));
        }
    }
    next
}

/// Replays sumcheck rounds: absorbs the two messages of each round, checks its proof of work,
/// squeezes its challenge, and folds the claim. Returns the last claim and the challenges.
pub fn verify_sumcheck_rounds<F: Field, Ch: RecursiveChallenger<F>>(
    circuit: &mut CircuitBuilder<F>,
    challenger: &mut Ch,
    claimed_sum: Target,
    data: &SumcheckTargets,
    pow_bits: usize,
) -> (r: Result<(Target, Vec<Target>), CircuitBuilderError>)
    requires
        old(circuit).wf(),
        old(circuit).has(claimed_sum),
        data.within(*old(circuit), pow_bits),
    ensures
        match r {
            Ok((claim, challenges)) => {
                &&& challenges@.len() == data.round_polys@.len()
                &&& final(circuit).has(claim)
                &&& final(circuit).has_all(challenges@)
                &&& transcript::replays(
                    old(challenger).log(),
                    final(challenger).log(),
                    *old(circuit),
                    *final(circuit),
                    data.steps(pow_bits, challenges@, challenges@.len()),
                )
                &&& forall|later: CircuitBuilder<F>, env: spec_fn(int) -> F|
                    final(circuit).grows_to(later) ==> #[trigger] later.value(env, claim)
                        == data.claim(
                        later,
                        env,
                        later.value(env, claimed_sum),
                        challenges@,
                        challenges@.len(),
                    )
            },
            Err(e) => final(challenger).log().failures == old(challenger).log().failures.push(e),
        },
{
    let ghost ch0 = challenger.log();
    let ghost c0 = *circuit;
    let mut claim: Target = claimed_sum;
    let mut challenges: Vec<Target> = Vec::new();
    let mut i: usize = 0;
    proof {
        transcript::lemma_replays_nothing(ch0, c0);
    }
    while i < data.round_polys.len()
        invariant
            i <= data.round_polys@.len(),
            ch0 == old(challenger).log(),
            c0.wf(),
            c0.has(claimed_sum),
            data.within(c0, pow_bits),
            challenges@.len() == i,
            circuit.has(claim),
            circuit.has_all(challenges@),
            transcript::replays(
                ch0,
                challenger.log(),
                c0,
                *circuit,
                data.steps(pow_bits, challenges@, i as nat),
            ),
            forall|later: CircuitBuilder<F>, env: spec_fn(int) -> F|
                circuit.grows_to(later) ==> #[trigger] later.value(env, claim) == data.claim(
                    later,
                    env,
                    later.value(env, claimed_sum),
                    challenges@,
                    i as nat,
                ),
        decreases data.round_polys@.len() - i,
    {
        let ghost ch1 = challenger.log();
        let ghost c1 = *circuit;
        let ghost earlier = challenges@;
        let ghost old_claim = claim;
        let p0: Target = data.round_polys[i][0];
        let p_inf: Target = data.round_polys[i][1];
        assert(c0.has(p0) && c0.has(p_inf)) by {
            assert(c0.has(data.round_polys@[i as int][0]));
        }
        challenger.observe_ext(circuit, p0);
        let ghost ch2 = challenger.log();
        let ghost c2 = *circuit;
        challenger.observe_ext(circuit, p_inf);
        let ghost ch3 = challenger.log();
        let ghost c3 = *circuit;
        let ghost pow_steps = if pow_bits > 0 {
            seq![TranscriptStep::CheckPow(pow_bits, data.pow_witnesses@[i as int])]
        } else {
            Seq::<TranscriptStep>::empty()
        };
        if pow_bits > 0 {
            assert(c0.has(data.pow_witnesses@[i as int]));
            match challenger.check_pow_witness(circuit, pow_bits, data.pow_witnesses[i]) {
                Ok(_) => {},
                Err(e) => {
                    return Err(e);
                },
            }
        } else {
            proof {
                transcript::lemma_replays_nothing(ch3, c3);
            }
        }
        let ghost ch4 = challenger.log();
        let ghost c4 = *circuit;
        assert(transcript::replays(ch3, ch4, c3, c4, pow_steps));
        let r: Target = challenger.sample_ext(circuit);
        let ghost ch5 = challenger.log();
        let ghost c5 = *circuit;
        let ghost s1 = seq![TranscriptStep::ObserveExt(p0)];
        let ghost s2 = seq![TranscriptStep::ObserveExt(p_inf)];
        let ghost s4 = seq![TranscriptStep::SampleExt(r)];
        claim = sumcheck_round_claim_update(circuit, claim, p0, p_inf, r);
        challenges.push(r);
        proof {
            transcript::lemma_replays_on(ch1, ch2, ch3, c1, c2, c3, s1, s2);
            transcript::lemma_replays_on(ch1, ch3, ch4, c1, c3, c4, s1 + s2, pow_steps);
            transcript::lemma_replays_on(ch1, ch4, ch5, c1, c4, c5, s1 + s2 + pow_steps, s4);
            assert(s1 + s2 =~= seq![
                TranscriptStep::ObserveExt(p0),
                TranscriptStep::ObserveExt(p_inf),
            ]);
            let now = challenges@;
            lemma_steps_prefix(*data, pow_bits, earlier, now, i as nat);
            let before = data.steps(pow_bits, earlier, i as nat);
            transcript::lemma_replays_on(ch0, ch1, ch5, c0, c1, c5, before, s1 + s2 + pow_steps + s4);
            transcript::lemma_replays_computed(
                ch0,
                ch5,
                c0,
                c5,
                *circuit,
                before + (s1 + s2 + pow_steps + s4),
            );
            assert(data.steps(pow_bits, now, (i + 1) as nat) == before + (s1 + s2 + pow_steps + s4));
            assert forall|j: int| 0 <= j < now.len() implies circuit.has(#[trigger] now[j]) by {
                if j < i {
                    assert(c1.has(earlier[j]));
                }
            }
            assert forall|later: CircuitBuilder<F>, env: spec_fn(int) -> F| circuit.grows_to(
                later,
            ) implies #[trigger] later.value(env, claim) == data.claim(
                later,
                env,
                later.value(env, claimed_sum),
                now,
                (i + 1) as nat,
            ) by {
                c5.lemma_grows_on(*circuit, later);
                c1.lemma_grows_on(c5, later);
                lemma_claim_prefix(
                    *data,
                    later,
                    env,
                    later.value(env, claimed_sum),
                    earlier,
                    now,
                    i as nat,
                );
                assert(later.value(env, old_claim) == data.claim(
                    later,
                    env,
                    later.value(env, claimed_sum),
                    earlier,
                    i as nat,
                ));
                assert(later.value(env, claim) == circuit.value(env, claim));
                assert(later.value(env, old_claim) == c5.value(env, old_claim));
                assert(later.value(env, p0) == c5.value(env, p0));
                assert(later.value(env, p_inf) == c5.value(env, p_inf));
                assert(later.value(env, r) == c5.value(env, r));
            }
        }
        i += 1;
    }
    Ok((claim, challenges))
}

/// The steps of earlier rounds do not depend on later challenges.
proof fn lemma_steps_prefix(
    data: SumcheckTargets,
    pow_bits: usize,
    earlier: Seq<Target>,
    now: Seq<Target>,
    n: nat,
)
    requires
        n <= earlier.len(),
        earlier.is_prefix_of(now),
    ensures
        data.steps(pow_bits, now, n) == data.steps(pow_bits, earlier, n),
    decreases n,
{
    if n > 0 {
        lemma_steps_prefix(data, pow_bits, earlier, now, (n - 1) as nat);
        assert(earlier[n - 1] == now[n - 1]);
    }
}

/// The claim of earlier rounds does not depend on later challenges.
proof fn lemma_claim_prefix<F: Field>(
    data: SumcheckTargets,
    circuit: CircuitBuilder<F>,
    env: spec_fn(int) -> F,
    start: F,
    earlier: Seq<Target>,
    now: Seq<Target>,
    n: nat,
)
    requires
        n <= earlier.len(),
        earlier.is_prefix_of(now),
    ensures
        data.claim(circuit, env, start, now, n) == data.claim(circuit, env, start, earlier, n),
    decreases n,
{
    if n > 0 {
        lemma_claim_prefix(data, circuit, env, start, earlier, now, (n - 1) as nat);
        assert(earlier[n - 1] == now[n - 1]);
    }
}

} // verus!
