//! Fiat-Shamir transcripts.

use p3_challenger::{CanObserve as _, CanSample as _};
use p3_field::{PrimeCharacteristicRing as _, PrimeField64 as _};
use vstd::arithmetic::power2::*;
use vstd::prelude::*;

use crate::bits;
use crate::bits::two_pow;
use crate::extension::ExtensionField;
use crate::field::{BabyBear, Field, Fp, PrimeModulus};
use crate::seqs::copy_vec;

verus! {

/// A prime field whose elements have canonical representatives of one word.
pub trait PrimeField64: Field {
    spec fn sp_canonical(self) -> nat;

    spec fn sp_order() -> nat;

    fn canonical(self) -> (r: u64)
        ensures
            r == self.sp_canonical(),
    ;
}

impl<M: PrimeModulus> PrimeField64 for Fp<M> {
    open spec fn sp_canonical(self) -> nat {
        self.val()
    }

    open spec fn sp_order() -> nat {
        M::sp_modulus()
    }

    fn canonical(self) -> (r: u64) {
        self.as_canonical_u64()
    }
}

/// A transcript that absorbs base elements and yields base elements. What it yields is determined
/// by its state.
pub trait Challenger<F: PrimeField64>: Sized {
    type State;

    spec fn state(&self) -> Self::State;

    /// The state after an element is absorbed.
    spec fn absorbed(s: Self::State, v: F) -> Self::State;

    /// The element that a state yields, and the state after it.
    spec fn squeezed(s: Self::State) -> (F, Self::State);

    fn observe(&mut self, v: F)
        ensures
            final(self).state() == Self::absorbed(old(self).state(), v),
    ;

    fn sample(&mut self) -> (r: F)
        ensures
            (r, final(self).state()) == Self::squeezed(old(self).state()),
    ;

    /// A copy of the transcript, independent of it.
    fn fork(&self) -> (r: Self)
        ensures
            r.state() == self.state(),
    ;
}

/// The state after the first `n` elements are absorbed.
pub open spec fn absorbed_all<F: PrimeField64, C: Challenger<F>>(
    s: C::State,
    elements: Seq<F>,
    n: nat,
) -> C::State
    decreases n,
{
    if n == 0 {
        s
    } else {
        C::absorbed(absorbed_all::<F, C>(s, elements, (n - 1) as nat), elements[n - 1])
    }
}

/// The state after all elements are absorbed.
pub open spec fn absorbed_slice<F: PrimeField64, C: Challenger<F>>(
    s: C::State,
    elements: Seq<F>,
) -> C::State {
    absorbed_all::<F, C>(s, elements, elements.len())
}

/// Absorbs all elements.
pub fn observe_slice<F: PrimeField64, C: Challenger<F>>(challenger: &mut C, elements: &[F])
    ensures
        final(challenger).state() == absorbed_slice::<F, C>(old(challenger).state(), elements@),
{
    let ghost start = challenger.state();
    let mut i: usize = 0;
    while i < elements.len()
        invariant
            i <= elements@.len(),
            challenger.state() == absorbed_all::<F, C>(start, elements@, i as nat),
        decreases elements@.len() - i,
    {
        challenger.observe(elements[i]);
        i += 1;
    }
}

/// The state after the coefficients of an element are absorbed.
pub open spec fn absorbed_element<F: PrimeField64, EF: ExtensionField<F>, C: Challenger<F>>(
    s: C::State,
    x: EF,
) -> C::State {
    absorbed_slice::<F, C>(s, x.sp_coefficients())
}

/// Absorbs the coefficients of an element.
pub fn observe_algebra_element<F: PrimeField64, EF: ExtensionField<F>, C: Challenger<F>>(
    challenger: &mut C,
    x: EF,
)
    ensures
        final(challenger).state() == absorbed_element::<F, EF, C>(old(challenger).state(), x),
{
    let coefficients: Vec<F> = x.coefficients();
    observe_slice(challenger, coefficients.as_slice());
}

/// The state after the coefficients of the first `n` elements are absorbed.
pub open spec fn absorbed_elements<F: PrimeField64, EF: ExtensionField<F>, C: Challenger<F>>(
    s: C::State,
    xs: Seq<EF>,
    n: nat,
) -> C::State
    decreases n,
{
    if n == 0 {
        s
    } else {
        absorbed_element::<F, EF, C>(
            absorbed_elements::<F, EF, C>(s, xs, (n - 1) as nat),
            xs[n - 1],
        )
    }
}

/// Absorbs the coefficients of all elements.
pub fn observe_algebra_slice<F: PrimeField64, EF: ExtensionField<F>, C: Challenger<F>>(
    challenger: &mut C,
    xs: &[EF],
)
    ensures
        final(challenger).state() == absorbed_elements::<F, EF, C>(
            old(challenger).state(),
            xs@,
            xs@.len(),
        ),
{
    let ghost start = challenger.state();
    let mut i: usize = 0;
    while i < xs.len()
        invariant
            i <= xs@.len(),
            challenger.state() == absorbed_elements::<F, EF, C>(start, xs@, i as nat),
        decreases xs@.len() - i,
    {
        observe_algebra_element(challenger, xs[i]);
        i += 1;
    }
}

/// The first `n` elements that a state yields, and the state after them.
pub open spec fn squeezed_many<F: PrimeField64, C: Challenger<F>>(s: C::State, n: nat) -> (
    Seq<F>,
    C::State,
)
    decreases n,
{
    if n == 0 {
        (Seq::empty(), s)
    } else {
        let (earlier, last) = squeezed_many::<F, C>(s, (n - 1) as nat);
        let (v, next) = C::squeezed(last);
        (earlier.push(v), next)
    }
}

/// The extension element with the given coefficients.
pub open spec fn element_of<F: Field, EF: ExtensionField<F>>(coefficients: Seq<F>) -> EF {
    choose|x: EF| x.sp_coefficients() == coefficients
}

/// The extension element that a state yields, and the state after it.
pub open spec fn squeezed_element<F: PrimeField64, EF: ExtensionField<F>, C: Challenger<F>>(
    s: C::State,
) -> (EF, C::State) {
    let (coefficients, next) = squeezed_many::<F, C>(s, EF::sp_dimension());
    (element_of::<F, EF>(coefficients), next)
}

/// Samples an extension element, coefficient by coefficient.
pub fn sample_algebra_element<F: PrimeField64, EF: ExtensionField<F>, C: Challenger<F>>(
    challenger: &mut C,
) -> (r: EF)
    ensures
        (r, final(challenger).state()) == squeezed_element::<F, EF, C>(old(challenger).state()),
{
    let ghost start = challenger.state();
    let n: usize = EF::dimension();
    let mut coefficients: Vec<F> = Vec::new();
    let mut i: usize = 0;
    while i < n
        invariant
            i <= n,
            coefficients@.len() == i,
            (coefficients@, challenger.state()) == squeezed_many::<F, C>(start, i as nat),
        decreases n - i,
    {
        let v: F = challenger.sample();
        coefficients.push(v);
        i += 1;
    }
    let r: EF = EF::from_coefficients(&coefficients);
    proof {
        let x = element_of::<F, EF>(coefficients@);
        assert(r.sp_coefficients() == coefficients@);
        EF::coefficients_determine(r, x);
    }
    r
}

/// The lowest `bits` bits of the element that a state yields, and the state after it.
pub open spec fn squeezed_bits<F: PrimeField64, C: Challenger<F>>(s: C::State, bits: nat) -> (
    nat,
    C::State,
) {
    let (v, next) = C::squeezed(s);
    (v.sp_canonical() % pow2(bits), next)
}

/// So many bits can be sampled at once.
pub open spec fn samplable<F: PrimeField64>(bits: nat) -> bool {
    bits < usize::BITS && pow2(bits) < F::sp_order()
}

/// Samples an integer of `bits` bits.
pub fn sample_bits<F: PrimeField64, C: Challenger<F>>(challenger: &mut C, bits: usize) -> (r: usize)
    requires
        samplable::<F>(bits as nat),
    ensures
        (r as nat, final(challenger).state()) == squeezed_bits::<F, C>(
            old(challenger).state(),
            bits as nat,
        ),
{
    let v: F = challenger.sample();
    let size: usize = two_pow(bits);
    let r: u64 = v.canonical() % (size as u64);
    proof {
        bits::lemma_fits(bits as nat);
    }
    r as usize
}

/// Whether a witness passes a proof of work, and the state after it is absorbed.
pub open spec fn witness_checked<F: PrimeField64, C: Challenger<F>>(
    s: C::State,
    bits: nat,
    witness: F,
) -> (bool, C::State) {
    if bits == 0 {
        (true, s)
    } else {
        let (v, next) = squeezed_bits::<F, C>(C::absorbed(s, witness), bits);
        (v == 0, next)
    }
}

/// Absorbs a witness and checks that the next `bits` bits are zero.
pub fn check_witness<F: PrimeField64, C: Challenger<F>>(
    challenger: &mut C,
    bits: usize,
    witness: F,
) -> (r: bool)
    requires
        samplable::<F>(bits as nat),
    ensures
        (r, final(challenger).state()) == witness_checked::<F, C>(
            old(challenger).state(),
            bits as nat,
            witness,
        ),
{
    if bits == 0 {
        return true;
    }
    challenger.observe(witness);
    sample_bits(challenger, bits) == 0
}

// The duplex sponge over the BabyBear field.

/// What [`baby_bear_duplex_observe`] returns: the sponge state and the two buffers after an element
/// is absorbed.
pub uninterp spec fn baby_bear_duplex_absorbed(
    sponge: Seq<u64>,
    input: Seq<u64>,
    output: Seq<u64>,
    v: u64,
) -> (Seq<u64>, Seq<u64>, Seq<u64>);

/// What [`baby_bear_duplex_sample`] returns: the sponge state and the two buffers after an element
/// is yielded, and the element.
pub uninterp spec fn baby_bear_duplex_squeezed(
    sponge: Seq<u64>,
    input: Seq<u64>,
    output: Seq<u64>,
) -> (Seq<u64>, Seq<u64>, Seq<u64>, u64);

/// `p3_challenger::DuplexChallenger::observe` of a challenger of width 16 and rate 8 with
/// `p3_baby_bear::default_babybear_poseidon2_16` as its permutation: a function of the sponge state,
/// the two buffers and the element. The input buffer never holds a full rate.
#[verifier::external_body]
fn baby_bear_duplex_observe(sponge: &[u64; 16], input: &Vec<u64>, output: &Vec<u64>, v: u64) -> (r: (
    [u64; 16],
    Vec<u64>,
    Vec<u64>,
))
    requires
        input@.len() < 8,
    ensures
        (r.0@, r.1@, r.2@) == baby_bear_duplex_absorbed(sponge@, input@, output@, v),
        r.1@.len() < 8,
{
    let mut c = p3_challenger::DuplexChallenger::<p3_baby_bear::BabyBear, _, 16, 8> {
        sponge_state: sponge.map(p3_baby_bear::BabyBear::from_u64),
        input_buffer: input.iter().copied().map(p3_baby_bear::BabyBear::from_u64).collect(),
        output_buffer: output.iter().copied().map(p3_baby_bear::BabyBear::from_u64).collect(),
        permutation: p3_baby_bear::default_babybear_poseidon2_16(),
    };
    c.observe(p3_baby_bear::BabyBear::from_u64(v));
    (
        c.sponge_state.map(|x| x.as_canonical_u64()),
        c.input_buffer.iter().map(|x| x.as_canonical_u64()).collect(),
        c.output_buffer.iter().map(|x| x.as_canonical_u64()).collect(),
    )
}

/// `p3_challenger::DuplexChallenger::sample` of the same challenger: a function of the sponge state
/// and the two buffers. Nothing stays in the input buffer.
#[verifier::external_body]
fn baby_bear_duplex_sample(sponge: &[u64; 16], input: &Vec<u64>, output: &Vec<u64>) -> (r: (
    [u64; 16],
    Vec<u64>,
    Vec<u64>,
    u64,
))
    requires
        input@.len() < 8,
    ensures
        (r.0@, r.1@, r.2@, r.3) == baby_bear_duplex_squeezed(sponge@, input@, output@),
        r.1@.len() == 0,
{
    let mut c = p3_challenger::DuplexChallenger::<p3_baby_bear::BabyBear, _, 16, 8> {
        sponge_state: sponge.map(p3_baby_bear::BabyBear::from_u64),
        input_buffer: input.iter().copied().map(p3_baby_bear::BabyBear::from_u64).collect(),
        output_buffer: output.iter().copied().map(p3_baby_bear::BabyBear::from_u64).collect(),
        permutation: p3_baby_bear::default_babybear_poseidon2_16(),
    };
    let v: p3_baby_bear::BabyBear = c.sample();
    (
        c.sponge_state.map(|x| x.as_canonical_u64()),
        c.input_buffer.iter().map(|x| x.as_canonical_u64()).collect(),
        c.output_buffer.iter().map(|x| x.as_canonical_u64()).collect(),
        v.as_canonical_u64(),
    )
}

/// The duplex-sponge transcript over the BabyBear field, with the Poseidon2 permutation of width 16
/// and a rate of 8.
pub struct BabyBearDuplexChallenger {
    sponge_state: [u64; 16],
    input_buffer: Vec<u64>,
    output_buffer: Vec<u64>,
}

impl BabyBearDuplexChallenger {
    #[verifier::type_invariant]
    spec fn buffered(self) -> bool {
        self.input_buffer@.len() < 8
    }

    /// A transcript that has absorbed nothing.
    pub fn new() -> (r: Self)
        ensures
            r.state() == (Seq::new(16, |i: int| 0u64), Seq::<u64>::empty(), Seq::<u64>::empty()),
    {
        let r = BabyBearDuplexChallenger {
            sponge_state: [0u64;16],
            input_buffer: Vec::new(),
            output_buffer: Vec::new(),
        };
        assert(r.sponge_state@ =~= Seq::new(16, |i: int| 0u64));
        r
    }
}

impl Challenger<BabyBear> for BabyBearDuplexChallenger {
    type State = (Seq<u64>, Seq<u64>, Seq<u64>);

    closed spec fn state(&self) -> (Seq<u64>, Seq<u64>, Seq<u64>) {
        (self.sponge_state@, self.input_buffer@, self.output_buffer@)
    }

    open spec fn absorbed(s: (Seq<u64>, Seq<u64>, Seq<u64>), v: BabyBear) -> (
        Seq<u64>,
        Seq<u64>,
        Seq<u64>,
    ) {
        baby_bear_duplex_absorbed(s.0, s.1, s.2, v.val() as u64)
    }

    open spec fn squeezed(s: (Seq<u64>, Seq<u64>, Seq<u64>)) -> (
        BabyBear,
        (Seq<u64>, Seq<u64>, Seq<u64>),
    ) {
        let (sponge, input, output, v) = baby_bear_duplex_squeezed(s.0, s.1, s.2);
        (Fp::of(v as nat), (sponge, input, output))
    }

    fn observe(&mut self, v: BabyBear) {
        proof {
            use_type_invariant(&*self);
        }
        let (sponge_state, input_buffer, output_buffer) = baby_bear_duplex_observe(
            &self.sponge_state,
            &self.input_buffer,
            &self.output_buffer,
            v.as_canonical_u64(),
        );
        *self = BabyBearDuplexChallenger { sponge_state, input_buffer, output_buffer };
    }

    fn sample(&mut self) -> (r: BabyBear) {
        proof {
            use_type_invariant(&*self);
        }
        let (sponge_state, input_buffer, output_buffer, v) = baby_bear_duplex_sample(
            &self.sponge_state,
            &self.input_buffer,
            &self.output_buffer,
        );
        *self = BabyBearDuplexChallenger { sponge_state, input_buffer, output_buffer };
        Fp::new(v)
    }

    fn fork(&self) -> (r: Self) {
        proof {
            use_type_invariant(self);
        }
        BabyBearDuplexChallenger {
            sponge_state: self.sponge_state,
            input_buffer: copy_vec(&self.input_buffer),
            output_buffer: copy_vec(&self.output_buffer),
        }
    }
}

} // verus!
