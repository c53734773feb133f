//! Replay of whole verifier transcripts.

use vstd::arithmetic::power2::*;
use vstd::prelude::*;

use crate::bits::two_pow;
use crate::challenger;
use crate::challenger::{
    observe_algebra_element, observe_slice, sample_algebra_element, Challenger, PrimeField64,
};
use crate::domains;
use crate::domains::{disjoint_domain, natural_domain, next_point, split_domains};
use crate::extension::ExtensionField;
use crate::field::TwoAdicField;
use crate::fri_witness::{FriInputMatrix, TwoAdicMultiplicativeCoset};
use crate::generation;
use crate::generation::{
    BatchFriWitnessContext, Claims, CommitmentWithOpenings, FriGenerationParams,
    FriTranscriptChallenges, GenerationError, PcsGeneration, Round,
};
use crate::seqs;
use crate::seqs::copy_vec;

verus! {

// Claims of single matrices.

pub open spec fn one_point<F, EF>(
    domain: TwoAdicMultiplicativeCoset<F>,
    point: EF,
    values: Seq<EF>,
) -> Claims<F, EF> {
    Claims { domain, points: seq![(point, values)] }
}

pub open spec fn two_points<F, EF>(
    domain: TwoAdicMultiplicativeCoset<F>,
    point: EF,
    values: Seq<EF>,
    next: EF,
    next_values: Seq<EF>,
) -> Claims<F, EF> {
    Claims { domain, points: seq![(point, values), (next, next_values)] }
}

pub(crate) fn claim_one<F: Copy, EF: Copy>(
    domain: TwoAdicMultiplicativeCoset<F>,
    point: EF,
    values: &Vec<EF>,
) -> (r: FriInputMatrix<TwoAdicMultiplicativeCoset<F>, EF>)
    ensures
        generation::claims_of(r) == one_point(domain, point, values@),
{
    let mut points: Vec<(EF, Vec<EF>)> = Vec::new();
    points.push((point, copy_vec(values)));
    let r = FriInputMatrix { domain, points_and_values: points };
    assert(generation::claims_of(r) =~= one_point(domain, point, values@));
    r
}

pub(crate) fn claim_two<F: Copy, EF: Copy>(
    domain: TwoAdicMultiplicativeCoset<F>,
    point: EF,
    values: &Vec<EF>,
    next: EF,
    next_values: &Vec<EF>,
) -> (r: FriInputMatrix<TwoAdicMultiplicativeCoset<F>, EF>)
    ensures
        generation::claims_of(r) == two_points(domain, point, values@, next, next_values@),
{
    let mut points: Vec<(EF, Vec<EF>)> = Vec::new();
    points.push((point, copy_vec(values)));
    points.push((next, copy_vec(next_values)));
    let r = FriInputMatrix { domain, points_and_values: points };
    assert(generation::claims_of(r) =~= two_points(domain, point, values@, next, next_values@));
    r
}

pub(crate) fn push_claim<F, EF>(
    matrices: &mut Vec<FriInputMatrix<TwoAdicMultiplicativeCoset<F>, EF>>,
    claim: FriInputMatrix<TwoAdicMultiplicativeCoset<F>, EF>,
)
    ensures
        generation::matrix_models(final(matrices)@) == generation::matrix_models(
            old(matrices)@,
        ).push(generation::claims_of(claim)),
{
    let ghost before = matrices@;
    matrices.push(claim);
    assert(generation::matrix_models(matrices@) =~= generation::matrix_models(before).push(
        generation::claims_of(claim),
    ));
}

pub(crate) fn push_round<F: Copy, EF>(
    rounds: &mut Vec<CommitmentWithOpenings<F, EF>>,
    commitment: &Vec<F>,
    matrices: Vec<FriInputMatrix<TwoAdicMultiplicativeCoset<F>, EF>>,
)
    ensures
        generation::round_models(final(rounds)@) == generation::round_models(old(rounds)@).push(
            Round {
                commitment: commitment@,
                matrices: generation::matrix_models(matrices@),
            },
        ),
{
    let ghost before = rounds@;
    let ghost added = generation::matrix_models(matrices@);
    rounds.push(CommitmentWithOpenings { commitment: copy_vec(commitment), matrices });
    assert(generation::round_models(rounds@) =~= generation::round_models(before).push(
        Round { commitment: commitment@, matrices: added },
    ));
}

/// The state after a number is absorbed as an extension element.
pub open spec fn absorbed_number<F: PrimeField64, EF: ExtensionField<F>, C: Challenger<F>>(
    s: C::State,
    n: nat,
) -> C::State {
    challenger::absorbed_element::<F, EF, C>(s, EF::sp_from_base(F::sp_from(n)))
}

fn observe_number<F: PrimeField64, EF: ExtensionField<F>, C: Challenger<F>>(
    challenger: &mut C,
    n: usize,
)
    ensures
        final(challenger).state() == absorbed_number::<F, EF, C>(
            old(challenger).state(),
            n as nat,
        ),
{
    observe_algebra_element::<F, EF, C>(challenger, EF::from_base(F::from_u64(n as u64)));
}

// Batches of instances.

/// What a replay reads of the constraints of one instance.
#[derive(Clone, Copy, Debug, PartialEq, Eq)]
pub struct AirShape {
    /// The number of main columns.
    pub width: usize,
    /// The logarithm of the number of quotient chunks, without the hiding extension.
    pub log_quotient_chunks: usize,
}

/// The preprocessed matrix of one instance.
#[derive(Clone, Copy, Debug, PartialEq, Eq)]
pub struct PreprocessedInstanceMeta {
    pub matrix_index: usize,
    pub width: usize,
    pub degree_bits: usize,
}

/// The preprocessed matrices of a batch, under one commitment.
pub struct GlobalPreprocessed<F> {
    pub commitment: Vec<F>,
    pub instances: Vec<Option<PreprocessedInstanceMeta>>,
    pub matrix_to_instance: Vec<usize>,
}

/// The commitments of a batch proof.
pub struct BatchCommitments<F> {
    pub main: Vec<F>,
    pub permutation: Option<Vec<F>>,
    pub quotient_chunks: Vec<F>,
    pub random: Option<Vec<F>>,
}

/// The values opened of one instance.
pub struct InstanceOpenedValues<EF> {
    pub trace_local: Vec<EF>,
    pub trace_next: Option<Vec<EF>>,
    pub preprocessed_local: Option<Vec<EF>>,
    pub preprocessed_next: Option<Vec<EF>>,
    pub quotient_chunks: Vec<Vec<EF>>,
    pub random: Option<Vec<EF>>,
    pub permutation_local: Vec<EF>,
    pub permutation_next: Vec<EF>,
}

/// A proof of a batch of instances, with the opening proof `O`.
pub struct BatchProof<F, EF, O> {
    pub commitments: BatchCommitments<F>,
    pub instances: Vec<InstanceOpenedValues<EF>>,
    pub opening_proof: O,
    /// One terminal per instance that declares lookups.
    pub lookup_terminals: Vec<Option<EF>>,
    pub degree_bits: Vec<usize>,
}

/// A batch proof with everything that its transcript is replayed against.
pub struct BatchReplay<F, EF, O> {
    pub stark: BatchProof<F, EF, O>,
    pub airs: Seq<AirShape>,
    pub public_values: Seq<Seq<F>>,
    pub preprocessed: Option<GlobalPreprocessed<F>>,
    /// Of each instance, whether it declares lookups.
    pub lookups: Seq<bool>,
    pub zk: bool,
}

pub open spec fn terminal_mismatch<EF>(
    lookups: Seq<bool>,
    terminals: Seq<Option<EF>>,
) -> spec_fn(int) -> bool {
    |j: int| lookups[j] != (terminals[j] is Some)
}

pub open spec fn wrong_length<EF>(chunks: Seq<Vec<EF>>, length: nat) -> spec_fn(int) -> bool {
    |c: int| chunks[c]@.len() != length
}

pub open spec fn smaller_of(a: nat, b: nat) -> nat {
    if a <= b {
        a
    } else {
        b
    }
}

/// The challenges of a batch transcript before its openings are absorbed.
pub struct BatchDraws<EF, S> {
    /// The permutation challenge pair, if any instance declares lookups.
    pub permutation: Seq<EF>,
    pub alpha: EF,
    pub zeta: EF,
    pub state: S,
}

impl<F: PrimeField64 + TwoAdicField, EF: ExtensionField<F>, O> BatchReplay<F, EF, O> {
    pub open spec fn count(self) -> nat {
        self.airs.len()
    }

    pub open spec fn zk_bits(self) -> nat {
        if self.zk {
            1
        } else {
            0
        }
    }

    pub open spec fn degree(self, i: int) -> nat {
        self.stark.degree_bits@[i] as nat
    }

    /// The logarithm of the length of the trace of an instance.
    pub open spec fn base_degree(self, i: int) -> nat {
        (self.degree(i) - self.zk_bits()) as nat
    }

    pub open spec fn log_chunks(self, i: int) -> nat {
        self.airs[i].log_quotient_chunks as nat + self.zk_bits()
    }

    /// Each instance brings exactly one terminal iff it declares any lookup.
    pub open spec fn terminals_differ(self) -> bool {
        seqs::least(
            smaller_of(self.lookups.len(), self.stark.lookup_terminals@.len()),
            terminal_mismatch(self.lookups, self.stark.lookup_terminals@),
        ) is Some
    }

    pub open spec fn lengths_differ(self) -> bool {
        ||| self.count() == 0
        ||| self.stark.instances@.len() != self.count()
        ||| self.public_values.len() != self.count()
        ||| self.stark.degree_bits@.len() != self.count()
    }

    pub open spec fn hides(self, i: int) -> bool {
        self.stark.instances@[i].random is Some
    }

    /// The randomization of the proof does not correspond to the scheme.
    pub open spec fn randomization_differs(self) -> bool {
        ||| exists|i: int| 0 <= i < self.count() && #[trigger] self.hides(i) != self.zk
        ||| (self.stark.commitments.random is Some) != self.zk
    }

    /// What is wrong with the lengths of the values opened of one instance.
    pub open spec fn values_failure(self, i: int) -> Option<GenerationError> {
        let inst = self.stark.instances@[i];
        if seqs::least(
            inst.quotient_chunks@.len(),
            wrong_length(inst.quotient_chunks@, EF::sp_dimension()),
        ) is Some {
            Some(GenerationError::InvalidProofShape("invalid quotient chunk length"))
        } else if inst.random is Some && inst.random->0@.len() != EF::sp_dimension() {
            Some(GenerationError::RandomizationError)
        } else {
            None
        }
    }

    pub open spec fn all_values_failure(self, n: nat) -> Option<GenerationError>
        decreases n,
    {
        if n == 0 {
            None
        } else {
            match self.all_values_failure((n - 1) as nat) {
                Some(e) => Some(e),
                None => self.values_failure(n - 1),
            }
        }
    }

    /// What is wrong with the degree of one instance.
    pub open spec fn degree_failure(self, i: int) -> Option<GenerationError> {
        if self.degree(i) < self.zk_bits() {
            Some(
                GenerationError::InvalidProofShape("extended degree smaller than zk adjustment"),
            )
        } else if self.base_degree(i) >= usize::BITS {
            Some(
                GenerationError::InvalidProofShape("base degree bits exceed the platform limit"),
            )
        } else {
            None
        }
    }

    pub open spec fn all_degrees_failure(self, n: nat) -> Option<GenerationError>
        decreases n,
    {
        if n == 0 {
            None
        } else {
            match self.all_degrees_failure((n - 1) as nat) {
                Some(e) => Some(e),
                None => self.degree_failure(n - 1),
            }
        }
    }

    /// What is wrong with the lists of the proof.
    pub open spec fn lists_failure(self) -> Option<GenerationError> {
        if self.terminals_differ() {
            Some(
                GenerationError::InvalidProofShape(
                    "Lookup terminal presence does not match the AIR's declared lookups",
                ),
            )
        } else if self.lengths_differ() {
            Some(
                GenerationError::InstanceMetadataLengthMismatch {
                    airs: self.count() as usize,
                    opened_values: self.stark.instances@.len() as usize,
                    public_values: self.public_values.len() as usize,
                    degree_bits: self.stark.degree_bits@.len() as usize,
                },
            )
        } else if self.randomization_differs() {
            Some(GenerationError::RandomizationError)
        } else {
            self.all_values_failure(self.count())
        }
    }

    /// What is wrong with the shape of the proof before any challenge is sampled.
    pub open spec fn shape_failure(self) -> Option<GenerationError> {
        match self.lists_failure() {
            Some(e) => Some(e),
            None => self.all_degrees_failure(self.count()),
        }
    }

    pub proof fn lemma_values_failure(self, k: nat, n: nat)
        requires
            k <= n,
            self.all_values_failure(k) is Some,
        ensures
            self.all_values_failure(n) == self.all_values_failure(k),
        decreases n,
    {
        if k < n {
            self.lemma_values_failure(k, (n - 1) as nat);
        }
    }

    pub proof fn lemma_degrees_failure(self, k: nat, n: nat)
        requires
            k <= n,
            self.all_degrees_failure(k) is Some,
        ensures
            self.all_degrees_failure(n) == self.all_degrees_failure(k),
        decreases n,
    {
        if k < n {
            self.lemma_degrees_failure(k, (n - 1) as nat);
        }
    }

    pub proof fn lemma_degrees_ok(self, i: int, n: nat)
        requires
            0 <= i < n,
            self.all_degrees_failure(n) is None,
        ensures
            self.degree_failure(i) is None,
        decreases n,
    {
        if i < n - 1 {
            self.lemma_degrees_ok(i, (n - 1) as nat);
        }
    }

    /// The width of the preprocessed matrix of an instance; zero without one.
    pub open spec fn preprocessed_width(self, i: int) -> nat {
        match self.preprocessed {
            Some(global) => match global.instances@[i] {
                Some(meta) => meta.width as nat,
                None => 0,
            },
            None => 0,
        }
    }

    /// The state after the shapes of the first `n` instances are absorbed.
    pub open spec fn bound<C: Challenger<F>>(self, s: C::State, n: nat) -> C::State
        decreases n,
    {
        if n == 0 {
            s
        } else {
            let i = n - 1;
            let s = self.bound::<C>(s, (n - 1) as nat);
            let s = absorbed_number::<F, EF, C>(s, self.degree(i));
            let s = absorbed_number::<F, EF, C>(s, self.base_degree(i));
            let s = absorbed_number::<F, EF, C>(s, self.airs[i].width as nat);
            absorbed_number::<F, EF, C>(s, pow2(self.log_chunks(i)))
        }
    }

    /// The state after the public values of the first `n` instances are absorbed.
    pub open spec fn publicised<C: Challenger<F>>(self, s: C::State, n: nat) -> C::State
        decreases n,
    {
        if n == 0 {
            s
        } else {
            challenger::absorbed_slice::<F, C>(
                self.publicised::<C>(s, (n - 1) as nat),
                self.public_values[n - 1],
            )
        }
    }

    /// The state after the preprocessed widths of the first `n` instances are absorbed.
    pub open spec fn widths_absorbed<C: Challenger<F>>(self, s: C::State, n: nat) -> C::State
        decreases n,
    {
        if n == 0 {
            s
        } else {
            absorbed_number::<F, EF, C>(
                self.widths_absorbed::<C>(s, (n - 1) as nat),
                self.preprocessed_width(n - 1),
            )
        }
    }

    /// The state after the first `n` lookup terminals are absorbed.
    pub open spec fn terminals_absorbed<C: Challenger<F>>(self, s: C::State, n: nat) -> C::State
        decreases n,
    {
        if n == 0 {
            s
        } else {
            let s = self.terminals_absorbed::<C>(s, (n - 1) as nat);
            match self.stark.lookup_terminals@[n - 1] {
                Some(terminal) => challenger::absorbed_element::<F, EF, C>(s, terminal),
                None => s,
            }
        }
    }

    /// The transcript up to the out-of-domain point.
    pub open spec fn draws<C: Challenger<F>>(self, s: C::State) -> BatchDraws<EF, C::State> {
        let commitments = self.stark.commitments;
        let s = absorbed_number::<F, EF, C>(s, self.count());
        let s = self.bound::<C>(s, self.count());
        let s = challenger::absorbed_slice::<F, C>(s, commitments.main@);
        let s = self.publicised::<C>(s, self.count());
        let s = self.widths_absorbed::<C>(s, self.count());
        let s = match self.preprocessed {
            Some(global) => challenger::absorbed_slice::<F, C>(s, global.commitment@),
            None => s,
        };
        let (permutation, s) = permutation_drawn::<F, EF, C>(s, self.lookups);
        let s = match commitments.permutation {
            Some(commitment) => self.terminals_absorbed::<C>(
                challenger::absorbed_slice::<F, C>(s, commitment@),
                self.stark.lookup_terminals@.len(),
            ),
            None => s,
        };
        let (alpha, s) = challenger::squeezed_element::<F, EF, C>(s);
        let s = challenger::absorbed_slice::<F, C>(s, commitments.quotient_chunks@);
        let s = match commitments.random {
            Some(commitment) => challenger::absorbed_slice::<F, C>(s, commitment@),
            None => s,
        };
        let (zeta, s) = challenger::squeezed_element::<F, EF, C>(s);
        BatchDraws { permutation, alpha, zeta, state: s }
    }

    pub open spec fn trace_domain(self, i: int) -> TwoAdicMultiplicativeCoset<F> {
        domains::natural(self.base_degree(i))
    }

    pub open spec fn extended_domain(self, i: int) -> TwoAdicMultiplicativeCoset<F> {
        domains::natural(self.degree(i))
    }

    /// The point after `zeta` in the trace domain of an instance.
    pub open spec fn zeta_next(self, i: int, zeta: EF) -> EF {
        domains::next(self.trace_domain(i), zeta)
    }

    pub open spec fn random_round(self, zeta: EF) -> Seq<Claims<F, EF>> {
        Seq::new(
            self.count(),
            |i: int|
                one_point(
                    self.extended_domain(i),
                    zeta,
                    self.stark.instances@[i].random->0@,
                ),
        )
    }

    pub open spec fn trace_round(self, zeta: EF) -> Seq<Claims<F, EF>> {
        Seq::new(
            self.count(),
            |i: int|
                {
                    let inst = self.stark.instances@[i];
                    match inst.trace_next {
                        Some(next) => two_points(
                            self.extended_domain(i),
                            zeta,
                            inst.trace_local@,
                            self.zeta_next(i, zeta),
                            next@,
                        ),
                        None => one_point(self.extended_domain(i), zeta, inst.trace_local@),
                    }
                },
        )
    }

    /// The domain on which a quotient chunk is committed.
    pub open spec fn quotient_domain(self, i: int, c: nat) -> TwoAdicMultiplicativeCoset<F> {
        let whole = domains::disjoint(
            self.extended_domain(i),
            self.base_degree(i) + self.log_chunks(i),
        );
        domains::natural(
            domains::chunk(whole, self.log_chunks(i), c).log_size as nat + self.zk_bits(),
        )
    }

    /// The claims of the quotient chunks of the first `n` instances.
    pub open spec fn quotient_round(self, zeta: EF, n: nat) -> Seq<Claims<F, EF>>
        decreases n,
    {
        if n == 0 {
            Seq::empty()
        } else {
            let chunks = self.stark.instances@[n - 1].quotient_chunks@;
            self.quotient_round(zeta, (n - 1) as nat) + Seq::new(
                chunks.len(),
                |c: int| one_point(self.quotient_domain(n - 1, c as nat), zeta, chunks[c]@),
            )
        }
    }

    pub open spec fn chunk_count_differs(self) -> spec_fn(int) -> bool {
        |i: int| self.stark.instances@[i].quotient_chunks@.len() != pow2(self.log_chunks(i))
    }

    /// The claims of the preprocessed matrices.
    pub open spec fn preprocessed_round(self, zeta: EF) -> Seq<Claims<F, EF>> {
        let global = self.preprocessed->0;
        Seq::new(
            global.matrix_to_instance@.len(),
            |m: int|
                {
                    let i = global.matrix_to_instance@[m] as int;
                    let inst = self.stark.instances@[i];
                    two_points(
                        domains::natural(global.instances@[i]->0.degree_bits as nat),
                        zeta,
                        inst.preprocessed_local->0@,
                        self.zeta_next(i, zeta),
                        inst.preprocessed_next->0@,
                    )
                },
        )
    }

    /// What is wrong with one preprocessed matrix.
    pub open spec fn matrix_failure(self, m: int) -> Option<GenerationError> {
        let global = self.preprocessed->0;
        let i = global.matrix_to_instance@[m] as int;
        let inst = self.stark.instances@[i];
        if self.preprocessed_width(i) == 0 {
            Some(
                GenerationError::InvalidProofShape(
                    "preprocessed width is zero but commitment exists",
                ),
            )
        } else if inst.preprocessed_local is None {
            Some(GenerationError::InvalidProofShape("preprocessed local values should exist"))
        } else if inst.preprocessed_next is None {
            Some(GenerationError::InvalidProofShape("preprocessed next values should exist"))
        } else if global.instances@[i]->0.matrix_index != m || global.instances@[i]->0.degree_bits
            != self.degree(i) {
            Some(GenerationError::InvalidProofShape("Preprocessed instance metadata mismatch"))
        } else {
            None
        }
    }

    pub open spec fn matrices_failure(self, n: nat) -> Option<GenerationError>
        decreases n,
    {
        if n == 0 {
            None
        } else {
            match self.matrices_failure((n - 1) as nat) {
                Some(e) => Some(e),
                None => self.matrix_failure(n - 1),
            }
        }
    }

    pub proof fn lemma_matrices_failure(self, k: nat, n: nat)
        requires
            k <= n,
            self.matrices_failure(k) is Some,
        ensures
            self.matrices_failure(n) == self.matrices_failure(k),
        decreases n,
    {
        if k < n {
            self.lemma_matrices_failure(k, (n - 1) as nat);
        }
    }

    pub open spec fn permutation_length_differs(self) -> spec_fn(int) -> bool {
        |i: int|
            self.stark.instances@[i].permutation_local@.len()
                != self.stark.instances@[i].permutation_next@.len()
    }

    /// The claims of the permutation columns of the first `n` instances; instances without such
    /// columns have none.
    pub open spec fn permutation_round(self, zeta: EF, n: nat) -> Seq<Claims<F, EF>>
        decreases n,
    {
        if n == 0 {
            Seq::empty()
        } else {
            let earlier = self.permutation_round(zeta, (n - 1) as nat);
            let inst = self.stark.instances@[n - 1];
            if inst.permutation_local@.len() == 0 {
                earlier
            } else {
                earlier.push(
                    two_points(
                        self.extended_domain(n - 1),
                        zeta,
                        inst.permutation_local@,
                        self.zeta_next(n - 1, zeta),
                        inst.permutation_next@,
                    ),
                )
            }
        }
    }

    /// All commitments with their claimed openings: random, trace, quotient, preprocessed and
    /// permutation.
    pub open spec fn rounds(self, zeta: EF) -> Seq<Round<F, EF>> {
        let commitments = self.stark.commitments;
        let first: Seq<Round<F, EF>> = match commitments.random {
            Some(commitment) => seq![
                Round { commitment: commitment@, matrices: self.random_round(zeta) },
            ],
            None => Seq::empty(),
        };
        let core = first.push(
            Round { commitment: commitments.main@, matrices: self.trace_round(zeta) },
        ).push(
            Round {
                commitment: commitments.quotient_chunks@,
                matrices: self.quotient_round(zeta, self.count()),
            },
        );
        let fixed = match self.preprocessed {
            Some(global) => core.push(
                Round {
                    commitment: global.commitment@,
                    matrices: self.preprocessed_round(zeta),
                },
            ),
            None => core,
        };
        match commitments.permutation {
            Some(commitment) => fixed.push(
                Round {
                    commitment: commitment@,
                    matrices: self.permutation_round(zeta, self.count()),
                },
            ),
            None => fixed,
        }
    }

    /// What is wrong with the claimed openings.
    pub open spec fn rounds_failure(self) -> Option<GenerationError> {
        let chunks = seqs::least(self.count(), self.chunk_count_differs());
        let fixed = match self.preprocessed {
            Some(global) => self.matrices_failure(global.matrix_to_instance@.len()),
            None => None,
        };
        if chunks is Some {
            Some(GenerationError::InvalidProofShape("quotient chunk count mismatch"))
        } else if fixed is Some {
            fixed
        } else if self.stark.commitments.permutation is Some && seqs::least(
            self.count(),
            self.permutation_length_differs(),
        ) is Some {
            Some(
                GenerationError::InvalidProofShape("Permutation opened values length mismatch"),
            )
        } else {
            None
        }
    }

    /// What the machine and the field ask of a proof: once its lists are right, its degrees are
    /// machine numbers, and once its shape is right, all its domains exist.
    pub open spec fn representable(self) -> bool {
        &&& self.lists_failure() is None ==> forall|i: int|
            0 <= i < self.count() ==> #[trigger] self.degree(i) <= u32::MAX
        &&& self.shape_failure() is None ==> self.domains_exist()
    }

    /// All domains of the proof exist, and the preprocessed metadata cover the instances.
    pub open spec fn domains_exist(self) -> bool {
        &&& self.lookups.len() >= self.count()
        &&& forall|i: int|
            0 <= i < self.count() ==> {
                &&& #[trigger] self.degree(i) <= F::sp_two_adicity()
                &&& self.base_degree(i) + self.log_chunks(i) <= F::sp_two_adicity()
                &&& self.degree(i) < usize::BITS
                &&& self.base_degree(i) + self.log_chunks(i) < usize::BITS
            }
        &&& match self.preprocessed {
            Some(global) => {
                &&& global.instances@.len() >= self.count()
                &&& forall|m: int|
                    0 <= m < global.matrix_to_instance@.len()
                        ==> (#[trigger] global.matrix_to_instance@[m]) < self.count()
            },
            None => true,
        }
    }
}

/// The permutation challenge pair, drawn if any instance declares lookups, and the state after it.
pub open spec fn permutation_drawn<F: PrimeField64, EF: ExtensionField<F>, C: Challenger<F>>(
    s: C::State,
    lookups: Seq<bool>,
) -> (Seq<EF>, C::State) {
    if lookups.contains(true) {
        let (alpha, s) = challenger::squeezed_element::<F, EF, C>(s);
        let (beta, s) = challenger::squeezed_element::<F, EF, C>(s);
        (seq![alpha, beta], s)
    } else {
        (Seq::empty(), s)
    }
}

/// Samples the batch's single permutation challenge pair on the transcript and returns it, so the
/// generated challenge public values stay in the sampling order. Nothing is drawn when no instance
/// declares a lookup. Each lookup takes exactly two challenges.
pub fn get_different_perm_challenges<F: PrimeField64, EF: ExtensionField<F>, C: Challenger<F>>(
    challenger: &mut C,
    all_lookups: &[bool],
    challenges_per_lookup: usize,
) -> (r: Vec<EF>)
    requires
        challenges_per_lookup == 2,
    ensures
        (r@, final(challenger).state()) == permutation_drawn::<F, EF, C>(
            old(challenger).state(),
            all_lookups@,
        ),
{
    let mut r: Vec<EF> = Vec::new();
    let mut i: usize = 0;
    while i < all_lookups.len()
        invariant
            i <= all_lookups@.len(),
            r@.len() == 0,
            challenger.state() == old(challenger).state(),
            forall|j: int| 0 <= j < i ==> !(#[trigger] all_lookups@[j]),
        decreases all_lookups@.len() - i,
    {
        if all_lookups[i] {
            assert(all_lookups@.contains(true));
            let alpha: EF = sample_algebra_element(challenger);
            let beta: EF = sample_algebra_element(challenger);
            r.push(alpha);
            r.push(beta);
            assert(r@ =~= seq![alpha, beta]);
            return r;
        }
        i += 1;
    }
    assert(!all_lookups@.contains(true));
    assert(r@ =~= Seq::empty());
    r
}

pub open spec fn public_models<F>(public_values: Seq<Vec<F>>) -> Seq<Seq<F>> {
    seqs::rows(public_values)
}

/// A batch proof with everything that its transcript is replayed against.
struct BatchInput<'a, F, EF, O> {
    stark: &'a BatchProof<F, EF, O>,
    airs: &'a [AirShape],
    public_values: &'a [Vec<F>],
    preprocessed: &'a Option<GlobalPreprocessed<F>>,
    lookups: &'a [bool],
    zk: bool,
}

impl<'a, F: PrimeField64 + TwoAdicField, EF: ExtensionField<F>, O> BatchInput<'a, F, EF, O> {
    spec fn model(self) -> BatchReplay<F, EF, O> {
        BatchReplay {
            stark: *self.stark,
            airs: self.airs@,
            public_values: public_models(self.public_values@),
            preprocessed: *self.preprocessed,
            lookups: self.lookups@,
            zk: self.zk,
        }
    }

    fn zk_bits(&self) -> (r: usize)
        ensures
            r == self.model().zk_bits(),
    {
        if self.zk {
            1
        } else {
            0
        }
    }

    fn check_terminals(&self) -> (r: bool)
        ensures
            r == !self.model().terminals_differ(),
    {
        let terminals = &self.stark.lookup_terminals;
        let mut n: usize = self.lookups.len();
        if n > terminals.len() {
            n = terminals.len();
        }
        let ghost bad = terminal_mismatch(self.lookups@, terminals@);
        let mut j: usize = 0;
        while j < n
            invariant
                j <= n,
                n == smaller_of(self.lookups@.len(), terminals@.len()),
                *terminals == self.stark.lookup_terminals,
                bad == terminal_mismatch(self.lookups@, terminals@),
                forall|i: int| 0 <= i < j ==> !#[trigger] bad(i),
            decreases n - j,
        {
            if self.lookups[j] != terminals[j].is_some() {
                proof {
                    assert(bad(j as int));
                    seqs::lemma_least_some(n as nat, bad, j as int);
                }
                return false;
            }
            assert(!bad(j as int));
            j += 1;
        }
        proof {
            seqs::lemma_least_none(n as nat, bad);
        }
        true
    }

    fn check_randomization(&self) -> (r: bool)
        requires
            !self.model().lengths_differ(),
        ensures
            r == !self.model().randomization_differs(),
    {
        let ghost replay = self.model();
        let mut i: usize = 0;
        while i < self.stark.instances.len()
            invariant
                i <= self.stark.instances@.len(),
                replay == self.model(),
                replay.count() == self.stark.instances@.len(),
                forall|j: int| 0 <= j < i ==> #[trigger] replay.hides(j) == self.zk,
            decreases self.stark.instances@.len() - i,
        {
            assert(replay.hides(i as int) == (self.stark.instances@[i as int].random is Some));
            if self.stark.instances[i].random.is_some() != self.zk {
                return false;
            }
            i += 1;
        }
        self.stark.commitments.random.is_some() == self.zk
    }

    fn check_values(&self) -> (r: Result<(), GenerationError>)
        requires
            !self.model().lengths_differ(),
        ensures
            r == (match self.model().all_values_failure(self.model().count()) {
                Some(e) => Err::<(), GenerationError>(e),
                None => Ok(()),
            }),
    {
        let ghost replay = self.model();
        let length: usize = EF::dimension();
        let n: usize = self.stark.instances.len();
        let mut i: usize = 0;
        while i < n
            invariant
                i <= n,
                n == self.stark.instances@.len(),
                n == replay.count(),
                replay == self.model(),
                length == EF::sp_dimension(),
                replay.all_values_failure(i as nat) is None,
            decreases n - i,
        {
            let inst = &self.stark.instances[i];
            let chunks = &inst.quotient_chunks;
            let ghost bad = wrong_length(chunks@, EF::sp_dimension());
            let mut c: usize = 0;
            while c < chunks.len()
                invariant
                    i < n,
                    n == self.stark.instances@.len(),
                    n == replay.count(),
                    replay == self.model(),
                    *inst == self.stark.instances@[i as int],
                    *chunks == inst.quotient_chunks,
                    length == EF::sp_dimension(),
                    replay.all_values_failure(i as nat) is None,
                    c <= chunks@.len(),
                    bad == wrong_length(chunks@, EF::sp_dimension()),
                    forall|j: int| 0 <= j < c ==> !#[trigger] bad(j),
                decreases chunks@.len() - c,
            {
                if chunks[c].len() != length {
                    proof {
                        assert(bad(c as int));
                        seqs::lemma_least_some(chunks@.len(), bad, c as int);
                        replay.lemma_values_failure((i + 1) as nat, n as nat);
                    }
                    return Err(GenerationError::InvalidProofShape("invalid quotient chunk length"));
                }
                assert(!bad(c as int));
                c += 1;
            }
            proof {
                seqs::lemma_least_none(chunks@.len(), bad);
            }
            if let Some(random) = &inst.random {
                if random.len() != length {
                    proof {
                        replay.lemma_values_failure((i + 1) as nat, n as nat);
                    }
                    return Err(GenerationError::RandomizationError);
                }
            }
            i += 1;
        }
        Ok(())
    }

    fn check_degrees(&self) -> (r: Result<(), GenerationError>)
        requires
            !self.model().lengths_differ(),
        ensures
            r == (match self.model().all_degrees_failure(self.model().count()) {
                Some(e) => Err::<(), GenerationError>(e),
                None => Ok(()),
            }),
    {
        let ghost replay = self.model();
        let zk: usize = self.zk_bits();
        let n: usize = self.airs.len();
        let mut i: usize = 0;
        while i < n
            invariant
                i <= n,
                n == self.stark.degree_bits@.len(),
                n == replay.count(),
                replay == self.model(),
                zk == replay.zk_bits(),
                replay.all_degrees_failure(i as nat) is None,
            decreases n - i,
        {
            let degree: usize = self.stark.degree_bits[i];
            assert(replay.degree(i as int) == degree);
            if degree < zk {
                proof {
                    replay.lemma_degrees_failure((i + 1) as nat, n as nat);
                }
                return Err(
                    GenerationError::InvalidProofShape(
                        "extended degree smaller than zk adjustment",
                    ),
                );
            }
            if degree - zk >= usize::BITS as usize {
                proof {
                    replay.lemma_degrees_failure((i + 1) as nat, n as nat);
                }
                return Err(
                    GenerationError::InvalidProofShape(
                        "base degree bits exceed the platform limit",
                    ),
                );
            }
            i += 1;
        }
        Ok(())
    }

    fn check_shape(&self) -> (r: Result<(), GenerationError>)
        ensures
            r == (match self.model().shape_failure() {
                Some(e) => Err::<(), GenerationError>(e),
                None => Ok(()),
            }),
    {
        if !self.check_terminals() {
            return Err(
                GenerationError::InvalidProofShape(
                    "Lookup terminal presence does not match the AIR's declared lookups",
                ),
            );
        }
        let n: usize = self.airs.len();
        if n == 0 || self.stark.instances.len() != n || self.public_values.len() != n
            || self.stark.degree_bits.len() != n {
            return Err(
                GenerationError::InstanceMetadataLengthMismatch {
                    airs: n,
                    opened_values: self.stark.instances.len(),
                    public_values: self.public_values.len(),
                    degree_bits: self.stark.degree_bits.len(),
                },
            );
        }
        if !self.check_randomization() {
            return Err(GenerationError::RandomizationError);
        }
        match self.check_values() {
            Err(e) => {
                return Err(e);
            },
            Ok(()) => {},
        }
        self.check_degrees()
    }

    fn preprocessed_width(&self, i: usize) -> (r: usize)
        requires
            self.model().domains_exist(),
            i < self.model().count(),
        ensures
            r == self.model().preprocessed_width(i as int),
    {
        match self.preprocessed {
            Some(global) => match &global.instances[i] {
                Some(meta) => meta.width,
                None => 0,
            },
            None => 0,
        }
    }

    /// Replays the transcript up to the out-of-domain point.
    fn draw<C: Challenger<F>>(&self, challenger: &mut C, challenges_per_lookup: usize) -> (r: (
        Vec<EF>,
        EF,
        EF,
    ))
        requires
            self.model().shape_failure() is None,
            self.model().domains_exist(),
            challenges_per_lookup == 2,
        ensures
            ({
                let draws = self.model().draws::<C>(old(challenger).state());
                &&& r.0@ == draws.permutation
                &&& r.1 == draws.alpha
                &&& r.2 == draws.zeta
                &&& final(challenger).state() == draws.state
            }),
    {
        let ghost replay = self.model();
        let n: usize = self.airs.len();
        let zk: usize = self.zk_bits();
        observe_number::<F, EF, C>(challenger, n);
        let ghost s1 = challenger.state();
        let mut i: usize = 0;
        while i < n
            invariant
                i <= n,
                n == replay.count(),
                replay == self.model(),
                replay.shape_failure() is None,
                replay.domains_exist(),
                zk == replay.zk_bits(),
                challenger.state() == replay.bound::<C>(s1, i as nat),
            decreases n - i,
        {
            let degree: usize = self.stark.degree_bits[i];
            assert(replay.degree(i as int) == degree);
            proof {
                replay.lemma_degrees_ok(i as int, n as nat);
            }
            let log_chunks: usize = self.airs[i].log_quotient_chunks + zk;
            observe_number::<F, EF, C>(challenger, degree);
            observe_number::<F, EF, C>(challenger, degree - zk);
            observe_number::<F, EF, C>(challenger, self.airs[i].width);
            observe_number::<F, EF, C>(challenger, two_pow(log_chunks));
            i += 1;
        }
        observe_slice(challenger, self.stark.commitments.main.as_slice());
        let ghost s2 = challenger.state();
        let mut i: usize = 0;
        while i < n
            invariant
                i <= n,
                n == replay.count(),
                replay == self.model(),
                n == self.public_values@.len(),
                challenger.state() == replay.publicised::<C>(s2, i as nat),
            decreases n - i,
        {
            observe_slice(challenger, self.public_values[i].as_slice());
            i += 1;
        }
        let ghost s3 = challenger.state();
        let mut i: usize = 0;
        while i < n
            invariant
                i <= n,
                n == replay.count(),
                replay == self.model(),
                replay.domains_exist(),
                challenger.state() == replay.widths_absorbed::<C>(s3, i as nat),
            decreases n - i,
        {
            observe_number::<F, EF, C>(challenger, self.preprocessed_width(i));
            i += 1;
        }
        if let Some(global) = self.preprocessed {
            observe_slice(challenger, global.commitment.as_slice());
        }
        let permutation: Vec<EF> = get_different_perm_challenges(
            challenger,
            self.lookups,
            challenges_per_lookup,
        );
        if let Some(commitment) = &self.stark.commitments.permutation {
            observe_slice(challenger, commitment.as_slice());
            let ghost s4 = challenger.state();
            let mut i: usize = 0;
            while i < self.stark.lookup_terminals.len()
                invariant
                    i <= self.stark.lookup_terminals@.len(),
                    replay == self.model(),
                    challenger.state() == replay.terminals_absorbed::<C>(s4, i as nat),
                decreases self.stark.lookup_terminals@.len() - i,
            {
                if let Some(terminal) = self.stark.lookup_terminals[i] {
                    observe_algebra_element(challenger, terminal);
                }
                i += 1;
            }
        }
        let alpha: EF = sample_algebra_element(challenger);
        observe_slice(challenger, self.stark.commitments.quotient_chunks.as_slice());
        if let Some(commitment) = &self.stark.commitments.random {
            observe_slice(challenger, commitment.as_slice());
        }
        let zeta: EF = sample_algebra_element(challenger);
        (permutation, alpha, zeta)
    }

    fn build_random_round(&self, zeta: EF) -> (r: Vec<
        FriInputMatrix<TwoAdicMultiplicativeCoset<F>, EF>,
    >)
        requires
            self.model().shape_failure() is None,
            self.zk,
        ensures
            generation::matrix_models(r@) == self.model().random_round(zeta),
    {
        let ghost replay = self.model();
        let n: usize = self.airs.len();
        let mut r: Vec<FriInputMatrix<TwoAdicMultiplicativeCoset<F>, EF>> = Vec::new();
        let mut i: usize = 0;
        assert(generation::matrix_models(r@) =~= replay.random_round(zeta).take(0));
        while i < n
            invariant
                i <= n,
                n == replay.count(),
                replay == self.model(),
                replay.shape_failure() is None,
                replay.zk,
                generation::matrix_models(r@) == replay.random_round(zeta).take(i as int),
            decreases n - i,
        {
            assert(replay.hides(i as int) == replay.zk);
            let domain = natural_domain::<F>(self.stark.degree_bits[i]);
            if let Some(values) = &self.stark.instances[i].random {
                let claim = claim_one(domain, zeta, values);
                push_claim(&mut r, claim);
            }
            i += 1;
            assert(generation::matrix_models(r@) =~= replay.random_round(zeta).take(i as int));
        }
        assert(generation::matrix_models(r@) =~= replay.random_round(zeta));
        r
    }

    fn build_trace_round(&self, zeta: EF) -> (r: Vec<
        FriInputMatrix<TwoAdicMultiplicativeCoset<F>, EF>,
    >)
        requires
            self.model().shape_failure() is None,
            self.model().domains_exist(),
        ensures
            generation::matrix_models(r@) == self.model().trace_round(zeta),
    {
        let ghost replay = self.model();
        let n: usize = self.airs.len();
        let zk: usize = self.zk_bits();
        let mut r: Vec<FriInputMatrix<TwoAdicMultiplicativeCoset<F>, EF>> = Vec::new();
        let mut i: usize = 0;
        assert(generation::matrix_models(r@) =~= replay.trace_round(zeta).take(0));
        while i < n
            invariant
                i <= n,
                n == replay.count(),
                replay == self.model(),
                replay.shape_failure() is None,
                replay.domains_exist(),
                zk == replay.zk_bits(),
                generation::matrix_models(r@) == replay.trace_round(zeta).take(i as int),
            decreases n - i,
        {
            let degree: usize = self.stark.degree_bits[i];
            assert(replay.degree(i as int) == degree);
            proof {
                replay.lemma_degrees_ok(i as int, n as nat);
            }
            let domain = natural_domain::<F>(degree);
            let inst = &self.stark.instances[i];
            match &inst.trace_next {
                Some(next) => {
                    let after: EF = next_point(natural_domain::<F>(degree - zk), zeta);
                    let claim = claim_two(domain, zeta, &inst.trace_local, after, next);
                    push_claim(&mut r, claim);
                },
                None => {
                    let claim = claim_one(domain, zeta, &inst.trace_local);
                    push_claim(&mut r, claim);
                },
            }
            i += 1;
            assert(generation::matrix_models(r@) =~= replay.trace_round(zeta).take(i as int));
        }
        assert(generation::matrix_models(r@) =~= replay.trace_round(zeta));
        r
    }

    fn build_quotient_round(&self, zeta: EF) -> (r: Result<
        Vec<FriInputMatrix<TwoAdicMultiplicativeCoset<F>, EF>>,
        GenerationError,
    >)
        requires
            self.model().shape_failure() is None,
            self.model().domains_exist(),
        ensures
            match r {
                Ok(claims) => {
                    &&& seqs::least(
                        self.model().count(),
                        self.model().chunk_count_differs(),
                    ) is None
                    &&& generation::matrix_models(claims@) == self.model().quotient_round(
                        zeta,
                        self.model().count(),
                    )
                },
                Err(e) => {
                    &&& seqs::least(
                        self.model().count(),
                        self.model().chunk_count_differs(),
                    ) is Some
                    &&& e == GenerationError::InvalidProofShape("quotient chunk count mismatch")
                },
            },
    {
        let ghost replay = self.model();
        let ghost differs = replay.chunk_count_differs();
        let n: usize = self.airs.len();
        let zk: usize = self.zk_bits();
        let mut r: Vec<FriInputMatrix<TwoAdicMultiplicativeCoset<F>, EF>> = Vec::new();
        let mut i: usize = 0;
        assert(generation::matrix_models(r@) =~= replay.quotient_round(zeta, 0));
        while i < n
            invariant
                i <= n,
                n == replay.count(),
                replay == self.model(),
                replay.shape_failure() is None,
                replay.domains_exist(),
                zk == replay.zk_bits(),
                differs == replay.chunk_count_differs(),
                forall|j: int| 0 <= j < i ==> !#[trigger] differs(j),
                generation::matrix_models(r@) == replay.quotient_round(zeta, i as nat),
            decreases n - i,
        {
            let degree: usize = self.stark.degree_bits[i];
            assert(replay.degree(i as int) == degree);
            proof {
                replay.lemma_degrees_ok(i as int, n as nat);
            }
            let log_chunks: usize = self.airs[i].log_quotient_chunks + zk;
            let whole = disjoint_domain(natural_domain::<F>(degree), degree - zk + log_chunks);
            let parts = split_domains(whole, log_chunks);
            let chunks = &self.stark.instances[i].quotient_chunks;
            if chunks.len() != parts.len() {
                proof {
                    assert(differs(i as int));
                    seqs::lemma_least_some(n as nat, differs, i as int);
                }
                return Err(GenerationError::InvalidProofShape("quotient chunk count mismatch"));
            }
            assert(!differs(i as int));
            let ghost before = generation::matrix_models(r@);
            let ghost added = Seq::new(
                chunks@.len(),
                |c: int| one_point(replay.quotient_domain(i as int, c as nat), zeta, chunks@[c]@),
            );
            let mut c: usize = 0;
            assert(generation::matrix_models(r@) =~= before + added.take(0));
            while c < chunks.len()
                invariant
                    i < n,
                    n == replay.count(),
                    replay == self.model(),
                    replay.domains_exist(),
                    zk == replay.zk_bits(),
                    replay.degree(i as int) == degree,
                    degree >= zk,
                    log_chunks == replay.log_chunks(i as int),
                    degree <= F::sp_two_adicity(),
                    *chunks == self.stark.instances@[i as int].quotient_chunks,
                    parts@.len() == chunks@.len(),
                    whole == domains::disjoint(
                        replay.extended_domain(i as int),
                        replay.base_degree(i as int) + replay.log_chunks(i as int),
                    ),
                    whole.log_size == degree - zk + log_chunks,
                    forall|j: int|
                        0 <= j < parts@.len() ==> #[trigger] parts@[j] == domains::chunk(
                            whole,
                            log_chunks as nat,
                            j as nat,
                        ),
                    added == Seq::new(
                        chunks@.len(),
                        |c: int|
                            one_point(
                                replay.quotient_domain(i as int, c as nat),
                                zeta,
                                chunks@[c]@,
                            ),
                    ),
                    c <= chunks@.len(),
                    generation::matrix_models(r@) == before + added.take(c as int),
                decreases chunks@.len() - c,
            {
                assert(parts@[c as int].log_size == degree - zk);
                let domain = natural_domain::<F>(parts[c].log_size + zk);
                let claim = claim_one(domain, zeta, &chunks[c]);
                push_claim(&mut r, claim);
                c += 1;
                assert(generation::matrix_models(r@) =~= before + added.take(c as int));
            }
            assert(added.take(c as int) =~= added);
            i += 1;
        }
        proof {
            seqs::lemma_least_none(n as nat, differs);
        }
        Ok(r)
    }

    fn build_preprocessed_round(&self, global: &GlobalPreprocessed<F>, zeta: EF) -> (r: Result<
        Vec<FriInputMatrix<TwoAdicMultiplicativeCoset<F>, EF>>,
        GenerationError,
    >)
        requires
            self.model().shape_failure() is None,
            self.model().domains_exist(),
            *self.preprocessed == Some(*global),
        ensures
            match r {
                Ok(claims) => {
                    &&& self.model().matrices_failure(global.matrix_to_instance@.len()) is None
                    &&& generation::matrix_models(claims@) == self.model().preprocessed_round(zeta)
                },
                Err(e) => self.model().matrices_failure(global.matrix_to_instance@.len()) == Some(
                    e,
                ),
            },
    {
        let ghost replay = self.model();
        let zk: usize = self.zk_bits();
        let ghost n = self.airs@.len();
        let mut r: Vec<FriInputMatrix<TwoAdicMultiplicativeCoset<F>, EF>> = Vec::new();
        let mut m: usize = 0;
        assert(generation::matrix_models(r@) =~= replay.preprocessed_round(zeta).take(0));
        while m < global.matrix_to_instance.len()
            invariant
                m <= global.matrix_to_instance@.len(),
                n == replay.count(),
                replay == self.model(),
                replay.shape_failure() is None,
                replay.domains_exist(),
                zk == replay.zk_bits(),
                *self.preprocessed == Some(*global),
                replay.matrices_failure(m as nat) is None,
                generation::matrix_models(r@) == replay.preprocessed_round(zeta).take(m as int),
            decreases global.matrix_to_instance@.len() - m,
        {
            let i: usize = global.matrix_to_instance[m];
            let ghost total = global.matrix_to_instance@.len();
            assert(global.matrix_to_instance@[m as int] < replay.count());
            if self.preprocessed_width(i) == 0 {
                proof {
                    replay.lemma_matrices_failure((m + 1) as nat, total);
                }
                return Err(
                    GenerationError::InvalidProofShape(
                        "preprocessed width is zero but commitment exists",
                    ),
                );
            }
            let inst = &self.stark.instances[i];
            let local: &Vec<EF> = match &inst.preprocessed_local {
                Some(local) => local,
                None => {
                    proof {
                        replay.lemma_matrices_failure((m + 1) as nat, total);
                    }
                    return Err(
                        GenerationError::InvalidProofShape(
                            "preprocessed local values should exist",
                        ),
                    );
                },
            };
            let next: &Vec<EF> = match &inst.preprocessed_next {
                Some(next) => next,
                None => {
                    proof {
                        replay.lemma_matrices_failure((m + 1) as nat, total);
                    }
                    return Err(
                        GenerationError::InvalidProofShape("preprocessed next values should exist"),
                    );
                },
            };
            let degree: usize = self.stark.degree_bits[i];
            assert(replay.degree(i as int) == degree);
            proof {
                replay.lemma_degrees_ok(i as int, n);
            }
            let meta: &PreprocessedInstanceMeta = match &global.instances[i] {
                Some(meta) => meta,
                None => {
                    assert(false);
                    return Err(
                        GenerationError::InvalidProofShape(
                            "Missing preprocessed instance metadata",
                        ),
                    );
                },
            };
            if meta.matrix_index != m || meta.degree_bits != degree {
                proof {
                    replay.lemma_matrices_failure((m + 1) as nat, total);
                }
                return Err(
                    GenerationError::InvalidProofShape("Preprocessed instance metadata mismatch"),
                );
            }
            let domain = natural_domain::<F>(meta.degree_bits);
            let after: EF = next_point(natural_domain::<F>(degree - zk), zeta);
            let claim = claim_two(domain, zeta, local, after, next);
            push_claim(&mut r, claim);
            m += 1;
            assert(generation::matrix_models(r@) =~= replay.preprocessed_round(zeta).take(
                m as int,
            ));
        }
        assert(generation::matrix_models(r@) =~= replay.preprocessed_round(zeta));
        Ok(r)
    }

    fn build_permutation_round(&self, zeta: EF) -> (r: Result<
        Vec<FriInputMatrix<TwoAdicMultiplicativeCoset<F>, EF>>,
        GenerationError,
    >)
        requires
            self.model().shape_failure() is None,
            self.model().domains_exist(),
        ensures
            match r {
                Ok(claims) => {
                    &&& seqs::least(
                        self.model().count(),
                        self.model().permutation_length_differs(),
                    ) is None
                    &&& generation::matrix_models(claims@) == self.model().permutation_round(
                        zeta,
                        self.model().count(),
                    )
                },
                Err(e) => {
                    &&& seqs::least(
                        self.model().count(),
                        self.model().permutation_length_differs(),
                    ) is Some
                    &&& e == GenerationError::InvalidProofShape(
                        "Permutation opened values length mismatch",
                    )
                },
            },
    {
        let ghost replay = self.model();
        let ghost differs = replay.permutation_length_differs();
        let n: usize = self.airs.len();
        let zk: usize = self.zk_bits();
        let mut r: Vec<FriInputMatrix<TwoAdicMultiplicativeCoset<F>, EF>> = Vec::new();
        let mut i: usize = 0;
        assert(generation::matrix_models(r@) =~= replay.permutation_round(zeta, 0));
        while i < n
            invariant
                i <= n,
                n == replay.count(),
                replay == self.model(),
                replay.shape_failure() is None,
                replay.domains_exist(),
                zk == replay.zk_bits(),
                differs == replay.permutation_length_differs(),
                forall|j: int| 0 <= j < i ==> !#[trigger] differs(j),
                generation::matrix_models(r@) == replay.permutation_round(zeta, i as nat),
            decreases n - i,
        {
            let inst = &self.stark.instances[i];
            if inst.permutation_local.len() != inst.permutation_next.len() {
                proof {
                    assert(differs(i as int));
                    seqs::lemma_least_some(n as nat, differs, i as int);
                }
                return Err(
                    GenerationError::InvalidProofShape("Permutation opened values length mismatch"),
                );
            }
            assert(!differs(i as int));
            if inst.permutation_local.len() != 0 {
                let degree: usize = self.stark.degree_bits[i];
                assert(replay.degree(i as int) == degree);
                proof {
                    replay.lemma_degrees_ok(i as int, n as nat);
                }
                let domain = natural_domain::<F>(degree);
                let after: EF = next_point(natural_domain::<F>(degree - zk), zeta);
                let claim = claim_two(
                    domain,
                    zeta,
                    &inst.permutation_local,
                    after,
                    &inst.permutation_next,
                );
                push_claim(&mut r, claim);
            }
            i += 1;
        }
        proof {
            seqs::lemma_least_none(n as nat, differs);
        }
        Ok(r)
    }

    /// All commitments with their claimed openings.
    fn build_rounds(&self, zeta: EF) -> (r: Result<
        Vec<CommitmentWithOpenings<F, EF>>,
        GenerationError,
    >)
        requires
            self.model().shape_failure() is None,
            self.model().domains_exist(),
        ensures
            match r {
                Ok(rounds) => {
                    &&& self.model().rounds_failure() is None
                    &&& generation::round_models(rounds@) == self.model().rounds(zeta)
                },
                Err(e) => self.model().rounds_failure() == Some(e),
            },
    {
        let commitments = &self.stark.commitments;
        let mut rounds: Vec<CommitmentWithOpenings<F, EF>> = Vec::new();
        assert(generation::round_models(rounds@) =~= Seq::<Round<F, EF>>::empty());
        if let Some(commitment) = &commitments.random {
            let claims = self.build_random_round(zeta);
            push_round(&mut rounds, commitment, claims);
            assert(generation::round_models(rounds@) =~= seq![
                Round { commitment: commitment@, matrices: self.model().random_round(zeta) },
            ]);
        }
        let claims = self.build_trace_round(zeta);
        push_round(&mut rounds, &commitments.main, claims);
        match self.build_quotient_round(zeta) {
            Err(e) => {
                return Err(e);
            },
            Ok(claims) => {
                push_round(&mut rounds, &commitments.quotient_chunks, claims);
            },
        }
        if let Some(global) = self.preprocessed {
            match self.build_preprocessed_round(global, zeta) {
                Err(e) => {
                    return Err(e);
                },
                Ok(claims) => {
                    push_round(&mut rounds, &global.commitment, claims);
                },
            }
        }
        if let Some(commitment) = &commitments.permutation {
            match self.build_permutation_round(zeta) {
                Err(e) => {
                    return Err(e);
                },
                Ok(claims) => {
                    push_round(&mut rounds, commitment, claims);
                },
            }
        }
        Ok(rounds)
    }
}

impl<F: PrimeField64 + TwoAdicField, EF: ExtensionField<F>, O> BatchReplay<F, EF, O> {
    /// The openings that the verifier of the scheme observes.
    pub open spec fn prepared<C: Challenger<F>, P: PcsGeneration<F, EF, OpeningProof = O>>(
        self,
        s: C::State,
    ) -> Seq<Round<F, EF>> {
        P::sp_prepared(self.rounds(self.draws::<C>(s).zeta), self.stark.opening_proof)
    }

    /// Why the FRI proof is not reached, if it is not.
    pub open spec fn early_failure<C: Challenger<F>, P: PcsGeneration<F, EF, OpeningProof = O>>(
        self,
        s: C::State,
    ) -> Option<GenerationError> {
        if self.shape_failure() is Some {
            self.shape_failure()
        } else if self.rounds_failure() is Some {
            self.rounds_failure()
        } else {
            P::sp_preparation_failure(
                self.rounds(self.draws::<C>(s).zeta),
                self.stark.opening_proof,
            )
        }
    }

    /// The replay of the FRI proof.
    pub open spec fn fri<C: Challenger<F>, P: PcsGeneration<F, EF, OpeningProof = O>>(
        self,
        s: C::State,
        params: FriGenerationParams,
    ) -> generation::FriReplayed<EF, C::State> {
        generation::fri_replayed::<F, EF, C, P::MerkleProof>(
            self.draws::<C>(s).state,
            self.prepared::<C, P>(s),
            P::sp_fri(self.stark.opening_proof),
            params,
        )
    }

    /// Why the transcript cannot be replayed, if it cannot.
    pub open spec fn failure<C: Challenger<F>, P: PcsGeneration<F, EF, OpeningProof = O>>(
        self,
        s: C::State,
        fri_params: Option<FriGenerationParams>,
    ) -> Option<GenerationError> {
        match self.early_failure::<C, P>(s) {
            Some(e) => Some(e),
            None => match fri_params {
                None => Some(GenerationError::MissingParameterError),
                Some(params) => if self.fri::<C, P>(s, params).last.failed {
                    Some(GenerationError::InvalidPowWitness)
                } else {
                    None
                },
            },
        }
    }

    /// All challenges in the order in which the verifier samples them.
    pub open spec fn challenges<C: Challenger<F>, P: PcsGeneration<F, EF, OpeningProof = O>>(
        self,
        s: C::State,
        params: FriGenerationParams,
    ) -> Seq<EF> {
        let draws = self.draws::<C>(s);
        draws.permutation + seq![draws.alpha, draws.zeta] + self.fri::<C, P>(
            s,
            params,
        ).last.public_values
    }
}

/// The matrices of each round.
pub open spec fn batches_of<F, EF>(rounds: Seq<Round<F, EF>>) -> Seq<Seq<Claims<F, EF>>> {
    Seq::new(rounds.len(), |r: int| rounds[r].matrices)
}

pub open spec fn batch_models<F, EF>(
    batches: Seq<Vec<FriInputMatrix<TwoAdicMultiplicativeCoset<F>, EF>>>,
) -> Seq<Seq<Claims<F, EF>>> {
    Seq::new(batches.len(), |b: int| generation::matrix_models(batches[b]@))
}

/// Drops the commitments of rounds.
pub(crate) fn into_batches<F, EF>(rounds: Vec<CommitmentWithOpenings<F, EF>>) -> (r: Vec<
    Vec<FriInputMatrix<TwoAdicMultiplicativeCoset<F>, EF>>,
>)
    ensures
        batch_models(r@) == batches_of(generation::round_models(rounds@)),
{
    let ghost models = generation::round_models(rounds@);
    let ghost total = rounds@.len();
    let mut rest = rounds;
    let mut reversed: Vec<CommitmentWithOpenings<F, EF>> = Vec::new();
    while rest.len() > 0
        invariant
            rest@.len() + reversed@.len() == total,
            total == models.len(),
            forall|i: int| 0 <= i < rest@.len() ==> (#[trigger] rest@[i])@ == models[i],
            forall|i: int|
                0 <= i < reversed@.len() ==> (#[trigger] reversed@[i])@ == models[total - 1 - i],
        decreases rest@.len(),
    {
        if let Some(round) = rest.pop() {
            reversed.push(round);
        }
    }
    let mut r: Vec<Vec<FriInputMatrix<TwoAdicMultiplicativeCoset<F>, EF>>> = Vec::new();
    while reversed.len() > 0
        invariant
            r@.len() + reversed@.len() == total,
            total == models.len(),
            forall|i: int|
                0 <= i < r@.len() ==> generation::matrix_models((#[trigger] r@[i])@)
                    == models[i].matrices,
            forall|i: int|
                0 <= i < reversed@.len() ==> (#[trigger] reversed@[i])@ == models[total - 1 - i],
        decreases reversed@.len(),
    {
        if let Some(round) = reversed.pop() {
            assert(round@ == models[r@.len() as int]);
            r.push(round.matrices);
        }
    }
    assert(batch_models(r@) =~= batches_of(models));
    r
}

/// The transcript values of a batch proof, as the replay determines them.
pub open spec fn batch_data_ok<
    F: PrimeField64 + TwoAdicField,
    EF: ExtensionField<F>,
    C: Challenger<F>,
    P: PcsGeneration<F, EF>,
>(
    replay: BatchReplay<F, EF, P::OpeningProof>,
    s: C::State,
    fri_params: Option<FriGenerationParams>,
    challenges: Seq<EF>,
    fri: FriTranscriptChallenges<EF>,
    batches: Seq<Seq<Claims<F, EF>>>,
) -> bool {
    &&& replay.failure::<C, P>(s, fri_params) is None
    &&& challenges == replay.challenges::<C, P>(s, fri_params->0)
    &&& generation::records(fri, replay.fri::<C, P>(s, fri_params->0))
    &&& batches == batches_of(replay.prepared::<C, P>(s))
}

/// The challenges of a batch proof, as the replay determines them.
pub open spec fn batch_challenges_ok<
    F: PrimeField64 + TwoAdicField,
    EF: ExtensionField<F>,
    C: Challenger<F>,
    P: PcsGeneration<F, EF>,
>(
    replay: BatchReplay<F, EF, P::OpeningProof>,
    s: C::State,
    fri_params: Option<FriGenerationParams>,
    challenges: Seq<EF>,
) -> bool {
    &&& replay.failure::<C, P>(s, fri_params) is None
    &&& challenges == replay.challenges::<C, P>(s, fri_params->0)
}

/// Replays the transcript of a batch proof.
///
/// The challenger is the one that the verifier starts from. `all_lookups` says of each instance
/// whether it declares lookups.
pub fn generate_batch_challenge_data<
    F: PrimeField64 + TwoAdicField,
    EF: ExtensionField<F>,
    C: Challenger<F>,
    P: PcsGeneration<F, EF>,
>(
    airs: &[AirShape],
    pcs: &P,
    challenger: C,
    stark: &BatchProof<F, EF, P::OpeningProof>,
    public_values: &[Vec<F>],
    fri_params: Option<FriGenerationParams>,
    preprocessed: &Option<GlobalPreprocessed<F>>,
    challenges_per_lookup: usize,
    all_lookups: &[bool],
) -> (r: Result<
    (
        Vec<EF>,
        FriTranscriptChallenges<EF>,
        Vec<Vec<FriInputMatrix<TwoAdicMultiplicativeCoset<F>, EF>>>,
    ),
    GenerationError,
>)
    requires
        challenges_per_lookup == 2,
        ({
            let replay = (BatchReplay {
                stark: *stark,
                airs: airs@,
                public_values: public_models(public_values@),
                preprocessed: *preprocessed,
                lookups: all_lookups@,
                zk: P::sp_zk(),
            });
            &&& replay.representable()
            &&& replay.early_failure::<C, P>(challenger.state()) is None && fri_params is Some
                ==> generation::replayable(P::sp_fri(stark.opening_proof), fri_params->0)
        }),
    ensures
        ({
            let replay = (BatchReplay {
                stark: *stark,
                airs: airs@,
                public_values: public_models(public_values@),
                preprocessed: *preprocessed,
                lookups: all_lookups@,
                zk: P::sp_zk(),
            });
            match r {
                Ok((challenges, fri, batches)) => batch_data_ok::<F, EF, C, P>(
                    replay,
                    challenger.state(),
                    fri_params,
                    challenges@,
                    fri,
                    batch_models(batches@),
                ),
                Err(e) => replay.failure::<C, P>(challenger.state(), fri_params) == Some(e),
            }
        }),
{
    let input = BatchInput {
        stark,
        airs,
        public_values,
        preprocessed,
        lookups: all_lookups,
        zk: P::zk(),
    };
    let ghost replay = input.model();
    let ghost s = challenger.state();
    let mut challenger = challenger;
    match input.check_shape() {
        Err(e) => {
            return Err(e);
        },
        Ok(()) => {},
    }
    let (permutation, alpha, zeta) = input.draw(&mut challenger, challenges_per_lookup);
    let rounds = match input.build_rounds(zeta) {
        Err(e) => {
            return Err(e);
        },
        Ok(rounds) => rounds,
    };
    let prepared = match pcs.prepare_openings(&rounds, &stark.opening_proof) {
        Err(e) => {
            return Err(e);
        },
        Ok(prepared) => prepared,
    };
    let fri = match pcs.generate_challenges(
        &mut challenger,
        &prepared,
        &stark.opening_proof,
        fri_params,
    ) {
        Err(e) => {
            return Err(e);
        },
        Ok(fri) => fri,
    };
    let mut challenges: Vec<EF> = permutation;
    challenges.push(alpha);
    challenges.push(zeta);
    seqs::append_copy(&mut challenges, &fri.public_values);
    assert(challenges@ =~= replay.challenges::<C, P>(s, fri_params->0));
    let batches = into_batches(prepared);
    Ok((challenges, fri, batches))
}

/// Generates the challenges used in the verification of a batch-STARK proof.
pub fn generate_batch_challenges<
    F: PrimeField64 + TwoAdicField,
    EF: ExtensionField<F>,
    C: Challenger<F>,
    P: PcsGeneration<F, EF>,
>(
    airs: &[AirShape],
    pcs: &P,
    challenger: C,
    stark: &BatchProof<F, EF, P::OpeningProof>,
    public_values: &[Vec<F>],
    fri_params: Option<FriGenerationParams>,
    preprocessed: &Option<GlobalPreprocessed<F>>,
    challenges_per_lookup: usize,
    all_lookups: &[bool],
) -> (r: Result<Vec<EF>, GenerationError>)
    requires
        challenges_per_lookup == 2,
        ({
            let replay = (BatchReplay {
                stark: *stark,
                airs: airs@,
                public_values: public_models(public_values@),
                preprocessed: *preprocessed,
                lookups: all_lookups@,
                zk: P::sp_zk(),
            });
            &&& replay.representable()
            &&& replay.early_failure::<C, P>(challenger.state()) is None && fri_params is Some
                ==> generation::replayable(P::sp_fri(stark.opening_proof), fri_params->0)
        }),
    ensures
        ({
            let replay = (BatchReplay {
                stark: *stark,
                airs: airs@,
                public_values: public_models(public_values@),
                preprocessed: *preprocessed,
                lookups: all_lookups@,
                zk: P::sp_zk(),
            });
            match r {
                Ok(challenges) => batch_challenges_ok::<F, EF, C, P>(
                    replay,
                    challenger.state(),
                    fri_params,
                    challenges@,
                ),
                Err(e) => replay.failure::<C, P>(challenger.state(), fri_params) == Some(e),
            }
        }),
{
    match generate_batch_challenge_data(
        airs,
        pcs,
        challenger,
        stark,
        public_values,
        fri_params,
        preprocessed,
        challenges_per_lookup,
        all_lookups,
    ) {
        Err(e) => Err(e),
        Ok((challenges, _, _)) => Ok(challenges),
    }
}

/// The context holds what a replay determines.
pub open spec fn context_records<F, EF, S>(
    context: BatchFriWitnessContext<TwoAdicMultiplicativeCoset<F>, EF>,
    fri: generation::FriReplayed<EF, S>,
    rounds: Seq<Round<F, EF>>,
) -> bool {
    &&& batch_models(context.input_batches@) == batches_of(rounds)
    &&& context.alpha == fri.alpha
    &&& context.betas@ == fri.last.betas
    &&& generation::nat_indices(context.query_indices@) == fri.last.query_indices
}

/// Generate the public transcript values and the typed host context used to expand shared FRI
/// multiproofs.
pub fn generate_batch_fri_witness_context<
    F: PrimeField64 + TwoAdicField,
    EF: ExtensionField<F>,
    C: Challenger<F>,
    P: PcsGeneration<F, EF>,
>(
    airs: &[AirShape],
    pcs: &P,
    challenger: C,
    stark: &BatchProof<F, EF, P::OpeningProof>,
    public_values: &[Vec<F>],
    fri_params: FriGenerationParams,
    preprocessed: &Option<GlobalPreprocessed<F>>,
    challenges_per_lookup: usize,
    verifier_lookups: &[bool],
) -> (r: Result<
    (Vec<EF>, BatchFriWitnessContext<TwoAdicMultiplicativeCoset<F>, EF>),
    GenerationError,
>)
    requires
        challenges_per_lookup == 2,
        ({
            let replay = (BatchReplay {
                stark: *stark,
                airs: airs@,
                public_values: public_models(public_values@),
                preprocessed: *preprocessed,
                lookups: verifier_lookups@,
                zk: P::sp_zk(),
            });
            &&& replay.representable()
            &&& replay.early_failure::<C, P>(challenger.state()) is None
                ==> generation::replayable(P::sp_fri(stark.opening_proof), fri_params)
        }),
    ensures
        ({
            let replay = (BatchReplay {
                stark: *stark,
                airs: airs@,
                public_values: public_models(public_values@),
                preprocessed: *preprocessed,
                lookups: verifier_lookups@,
                zk: P::sp_zk(),
            });
            match r {
                Ok((challenges, context)) => {
                    &&& replay.failure::<C, P>(challenger.state(), Some(fri_params)) is None
                    &&& challenges@ == replay.challenges::<C, P>(challenger.state(), fri_params)
                    &&& context_records(
                        context,
                        replay.fri::<C, P>(challenger.state(), fri_params),
                        replay.prepared::<C, P>(challenger.state()),
                    )
                },
                Err(e) => replay.failure::<C, P>(challenger.state(), Some(fri_params)) == Some(e),
            }
        }),
{
    match generate_batch_challenge_data(
        airs,
        pcs,
        challenger,
        stark,
        public_values,
        Some(fri_params),
        preprocessed,
        challenges_per_lookup,
        verifier_lookups,
    ) {
        Err(e) => Err(e),
        Ok((challenges, fri, input_batches)) => Ok(
            (
                challenges,
                BatchFriWitnessContext {
                    input_batches,
                    alpha: fri.alpha,
                    betas: fri.betas,
                    query_indices: fri.query_indices,
                },
            ),
        ),
    }
}

// Laws of the batch replay.

impl<F: PrimeField64 + TwoAdicField, EF: ExtensionField<F>, O> BatchReplay<F, EF, O> {
    /// How many permutation challenges are drawn.
    pub open spec fn permutation_count(self) -> nat {
        if self.lookups.contains(true) {
            2
        } else {
            0
        }
    }

    /// The places of the batches after the random one.
    pub open spec fn main_place(self) -> int {
        if self.stark.commitments.random is Some {
            1
        } else {
            0
        }
    }

    pub open spec fn quotient_place(self) -> int {
        self.main_place() + 1
    }

    pub open spec fn preprocessed_place(self) -> int {
        self.main_place() + 2
    }

    pub open spec fn permutation_place(self) -> int {
        self.preprocessed_place() + (if self.preprocessed is Some {
            1int
        } else {
            0
        })
    }

    /// How many batches there are.
    pub open spec fn batch_count(self) -> int {
        self.permutation_place() + (if self.stark.commitments.permutation is Some {
            1int
        } else {
            0
        })
    }
}

/// The challenges of a batch proof are the permutation challenges, a pair or none, then the
/// constraint challenge and the out-of-domain point, then the public values of the FRI replay.
pub proof fn law_batch_challenges_in_sampling_order<
    F: PrimeField64 + TwoAdicField,
    EF: ExtensionField<F>,
    C: Challenger<F>,
    P: PcsGeneration<F, EF>,
>(
    replay: BatchReplay<F, EF, P::OpeningProof>,
    s: C::State,
    fri_params: Option<FriGenerationParams>,
    challenges: Seq<EF>,
    fri: FriTranscriptChallenges<EF>,
    batches: Seq<Seq<Claims<F, EF>>>,
)
    requires
        batch_data_ok::<F, EF, C, P>(replay, s, fri_params, challenges, fri, batches),
    ensures
        ({
            let k = replay.permutation_count() as int;
            let draws = replay.draws::<C>(s);
            &&& challenges.len() == k + 2 + fri.public_values@.len()
            &&& challenges.take(k) == draws.permutation
            &&& challenges[k] == draws.alpha
            &&& challenges[k + 1] == draws.zeta
            &&& challenges.skip(k + 2) == fri.public_values@
        }),
{
    let k = replay.permutation_count() as int;
    let draws = replay.draws::<C>(s);
    assert(draws.permutation.len() == k);
    assert(challenges.take(k) =~= draws.permutation);
    assert(challenges.skip(k + 2) =~= fri.public_values@);
}

/// The input batches come in a fixed order: the random one where the proof has one, the trace, the
/// quotient, the preprocessed one where there is one, and the permutation one where the proof has
/// one. Each opens what the proof claims, with values appended at most.
pub proof fn law_batches_in_fixed_order<
    F: PrimeField64 + TwoAdicField,
    EF: ExtensionField<F>,
    C: Challenger<F>,
    P: PcsGeneration<F, EF>,
>(
    replay: BatchReplay<F, EF, P::OpeningProof>,
    s: C::State,
    fri_params: Option<FriGenerationParams>,
    challenges: Seq<EF>,
    fri: FriTranscriptChallenges<EF>,
    batches: Seq<Seq<Claims<F, EF>>>,
)
    requires
        batch_data_ok::<F, EF, C, P>(replay, s, fri_params, challenges, fri, batches),
    ensures
        ({
            let zeta = replay.draws::<C>(s).zeta;
            let n = replay.count();
            &&& batches.len() == replay.batch_count()
            &&& replay.stark.commitments.random is Some ==> generation::extends_claims(
                replay.random_round(zeta),
                batches[0],
            )
            &&& generation::extends_claims(
                replay.trace_round(zeta),
                batches[replay.main_place()],
            )
            &&& generation::extends_claims(
                replay.quotient_round(zeta, n),
                batches[replay.quotient_place()],
            )
            &&& replay.preprocessed is Some ==> generation::extends_claims(
                replay.preprocessed_round(zeta),
                batches[replay.preprocessed_place()],
            )
            &&& replay.stark.commitments.permutation is Some ==> generation::extends_claims(
                replay.permutation_round(zeta, n),
                batches[replay.permutation_place()],
            )
        }),
{
    let zeta = replay.draws::<C>(s).zeta;
    let rounds = replay.rounds(zeta);
    let prepared = replay.prepared::<C, P>(s);
    P::preparation_extends(rounds, replay.stark.opening_proof);
    assert(rounds.len() == replay.batch_count());
    assert forall|r: int| 0 <= r < rounds.len() implies generation::extends_claims(
        (#[trigger] rounds[r]).matrices,
        batches[r],
    ) by {
        assert(batches[r] == prepared[r].matrices);
    }
    if replay.stark.commitments.random is Some {
        assert(rounds[0].matrices == replay.random_round(zeta));
    }
    assert(rounds[replay.main_place()].matrices == replay.trace_round(zeta));
    assert(rounds[replay.quotient_place()].matrices == replay.quotient_round(
        zeta,
        replay.count(),
    ));
    if replay.preprocessed is Some {
        assert(rounds[replay.preprocessed_place()].matrices == replay.preprocessed_round(zeta));
    }
    if replay.stark.commitments.permutation is Some {
        assert(rounds[replay.permutation_place()].matrices == replay.permutation_round(
            zeta,
            replay.count(),
        ));
    }
}

/// The challenges alone and the challenges that come with the FRI data are the same, where both
/// replays see the same lookups.
pub proof fn law_batch_functions_agree<
    F: PrimeField64 + TwoAdicField,
    EF: ExtensionField<F>,
    C: Challenger<F>,
    P: PcsGeneration<F, EF>,
>(
    replay: BatchReplay<F, EF, P::OpeningProof>,
    s: C::State,
    fri_params: Option<FriGenerationParams>,
    challenges: Seq<EF>,
    fri: FriTranscriptChallenges<EF>,
    batches: Seq<Seq<Claims<F, EF>>>,
    alone: Seq<EF>,
)
    requires
        batch_data_ok::<F, EF, C, P>(replay, s, fri_params, challenges, fri, batches),
        batch_challenges_ok::<F, EF, C, P>(replay, s, fri_params, alone),
    ensures
        alone == challenges,
{
}

} // verus!
