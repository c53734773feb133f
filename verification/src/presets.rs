//! Presets of the Poseidon2 tables: field, extension degree, state width and round constants.
//!
//! ```text
//!     Field       Extension degree   State width   Partial rounds
//!     BabyBear    1                  16            13
//!     BabyBear    4                  16            13
//!     BabyBear    4                  24            21
//!     BabyBear    4                  32            30
//!     KoalaBear   1                  16            20
//!     KoalaBear   4                  16            20
//!     KoalaBear   4                  24            23
//!     KoalaBear   1                  32            31
//!     KoalaBear   4                  32            31
//!     Goldilocks  1                  12            22
//!     Goldilocks  2                   8            22
//!     Goldilocks  2                  16            22
//! ```

use p3_field::PrimeField64;
use rand::distr::StandardUniform;
use rand::rngs::SmallRng;
use rand::{RngExt, SeedableRng};
use vstd::prelude::*;

use crate::config::Poseidon2Config;
use crate::field::{
    BabyBear, BabyBearModulus, Field, Fp, Goldilocks, GoldilocksModulus, KoalaBear,
    KoalaBearModulus, PrimeModulus,
};
use crate::poseidon2_constants::{
    BABY_BEAR_16_FIRST, BABY_BEAR_16_LAST, BABY_BEAR_16_PARTIAL, BABY_BEAR_24_FIRST,
    BABY_BEAR_24_LAST, BABY_BEAR_24_PARTIAL, BABY_BEAR_32_FIRST, BABY_BEAR_32_LAST,
    BABY_BEAR_32_PARTIAL, KOALA_BEAR_16_FIRST, KOALA_BEAR_16_LAST, KOALA_BEAR_16_PARTIAL,
    KOALA_BEAR_24_FIRST, KOALA_BEAR_24_LAST, KOALA_BEAR_24_PARTIAL, KOALA_BEAR_32_FIRST,
    KOALA_BEAR_32_LAST, KOALA_BEAR_32_PARTIAL,
};
use crate::poseidon2_hash;
use crate::poseidon2_hash::elements_of;
use crate::seqs;

verus! {

/// The round constants of a Poseidon2 permutation.
#[derive(Clone, Debug, PartialEq, Eq)]
pub struct RoundConstants<F> {
    /// One row for each of the first full rounds.
    pub beginning_full: Vec<Vec<F>>,
    /// One constant for each partial round.
    pub partial: Vec<F>,
    /// One row for each of the last full rounds.
    pub ending_full: Vec<Vec<F>>,
}

/// Round constants as sequences: the first full rounds, the partial rounds, the last full rounds.
pub open spec fn parts<F>(c: RoundConstants<F>) -> (Seq<Seq<F>>, Seq<F>, Seq<Seq<F>>) {
    (seqs::rows(c.beginning_full@), c.partial@, seqs::rows(c.ending_full@))
}

/// There are `full` rows of `width` constants on either side and `partial` constants between.
pub open spec fn shaped<F>(
    c: (Seq<Seq<F>>, Seq<F>, Seq<Seq<F>>),
    width: nat,
    full: nat,
    partial: nat,
) -> bool {
    &&& c.0.len() == full
    &&& c.1.len() == partial
    &&& c.2.len() == full
    &&& forall|i: int| 0 <= i < full ==> (#[trigger] c.0[i]).len() == width
    &&& forall|i: int| 0 <= i < full ==> (#[trigger] c.2[i]).len() == width
}

/// The rows of field elements with the given representatives.
pub open spec fn element_rows<M: PrimeModulus>(words: Seq<Seq<u64>>) -> Seq<Seq<Fp<M>>> {
    Seq::new(words.len(), |i: int| poseidon2_hash::elements::<M>(words[i]))
}

/// The round constants with the given representatives.
pub open spec fn constants<M: PrimeModulus>(words: (Seq<Seq<u64>>, Seq<u64>, Seq<Seq<u64>>)) -> (
    Seq<Seq<Fp<M>>>,
    Seq<Fp<M>>,
    Seq<Seq<Fp<M>>>,
) {
    (
        element_rows::<M>(words.0),
        poseidon2_hash::elements::<M>(words.1),
        element_rows::<M>(words.2),
    )
}

/// The three tables of one permutation as sequences.
pub open spec fn tables<const W: usize, const P: usize>(
    first: [[u64; W]; 4],
    partial: [u64; P],
    last: [[u64; W]; 4],
) -> (Seq<Seq<u64>>, Seq<u64>, Seq<Seq<u64>>) {
    (Seq::new(4, |i: int| first@[i]@), partial@, Seq::new(4, |i: int| last@[i]@))
}

pub open spec fn baby_bear_16() -> (Seq<Seq<u64>>, Seq<u64>, Seq<Seq<u64>>) {
    tables(BABY_BEAR_16_FIRST, BABY_BEAR_16_PARTIAL, BABY_BEAR_16_LAST)
}

pub open spec fn baby_bear_24() -> (Seq<Seq<u64>>, Seq<u64>, Seq<Seq<u64>>) {
    tables(BABY_BEAR_24_FIRST, BABY_BEAR_24_PARTIAL, BABY_BEAR_24_LAST)
}

pub open spec fn baby_bear_32() -> (Seq<Seq<u64>>, Seq<u64>, Seq<Seq<u64>>) {
    tables(BABY_BEAR_32_FIRST, BABY_BEAR_32_PARTIAL, BABY_BEAR_32_LAST)
}

pub open spec fn koala_bear_16() -> (Seq<Seq<u64>>, Seq<u64>, Seq<Seq<u64>>) {
    tables(KOALA_BEAR_16_FIRST, KOALA_BEAR_16_PARTIAL, KOALA_BEAR_16_LAST)
}

pub open spec fn koala_bear_24() -> (Seq<Seq<u64>>, Seq<u64>, Seq<Seq<u64>>) {
    tables(KOALA_BEAR_24_FIRST, KOALA_BEAR_24_PARTIAL, KOALA_BEAR_24_LAST)
}

pub open spec fn koala_bear_32() -> (Seq<Seq<u64>>, Seq<u64>, Seq<Seq<u64>>) {
    tables(KOALA_BEAR_32_FIRST, KOALA_BEAR_32_PARTIAL, KOALA_BEAR_32_LAST)
}

/// What a Poseidon2 table is set up with.
#[derive(Clone, Debug, PartialEq, Eq)]
pub struct Poseidon2AirSetup<F> {
    pub config: Poseidon2Config,
    /// Base elements per value on the witness bus.
    pub witness_ext_d: usize,
    pub round_constants: RoundConstants<F>,
    /// Preprocessed values in row-major order; none for a table that only verifies.
    pub preprocessed: Vec<F>,
    /// The minimum trace height that is asked for.
    pub min_height: usize,
}

impl<F: Field> Poseidon2AirSetup<F> {
    /// A table without preprocessed values.
    fn new(config: Poseidon2Config, witness_ext_d: usize, round_constants: RoundConstants<F>) -> (r:
        Self)
        ensures
            r.config == config,
            r.witness_ext_d == witness_ext_d,
            r.round_constants == round_constants,
            r.preprocessed@.len() == 0,
            r.min_height == 1,
    {
        Poseidon2AirSetup {
            config,
            witness_ext_d,
            round_constants,
            preprocessed: Vec::new(),
            min_height: 1,
        }
    }

    /// A table with preprocessed values and a minimum height.
    fn new_with_preprocessed(
        config: Poseidon2Config,
        witness_ext_d: usize,
        round_constants: RoundConstants<F>,
        preprocessed: Vec<F>,
        min_height: usize,
    ) -> (r: Self)
        ensures
            r.config == config,
            r.witness_ext_d == witness_ext_d,
            r.round_constants == round_constants,
            r.preprocessed == preprocessed,
            r.min_height == min_height,
    {
        Poseidon2AirSetup { config, witness_ext_d, round_constants, preprocessed, min_height }
    }
}

/// A preset: a field and a configuration.
pub trait Poseidon2Params: Sized {
    type BaseField: Field;

    spec fn sp_config() -> Poseidon2Config;

    fn config() -> (r: Poseidon2Config)
        ensures
            r == Self::sp_config(),
    ;
}

fn rows_of<M: PrimeModulus>(words: &Vec<Vec<u64>>) -> (r: Vec<Vec<Fp<M>>>)
    ensures
        seqs::rows(r@) == element_rows::<M>(seqs::rows(words@)),
{
    let ghost want = element_rows::<M>(seqs::rows(words@));
    let mut r: Vec<Vec<Fp<M>>> = Vec::new();
    let mut i: usize = 0;
    while i < words.len()
        invariant
            i <= words@.len(),
            want == element_rows::<M>(seqs::rows(words@)),
            r@.len() == i,
            forall|j: int| 0 <= j < i ==> (#[trigger] r@[j])@ == want[j],
        decreases words@.len() - i,
    {
        let row: Vec<Fp<M>> = elements_of(words[i].as_slice());
        r.push(row);
        i += 1;
    }
    assert(seqs::rows(r@) =~= want);
    r
}

fn constants_of<M: PrimeModulus>(words: &(Vec<Vec<u64>>, Vec<u64>, Vec<Vec<u64>>)) -> (r:
    RoundConstants<Fp<M>>)
    ensures
        parts(r) == constants::<M>(
            (seqs::rows(words.0@), words.1@, seqs::rows(words.2@)),
        ),
{
    RoundConstants {
        beginning_full: rows_of(&words.0),
        partial: elements_of(words.1.as_slice()),
        ending_full: rows_of(&words.2),
    }
}

/// `p3_baby_bear::BABYBEAR_POSEIDON2_RC_16_EXTERNAL_INITIAL`, `..._INTERNAL` and `..._EXTERNAL_FINAL`:
/// four rows of 16 constants, 13 constants, and four rows again, with the values of the tables of the
/// same width in [`crate::poseidon2_constants`].
#[verifier::external_body]
fn baby_bear_constants_16() -> (r: (Vec<Vec<u64>>, Vec<u64>, Vec<Vec<u64>>))
    ensures
        (seqs::rows(r.0@), r.1@, seqs::rows(r.2@)) == baby_bear_16(),
{
    let row = |r: &[p3_baby_bear::BabyBear; 16]| r.iter().map(|x| x.as_canonical_u64()).collect();
    (
        p3_baby_bear::BABYBEAR_POSEIDON2_RC_16_EXTERNAL_INITIAL.iter().map(row).collect(),
        p3_baby_bear::BABYBEAR_POSEIDON2_RC_16_INTERNAL.iter().map(|x| x.as_canonical_u64()).collect(),
        p3_baby_bear::BABYBEAR_POSEIDON2_RC_16_EXTERNAL_FINAL.iter().map(row).collect(),
    )
}

/// `p3_baby_bear::BABYBEAR_POSEIDON2_RC_24_EXTERNAL_INITIAL`, `..._INTERNAL` and `..._EXTERNAL_FINAL`:
/// four rows of 24 constants, 21 constants, and four rows again, with the values of the tables of the
/// same width in [`crate::poseidon2_constants`].
#[verifier::external_body]
fn baby_bear_constants_24() -> (r: (Vec<Vec<u64>>, Vec<u64>, Vec<Vec<u64>>))
    ensures
        (seqs::rows(r.0@), r.1@, seqs::rows(r.2@)) == baby_bear_24(),
{
    let row = |r: &[p3_baby_bear::BabyBear; 24]| r.iter().map(|x| x.as_canonical_u64()).collect();
    (
        p3_baby_bear::BABYBEAR_POSEIDON2_RC_24_EXTERNAL_INITIAL.iter().map(row).collect(),
        p3_baby_bear::BABYBEAR_POSEIDON2_RC_24_INTERNAL.iter().map(|x| x.as_canonical_u64()).collect(),
        p3_baby_bear::BABYBEAR_POSEIDON2_RC_24_EXTERNAL_FINAL.iter().map(row).collect(),
    )
}

/// `p3_baby_bear::BABYBEAR_POSEIDON2_RC_32_EXTERNAL_INITIAL`, `..._INTERNAL` and `..._EXTERNAL_FINAL`:
/// four rows of 32 constants, 30 constants, and four rows again, with the values of the tables of the
/// same width in [`crate::poseidon2_constants`].
#[verifier::external_body]
fn baby_bear_constants_32() -> (r: (Vec<Vec<u64>>, Vec<u64>, Vec<Vec<u64>>))
    ensures
        (seqs::rows(r.0@), r.1@, seqs::rows(r.2@)) == baby_bear_32(),
{
    let row = |r: &[p3_baby_bear::BabyBear; 32]| r.iter().map(|x| x.as_canonical_u64()).collect();
    (
        p3_baby_bear::BABYBEAR_POSEIDON2_RC_32_EXTERNAL_INITIAL.iter().map(row).collect(),
        p3_baby_bear::BABYBEAR_POSEIDON2_RC_32_INTERNAL.iter().map(|x| x.as_canonical_u64()).collect(),
        p3_baby_bear::BABYBEAR_POSEIDON2_RC_32_EXTERNAL_FINAL.iter().map(row).collect(),
    )
}

/// `p3_koala_bear::KOALABEAR_POSEIDON2_RC_16_EXTERNAL_INITIAL`, `..._INTERNAL` and `..._EXTERNAL_FINAL`:
/// four rows of 16 constants, 20 constants, and four rows again, with the values of the tables of the
/// same width in [`crate::poseidon2_constants`].
#[verifier::external_body]
fn koala_bear_constants_16() -> (r: (Vec<Vec<u64>>, Vec<u64>, Vec<Vec<u64>>))
    ensures
        (seqs::rows(r.0@), r.1@, seqs::rows(r.2@)) == koala_bear_16(),
{
    let row = |r: &[p3_koala_bear::KoalaBear; 16]| r.iter().map(|x| x.as_canonical_u64()).collect();
    (
        p3_koala_bear::KOALABEAR_POSEIDON2_RC_16_EXTERNAL_INITIAL.iter().map(row).collect(),
        p3_koala_bear::KOALABEAR_POSEIDON2_RC_16_INTERNAL.iter().map(|x| x.as_canonical_u64()).collect(),
        p3_koala_bear::KOALABEAR_POSEIDON2_RC_16_EXTERNAL_FINAL.iter().map(row).collect(),
    )
}

/// `p3_koala_bear::KOALABEAR_POSEIDON2_RC_24_EXTERNAL_INITIAL`, `..._INTERNAL` and `..._EXTERNAL_FINAL`:
/// four rows of 24 constants, 23 constants, and four rows again, with the values of the tables of the
/// same width in [`crate::poseidon2_constants`].
#[verifier::external_body]
fn koala_bear_constants_24() -> (r: (Vec<Vec<u64>>, Vec<u64>, Vec<Vec<u64>>))
    ensures
        (seqs::rows(r.0@), r.1@, seqs::rows(r.2@)) == koala_bear_24(),
{
    let row = |r: &[p3_koala_bear::KoalaBear; 24]| r.iter().map(|x| x.as_canonical_u64()).collect();
    (
        p3_koala_bear::KOALABEAR_POSEIDON2_RC_24_EXTERNAL_INITIAL.iter().map(row).collect(),
        p3_koala_bear::KOALABEAR_POSEIDON2_RC_24_INTERNAL.iter().map(|x| x.as_canonical_u64()).collect(),
        p3_koala_bear::KOALABEAR_POSEIDON2_RC_24_EXTERNAL_FINAL.iter().map(row).collect(),
    )
}

/// `p3_koala_bear::KOALABEAR_POSEIDON2_RC_32_EXTERNAL_INITIAL`, `..._INTERNAL` and `..._EXTERNAL_FINAL`:
/// four rows of 32 constants, 31 constants, and four rows again, with the values of the tables of the
/// same width in [`crate::poseidon2_constants`].
#[verifier::external_body]
fn koala_bear_constants_32() -> (r: (Vec<Vec<u64>>, Vec<u64>, Vec<Vec<u64>>))
    ensures
        (seqs::rows(r.0@), r.1@, seqs::rows(r.2@)) == koala_bear_32(),
{
    let row = |r: &[p3_koala_bear::KoalaBear; 32]| r.iter().map(|x| x.as_canonical_u64()).collect();
    (
        p3_koala_bear::KOALABEAR_POSEIDON2_RC_32_EXTERNAL_INITIAL.iter().map(row).collect(),
        p3_koala_bear::KOALABEAR_POSEIDON2_RC_32_INTERNAL.iter().map(|x| x.as_canonical_u64()).collect(),
        p3_koala_bear::KOALABEAR_POSEIDON2_RC_32_EXTERNAL_FINAL.iter().map(row).collect(),
    )
}

/// What [`goldilocks_constants_12`] returns on a machine with words of `word_bits` bits.
pub uninterp spec fn goldilocks_drawn_12(word_bits: nat, seed: u64) -> (
    Seq<Seq<u64>>,
    Seq<u64>,
    Seq<Seq<u64>>,
);

/// `rand::rngs::SmallRng` seeded with `seed`, sampled for four rows of 12 constants, four rows
/// again, and 22 constants. Which generator it is depends on the size of a machine word, and its
/// output on the seed alone.
#[verifier::external_body]
fn goldilocks_constants_12(seed: u64) -> (r: (Vec<Vec<u64>>, Vec<u64>, Vec<Vec<u64>>))
    ensures
        (seqs::rows(r.0@), r.1@, seqs::rows(r.2@)) == goldilocks_drawn_12(
            usize::BITS as nat,
            seed,
        ),
        shaped((seqs::rows(r.0@), r.1@, seqs::rows(r.2@)), 12, 4, 22),
{
    let mut rng = SmallRng::seed_from_u64(seed);
    let beginning: [[p3_goldilocks::Goldilocks; 12]; 4] = rng.sample(StandardUniform);
    let ending: [[p3_goldilocks::Goldilocks; 12]; 4] = rng.sample(StandardUniform);
    let partial: [p3_goldilocks::Goldilocks; 22] = rng.sample(StandardUniform);
    let row = |r: &[p3_goldilocks::Goldilocks; 12]| r.iter().map(|x| x.as_canonical_u64()).collect();
    (
        beginning.iter().map(row).collect(),
        partial.iter().map(|x| x.as_canonical_u64()).collect(),
        ending.iter().map(row).collect(),
    )
}

/// What [`goldilocks_constants_8`] returns on a machine with words of `word_bits` bits.
pub uninterp spec fn goldilocks_drawn_8(word_bits: nat, seed: u64) -> (
    Seq<Seq<u64>>,
    Seq<u64>,
    Seq<Seq<u64>>,
);

/// `rand::rngs::SmallRng` seeded with `seed`, sampled for four rows of 8 constants, four rows
/// again, and 22 constants. Which generator it is depends on the size of a machine word, and its
/// output on the seed alone.
#[verifier::external_body]
fn goldilocks_constants_8(seed: u64) -> (r: (Vec<Vec<u64>>, Vec<u64>, Vec<Vec<u64>>))
    ensures
        (seqs::rows(r.0@), r.1@, seqs::rows(r.2@)) == goldilocks_drawn_8(
            usize::BITS as nat,
            seed,
        ),
        shaped((seqs::rows(r.0@), r.1@, seqs::rows(r.2@)), 8, 4, 22),
{
    let mut rng = SmallRng::seed_from_u64(seed);
    let beginning: [[p3_goldilocks::Goldilocks; 8]; 4] = rng.sample(StandardUniform);
    let ending: [[p3_goldilocks::Goldilocks; 8]; 4] = rng.sample(StandardUniform);
    let partial: [p3_goldilocks::Goldilocks; 22] = rng.sample(StandardUniform);
    let row = |r: &[p3_goldilocks::Goldilocks; 8]| r.iter().map(|x| x.as_canonical_u64()).collect();
    (
        beginning.iter().map(row).collect(),
        partial.iter().map(|x| x.as_canonical_u64()).collect(),
        ending.iter().map(row).collect(),
    )
}

/// What [`goldilocks_constants_16`] returns on a machine with words of `word_bits` bits.
pub uninterp spec fn goldilocks_drawn_16(word_bits: nat, seed: u64) -> (
    Seq<Seq<u64>>,
    Seq<u64>,
    Seq<Seq<u64>>,
);

/// `rand::rngs::SmallRng` seeded with `seed`, sampled for four rows of 16 constants, four rows
/// again, and 22 constants. Which generator it is depends on the size of a machine word, and its
/// output on the seed alone.
#[verifier::external_body]
fn goldilocks_constants_16(seed: u64) -> (r: (Vec<Vec<u64>>, Vec<u64>, Vec<Vec<u64>>))
    ensures
        (seqs::rows(r.0@), r.1@, seqs::rows(r.2@)) == goldilocks_drawn_16(
            usize::BITS as nat,
            seed,
        ),
        shaped((seqs::rows(r.0@), r.1@, seqs::rows(r.2@)), 16, 4, 22),
{
    let mut rng = SmallRng::seed_from_u64(seed);
    let beginning: [[p3_goldilocks::Goldilocks; 16]; 4] = rng.sample(StandardUniform);
    let ending: [[p3_goldilocks::Goldilocks; 16]; 4] = rng.sample(StandardUniform);
    let partial: [p3_goldilocks::Goldilocks; 22] = rng.sample(StandardUniform);
    let row = |r: &[p3_goldilocks::Goldilocks; 16]| r.iter().map(|x| x.as_canonical_u64()).collect();
    (
        beginning.iter().map(row).collect(),
        partial.iter().map(|x| x.as_canonical_u64()).collect(),
        ending.iter().map(row).collect(),
    )
}

/// Fixed seed of the width-12 Goldilocks round constants.
///
/// This value is consensus-critical: provers and verifiers must agree on it.
pub const VERIDIAN_GOLDILOCKS_W12_SEED: u64 = 0x0056_4552_4944_414e;

/// Seed of the width-8 and width-16 Goldilocks round constants.
pub const GOLDILOCKS_D2_SEED: u64 = 1;

/// The width-12 Goldilocks round constants.
pub open spec fn goldilocks_12() -> (Seq<Seq<u64>>, Seq<u64>, Seq<Seq<u64>>) {
    goldilocks_drawn_12(usize::BITS as nat, VERIDIAN_GOLDILOCKS_W12_SEED)
}

/// The width-8 Goldilocks round constants.
pub open spec fn goldilocks_8() -> (Seq<Seq<u64>>, Seq<u64>, Seq<Seq<u64>>) {
    goldilocks_drawn_8(usize::BITS as nat, GOLDILOCKS_D2_SEED)
}

/// The width-16 Goldilocks round constants.
pub open spec fn goldilocks_16() -> (Seq<Seq<u64>>, Seq<u64>, Seq<Seq<u64>>) {
    goldilocks_drawn_16(usize::BITS as nat, GOLDILOCKS_D2_SEED)
}

/// BabyBear with base-field challenges and a 16-element state.
#[derive(Clone, Copy, Debug, PartialEq, Eq)]
pub struct BabyBearD1Width16 {}

impl Poseidon2Params for BabyBearD1Width16 {
    type BaseField = BabyBear;

    open spec fn sp_config() -> Poseidon2Config {
        Poseidon2Config::BABY_BEAR_D1_W16
    }

    fn config() -> (r: Poseidon2Config) {
        Poseidon2Config::BABY_BEAR_D1_W16
    }
}

impl BabyBearD1Width16 {
    /// The canonical round constants.
    pub fn round_constants() -> (r: RoundConstants<BabyBear>)
        ensures
            parts(r) == constants::<BabyBearModulus>(baby_bear_16()),
            shaped(parts(r), 16, 4, 13),
    {
        constants_of(&baby_bear_constants_16())
    }

    /// A table without preprocessed values.
    pub fn default_air() -> (r: Poseidon2AirSetup<BabyBear>)
        ensures
            r.config == Poseidon2Config::BABY_BEAR_D1_W16,
            r.witness_ext_d == 1,
            parts(r.round_constants) == constants::<BabyBearModulus>(baby_bear_16()),
            r.preprocessed@.len() == 0,
            r.min_height == 1,
    {
        Poseidon2AirSetup::new(Poseidon2Config::BABY_BEAR_D1_W16, 1, Self::round_constants())
    }

    /// A table with preprocessed values and a minimum height.
    pub fn default_air_with_preprocessed(preprocessed: Vec<BabyBear>, min_height: usize) -> (r:
        Poseidon2AirSetup<BabyBear>)
        ensures
            r.config == Poseidon2Config::BABY_BEAR_D1_W16,
            r.witness_ext_d == 1,
            parts(r.round_constants) == constants::<BabyBearModulus>(baby_bear_16()),
            r.preprocessed == preprocessed,
            r.min_height == min_height,
    {
        Poseidon2AirSetup::new_with_preprocessed(
            Poseidon2Config::BABY_BEAR_D1_W16,
            1,
            Self::round_constants(),
            preprocessed,
            min_height,
        )
    }

    /// A table whose witness-bus values are padded to five elements.
    pub fn default_air_with_preprocessed_witness_bus5(
        preprocessed: Vec<BabyBear>,
        min_height: usize,
    ) -> (r: Poseidon2AirSetup<BabyBear>)
        ensures
            r.config == Poseidon2Config::BABY_BEAR_D1_W16,
            r.witness_ext_d == 5,
            parts(r.round_constants) == constants::<BabyBearModulus>(baby_bear_16()),
            r.preprocessed == preprocessed,
            r.min_height == min_height,
    {
        Poseidon2AirSetup::new_with_preprocessed(
            Poseidon2Config::BABY_BEAR_D1_W16,
            5,
            Self::round_constants(),
            preprocessed,
            min_height,
        )
    }
}

/// BabyBear with a quartic extension and a 16-element state.
#[derive(Clone, Copy, Debug, PartialEq, Eq)]
pub struct BabyBearD4Width16 {}

impl Poseidon2Params for BabyBearD4Width16 {
    type BaseField = BabyBear;

    open spec fn sp_config() -> Poseidon2Config {
        Poseidon2Config::BABY_BEAR_D4_W16
    }

    fn config() -> (r: Poseidon2Config) {
        Poseidon2Config::BABY_BEAR_D4_W16
    }
}

impl BabyBearD4Width16 {
    /// The canonical round constants.
    pub fn round_constants() -> (r: RoundConstants<BabyBear>)
        ensures
            parts(r) == constants::<BabyBearModulus>(baby_bear_16()),
            shaped(parts(r), 16, 4, 13),
    {
        constants_of(&baby_bear_constants_16())
    }

    /// A table without preprocessed values.
    pub fn default_air() -> (r: Poseidon2AirSetup<BabyBear>)
        ensures
            r.config == Poseidon2Config::BABY_BEAR_D4_W16,
            r.witness_ext_d == 4,
            parts(r.round_constants) == constants::<BabyBearModulus>(baby_bear_16()),
            r.preprocessed@.len() == 0,
            r.min_height == 1,
    {
        Poseidon2AirSetup::new(Poseidon2Config::BABY_BEAR_D4_W16, 4, Self::round_constants())
    }

    /// A table with preprocessed values and a minimum height.
    pub fn default_air_with_preprocessed(preprocessed: Vec<BabyBear>, min_height: usize) -> (r:
        Poseidon2AirSetup<BabyBear>)
        ensures
            r.config == Poseidon2Config::BABY_BEAR_D4_W16,
            r.witness_ext_d == 4,
            parts(r.round_constants) == constants::<BabyBearModulus>(baby_bear_16()),
            r.preprocessed == preprocessed,
            r.min_height == min_height,
    {
        Poseidon2AirSetup::new_with_preprocessed(
            Poseidon2Config::BABY_BEAR_D4_W16,
            4,
            Self::round_constants(),
            preprocessed,
            min_height,
        )
    }
}

/// BabyBear with a quartic extension and a 24-element state.
#[derive(Clone, Copy, Debug, PartialEq, Eq)]
pub struct BabyBearD4Width24 {}

impl Poseidon2Params for BabyBearD4Width24 {
    type BaseField = BabyBear;

    open spec fn sp_config() -> Poseidon2Config {
        Poseidon2Config::BABY_BEAR_D4_W24
    }

    fn config() -> (r: Poseidon2Config) {
        Poseidon2Config::BABY_BEAR_D4_W24
    }
}

impl BabyBearD4Width24 {
    /// The canonical round constants.
    pub fn round_constants() -> (r: RoundConstants<BabyBear>)
        ensures
            parts(r) == constants::<BabyBearModulus>(baby_bear_24()),
            shaped(parts(r), 24, 4, 21),
    {
        constants_of(&baby_bear_constants_24())
    }

    /// A table without preprocessed values.
    pub fn default_air() -> (r: Poseidon2AirSetup<BabyBear>)
        ensures
            r.config == Poseidon2Config::BABY_BEAR_D4_W24,
            r.witness_ext_d == 4,
            parts(r.round_constants) == constants::<BabyBearModulus>(baby_bear_24()),
            r.preprocessed@.len() == 0,
            r.min_height == 1,
    {
        Poseidon2AirSetup::new(Poseidon2Config::BABY_BEAR_D4_W24, 4, Self::round_constants())
    }

    /// A table with preprocessed values and a minimum height.
    pub fn default_air_with_preprocessed(preprocessed: Vec<BabyBear>, min_height: usize) -> (r:
        Poseidon2AirSetup<BabyBear>)
        ensures
            r.config == Poseidon2Config::BABY_BEAR_D4_W24,
            r.witness_ext_d == 4,
            parts(r.round_constants) == constants::<BabyBearModulus>(baby_bear_24()),
            r.preprocessed == preprocessed,
            r.min_height == min_height,
    {
        Poseidon2AirSetup::new_with_preprocessed(
            Poseidon2Config::BABY_BEAR_D4_W24,
            4,
            Self::round_constants(),
            preprocessed,
            min_height,
        )
    }
}

/// BabyBear with a quartic extension and a 32-element state, which compresses four digests.
#[derive(Clone, Copy, Debug, PartialEq, Eq)]
pub struct BabyBearD4Width32 {}

impl Poseidon2Params for BabyBearD4Width32 {
    type BaseField = BabyBear;

    open spec fn sp_config() -> Poseidon2Config {
        Poseidon2Config::BABY_BEAR_D4_W32
    }

    fn config() -> (r: Poseidon2Config) {
        Poseidon2Config::BABY_BEAR_D4_W32
    }
}

impl BabyBearD4Width32 {
    /// The canonical round constants.
    pub fn round_constants() -> (r: RoundConstants<BabyBear>)
        ensures
            parts(r) == constants::<BabyBearModulus>(baby_bear_32()),
            shaped(parts(r), 32, 4, 30),
    {
        constants_of(&baby_bear_constants_32())
    }

    /// A table without preprocessed values.
    pub fn default_air() -> (r: Poseidon2AirSetup<BabyBear>)
        ensures
            r.config == Poseidon2Config::BABY_BEAR_D4_W32,
            r.witness_ext_d == 4,
            parts(r.round_constants) == constants::<BabyBearModulus>(baby_bear_32()),
            r.preprocessed@.len() == 0,
            r.min_height == 1,
    {
        Poseidon2AirSetup::new(Poseidon2Config::BABY_BEAR_D4_W32, 4, Self::round_constants())
    }

    /// A table with preprocessed values and a minimum height.
    pub fn default_air_with_preprocessed(preprocessed: Vec<BabyBear>, min_height: usize) -> (r:
        Poseidon2AirSetup<BabyBear>)
        ensures
            r.config == Poseidon2Config::BABY_BEAR_D4_W32,
            r.witness_ext_d == 4,
            parts(r.round_constants) == constants::<BabyBearModulus>(baby_bear_32()),
            r.preprocessed == preprocessed,
            r.min_height == min_height,
    {
        Poseidon2AirSetup::new_with_preprocessed(
            Poseidon2Config::BABY_BEAR_D4_W32,
            4,
            Self::round_constants(),
            preprocessed,
            min_height,
        )
    }
}

/// KoalaBear with base-field challenges and a 16-element state.
#[derive(Clone, Copy, Debug, PartialEq, Eq)]
pub struct KoalaBearD1Width16 {}

impl Poseidon2Params for KoalaBearD1Width16 {
    type BaseField = KoalaBear;

    open spec fn sp_config() -> Poseidon2Config {
        Poseidon2Config::KOALA_BEAR_D1_W16
    }

    fn config() -> (r: Poseidon2Config) {
        Poseidon2Config::KOALA_BEAR_D1_W16
    }
}

impl KoalaBearD1Width16 {
    /// The canonical round constants.
    pub fn round_constants() -> (r: RoundConstants<KoalaBear>)
        ensures
            parts(r) == constants::<KoalaBearModulus>(koala_bear_16()),
            shaped(parts(r), 16, 4, 20),
    {
        constants_of(&koala_bear_constants_16())
    }

    /// A table without preprocessed values.
    pub fn default_air() -> (r: Poseidon2AirSetup<KoalaBear>)
        ensures
            r.config == Poseidon2Config::KOALA_BEAR_D1_W16,
            r.witness_ext_d == 1,
            parts(r.round_constants) == constants::<KoalaBearModulus>(koala_bear_16()),
            r.preprocessed@.len() == 0,
            r.min_height == 1,
    {
        Poseidon2AirSetup::new(Poseidon2Config::KOALA_BEAR_D1_W16, 1, Self::round_constants())
    }

    /// A table with preprocessed values and a minimum height.
    pub fn default_air_with_preprocessed(preprocessed: Vec<KoalaBear>, min_height: usize) -> (r:
        Poseidon2AirSetup<KoalaBear>)
        ensures
            r.config == Poseidon2Config::KOALA_BEAR_D1_W16,
            r.witness_ext_d == 1,
            parts(r.round_constants) == constants::<KoalaBearModulus>(koala_bear_16()),
            r.preprocessed == preprocessed,
            r.min_height == min_height,
    {
        Poseidon2AirSetup::new_with_preprocessed(
            Poseidon2Config::KOALA_BEAR_D1_W16,
            1,
            Self::round_constants(),
            preprocessed,
            min_height,
        )
    }

    /// A table whose witness-bus values are padded to five elements.
    pub fn default_air_with_preprocessed_witness_bus5(
        preprocessed: Vec<KoalaBear>,
        min_height: usize,
    ) -> (r: Poseidon2AirSetup<KoalaBear>)
        ensures
            r.config == Poseidon2Config::KOALA_BEAR_D1_W16,
            r.witness_ext_d == 5,
            parts(r.round_constants) == constants::<KoalaBearModulus>(koala_bear_16()),
            r.preprocessed == preprocessed,
            r.min_height == min_height,
    {
        Poseidon2AirSetup::new_with_preprocessed(
            Poseidon2Config::KOALA_BEAR_D1_W16,
            5,
            Self::round_constants(),
            preprocessed,
            min_height,
        )
    }
}

/// KoalaBear with a quartic extension and a 16-element state.
#[derive(Clone, Copy, Debug, PartialEq, Eq)]
pub struct KoalaBearD4Width16 {}

impl Poseidon2Params for KoalaBearD4Width16 {
    type BaseField = KoalaBear;

    open spec fn sp_config() -> Poseidon2Config {
        Poseidon2Config::KOALA_BEAR_D4_W16
    }

    fn config() -> (r: Poseidon2Config) {
        Poseidon2Config::KOALA_BEAR_D4_W16
    }
}

impl KoalaBearD4Width16 {
    /// The canonical round constants.
    pub fn round_constants() -> (r: RoundConstants<KoalaBear>)
        ensures
            parts(r) == constants::<KoalaBearModulus>(koala_bear_16()),
            shaped(parts(r), 16, 4, 20),
    {
        constants_of(&koala_bear_constants_16())
    }

    /// A table without preprocessed values.
    pub fn default_air() -> (r: Poseidon2AirSetup<KoalaBear>)
        ensures
            r.config == Poseidon2Config::KOALA_BEAR_D4_W16,
            r.witness_ext_d == 4,
            parts(r.round_constants) == constants::<KoalaBearModulus>(koala_bear_16()),
            r.preprocessed@.len() == 0,
            r.min_height == 1,
    {
        Poseidon2AirSetup::new(Poseidon2Config::KOALA_BEAR_D4_W16, 4, Self::round_constants())
    }

    /// A table with preprocessed values and a minimum height.
    pub fn default_air_with_preprocessed(preprocessed: Vec<KoalaBear>, min_height: usize) -> (r:
        Poseidon2AirSetup<KoalaBear>)
        ensures
            r.config == Poseidon2Config::KOALA_BEAR_D4_W16,
            r.witness_ext_d == 4,
            parts(r.round_constants) == constants::<KoalaBearModulus>(koala_bear_16()),
            r.preprocessed == preprocessed,
            r.min_height == min_height,
    {
        Poseidon2AirSetup::new_with_preprocessed(
            Poseidon2Config::KOALA_BEAR_D4_W16,
            4,
            Self::round_constants(),
            preprocessed,
            min_height,
        )
    }
}

/// KoalaBear with a quartic extension and a 24-element state.
#[derive(Clone, Copy, Debug, PartialEq, Eq)]
pub struct KoalaBearD4Width24 {}

impl Poseidon2Params for KoalaBearD4Width24 {
    type BaseField = KoalaBear;

    open spec fn sp_config() -> Poseidon2Config {
        Poseidon2Config::KOALA_BEAR_D4_W24
    }

    fn config() -> (r: Poseidon2Config) {
        Poseidon2Config::KOALA_BEAR_D4_W24
    }
}

impl KoalaBearD4Width24 {
    /// The canonical round constants.
    pub fn round_constants() -> (r: RoundConstants<KoalaBear>)
        ensures
            parts(r) == constants::<KoalaBearModulus>(koala_bear_24()),
            shaped(parts(r), 24, 4, 23),
    {
        constants_of(&koala_bear_constants_24())
    }

    /// A table without preprocessed values.
    pub fn default_air() -> (r: Poseidon2AirSetup<KoalaBear>)
        ensures
            r.config == Poseidon2Config::KOALA_BEAR_D4_W24,
            r.witness_ext_d == 4,
            parts(r.round_constants) == constants::<KoalaBearModulus>(koala_bear_24()),
            r.preprocessed@.len() == 0,
            r.min_height == 1,
    {
        Poseidon2AirSetup::new(Poseidon2Config::KOALA_BEAR_D4_W24, 4, Self::round_constants())
    }

    /// A table with preprocessed values and a minimum height.
    pub fn default_air_with_preprocessed(preprocessed: Vec<KoalaBear>, min_height: usize) -> (r:
        Poseidon2AirSetup<KoalaBear>)
        ensures
            r.config == Poseidon2Config::KOALA_BEAR_D4_W24,
            r.witness_ext_d == 4,
            parts(r.round_constants) == constants::<KoalaBearModulus>(koala_bear_24()),
            r.preprocessed == preprocessed,
            r.min_height == min_height,
    {
        Poseidon2AirSetup::new_with_preprocessed(
            Poseidon2Config::KOALA_BEAR_D4_W24,
            4,
            Self::round_constants(),
            preprocessed,
            min_height,
        )
    }
}

/// KoalaBear with base-field challenges and a 32-element state, which compresses four digests.
#[derive(Clone, Copy, Debug, PartialEq, Eq)]
pub struct KoalaBearD1Width32 {}

impl Poseidon2Params for KoalaBearD1Width32 {
    type BaseField = KoalaBear;

    open spec fn sp_config() -> Poseidon2Config {
        Poseidon2Config::KOALA_BEAR_D1_W32
    }

    fn config() -> (r: Poseidon2Config) {
        Poseidon2Config::KOALA_BEAR_D1_W32
    }
}

impl KoalaBearD1Width32 {
    /// The canonical round constants.
    pub fn round_constants() -> (r: RoundConstants<KoalaBear>)
        ensures
            parts(r) == constants::<KoalaBearModulus>(koala_bear_32()),
            shaped(parts(r), 32, 4, 31),
    {
        constants_of(&koala_bear_constants_32())
    }

    /// A table without preprocessed values.
    pub fn default_air() -> (r: Poseidon2AirSetup<KoalaBear>)
        ensures
            r.config == Poseidon2Config::KOALA_BEAR_D1_W32,
            r.witness_ext_d == 1,
            parts(r.round_constants) == constants::<KoalaBearModulus>(koala_bear_32()),
            r.preprocessed@.len() == 0,
            r.min_height == 1,
    {
        Poseidon2AirSetup::new(Poseidon2Config::KOALA_BEAR_D1_W32, 1, Self::round_constants())
    }

    /// A table with preprocessed values and a minimum height.
    pub fn default_air_with_preprocessed(preprocessed: Vec<KoalaBear>, min_height: usize) -> (r:
        Poseidon2AirSetup<KoalaBear>)
        ensures
            r.config == Poseidon2Config::KOALA_BEAR_D1_W32,
            r.witness_ext_d == 1,
            parts(r.round_constants) == constants::<KoalaBearModulus>(koala_bear_32()),
            r.preprocessed == preprocessed,
            r.min_height == min_height,
    {
        Poseidon2AirSetup::new_with_preprocessed(
            Poseidon2Config::KOALA_BEAR_D1_W32,
            1,
            Self::round_constants(),
            preprocessed,
            min_height,
        )
    }

    /// A table whose witness-bus values are padded to five elements.
    pub fn default_air_with_preprocessed_witness_bus5(
        preprocessed: Vec<KoalaBear>,
        min_height: usize,
    ) -> (r: Poseidon2AirSetup<KoalaBear>)
        ensures
            r.config == Poseidon2Config::KOALA_BEAR_D1_W32,
            r.witness_ext_d == 5,
            parts(r.round_constants) == constants::<KoalaBearModulus>(koala_bear_32()),
            r.preprocessed == preprocessed,
            r.min_height == min_height,
    {
        Poseidon2AirSetup::new_with_preprocessed(
            Poseidon2Config::KOALA_BEAR_D1_W32,
            5,
            Self::round_constants(),
            preprocessed,
            min_height,
        )
    }
}

/// KoalaBear with a quartic extension and a 32-element state, which compresses four digests.
#[derive(Clone, Copy, Debug, PartialEq, Eq)]
pub struct KoalaBearD4Width32 {}

impl Poseidon2Params for KoalaBearD4Width32 {
    type BaseField = KoalaBear;

    open spec fn sp_config() -> Poseidon2Config {
        Poseidon2Config::KOALA_BEAR_D4_W32
    }

    fn config() -> (r: Poseidon2Config) {
        Poseidon2Config::KOALA_BEAR_D4_W32
    }
}

impl KoalaBearD4Width32 {
    /// The canonical round constants.
    pub fn round_constants() -> (r: RoundConstants<KoalaBear>)
        ensures
            parts(r) == constants::<KoalaBearModulus>(koala_bear_32()),
            shaped(parts(r), 32, 4, 31),
    {
        constants_of(&koala_bear_constants_32())
    }

    /// A table without preprocessed values.
    pub fn default_air() -> (r: Poseidon2AirSetup<KoalaBear>)
        ensures
            r.config == Poseidon2Config::KOALA_BEAR_D4_W32,
            r.witness_ext_d == 4,
            parts(r.round_constants) == constants::<KoalaBearModulus>(koala_bear_32()),
            r.preprocessed@.len() == 0,
            r.min_height == 1,
    {
        Poseidon2AirSetup::new(Poseidon2Config::KOALA_BEAR_D4_W32, 4, Self::round_constants())
    }

    /// A table with preprocessed values and a minimum height.
    pub fn default_air_with_preprocessed(preprocessed: Vec<KoalaBear>, min_height: usize) -> (r:
        Poseidon2AirSetup<KoalaBear>)
        ensures
            r.config == Poseidon2Config::KOALA_BEAR_D4_W32,
            r.witness_ext_d == 4,
            parts(r.round_constants) == constants::<KoalaBearModulus>(koala_bear_32()),
            r.preprocessed == preprocessed,
            r.min_height == min_height,
    {
        Poseidon2AirSetup::new_with_preprocessed(
            Poseidon2Config::KOALA_BEAR_D4_W32,
            4,
            Self::round_constants(),
            preprocessed,
            min_height,
        )
    }
}

/// Goldilocks with base-field challenges and a 12-element state.
#[derive(Clone, Copy, Debug, PartialEq, Eq)]
pub struct GoldilocksD1Width12 {}

impl Poseidon2Params for GoldilocksD1Width12 {
    type BaseField = Goldilocks;

    open spec fn sp_config() -> Poseidon2Config {
        Poseidon2Config::GOLDILOCKS_D1_W12
    }

    fn config() -> (r: Poseidon2Config) {
        Poseidon2Config::GOLDILOCKS_D1_W12
    }
}

impl GoldilocksD1Width12 {
    /// A table without preprocessed values.
    pub fn default_air() -> (r: Poseidon2AirSetup<Goldilocks>)
        ensures
            r.config == Poseidon2Config::GOLDILOCKS_D1_W12,
            r.witness_ext_d == 1,
            parts(r.round_constants) == constants::<GoldilocksModulus>(goldilocks_12()),
            shaped(parts(r.round_constants), 12, 4, 22),
            r.preprocessed@.len() == 0,
            r.min_height == 1,
    {
        Poseidon2AirSetup::new(Poseidon2Config::GOLDILOCKS_D1_W12, 1, goldilocks_d1_width12_round_constants())
    }

    /// A table with preprocessed values and a minimum height.
    pub fn default_air_with_preprocessed(preprocessed: Vec<Goldilocks>, min_height: usize) -> (r:
        Poseidon2AirSetup<Goldilocks>)
        ensures
            r.config == Poseidon2Config::GOLDILOCKS_D1_W12,
            r.witness_ext_d == 1,
            parts(r.round_constants) == constants::<GoldilocksModulus>(goldilocks_12()),
            shaped(parts(r.round_constants), 12, 4, 22),
            r.preprocessed == preprocessed,
            r.min_height == min_height,
    {
        Poseidon2AirSetup::new_with_preprocessed(
            Poseidon2Config::GOLDILOCKS_D1_W12,
            1,
            goldilocks_d1_width12_round_constants(),
            preprocessed,
            min_height,
        )
    }

    /// A table whose witness-bus values are padded to five elements.
    pub fn default_air_with_preprocessed_witness_bus5(
        preprocessed: Vec<Goldilocks>,
        min_height: usize,
    ) -> (r: Poseidon2AirSetup<Goldilocks>)
        ensures
            r.config == Poseidon2Config::GOLDILOCKS_D1_W12,
            r.witness_ext_d == 5,
            parts(r.round_constants) == constants::<GoldilocksModulus>(goldilocks_12()),
            shaped(parts(r.round_constants), 12, 4, 22),
            r.preprocessed == preprocessed,
            r.min_height == min_height,
    {
        Poseidon2AirSetup::new_with_preprocessed(
            Poseidon2Config::GOLDILOCKS_D1_W12,
            5,
            goldilocks_d1_width12_round_constants(),
            preprocessed,
            min_height,
        )
    }
}

/// Goldilocks with a quadratic extension and a 16-element state, which compresses four digests.
#[derive(Clone, Copy, Debug, PartialEq, Eq)]
pub struct GoldilocksD2Width16 {}

impl Poseidon2Params for GoldilocksD2Width16 {
    type BaseField = Goldilocks;

    open spec fn sp_config() -> Poseidon2Config {
        Poseidon2Config::GOLDILOCKS_D2_W16
    }

    fn config() -> (r: Poseidon2Config) {
        Poseidon2Config::GOLDILOCKS_D2_W16
    }
}

impl GoldilocksD2Width16 {
    /// A table without preprocessed values.
    pub fn default_air() -> (r: Poseidon2AirSetup<Goldilocks>)
        ensures
            r.config == Poseidon2Config::GOLDILOCKS_D2_W16,
            r.witness_ext_d == 2,
            parts(r.round_constants) == constants::<GoldilocksModulus>(goldilocks_16()),
            shaped(parts(r.round_constants), 16, 4, 22),
            r.preprocessed@.len() == 0,
            r.min_height == 1,
    {
        Poseidon2AirSetup::new(Poseidon2Config::GOLDILOCKS_D2_W16, 2, goldilocks_d2_width16_round_constants())
    }

    /// A table with preprocessed values and a minimum height.
    pub fn default_air_with_preprocessed(preprocessed: Vec<Goldilocks>, min_height: usize) -> (r:
        Poseidon2AirSetup<Goldilocks>)
        ensures
            r.config == Poseidon2Config::GOLDILOCKS_D2_W16,
            r.witness_ext_d == 2,
            parts(r.round_constants) == constants::<GoldilocksModulus>(goldilocks_16()),
            shaped(parts(r.round_constants), 16, 4, 22),
            r.preprocessed == preprocessed,
            r.min_height == min_height,
    {
        Poseidon2AirSetup::new_with_preprocessed(
            Poseidon2Config::GOLDILOCKS_D2_W16,
            2,
            goldilocks_d2_width16_round_constants(),
            preprocessed,
            min_height,
        )
    }
}

/// Goldilocks round constants of width 12, drawn with a fixed seed.
pub fn goldilocks_d1_width12_round_constants() -> (r: RoundConstants<Goldilocks>)
    ensures
        parts(r) == constants::<GoldilocksModulus>(goldilocks_12()),
        shaped(parts(r), 12, 4, 22),
{
    constants_of(&goldilocks_constants_12(VERIDIAN_GOLDILOCKS_W12_SEED))
}

/// Goldilocks round constants of width 8, drawn with a fixed seed.
pub fn goldilocks_d2_width8_round_constants() -> (r: RoundConstants<Goldilocks>)
    ensures
        parts(r) == constants::<GoldilocksModulus>(goldilocks_8()),
        shaped(parts(r), 8, 4, 22),
{
    constants_of(&goldilocks_constants_8(GOLDILOCKS_D2_SEED))
}

/// Goldilocks round constants of width 16, drawn with a fixed seed.
pub fn goldilocks_d2_width16_round_constants() -> (r: RoundConstants<Goldilocks>)
    ensures
        parts(r) == constants::<GoldilocksModulus>(goldilocks_16()),
        shaped(parts(r), 16, 4, 22),
{
    constants_of(&goldilocks_constants_16(GOLDILOCKS_D2_SEED))
}

/// A table without preprocessed values.
pub fn goldilocks_d2_width8_default_air() -> (r: Poseidon2AirSetup<Goldilocks>)
    ensures
        r.config == Poseidon2Config::GOLDILOCKS_D2_W8,
        r.witness_ext_d == 2,
        parts(r.round_constants) == constants::<GoldilocksModulus>(goldilocks_8()),
        shaped(parts(r.round_constants), 8, 4, 22),
        r.preprocessed@.len() == 0,
        r.min_height == 1,
{
    Poseidon2AirSetup::new(Poseidon2Config::GOLDILOCKS_D2_W8, 2, goldilocks_d2_width8_round_constants())
}

/// A table with preprocessed values and a minimum height.
pub fn goldilocks_d2_width8_default_air_with_preprocessed(preprocessed: Vec<Goldilocks>, min_height: usize) -> (r:
    Poseidon2AirSetup<Goldilocks>)
    ensures
        r.config == Poseidon2Config::GOLDILOCKS_D2_W8,
        r.witness_ext_d == 2,
        parts(r.round_constants) == constants::<GoldilocksModulus>(goldilocks_8()),
        shaped(parts(r.round_constants), 8, 4, 22),
        r.preprocessed == preprocessed,
        r.min_height == min_height,
{
    Poseidon2AirSetup::new_with_preprocessed(
        Poseidon2Config::GOLDILOCKS_D2_W8,
        2,
        goldilocks_d2_width8_round_constants(),
        preprocessed,
        min_height,
    )
}

} // verus!
