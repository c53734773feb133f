//! Hashing, compression and permutation with Poseidon2 of width 16.

use p3_field::{PrimeCharacteristicRing, PrimeField64};
use p3_symmetric::CryptographicHasher as SpongeHasher;
use p3_symmetric::Permutation as StatePermutation;
use p3_symmetric::PseudoCompressionFunction as StateCompression;
use vstd::prelude::*;

use crate::extension::{BabyBearExt4, ExtensionField};
use crate::field::{BabyBear, BabyBearModulus, Fp, KoalaBear, KoalaBearModulus, PrimeModulus};
use crate::merkle::{CryptographicHasher, PseudoCompressionFunction};
use crate::permutation::Permutation;

verus! {

/// The canonical representatives of field elements.
pub open spec fn words<M: PrimeModulus>(items: Seq<Fp<M>>) -> Seq<u64> {
    Seq::new(items.len(), |i: int| items[i].val() as u64)
}

/// The field elements with the given representatives.
pub open spec fn elements<M: PrimeModulus>(words: Seq<u64>) -> Seq<Fp<M>> {
    Seq::new(words.len(), |i: int| Fp::of(words[i] as nat))
}

/// The digest with the given representatives.
pub open spec fn digest<M: PrimeModulus>(words: Seq<u64>) -> [Fp<M>; 8] {
    choose|r: [Fp<M>; 8]| #[trigger] r@ == elements::<M>(words)
}

/// The representatives of several digests, one after the other.
pub open spec fn joined_words<M: PrimeModulus>(children: Seq<[Fp<M>; 8]>, n: nat) -> Seq<u64>
    decreases n,
{
    if n == 0 {
        Seq::empty()
    } else {
        joined_words(children, (n - 1) as nat) + words(children[n - 1]@)
    }
}

/// The canonical representatives of field elements.
pub fn words_of<M: PrimeModulus>(items: &Vec<Fp<M>>) -> (r: Vec<u64>)
    ensures
        r@ == words(items@),
        forall|i: int| 0 <= i < r@.len() ==> #[trigger] r@[i] < M::sp_modulus(),
        forall|i: int| 0 <= i < r@.len() ==> #[trigger] items@[i].val() == r@[i],
{
    let mut r: Vec<u64> = Vec::new();
    let mut i: usize = 0;
    while i < items.len()
        invariant
            i <= items@.len(),
            r@ == words(items@.take(i as int)),
            forall|j: int| 0 <= j < r@.len() ==> #[trigger] r@[j] < M::sp_modulus(),
            forall|j: int| 0 <= j < r@.len() ==> #[trigger] items@[j].val() == r@[j],
        decreases items@.len() - i,
    {
        r.push(items[i].as_canonical_u64());
        i += 1;
        assert(r@ =~= words(items@.take(i as int)));
    }
    assert(items@.take(items@.len() as int) =~= items@);
    r
}

/// The field elements with the given representatives.
pub fn elements_of<M: PrimeModulus>(words: &[u64]) -> (r: Vec<Fp<M>>)
    ensures
        r@ == elements::<M>(words@),
{
    let mut r: Vec<Fp<M>> = Vec::new();
    let mut i: usize = 0;
    while i < words.len()
        invariant
            i <= words@.len(),
            r@ == elements::<M>(words@.take(i as int)),
        decreases words@.len() - i,
    {
        r.push(Fp::new(words[i]));
        i += 1;
        assert(r@ =~= elements::<M>(words@.take(i as int)));
    }
    assert(words@.take(words@.len() as int) =~= words@);
    r
}

fn digest_of<M: PrimeModulus>(words: &[u64; 8]) -> (r: [Fp<M>; 8])
    ensures
        r == digest::<M>(words@),
{
    let mut r: [Fp<M>; 8] = [Fp::new(words[0]);8];
    let mut i: usize = 0;
    while i < 8
        invariant
            i <= 8,
            words@.len() == 8,
            forall|j: int| 0 <= j < i ==> #[trigger] r@[j] == Fp::<M>::of(words@[j] as nat),
        decreases 8 - i,
    {
        r[i] = Fp::new(words[i]);
        i += 1;
    }
    proof {
        assert(r@ =~= elements::<M>(words@));
        let chosen = digest::<M>(words@);
        assert(chosen@ == elements::<M>(words@));
        assert(chosen =~= r);
    }
    r
}

fn joined_words_of<M: PrimeModulus>(children: &Vec<[Fp<M>; 8]>) -> (r: Vec<u64>)
    ensures
        r@ == joined_words(children@, children@.len()),
        r@.len() == 8 * children@.len(),
{
    let mut r: Vec<u64> = Vec::new();
    let mut c: usize = 0;
    while c < children.len()
        invariant
            c <= children@.len(),
            r@ == joined_words(children@, c as nat),
            r@.len() == 8 * c,
        decreases children@.len() - c,
    {
        let ghost before = r@;
        let mut i: usize = 0;
        while i < 8
            invariant
                i <= 8,
                c < children@.len(),
                r@ == before + words(children@[c as int]@.take(i as int)),
            decreases 8 - i,
        {
            r.push(children[c][i].as_canonical_u64());
            i += 1;
            assert(r@ =~= before + words(children@[c as int]@.take(i as int)));
        }
        assert(children@[c as int]@.take(8) =~= children@[c as int]@);
        c += 1;
    }
    r
}

/// What [`baby_bear_hash`] returns.
pub uninterp spec fn baby_bear_sponge_digest(items: Seq<u64>) -> Seq<u64>;

/// `p3_symmetric::PaddingFreeSponge::hash_iter` of width 16, rate 8 and output 8 with
/// `p3_baby_bear::default_babybear_poseidon2_16` as its permutation: a function of the items.
#[verifier::external_body]
fn baby_bear_hash(items: &Vec<u64>) -> (r: [u64; 8])
    ensures
        r@ == baby_bear_sponge_digest(items@),
{
    let sponge = p3_symmetric::PaddingFreeSponge::<_, 16, 8, 8>::new(p3_baby_bear::default_babybear_poseidon2_16());
    let digest: [p3_baby_bear::BabyBear; 8] =
        sponge.hash_iter(items.iter().copied().map(p3_baby_bear::BabyBear::from_u64));
    digest.map(|x| x.as_canonical_u64())
}

/// What [`baby_bear_compress`] returns.
pub uninterp spec fn baby_bear_compressed(children: Seq<u64>) -> Seq<u64>;

/// `p3_symmetric::TruncatedPermutation::compress` of two digests of 8 elements with
/// `p3_baby_bear::default_babybear_poseidon2_16` as its permutation: a function of the digests.
#[verifier::external_body]
fn baby_bear_compress(children: &Vec<u64>) -> (r: [u64; 8])
    requires
        children@.len() == 16,
    ensures
        r@ == baby_bear_compressed(children@),
{
    let compress = p3_symmetric::TruncatedPermutation::<_, 2, 8, 16>::new(p3_baby_bear::default_babybear_poseidon2_16());
    let at = |i: usize| p3_baby_bear::BabyBear::from_u64(children[i]);
    let pair = [core::array::from_fn(at), core::array::from_fn(|i| at(8 + i))];
    let digest: [p3_baby_bear::BabyBear; 8] = compress.compress(pair);
    digest.map(|x| x.as_canonical_u64())
}

/// The Poseidon2 sponge over the BabyBear field: width 16, rate 8, digests of 8 elements.
#[derive(Clone, Copy, Debug, PartialEq, Eq)]
pub struct BabyBearPoseidon2Hash {}

impl BabyBearPoseidon2Hash {
    pub fn new() -> (r: Self) {
        BabyBearPoseidon2Hash {  }
    }
}

impl CryptographicHasher<BabyBear, 8> for BabyBearPoseidon2Hash {
    open spec fn sp_hash(&self, items: Seq<BabyBear>) -> [BabyBear; 8] {
        digest::<BabyBearModulus>(baby_bear_sponge_digest(words(items)))
    }

    fn hash_items(&self, items: &Vec<BabyBear>) -> (r: [BabyBear; 8]) {
        let hashed: [u64; 8] = baby_bear_hash(&words_of(items));
        digest_of(&hashed)
    }
}

/// The compression of two digests by a truncated Poseidon2 permutation over the BabyBear field.
#[derive(Clone, Copy, Debug, PartialEq, Eq)]
pub struct BabyBearPoseidon2Compress {}

impl BabyBearPoseidon2Compress {
    pub fn new() -> (r: Self) {
        BabyBearPoseidon2Compress {  }
    }
}

impl PseudoCompressionFunction<BabyBear, 2, 8> for BabyBearPoseidon2Compress {
    open spec fn sp_compress(&self, children: Seq<[BabyBear; 8]>) -> [BabyBear; 8] {
        digest::<BabyBearModulus>(baby_bear_compressed(joined_words(children, children.len())))
    }

    fn compress(&self, children: &Vec<[BabyBear; 8]>) -> (r: [BabyBear; 8]) {
        let compressed: [u64; 8] = baby_bear_compress(&joined_words_of(children));
        digest_of(&compressed)
    }
}

/// What [`koala_bear_hash`] returns.
pub uninterp spec fn koala_bear_sponge_digest(items: Seq<u64>) -> Seq<u64>;

/// `p3_symmetric::PaddingFreeSponge::hash_iter` of width 16, rate 8 and output 8 with
/// `p3_koala_bear::default_koalabear_poseidon2_16` as its permutation: a function of the items.
#[verifier::external_body]
fn koala_bear_hash(items: &Vec<u64>) -> (r: [u64; 8])
    ensures
        r@ == koala_bear_sponge_digest(items@),
{
    let sponge = p3_symmetric::PaddingFreeSponge::<_, 16, 8, 8>::new(p3_koala_bear::default_koalabear_poseidon2_16());
    let digest: [p3_koala_bear::KoalaBear; 8] =
        sponge.hash_iter(items.iter().copied().map(p3_koala_bear::KoalaBear::from_u64));
    digest.map(|x| x.as_canonical_u64())
}

/// What [`koala_bear_compress`] returns.
pub uninterp spec fn koala_bear_compressed(children: Seq<u64>) -> Seq<u64>;

/// `p3_symmetric::TruncatedPermutation::compress` of two digests of 8 elements with
/// `p3_koala_bear::default_koalabear_poseidon2_16` as its permutation: a function of the digests.
#[verifier::external_body]
fn koala_bear_compress(children: &Vec<u64>) -> (r: [u64; 8])
    requires
        children@.len() == 16,
    ensures
        r@ == koala_bear_compressed(children@),
{
    let compress = p3_symmetric::TruncatedPermutation::<_, 2, 8, 16>::new(p3_koala_bear::default_koalabear_poseidon2_16());
    let at = |i: usize| p3_koala_bear::KoalaBear::from_u64(children[i]);
    let pair = [core::array::from_fn(at), core::array::from_fn(|i| at(8 + i))];
    let digest: [p3_koala_bear::KoalaBear; 8] = compress.compress(pair);
    digest.map(|x| x.as_canonical_u64())
}

/// The Poseidon2 sponge over the KoalaBear field: width 16, rate 8, digests of 8 elements.
#[derive(Clone, Copy, Debug, PartialEq, Eq)]
pub struct KoalaBearPoseidon2Hash {}

impl KoalaBearPoseidon2Hash {
    pub fn new() -> (r: Self) {
        KoalaBearPoseidon2Hash {  }
    }
}

impl CryptographicHasher<KoalaBear, 8> for KoalaBearPoseidon2Hash {
    open spec fn sp_hash(&self, items: Seq<KoalaBear>) -> [KoalaBear; 8] {
        digest::<KoalaBearModulus>(koala_bear_sponge_digest(words(items)))
    }

    fn hash_items(&self, items: &Vec<KoalaBear>) -> (r: [KoalaBear; 8]) {
        let hashed: [u64; 8] = koala_bear_hash(&words_of(items));
        digest_of(&hashed)
    }
}

/// The compression of two digests by a truncated Poseidon2 permutation over the KoalaBear field.
#[derive(Clone, Copy, Debug, PartialEq, Eq)]
pub struct KoalaBearPoseidon2Compress {}

impl KoalaBearPoseidon2Compress {
    pub fn new() -> (r: Self) {
        KoalaBearPoseidon2Compress {  }
    }
}

impl PseudoCompressionFunction<KoalaBear, 2, 8> for KoalaBearPoseidon2Compress {
    open spec fn sp_compress(&self, children: Seq<[KoalaBear; 8]>) -> [KoalaBear; 8] {
        digest::<KoalaBearModulus>(koala_bear_compressed(joined_words(children, children.len())))
    }

    fn compress(&self, children: &Vec<[KoalaBear; 8]>) -> (r: [KoalaBear; 8]) {
        let compressed: [u64; 8] = koala_bear_compress(&joined_words_of(children));
        digest_of(&compressed)
    }
}

/// What [`baby_bear_permute`] returns.
pub uninterp spec fn baby_bear_poseidon2_permuted(state: Seq<u64>) -> Seq<u64>;

/// `p3_symmetric::Permutation::permute` of `p3_baby_bear::default_babybear_poseidon2_16`: a function
/// of the state.
#[verifier::external_body]
fn baby_bear_permute(state: &Vec<u64>) -> (r: [u64; 16])
    requires
        state@.len() == 16,
    ensures
        r@ == baby_bear_poseidon2_permuted(state@),
{
    let permutation = p3_baby_bear::default_babybear_poseidon2_16();
    let state: [p3_baby_bear::BabyBear; 16] =
        core::array::from_fn(|i| p3_baby_bear::BabyBear::from_u64(state[i]));
    permutation.permute(state).map(|x| x.as_canonical_u64())
}

/// The Poseidon2 permutation of 16 elements of the BabyBear field.
#[derive(Clone, Copy, Debug, PartialEq, Eq)]
pub struct BabyBearPoseidon2Permutation {}

impl BabyBearPoseidon2Permutation {
    pub fn new() -> (r: Self) {
        BabyBearPoseidon2Permutation {  }
    }
}

impl Permutation<BabyBear> for BabyBearPoseidon2Permutation {
    open spec fn limbs(&self) -> nat {
        16
    }

    open spec fn permuted(&self, state: Seq<BabyBear>) -> Seq<BabyBear> {
        elements::<BabyBearModulus>(baby_bear_poseidon2_permuted(words(state)))
    }

    fn permute(&self, state: &Vec<BabyBear>) -> (r: Vec<BabyBear>) {
        let image: [u64; 16] = baby_bear_permute(&words_of(state));
        elements_of(image.as_slice())
    }
}

/// The representatives of the coefficients of the first `n` limbs, one limb after the other.
pub open spec fn limb_words(state: Seq<BabyBearExt4>, n: nat) -> Seq<u64>
    decreases n,
{
    if n == 0 {
        Seq::empty()
    } else {
        limb_words(state, (n - 1) as nat) + words(state[n - 1].sp_coefficients())
    }
}

/// The limb with the coefficients that stand at `4 * i`.
pub open spec fn limb_at(image: Seq<u64>, i: int) -> BabyBearExt4 {
    BabyBearExt4::of(elements::<BabyBearModulus>(image.subrange(4 * i, 4 * i + 4)))
}

/// The Poseidon2 permutation of 16 elements of the BabyBear field, on four limbs of its quartic
/// extension.
#[derive(Clone, Copy, Debug, PartialEq, Eq)]
pub struct BabyBearPoseidon2LimbPermutation {}

impl BabyBearPoseidon2LimbPermutation {
    pub fn new() -> (r: Self) {
        BabyBearPoseidon2LimbPermutation {  }
    }
}

fn limb_words_of(state: &Vec<BabyBearExt4>) -> (r: Vec<u64>)
    ensures
        r@ == limb_words(state@, state@.len()),
        r@.len() == 4 * state@.len(),
{
    let mut r: Vec<u64> = Vec::new();
    let mut i: usize = 0;
    while i < state.len()
        invariant
            i <= state@.len(),
            r@ == limb_words(state@, i as nat),
            r@.len() == 4 * i,
        decreases state@.len() - i,
    {
        let coefficients: Vec<BabyBear> = state[i].coefficients();
        let mut limb: Vec<u64> = words_of(&coefficients);
        r.append(&mut limb);
        i += 1;
    }
    r
}

impl Permutation<BabyBearExt4> for BabyBearPoseidon2LimbPermutation {
    open spec fn limbs(&self) -> nat {
        4
    }

    open spec fn permuted(&self, state: Seq<BabyBearExt4>) -> Seq<BabyBearExt4> {
        let image = baby_bear_poseidon2_permuted(limb_words(state, state.len()));
        Seq::new(4, |i: int| limb_at(image, i))
    }

    fn permute(&self, state: &Vec<BabyBearExt4>) -> (r: Vec<BabyBearExt4>) {
        let image: [u64; 16] = baby_bear_permute(&limb_words_of(state));
        let ghost target = self.permuted(state@);
        let mut r: Vec<BabyBearExt4> = Vec::new();
        let mut i: usize = 0;
        while i < 4
            invariant
                i <= 4,
                image@ == baby_bear_poseidon2_permuted(limb_words(state@, state@.len())),
                target == self.permuted(state@),
                r@ == target.take(i as int),
            decreases 4 - i,
        {
            let limb = [image[4 * i], image[4 * i + 1], image[4 * i + 2], image[4 * i + 3]];
            let coefficients: Vec<BabyBear> = elements_of(limb.as_slice());
            let x = BabyBearExt4::from_coefficients(&coefficients);
            proof {
                assert(limb@ =~= image@.subrange(4 * i, 4 * i + 4));
                BabyBearExt4::lemma_of(x);
                assert(x == limb_at(image@, i as int));
            }
            r.push(x);
            i += 1;
            assert(r@ =~= target.take(i as int));
        }
        assert(target.take(4) =~= target);
        r
    }
}

} // verus!
