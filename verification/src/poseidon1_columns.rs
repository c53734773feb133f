//! Poseidon1 permutations as columns of a table.

use p3_field::{PrimeCharacteristicRing, PrimeField64};
use p3_monty_31::MDSUtils;
use p3_symmetric::Permutation as StatePermutation;
use vstd::prelude::*;

use crate::field::{BabyBear, BabyBearModulus, Fp};
use crate::permutation::Permutation;
use crate::poseidon1_air::Poseidon1CircuitAir;
use crate::poseidon1_rules::PermutationColumns;
use crate::poseidon2_hash;
use crate::poseidon2_hash::{elements_of, words_of};

verus! {

/// What [`baby_bear_poseidon1_permute`] returns.
pub uninterp spec fn baby_bear_poseidon1_permuted(state: Seq<u64>) -> Seq<u64>;

/// `p3_symmetric::Permutation::permute` of `p3_baby_bear::default_babybear_poseidon1_16`: a function
/// of the state.
#[verifier::external_body]
fn baby_bear_poseidon1_permute(state: &Vec<u64>) -> (r: [u64; 16])
    requires
        state@.len() == 16,
        forall|i: int| 0 <= i < 16 ==> #[trigger] state@[i] < 0x78000001,
    ensures
        r@ == baby_bear_poseidon1_permuted(state@),
{
    let permutation = p3_baby_bear::default_babybear_poseidon1_16();
    let state: [p3_baby_bear::BabyBear; 16] =
        core::array::from_fn(|i| p3_baby_bear::BabyBear::from_u64(state[i]));
    permutation.permute(state).map(|x| x.as_canonical_u64())
}

/// What [`baby_bear_poseidon1_row`] returns.
pub uninterp spec fn baby_bear_poseidon1_trace(input: Seq<u64>) -> Seq<u64>;

/// `p3_poseidon1_air::generate_trace_rows` of one permutation of width 16 over the BabyBear field,
/// with the round constants of `p3_baby_bear::default_babybear_poseidon1_16` in their optimized
/// form, an S-box of degree 7 and one register: a function of the input. The input comes first;
/// each of the 8 full rounds has a register and a result for each of the 16 elements, and each of
/// the 13 partial rounds a register and a result. The results of the last full round are the image
/// of the input under the permutation.
#[verifier::external_body]
fn baby_bear_poseidon1_row(input: &Vec<u64>) -> (r: Vec<u64>)
    requires
        input@.len() == 16,
        forall|i: int| 0 <= i < 16 ==> #[trigger] input@[i] < 0x78000001,
    ensures
        r@ == baby_bear_poseidon1_trace(input@),
        r@.len() == 16 + 8 * 32 + 13 * 2,
        r@.take(16) == input@,
        r@.subrange(282, 298) == baby_bear_poseidon1_permuted(input@),
{
    let (full, partial) = p3_poseidon1::Poseidon1Constants {
        rounds_f: 2 * p3_baby_bear::BABYBEAR_POSEIDON1_HALF_FULL_ROUNDS,
        rounds_p: p3_baby_bear::BABYBEAR_POSEIDON1_PARTIAL_ROUNDS_16,
        mds_circ_col: p3_baby_bear::MDSBabyBearData::MATRIX_CIRC_MDS_16_COL,
        round_constants: p3_baby_bear::BABYBEAR_POSEIDON1_RC_16.to_vec(),
    }.to_optimized();
    let state = core::array::from_fn(|i| p3_baby_bear::BabyBear::from_u64(input[i]));
    let rows = p3_poseidon1_air::generate_trace_rows::<_, 16, 7, 1, 4, 13>(
        vec![state],
        &full,
        &partial,
        0,
    );
    rows.values.iter().map(|x| x.as_canonical_u64()).collect()
}

/// The image of a state.
pub open spec fn image(state: Seq<BabyBear>) -> Seq<BabyBear> {
    let permuted = baby_bear_poseidon1_permuted(poseidon2_hash::words(state));
    Seq::new(16, |i: int| BabyBear::of(permuted[i] as nat))
}

/// The columns between the input and its image.
pub open spec fn rounds(input: Seq<BabyBear>) -> Seq<BabyBear> {
    let trace = baby_bear_poseidon1_trace(poseidon2_hash::words(input));
    Seq::new(266, |i: int| BabyBear::of(trace[16 + i] as nat))
}

/// The columns of a permutation: the input, the rounds and the image.
pub open spec fn columns_of(input: Seq<BabyBear>) -> Seq<BabyBear> {
    input + rounds(input) + image(input)
}

/// `p3_air::check_all_constraints` of `p3_poseidon1_air::Poseidon1Air` with the same constants on a
/// table of one row: whether all constraints of the permutation hold. Each constraint sets one
/// column behind the input equal to what [`baby_bear_poseidon1_row`] computes for it from the columns
/// before it, and each of these columns has its constraint. So they hold exactly where the columns
/// are those that the input has in a generated row.
#[verifier::external_body]
fn baby_bear_poseidon1_accepted(columns: &Vec<u64>) -> (r: bool)
    requires
        columns@.len() == 298,
        forall|i: int| 0 <= i < 298 ==> #[trigger] columns@[i] < 0x78000001,
    ensures
        r == (poseidon2_hash::elements::<BabyBearModulus>(columns@) == columns_of(
            poseidon2_hash::elements::<BabyBearModulus>(columns@.take(16)),
        )),
{
    let (full, partial) = p3_poseidon1::Poseidon1Constants {
        rounds_f: 2 * p3_baby_bear::BABYBEAR_POSEIDON1_HALF_FULL_ROUNDS,
        rounds_p: p3_baby_bear::BABYBEAR_POSEIDON1_PARTIAL_ROUNDS_16,
        mds_circ_col: p3_baby_bear::MDSBabyBearData::MATRIX_CIRC_MDS_16_COL,
        round_constants: p3_baby_bear::BABYBEAR_POSEIDON1_RC_16.to_vec(),
    }.to_optimized();
    let air = p3_poseidon1_air::Poseidon1Air::<_, 16, 7, 1, 4, 13>::new(full, partial);
    let row = columns.iter().copied().map(p3_baby_bear::BabyBear::from_u64).collect();
    let table = p3_matrix::dense::RowMajorMatrix::new(row, 298);
    p3_air::check_all_constraints(&air, &table, &[], None).is_ok()
}

/// The Poseidon1 permutation of 16 elements of the BabyBear field.
#[derive(Clone, Copy, Debug, PartialEq, Eq)]
pub struct BabyBearPoseidon1Width16 {}

impl Permutation<BabyBear> for BabyBearPoseidon1Width16 {
    open spec fn limbs(&self) -> nat {
        16
    }

    open spec fn permuted(&self, state: Seq<BabyBear>) -> Seq<BabyBear> {
        image(state)
    }

    fn permute(&self, state: &Vec<BabyBear>) -> (r: Vec<BabyBear>) {
        let permuted: [u64; 16] = baby_bear_poseidon1_permute(&words_of(state));
        let r: Vec<BabyBear> = elements_of(permuted.as_slice());
        assert(r@ =~= image(state@));
        r
    }
}

impl PermutationColumns<BabyBear> for BabyBearPoseidon1Width16 {
    open spec fn sp_state_width() -> nat {
        16
    }

    open spec fn sp_column_count() -> nat {
        298
    }

    open spec fn sp_permuted(input: Seq<BabyBear>) -> Seq<BabyBear> {
        image(input)
    }

    open spec fn sp_columns(input: Seq<BabyBear>) -> Seq<BabyBear> {
        columns_of(input)
    }

    proof fn columns_frame(input: Seq<BabyBear>) {
        let columns = Self::sp_columns(input);
        assert(columns.take(16) =~= input);
        assert(columns.skip(282) =~= image(input));
    }

    fn column_count() -> (r: usize) {
        298
    }

    fn columns(input: &Vec<BabyBear>) -> (r: Vec<BabyBear>) {
        let words: Vec<u64> = words_of(input);
        let row: Vec<u64> = baby_bear_poseidon1_row(&words);
        let r: Vec<BabyBear> = elements_of(row.as_slice());
        proof {
            assert forall|i: int| 0 <= i < 298 implies #[trigger] r@[i] == Self::sp_columns(
                input@,
            )[i] by {
                if i < 16 {
                    assert(row@.take(16)[i] == words@[i]);
                    assert(input@[i].val() == words@[i]);
                    Fp::<BabyBearModulus>::lemma_val(input@[i]);
                } else if i >= 282 {
                    assert(row@.subrange(282, 298)[i - 282] == row@[i]);
                }
            }
            assert(r@ =~= Self::sp_columns(input@));
        }
        r
    }

    fn accepts(columns: &Vec<BabyBear>) -> (r: bool) {
        let words: Vec<u64> = words_of(columns);
        proof {
            assert forall|i: int| 0 <= i < 298 implies BabyBear::of(words@[i] as nat)
                == #[trigger] columns@[i] by {
                assert(columns@[i].val() == words@[i]);
                Fp::<BabyBearModulus>::lemma_val(columns@[i]);
            }
            assert(poseidon2_hash::elements::<BabyBearModulus>(words@) =~= columns@);
            assert(poseidon2_hash::elements::<BabyBearModulus>(words@.take(16)) =~= columns@.take(
                16,
            ));
        }
        baby_bear_poseidon1_accepted(&words)
    }
}

/// The Poseidon1 table over the BabyBear field with limbs of four elements.
pub type Poseidon1CircuitAirBabyBearD4Width16 = Poseidon1CircuitAir<
    BabyBear,
    BabyBearPoseidon1Width16,
    4,
    16,
    4,
    2,
    2,
    4,
>;

} // verus!
