//! The order of elements in what is hashed, compressed and permuted.

use vstd::prelude::*;

use crate::extension::{BabyBearExt4, ExtensionField};
use crate::field::{BabyBear, Fp, PrimeModulus};
use crate::permutation::Permutation;
use crate::poseidon2_hash;
use crate::poseidon2_hash::BabyBearPoseidon2LimbPermutation;

verus! {

/// Elements in canonical form are determined by their representatives.
pub proof fn law_words_determine_elements<M: PrimeModulus>(items: Seq<Fp<M>>)
    requires
        forall|i: int| 0 <= i < items.len() ==> (#[trigger] items[i]).val() < M::sp_modulus(),
        M::sp_modulus() <= u64::MAX,
    ensures
        poseidon2_hash::words(items).len() == items.len(),
        forall|i: int|
            0 <= i < items.len() ==> (#[trigger] poseidon2_hash::words(items)[i]) as nat
                == items[i].val(),
        poseidon2_hash::elements::<M>(poseidon2_hash::words(items)) == items,
{
    let back = poseidon2_hash::elements::<M>(poseidon2_hash::words(items));
    assert forall|i: int| 0 <= i < items.len() implies back[i] == items[i] by {
        assert(items[i].val() < M::sp_modulus());
        Fp::<M>::lemma_val(items[i]);
    }
    assert(back =~= items);
}

/// Children are compressed in order, each element by element.
pub proof fn law_children_in_order<M: PrimeModulus>(children: Seq<[Fp<M>; 8]>, n: nat)
    requires
        n <= children.len(),
    ensures
        poseidon2_hash::joined_words(children, n).len() == 8 * n,
        forall|i: int, j: int|
            #![trigger children[i]@[j]]
            0 <= i < n && 0 <= j < 8 ==> poseidon2_hash::joined_words(children, n)[8 * i + j]
                == children[i]@[j].val() as u64,
    decreases n,
{
    if n > 0 {
        law_children_in_order(children, (n - 1) as nat);
    }
}

/// The limbs of a state are permuted in order, each by its coefficients, the lowest first.
pub proof fn law_limbs_in_order(state: Seq<BabyBearExt4>, n: nat)
    requires
        n <= state.len(),
        forall|i: int| 0 <= i < state.len() ==> (#[trigger] state[i]).sp_coefficients().len() == 4,
    ensures
        poseidon2_hash::limb_words(state, n).len() == 4 * n,
        forall|i: int, c: int|
            #![trigger state[i].sp_coefficients()[c]]
            0 <= i < n && 0 <= c < 4 ==> poseidon2_hash::limb_words(state, n)[4 * i + c]
                == state[i].sp_coefficients()[c].val() as u64,
    decreases n,
{
    if n > 0 {
        law_limbs_in_order(state, (n - 1) as nat);
        assert(state[n - 1].sp_coefficients().len() == 4);
    }
}

/// The image of a state of limbs holds the image of its elements in the same order.
pub proof fn law_image_in_order(
    permutation: BabyBearPoseidon2LimbPermutation,
    state: Seq<BabyBearExt4>,
    image: Seq<u64>,
)
    requires
        image == poseidon2_hash::baby_bear_poseidon2_permuted(
            poseidon2_hash::limb_words(state, state.len()),
        ),
        image.len() == 16,
    ensures
        permutation.permuted(state).len() == 4,
        forall|i: int, c: int|
            #![trigger permutation.permuted(state)[i].sp_coefficients()[c]]
            0 <= i < 4 && 0 <= c < 4 ==> permutation.permuted(state)[i].sp_coefficients()[c]
                == BabyBear::of(image[4 * i + c] as nat),
{
    assert forall|i: int, c: int|
        #![trigger permutation.permuted(state)[i].sp_coefficients()[c]]
        0 <= i < 4 && 0 <= c < 4 implies permutation.permuted(state)[i].sp_coefficients()[c]
        == BabyBear::of(image[4 * i + c] as nat) by {
        let part = image.subrange(4 * i, 4 * i + 4);
        BabyBearExt4::lemma_seq(poseidon2_hash::elements(part));
    }
}

} // verus!
