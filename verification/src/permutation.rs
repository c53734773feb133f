//! Permutations of field elements.

use vstd::prelude::*;

verus! {

/// A permutation that a table executes.
pub trait Permutation<F> {
    /// The number of limbs of a state.
    spec fn limbs(&self) -> nat;

    /// The image of a state.
    spec fn permuted(&self, state: Seq<F>) -> Seq<F>;

    fn permute(&self, state: &Vec<F>) -> (r: Vec<F>)
        requires
            state@.len() == self.limbs(),
        ensures
            r@ == self.permuted(state@),
    ;
}

} // verus!
