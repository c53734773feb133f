//! Parameters of a WHIR verifier.

use vstd::arithmetic::power2::*;
use vstd::prelude::*;

use crate::bits;
use crate::bits::{shift_right, two_pow};
use crate::config::PermConfig;
use crate::merkle::Dimensions;

verus! {

/// The order in which variables are folded.
#[derive(Clone, Copy, Debug, PartialEq, Eq, Structural)]
pub enum VariableOrder {
    Prefix,
    Suffix,
}

/// Parameters of one intermediate round.
#[derive(Clone, Copy, Debug, PartialEq, Eq)]
pub struct WhirRoundParams<F> {
    pub num_variables: usize,
    pub folding_factor: usize,
    pub folding_pow_bits: usize,
    pub domain_size: usize,
    pub folded_domain_gen: F,
    pub num_queries: usize,
    pub ood_samples: usize,
    pub pow_bits: usize,
}

/// Parameters of the verifier.
#[derive(Clone, Debug, PartialEq, Eq)]
pub struct WhirVerifierParams<F> {
    pub variable_order: VariableOrder,
    pub starting_folding_pow_bits: usize,
    pub round_params: Vec<WhirRoundParams<F>>,
    pub final_queries: usize,
    pub final_pow_bits: usize,
    pub final_domain_size: usize,
    pub final_folded_domain_gen: F,
    pub final_sumcheck_rounds: usize,
    pub final_folding_pow_bits: usize,
    pub permutation_config: Option<PermConfig>,
}

/// The shape of a matrix whose rows hold the `2^folding` points that fold to one.
pub open spec fn folded_shape(domain_size: usize, folding: usize) -> Dimensions {
    Dimensions {
        width: pow2(folding as nat) as usize,
        height: (domain_size as nat / pow2(folding as nat)) as usize,
    }
}

/// The shape of a matrix whose rows hold the `2^folding` points that fold to one.
pub fn folded_dimensions(domain_size: usize, folding: usize) -> (r: Dimensions)
    requires
        folding < usize::BITS,
    ensures
        r == folded_shape(domain_size, folding),
        r.width == pow2(folding as nat),
        r.height == domain_size as nat / pow2(folding as nat),
{
    proof {
        bits::lemma_fits(folding as nat);
    }
    Dimensions { width: two_pow(folding), height: shift_right(domain_size, folding) }
}

} // verus!
