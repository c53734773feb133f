//! Two-adic evaluation domains.

use vstd::prelude::*;

use crate::extension::ExtensionField;
use crate::field;
use crate::field::{exp_u64, Field, TwoAdicField};
use crate::fri_witness::TwoAdicMultiplicativeCoset;

verus! {

/// The subgroup of order `2^log_size`.
pub open spec fn natural<F: Field>(log_size: nat) -> TwoAdicMultiplicativeCoset<F> {
    TwoAdicMultiplicativeCoset { shift: F::sp_one(), log_size: log_size as usize }
}

/// The subgroup of order `2^log_size`.
pub fn natural_domain<F: Field>(log_size: usize) -> (r: TwoAdicMultiplicativeCoset<F>)
    ensures
        r == natural::<F>(log_size as nat),
{
    TwoAdicMultiplicativeCoset { shift: F::one(), log_size }
}

/// A coset of order `2^log_size` that shares no point with the given one.
pub open spec fn disjoint<F: TwoAdicField>(
    domain: TwoAdicMultiplicativeCoset<F>,
    log_size: nat,
) -> TwoAdicMultiplicativeCoset<F> {
    TwoAdicMultiplicativeCoset {
        shift: domain.shift.sp_mul(F::sp_generator()),
        log_size: log_size as usize,
    }
}

/// A coset of order `2^log_size` that shares no point with the given one: its shift is the given one
/// times a generator of the multiplicative group.
pub fn disjoint_domain<F: TwoAdicField>(
    domain: TwoAdicMultiplicativeCoset<F>,
    log_size: usize,
) -> (r: TwoAdicMultiplicativeCoset<F>)
    ensures
        r == disjoint(domain, log_size as nat),
{
    TwoAdicMultiplicativeCoset { shift: domain.shift.mul(F::generator()), log_size }
}

/// One of the `2^log_chunks` cosets that a coset splits into.
pub open spec fn chunk<F: TwoAdicField>(
    domain: TwoAdicMultiplicativeCoset<F>,
    log_chunks: nat,
    i: nat,
) -> TwoAdicMultiplicativeCoset<F> {
    TwoAdicMultiplicativeCoset {
        shift: domain.shift.sp_mul(
            field::power(F::sp_two_adic_generator(domain.log_size as nat), i),
        ),
        log_size: (domain.log_size - log_chunks) as usize,
    }
}

/// Splits a coset `gH` with generator `h` of `H` into `gK, ghK, gh^2K, …`, where `K` is the subgroup
/// of `2^log_chunks` times fewer elements.
pub fn split_domains<F: TwoAdicField>(
    domain: TwoAdicMultiplicativeCoset<F>,
    log_chunks: usize,
) -> (r: Vec<TwoAdicMultiplicativeCoset<F>>)
    requires
        log_chunks <= domain.log_size <= F::sp_two_adicity(),
        log_chunks < usize::BITS,
    ensures
        r@.len() == vstd::arithmetic::power2::pow2(log_chunks as nat),
        forall|i: int|
            0 <= i < r@.len() ==> #[trigger] r@[i] == chunk(domain, log_chunks as nat, i as nat),
{
    let chunks: usize = crate::bits::two_pow(log_chunks);
    let generator: F = F::two_adic_generator(domain.log_size);
    let mut r: Vec<TwoAdicMultiplicativeCoset<F>> = Vec::new();
    let mut i: usize = 0;
    while i < chunks
        invariant
            i <= chunks,
            log_chunks <= domain.log_size,
            generator == F::sp_two_adic_generator(domain.log_size as nat),
            r@.len() == i,
            forall|j: int|
                0 <= j < i ==> #[trigger] r@[j] == chunk(domain, log_chunks as nat, j as nat),
        decreases chunks - i,
    {
        let step: F = exp_u64(generator, i as u64);
        r.push(
            TwoAdicMultiplicativeCoset {
                shift: domain.shift.mul(step),
                log_size: domain.log_size - log_chunks,
            },
        );
        i += 1;
    }
    r
}

/// The point after `x` in a domain.
pub open spec fn next<F: TwoAdicField, EF: ExtensionField<F>>(
    domain: TwoAdicMultiplicativeCoset<F>,
    x: EF,
) -> EF {
    x.sp_mul(EF::sp_from_base(F::sp_two_adic_generator(domain.log_size as nat)))
}

/// The point after `x` in a domain: `x` times the generator of the subgroup.
pub fn next_point<F: TwoAdicField, EF: ExtensionField<F>>(
    domain: TwoAdicMultiplicativeCoset<F>,
    x: EF,
) -> (r: EF)
    requires
        domain.log_size <= F::sp_two_adicity(),
    ensures
        r == next(domain, x),
{
    x.mul(EF::from_base(F::two_adic_generator(domain.log_size)))
}

} // verus!
