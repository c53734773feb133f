//! How the basis of an extension multiplies.

use vstd::prelude::*;

use crate::extension;
use crate::extension::{BinomialModulus, Ext, ExtensionField};
use crate::field::{CommutativeRing, Field, Fp, PrimeModulus};

verus! {

/// The power `X^i` of the generator of an extension of degree `d`.
pub open spec fn basis<M: PrimeModulus>(i: int, d: nat) -> Seq<Fp<M>> {
    Seq::new(
        d,
        |k: int|
            if k == i {
                Fp::sp_one()
            } else {
                Fp::sp_zero()
            },
    )
}

/// A product with a power of the generator takes the coefficients of the other factor as they are.
proof fn lemma_single_term<M: PrimeModulus>(
    i: int,
    b: Seq<Fp<M>>,
    w: Fp<M>,
    d: nat,
    k: int,
    n: nat,
)
    requires
        0 <= i < d,
        0 <= k < d,
        b.len() == d,
        n <= d,
        forall|m: int| 0 <= m < d ==> (#[trigger] b[m]).wf(),
    ensures
        extension::convolution(basis::<M>(i, d), b, w, k, n) == if n <= i {
            Fp::<M>::sp_zero()
        } else if i <= k {
            b[k - i]
        } else {
            b[k + d - i].sp_mul(w)
        },
    decreases n,
{
    let zero = Fp::<M>::sp_zero();
    let one = Fp::<M>::sp_one();
    Fp::<M>::closed(zero, one);
    if n > 0 {
        let m = n - 1;
        lemma_single_term(i, b, w, d, k, m as nat);
        let x = if m <= k {
            b[k - m]
        } else {
            b[k + d - m]
        };
        Fp::<M>::mul_commutes(zero, x);
        Fp::<M>::mul_zero(x);
        Fp::<M>::mul_commutes(zero, w);
        Fp::<M>::mul_zero(w);
        Fp::<M>::mul_commutes(one, x);
        Fp::<M>::mul_one(x);
        Fp::<M>::closed(x, w);
        let before = extension::convolution(basis::<M>(i, d), b, w, k, m as nat);
        let term = if m == i {
            if m <= k {
                x
            } else {
                x.sp_mul(w)
            }
        } else {
            zero
        };
        assert(term.wf());
        if m > i && k < i {
            Fp::<M>::closed(b[k + d - i], w);
        }
        Fp::<M>::add_zero(before);
        Fp::<M>::add_commutes(zero, term);
        Fp::<M>::add_zero(term);
    }
}

/// Multiplication by `X^i` shifts the coefficients up by `i` places, and what is shifted beyond the
/// degree comes back at the lower end times `W`: `X^D = W`.
pub proof fn law_generator_shifts<M: BinomialModulus<D>, const D: usize>(x: Ext<M, D>, i: int)
    requires
        0 <= i < D,
        forall|m: int| 0 <= m < D ==> (#[trigger] x.seq()[m]).wf(),
    ensures
        ({
            let power = Ext::<M, D>::of(basis(i, D as nat));
            let product = power.sp_mul(x);
            forall|k: int|
                0 <= k < D ==> #[trigger] product.seq()[k] == if k < i {
                    x.seq()[k + D - i].sp_mul(Fp::of(M::sp_w()))
                } else {
                    x.seq()[k - i]
                }
        }),
{
    let power = Ext::<M, D>::of(basis(i, D as nat));
    let w = Fp::<M>::of(M::sp_w());
    Ext::<M, D>::lemma_seq(basis(i, D as nat));
    let coefficients = Seq::new(
        D as nat,
        |k: int| extension::convolution(power.seq(), x.seq(), w, k, D as nat),
    );
    Ext::<M, D>::lemma_seq(coefficients);
    <Ext<M, D> as ExtensionField<Fp<M>>>::coefficient_count(x);
    assert forall|k: int| 0 <= k < D implies #[trigger] power.sp_mul(x).seq()[k] == if k < i {
        x.seq()[k + D - i].sp_mul(w)
    } else {
        x.seq()[k - i]
    } by {
        assert(power.sp_mul(x).seq() == coefficients);
        lemma_single_term(i, x.seq(), w, D as nat, k, D as nat);
    }
}

} // verus!
