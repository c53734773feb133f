//! Binomial extensions `F[X] / (X^D - W)` of the prime fields.

use p3_field::extension::BinomialExtensionField;
use p3_field::{BasedVectorSpace as _, Field as _, PrimeCharacteristicRing as _, PrimeField64 as _};
use vstd::prelude::*;

use crate::field::{BabyBear, BabyBearModulus, CommutativeRing, Field, Fp, PrimeModulus};

verus! {

/// A field that is a vector space over `F` with a fixed basis whose first element is one.
pub trait ExtensionField<F: Field>: Field {
    /// The number of coefficients of an element.
    spec fn sp_dimension() -> nat;

    /// The coefficients of an element over the basis.
    spec fn sp_coefficients(self) -> Seq<F>;

    /// The image of a base element.
    spec fn sp_from_base(x: F) -> Self;

    fn dimension() -> (r: usize)
        ensures
            r == Self::sp_dimension(),
            r > 0,
    ;

    fn coefficients(self) -> (r: Vec<F>)
        ensures
            r@ == self.sp_coefficients(),
            r@.len() == Self::sp_dimension(),
    ;

    /// Reads an element from its coefficients.
    fn from_coefficients(coefficients: &Vec<F>) -> (r: Self)
        requires
            coefficients@.len() == Self::sp_dimension(),
        ensures
            r.sp_coefficients() == coefficients@,
            r.wf(),
    ;

    fn from_base(x: F) -> (r: Self)
        ensures
            r == Self::sp_from_base(x),
            r.wf(),
    ;

    /// An element is its coefficients.
    proof fn coefficients_determine(a: Self, b: Self)
        requires
            a.sp_coefficients() == b.sp_coefficients(),
        ensures
            a == b,
    ;

    proof fn coefficient_count(a: Self)
        ensures
            a.sp_coefficients().len() == Self::sp_dimension(),
    ;

    /// The base elements are added and multiplied in the extension as in the base.
    proof fn base_embeds(x: F, y: F)
        ensures
            x.wf() ==> Self::sp_from_base(x).wf(),
            Self::sp_from_base(F::sp_zero()) == Self::sp_zero(),
            Self::sp_from_base(F::sp_one()) == Self::sp_one(),
            Self::sp_from_base(x.sp_add(y)) == Self::sp_from_base(x).sp_add(Self::sp_from_base(y)),
            Self::sp_from_base(x.sp_mul(y)) == Self::sp_from_base(x).sp_mul(Self::sp_from_base(y)),
    ;
}

/// A modulus whose field has the binomial extension of degree `D`.
pub trait BinomialModulus<const D: usize>: PrimeModulus {
    /// The non-residue `W`.
    spec fn sp_w() -> nat;

    /// The coefficients of the inverse of a nonzero element.
    spec fn sp_ext_inverse(coefficients: Seq<u64>) -> Seq<u64>;

    /// The types that an element is marked with, as they are shown.
    spec fn sp_marker() -> Seq<char>;

    proof fn degree_positive()
        ensures
            D > 0,
    ;

    fn marker() -> (r: &'static str)
        ensures
            r@ == Self::sp_marker(),
    ;

    fn w() -> (r: u64)
        ensures
            r == Self::sp_w(),
    ;

    fn ext_inverse(coefficients: [u64; D]) -> (r: [u64; D])
        requires
            exists|i: int| 0 <= i < D && coefficients@[i] != 0,
            forall|i: int| 0 <= i < D ==> coefficients@[i] < Self::sp_modulus(),
        ensures
            r@ == Self::sp_ext_inverse(coefficients@),
            forall|i: int| 0 <= i < D ==> r@[i] < Self::sp_modulus(),
            forall|k: int|
                0 <= k < D ==> #[trigger] convolution::<Self>(
                    of_all::<Self>(coefficients@),
                    of_all::<Self>(r@),
                    Fp::of(Self::sp_w()),
                    k,
                    D as nat,
                ) == (if k == 0 {
                    Fp::<Self>::sp_one()
                } else {
                    Fp::<Self>::sp_zero()
                }),
    ;
}

/// The field elements with the given representatives.
pub open spec fn of_all<M: PrimeModulus>(values: Seq<u64>) -> Seq<Fp<M>> {
    Seq::new(values.len(), |i: int| Fp::of(values[i] as nat))
}

/// The `k`-th coefficient of a product, summed over the first `n` coefficients of `a`.
pub open spec fn convolution<M: PrimeModulus>(
    a: Seq<Fp<M>>,
    b: Seq<Fp<M>>,
    w: Fp<M>,
    k: int,
    n: nat,
) -> Fp<M>
    decreases n,
{
    if n == 0 {
        Fp::sp_zero()
    } else {
        let i = n - 1;
        convolution(a, b, w, k, i as nat).sp_add(
            if i <= k {
                a[i].sp_mul(b[k - i])
            } else {
                a[i].sp_mul(b[k + a.len() - i]).sp_mul(w)
            },
        )
    }
}

/// An array whose first `n` entries are those of `s`.
spec fn filled<M: PrimeModulus, const D: usize>(s: Seq<Fp<M>>, n: nat) -> [Fp<M>; D]
    decreases n,
{
    if n == 0 {
        vstd::array::spec_array_fill_for_copy_type(Fp::sp_zero())
    } else {
        vstd::array::spec_array_update(filled(s, (n - 1) as nat), n - 1, s[n - 1])
    }
}

proof fn lemma_filled<M: PrimeModulus, const D: usize>(s: Seq<Fp<M>>, n: nat)
    requires
        n <= D,
    ensures
        forall|i: int| 0 <= i < n ==> filled::<M, D>(s, n)@[i] == s[i],
    decreases n,
{
    if n > 0 {
        lemma_filled::<M, D>(s, (n - 1) as nat);
    }
}

/// An element of the extension of degree `D`.
#[derive(Debug, PartialEq, Eq)]
pub struct Ext<M: BinomialModulus<D>, const D: usize> {
    coeffs: [Fp<M>; D],
}

impl<M: BinomialModulus<D>, const D: usize> Clone for Ext<M, D> {
    fn clone(&self) -> (r: Self)
        ensures
            r == *self,
    {
        *self
    }
}

impl<M: BinomialModulus<D>, const D: usize> Copy for Ext<M, D> {

}

impl<M: BinomialModulus<D>, const D: usize> Ext<M, D> {
    /// The coefficients.
    pub closed spec fn seq(self) -> Seq<Fp<M>> {
        self.coeffs@
    }

    /// The element with the given coefficients.
    pub open spec fn of(coefficients: Seq<Fp<M>>) -> Self {
        choose|r: Self| #[trigger] r.seq() == coefficients
    }

    /// The image of a base element.
    pub open spec fn of_base(x: Fp<M>) -> Self {
        Self::of(Seq::new(D as nat, |i: int| if i == 0 { x } else { Fp::sp_zero() }))
    }

    pub proof fn lemma_ext(a: Self, b: Self)
        requires
            a.seq() == b.seq(),
        ensures
            a == b,
    {
        assert(a.coeffs =~= b.coeffs);
    }

    pub proof fn lemma_of(a: Self)
        ensures
            Self::of(a.seq()) == a,
    {
        let b = Self::of(a.seq());
        assert(b.seq() == a.seq());
        Self::lemma_ext(a, b);
    }

    pub proof fn lemma_len(a: Self)
        ensures
            a.seq().len() == D,
    {
    }

    /// Every list of `D` coefficients has its element.
    pub proof fn lemma_seq(coefficients: Seq<Fp<M>>)
        requires
            coefficients.len() == D,
        ensures
            Self::of(coefficients).seq() == coefficients,
    {
        let r = Ext { coeffs: filled(coefficients, D as nat) };
        lemma_filled::<M, D>(coefficients, D as nat);
        assert(r.seq() =~= coefficients);
    }

    /// Wraps coefficients given in order.
    pub fn new(coeffs: [Fp<M>; D]) -> (r: Self)
        ensures
            r.seq() == coeffs@,
    {
        Ext { coeffs }
    }

    fn base(x: Fp<M>) -> (r: Self)
        ensures
            r == Self::of_base(x),
            r.seq() == Seq::new(D as nat, |i: int| if i == 0 { x } else { Fp::sp_zero() }),
    {
        proof {
            M::degree_positive();
        }
        let mut coeffs: [Fp<M>; D] = [Fp::zero();D];
        coeffs[0] = x;
        let r = Ext { coeffs };
        proof {
            assert(r.seq() =~= Seq::new(
                D as nat,
                |i: int| if i == 0 { x } else { Fp::sp_zero() },
            ));
            Self::lemma_of(r);
        }
        r
    }

    fn product_coefficient(self, rhs: Self, w: Fp<M>, k: usize) -> (r: Fp<M>)
        requires
            k < D,
        ensures
            r == convolution(self.seq(), rhs.seq(), w, k as int, D as nat),
    {
        let mut acc: Fp<M> = Fp::zero();
        let mut i: usize = 0;
        while i < D
            invariant
                i <= D,
                k < D,
                acc == convolution(self.seq(), rhs.seq(), w, k as int, i as nat),
            decreases D - i,
        {
            let term = if i <= k {
                self.coeffs[i].mul(rhs.coeffs[k - i])
            } else {
                self.coeffs[i].mul(rhs.coeffs[D - (i - k)]).mul(w)
            };
            acc = acc.add(term);
            i += 1;
        }
        acc
    }
}

impl<M: BinomialModulus<D>, const D: usize> Field for Ext<M, D> {
    open spec fn wf(self) -> bool {
        forall|i: int| 0 <= i < D ==> (#[trigger] self.seq()[i]).wf()
    }

    open spec fn sp_zero() -> Self {
        Self::of_base(Fp::sp_zero())
    }

    open spec fn sp_one() -> Self {
        Self::of_base(Fp::sp_one())
    }

    open spec fn sp_add(self, rhs: Self) -> Self {
        Self::of(Seq::new(D as nat, |i: int| self.seq()[i].sp_add(rhs.seq()[i])))
    }

    open spec fn sp_sub(self, rhs: Self) -> Self {
        Self::of(Seq::new(D as nat, |i: int| self.seq()[i].sp_sub(rhs.seq()[i])))
    }

    open spec fn sp_mul(self, rhs: Self) -> Self {
        Self::of(
            Seq::new(
                D as nat,
                |k: int| convolution(self.seq(), rhs.seq(), Fp::of(M::sp_w()), k, D as nat),
            ),
        )
    }

    open spec fn sp_inv(self) -> Self {
        Self::of(
            of_all::<M>(
                M::sp_ext_inverse(Seq::new(D as nat, |i: int| self.seq()[i].val() as u64)),
            ),
        )
    }

    open spec fn sp_from(n: nat) -> Self {
        Self::of_base(Fp::sp_from(n))
    }

    fn zero() -> (r: Self) {
        let r = Self::base(Fp::zero());
        proof {
            Self::closed(r, r);
        }
        r
    }

    fn one() -> (r: Self) {
        let r = Self::base(Fp::one());
        proof {
            Self::closed(r, r);
        }
        r
    }

    fn add(self, rhs: Self) -> (r: Self) {
        let mut coeffs: [Fp<M>; D] = self.coeffs;
        let mut i: usize = 0;
        while i < D
            invariant
                i <= D,
                forall|j: int|
                    0 <= j < i ==> coeffs@[j] == self.seq()[j].sp_add(rhs.seq()[j]),
                forall|j: int| i <= j < D ==> coeffs@[j] == self.seq()[j],
            decreases D - i,
        {
            coeffs[i] = self.coeffs[i].add(rhs.coeffs[i]);
            i += 1;
        }
        let r = Ext { coeffs };
        proof {
            Self::closed(self, rhs);
            assert(r.seq() =~= Seq::new(
                D as nat,
                |i: int| self.seq()[i].sp_add(rhs.seq()[i]),
            ));
            Self::lemma_of(r);
        }
        r
    }

    fn sub(self, rhs: Self) -> (r: Self) {
        let mut coeffs: [Fp<M>; D] = self.coeffs;
        let mut i: usize = 0;
        while i < D
            invariant
                i <= D,
                forall|j: int|
                    0 <= j < i ==> coeffs@[j] == self.seq()[j].sp_sub(rhs.seq()[j]),
                forall|j: int| i <= j < D ==> coeffs@[j] == self.seq()[j],
            decreases D - i,
        {
            coeffs[i] = self.coeffs[i].sub(rhs.coeffs[i]);
            i += 1;
        }
        let r = Ext { coeffs };
        proof {
            Self::closed(self, rhs);
            assert(r.seq() =~= Seq::new(
                D as nat,
                |i: int| self.seq()[i].sp_sub(rhs.seq()[i]),
            ));
            Self::lemma_of(r);
        }
        r
    }

    fn mul(self, rhs: Self) -> (r: Self) {
        let w: Fp<M> = Fp::new(M::w());
        let mut coeffs: [Fp<M>; D] = self.coeffs;
        let mut k: usize = 0;
        while k < D
            invariant
                k <= D,
                w == Fp::<M>::of(M::sp_w()),
                forall|j: int|
                    0 <= j < k ==> coeffs@[j] == convolution(
                        self.seq(),
                        rhs.seq(),
                        w,
                        j,
                        D as nat,
                    ),
            decreases D - k,
        {
            coeffs[k] = self.product_coefficient(rhs, w, k);
            k += 1;
        }
        let r = Ext { coeffs };
        proof {
            Self::closed(self, rhs);
            assert(r.seq() =~= Seq::new(
                D as nat,
                |k: int| convolution(self.seq(), rhs.seq(), Fp::of(M::sp_w()), k, D as nat),
            ));
            Self::lemma_of(r);
        }
        r
    }

    fn inverse(self) -> (r: Self) {
        let zero = Self::base(Fp::zero());
        let one = Self::base(Fp::one());
        let mut values: [u64; D] = [0;D];
        let mut i: usize = 0;
        while i < D
            invariant
                i <= D,
                forall|j: int| 0 <= j < i ==> values@[j] == self.seq()[j].val(),
                forall|j: int| 0 <= j < i ==> (#[trigger] values@[j]) < M::sp_modulus(),
            decreases D - i,
        {
            values[i] = self.coeffs[i].as_canonical_u64();
            i += 1;
        }
        proof {
            assert(values@ =~= Seq::new(D as nat, |i: int| self.seq()[i].val() as u64));
            assert(of_all::<M>(values@) =~= self.seq()) by {
                assert forall|j: int| 0 <= j < D implies of_all::<M>(values@)[j]
                    == self.seq()[j] by {
                    assert(values@[j] < M::sp_modulus());
                    Fp::<M>::lemma_val(self.seq()[j]);
                }
            }
            Fp::<M>::lemma_of(0);
            if forall|j: int| 0 <= j < D ==> values@[j] == 0 {
                assert(self.seq() =~= zero.seq()) by {
                    assert forall|j: int| 0 <= j < D implies self.seq()[j] == zero.seq()[j] by {
                        assert(values@[j] == 0);
                        Fp::<M>::lemma_ext(self.seq()[j], zero.seq()[j]);
                    }
                }
                Self::lemma_ext(self, zero);
            }
        }
        let inv: [u64; D] = M::ext_inverse(values);
        let mut coeffs: [Fp<M>; D] = [Fp::zero();D];
        let mut i: usize = 0;
        while i < D
            invariant
                i <= D,
                forall|j: int| 0 <= j < i ==> coeffs@[j] == Fp::<M>::of(inv@[j] as nat),
            decreases D - i,
        {
            coeffs[i] = Fp::new(inv[i]);
            i += 1;
        }
        let r = Ext { coeffs };
        proof {
            assert(r.seq() =~= of_all::<M>(inv@));
            assert forall|i: int| 0 <= i < D implies (#[trigger] r.seq()[i]).wf() by {
                Fp::<M>::lemma_of(inv@[i] as nat);
            }
            Self::lemma_of(r);
            assert(one.seq() =~= Seq::new(
                D as nat,
                |k: int| convolution(self.seq(), r.seq(), Fp::of(M::sp_w()), k, D as nat),
            ));
            Self::lemma_of(one);
        }
        r
    }

    fn from_u64(n: u64) -> (r: Self) {
        let x: Fp<M> = Fp::from_u64(n);
        proof {
            Self::lemma_base_embeds(x, x);
        }
        Self::base(x)
    }

    fn equals(self, rhs: Self) -> (b: bool) {
        let mut i: usize = 0;
        while i < D
            invariant
                i <= D,
                forall|j: int| 0 <= j < i ==> self.seq()[j] == rhs.seq()[j],
            decreases D - i,
        {
            if !self.coeffs[i].equals(rhs.coeffs[i]) {
                return false;
            }
            i += 1;
        }
        proof {
            assert(self.seq() =~= rhs.seq());
            Self::lemma_ext(self, rhs);
        }
        true
    }
}

impl<M: BinomialModulus<D>, const D: usize> ExtensionField<Fp<M>> for Ext<M, D> {
    open spec fn sp_dimension() -> nat {
        D as nat
    }

    open spec fn sp_coefficients(self) -> Seq<Fp<M>> {
        self.seq()
    }

    open spec fn sp_from_base(x: Fp<M>) -> Self {
        Self::of_base(x)
    }

    fn dimension() -> (r: usize) {
        proof {
            M::degree_positive();
        }
        D
    }

    fn coefficients(self) -> (r: Vec<Fp<M>>) {
        let mut r: Vec<Fp<M>> = Vec::new();
        let mut i: usize = 0;
        while i < D
            invariant
                i <= D,
                r@.len() == i,
                forall|j: int| 0 <= j < i ==> r@[j] == self.seq()[j],
            decreases D - i,
        {
            r.push(self.coeffs[i]);
            i += 1;
        }
        assert(r@ =~= self.seq());
        r
    }

    fn from_coefficients(coefficients: &Vec<Fp<M>>) -> (r: Self) {
        let mut coeffs: [Fp<M>; D] = [Fp::zero();D];
        let mut i: usize = 0;
        while i < D
            invariant
                i <= D,
                coefficients@.len() == D,
                forall|j: int| 0 <= j < i ==> coeffs@[j] == coefficients@[j],
                forall|j: int| 0 <= j < i ==> (#[trigger] coeffs@[j]).wf(),
            decreases D - i,
        {
            let c: Fp<M> = coefficients[i];
            let _canonical: u64 = c.as_canonical_u64();
            coeffs[i] = c;
            i += 1;
        }
        let r = Ext { coeffs };
        assert(r.seq() =~= coefficients@);
        r
    }

    fn from_base(x: Fp<M>) -> (r: Self) {
        let _canonical: u64 = x.as_canonical_u64();
        proof {
            Self::lemma_base_embeds(x, x);
        }
        Self::base(x)
    }

    proof fn coefficients_determine(a: Self, b: Self) {
        Self::lemma_ext(a, b);
    }

    proof fn coefficient_count(a: Self) {
    }

    proof fn base_embeds(x: Fp<M>, y: Fp<M>) {
        Self::lemma_base_embeds(x, y);
    }
}

/// Every field is the extension of degree one of itself.
impl<M: PrimeModulus> ExtensionField<Fp<M>> for Fp<M> {
    open spec fn sp_dimension() -> nat {
        1
    }

    open spec fn sp_coefficients(self) -> Seq<Fp<M>> {
        seq![self]
    }

    open spec fn sp_from_base(x: Fp<M>) -> Self {
        x
    }

    fn dimension() -> (r: usize) {
        1
    }

    fn coefficients(self) -> (r: Vec<Fp<M>>) {
        let mut r: Vec<Fp<M>> = Vec::new();
        r.push(self);
        assert(r@ =~= seq![self]);
        r
    }

    fn from_coefficients(coefficients: &Vec<Fp<M>>) -> (r: Self) {
        let r = coefficients[0];
        let _v: u64 = r.as_canonical_u64();
        assert(seq![r] =~= coefficients@);
        r
    }

    fn from_base(x: Fp<M>) -> (r: Self) {
        let _v: u64 = x.as_canonical_u64();
        x
    }

    proof fn coefficients_determine(a: Self, b: Self) {
        assert(seq![a][0] == seq![b][0]);
    }

    proof fn coefficient_count(a: Self) {
    }

    proof fn base_embeds(x: Fp<M>, y: Fp<M>) {
    }
}

/// What [`baby_bear_ext4_inverse`] returns.
pub uninterp spec fn baby_bear_ext4_inverse_of(coefficients: Seq<u64>) -> Seq<u64>;

/// `BinomialExtensionField::<p3_baby_bear::BabyBear, 4>::inverse`: the element whose product with
/// the argument modulo `X^4 - 11` is one.
#[verifier::external_body]
fn baby_bear_ext4_inverse(coefficients: [u64; 4]) -> (r: [u64; 4])
    requires
        exists|i: int| 0 <= i < 4 && coefficients@[i] != 0,
        forall|i: int| 0 <= i < 4 ==> coefficients@[i] < 0x78000001,
    ensures
        r@ == baby_bear_ext4_inverse_of(coefficients@),
        forall|i: int| 0 <= i < 4 ==> r@[i] < 0x78000001,
        forall|k: int|
            0 <= k < 4 ==> #[trigger] convolution::<BabyBearModulus>(
                of_all::<BabyBearModulus>(coefficients@),
                of_all::<BabyBearModulus>(r@),
                BabyBear::of(11),
                k,
                4,
            ) == (if k == 0 {
                BabyBear::sp_one()
            } else {
                BabyBear::sp_zero()
            }),
{
    let x = BinomialExtensionField::<p3_baby_bear::BabyBear, 4>::from_basis_coefficients_fn(
        |i| p3_baby_bear::BabyBear::from_u64(coefficients[i]),
    );
    let inv = x.inverse();
    let c: &[p3_baby_bear::BabyBear] = inv.as_basis_coefficients_slice();
    core::array::from_fn(|i| c[i].as_canonical_u64())
}

/// The base field and the shape of the quartic extension of [`BabyBear`].
pub const BABY_BEAR_MARKER: &'static str = "(p3_monty_31::monty_31::MontyField31<p3_baby_bear::baby_bear::BabyBearParameters>, p3_field::extension::Binomial<p3_monty_31::monty_31::MontyField31<p3_baby_bear::baby_bear::BabyBearParameters>>)";

impl BinomialModulus<4> for BabyBearModulus {
    open spec fn sp_w() -> nat {
        11
    }

    open spec fn sp_ext_inverse(coefficients: Seq<u64>) -> Seq<u64> {
        baby_bear_ext4_inverse_of(coefficients)
    }

    open spec fn sp_marker() -> Seq<char> {
        BABY_BEAR_MARKER@
    }

    proof fn degree_positive() {
    }

    fn marker() -> (r: &'static str) {
        BABY_BEAR_MARKER
    }

    fn w() -> (r: u64) {
        11
    }

    fn ext_inverse(coefficients: [u64; 4]) -> (r: [u64; 4]) {
        baby_bear_ext4_inverse(coefficients)
    }
}

/// The quartic extension of [`BabyBear`].
pub type BabyBearExt4 = Ext<BabyBearModulus, 4>;

} // verus!
