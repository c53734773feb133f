//! Prime fields in canonical form, and the arithmetic that the verifier logic is generic over.

use core::marker::PhantomData;
use p3_field::{Field as _, PrimeCharacteristicRing as _, PrimeField64 as _, TwoAdicField as _};
use vstd::arithmetic::div_mod::*;
use vstd::arithmetic::mul::*;
use vstd::arithmetic::power::*;
use vstd::arithmetic::power2::*;
use vstd::prelude::*;

verus! {

/// Elements with exact arithmetic.
///
/// The `sp_*` functions are the mathematical operations; every executable method returns exactly
/// what its mathematical counterpart says.
pub trait Field: Copy + Sized {
    /// The element is in canonical form. Every executable value is.
    spec fn wf(self) -> bool;

    spec fn sp_zero() -> Self;

    spec fn sp_one() -> Self;

    spec fn sp_add(self, rhs: Self) -> Self;

    spec fn sp_sub(self, rhs: Self) -> Self;

    spec fn sp_mul(self, rhs: Self) -> Self;

    /// The multiplicative inverse of a nonzero element.
    spec fn sp_inv(self) -> Self;

    /// The image of a natural number.
    spec fn sp_from(n: nat) -> Self;

    fn zero() -> (r: Self)
        ensures
            r == Self::sp_zero(),
            r.wf(),
    ;

    fn one() -> (r: Self)
        ensures
            r == Self::sp_one(),
            r.wf(),
    ;

    fn add(self, rhs: Self) -> (r: Self)
        ensures
            r == self.sp_add(rhs),
            r.wf(),
    ;

    fn sub(self, rhs: Self) -> (r: Self)
        ensures
            r == self.sp_sub(rhs),
            r.wf(),
    ;

    fn mul(self, rhs: Self) -> (r: Self)
        ensures
            r == self.sp_mul(rhs),
            r.wf(),
    ;

    fn inverse(self) -> (r: Self)
        requires
            self != Self::sp_zero(),
        ensures
            r == self.sp_inv(),
            self.sp_mul(r) == Self::sp_one(),
            r.wf(),
    ;

    fn from_u64(n: u64) -> (r: Self)
        ensures
            r == Self::sp_from(n as nat),
            r.wf(),
    ;

    fn equals(self, rhs: Self) -> (b: bool)
        ensures
            b == (self == rhs),
    ;
}

/// A field whose canonical elements obey the laws of a commutative ring.
pub trait CommutativeRing: Field {
    proof fn closed(a: Self, b: Self)
        ensures
            Self::sp_zero().wf(),
            Self::sp_one().wf(),
            a.sp_add(b).wf(),
            a.sp_sub(b).wf(),
            a.sp_mul(b).wf(),
    ;

    proof fn add_commutes(a: Self, b: Self)
        ensures
            a.sp_add(b) == b.sp_add(a),
    ;

    proof fn add_associates(a: Self, b: Self, c: Self)
        ensures
            a.sp_add(b).sp_add(c) == a.sp_add(b.sp_add(c)),
    ;

    proof fn add_zero(a: Self)
        requires
            a.wf(),
        ensures
            a.sp_add(Self::sp_zero()) == a,
    ;

    /// Subtraction undoes addition.
    proof fn sub_add(a: Self, b: Self)
        requires
            a.wf(),
        ensures
            a.sp_sub(b).sp_add(b) == a,
            a.sp_add(b).sp_sub(b) == a,
    ;

    proof fn mul_commutes(a: Self, b: Self)
        ensures
            a.sp_mul(b) == b.sp_mul(a),
    ;

    proof fn mul_associates(a: Self, b: Self, c: Self)
        ensures
            a.sp_mul(b).sp_mul(c) == a.sp_mul(b.sp_mul(c)),
    ;

    proof fn mul_one(a: Self)
        requires
            a.wf(),
        ensures
            a.sp_mul(Self::sp_one()) == a,
    ;

    proof fn mul_zero(a: Self)
        ensures
            a.sp_mul(Self::sp_zero()) == Self::sp_zero(),
    ;

    proof fn mul_distributes(a: Self, b: Self, c: Self)
        ensures
            a.sp_mul(b.sp_add(c)) == a.sp_mul(b).sp_add(a.sp_mul(c)),
            a.sp_mul(b.sp_sub(c)) == a.sp_mul(b).sp_sub(a.sp_mul(c)),
    ;

    /// The images of the natural numbers are sums of ones.
    proof fn from_adds(m: nat, n: nat)
        ensures
            Self::sp_from(1) == Self::sp_one(),
            Self::sp_from(m + n) == Self::sp_from(m).sp_add(Self::sp_from(n)),
    ;
}

/// A field with roots of unity of every order `2^bits` up to a limit.
pub trait TwoAdicField: CommutativeRing {
    /// The largest admissible `bits`.
    spec fn sp_two_adicity() -> nat;

    /// The chosen generator of the subgroup of order `2^bits`.
    spec fn sp_two_adic_generator(bits: nat) -> Self;

    /// The chosen generator of the whole multiplicative group.
    spec fn sp_generator() -> Self;

    proof fn nontrivial()
        ensures
            Self::sp_one() != Self::sp_zero(),
    ;

    /// The powers of two can be divided by.
    proof fn power_of_two_unit(n: nat)
        ensures
            is_unit(Self::sp_from(pow2(n))),
    ;

    fn two_adicity() -> (r: usize)
        ensures
            r == Self::sp_two_adicity(),
            r < 64,
    ;

    fn two_adic_generator(bits: usize) -> (r: Self)
        requires
            bits <= Self::sp_two_adicity(),
        ensures
            r == Self::sp_two_adic_generator(bits as nat),
            r.wf(),
            power(r, pow2(bits as nat)) == Self::sp_one(),
            bits > 0 ==> power(r, pow2((bits - 1) as nat)) != Self::sp_one(),
    ;

    fn generator() -> (r: Self)
        ensures
            r == Self::sp_generator(),
    ;
}

/// A difference vanishes exactly between equal elements.
pub proof fn lemma_difference<F: CommutativeRing>(a: F, b: F)
    requires
        a.wf(),
        b.wf(),
    ensures
        a.sp_sub(b) == F::sp_zero() <==> a == b,
{
    F::closed(a, b);
    F::add_commutes(F::sp_zero(), b);
    F::add_zero(b);
    F::sub_add(F::sp_zero(), b);
    F::sub_add(a, b);
}

/// Every element but zero has its inverse.
pub open spec fn divides<F: Field>() -> bool {
    forall|x: F|
        x.wf() && x != F::sp_zero() ==> (#[trigger] x.sp_inv()).wf() && x.sp_mul(x.sp_inv())
            == F::sp_one()
}

/// The element divides one.
pub open spec fn is_unit<F: Field>(x: F) -> bool {
    exists|y: F| y.wf() && #[trigger] x.sp_mul(y) == F::sp_one()
}

/// `x` multiplied by itself `n` times.
pub open spec fn power<F: Field>(x: F, n: nat) -> F
    decreases n,
{
    if n == 0 {
        F::sp_one()
    } else {
        power(x, (n - 1) as nat).sp_mul(x)
    }
}

pub proof fn lemma_power_wf<F: CommutativeRing>(x: F, n: nat)
    ensures
        power(x, n).wf(),
{
    if n == 0 {
        F::closed(x, x);
    } else {
        F::closed(power(x, (n - 1) as nat), x);
    }
}

/// Exponents add.
pub proof fn lemma_power_add<F: CommutativeRing>(x: F, m: nat, n: nat)
    ensures
        power(x, m + n) == power(x, m).sp_mul(power(x, n)),
    decreases n,
{
    lemma_power_wf(x, m);
    if n == 0 {
        F::mul_one(power(x, m));
    } else {
        lemma_power_add(x, m, (n - 1) as nat);
        F::mul_associates(power(x, m), power(x, (n - 1) as nat), x);
    }
}

/// Powers of a square.
pub proof fn lemma_power_square<F: CommutativeRing>(x: F, n: nat)
    ensures
        power(x.sp_mul(x), n) == power(x, 2 * n),
    decreases n,
{
    if n > 0 {
        lemma_power_square(x, (n - 1) as nat);
        let p = power(x, (2 * n - 2) as nat);
        assert(power(x, (2 * n) as nat) == power(x, (2 * n - 1) as nat).sp_mul(x));
        assert(power(x, (2 * n - 1) as nat) == p.sp_mul(x));
        F::mul_associates(p, x, x);
    }
}

/// Powers of inverses are inverse.
pub proof fn lemma_power_unit<F: CommutativeRing>(x: F, y: F, n: nat)
    requires
        x.sp_mul(y) == F::sp_one(),
    ensures
        power(x, n).sp_mul(power(y, n)) == F::sp_one(),
    decreases n,
{
    F::closed(x, y);
    F::mul_one(F::sp_one());
    if n > 0 {
        let m = (n - 1) as nat;
        let (a, b) = (power(x, m), power(y, m));
        lemma_power_unit(x, y, m);
        // (a·x)·(b·y) = a·(x·(b·y)) = a·((x·b)·y) = a·((b·x)·y) = a·(b·(x·y)) = a·b
        F::mul_associates(a, x, b.sp_mul(y));
        F::mul_associates(x, b, y);
        F::mul_commutes(x, b);
        F::mul_associates(b, x, y);
        lemma_power_wf(y, m);
        F::mul_one(b);
    }
}

pub proof fn lemma_unit_power<F: CommutativeRing>(x: F, n: nat)
    requires
        is_unit(x),
    ensures
        is_unit(power(x, n)),
{
    let y = choose|y: F| y.wf() && #[trigger] x.sp_mul(y) == F::sp_one();
    lemma_power_unit(x, y, n);
    lemma_power_wf(y, n);
}

pub proof fn lemma_unit_mul<F: CommutativeRing>(a: F, b: F)
    requires
        is_unit(a),
        is_unit(b),
    ensures
        is_unit(a.sp_mul(b)),
{
    let x = choose|y: F| y.wf() && #[trigger] a.sp_mul(y) == F::sp_one();
    let y = choose|y: F| y.wf() && #[trigger] b.sp_mul(y) == F::sp_one();
    // (a·b)·(y·x) = a·(b·(y·x)) = a·((b·y)·x) = a·(1·x) = a·x
    F::mul_associates(a, b, y.sp_mul(x));
    F::mul_associates(b, y, x);
    F::mul_commutes(F::sp_one(), x);
    F::mul_one(x);
    F::closed(y, x);
    assert(a.sp_mul(b).sp_mul(y.sp_mul(x)) == F::sp_one());
}

/// A unit is not zero.
pub proof fn lemma_unit_nonzero<F: TwoAdicField>(x: F)
    requires
        is_unit(x),
    ensures
        x != F::sp_zero(),
{
    let y = choose|y: F| y.wf() && #[trigger] x.sp_mul(y) == F::sp_one();
    F::mul_commutes(F::sp_zero(), y);
    F::mul_zero(y);
    F::nontrivial();
}

/// A root of unity is a unit.
pub proof fn lemma_root_unit<F: CommutativeRing>(x: F, n: nat)
    requires
        n > 0,
        power(x, n) == F::sp_one(),
    ensures
        is_unit(x),
{
    let y = power(x, (n - 1) as nat);
    F::mul_commutes(x, y);
    lemma_power_wf(x, (n - 1) as nat);
    assert(x.sp_mul(y) == F::sp_one());
}

/// `base` to the power `exponent`, by squaring.
pub fn exp_u64<F: CommutativeRing>(base: F, exponent: u64) -> (r: F)
    ensures
        r == power(base, exponent as nat),
{
    let mut acc: F = F::one();
    let mut sq: F = base;
    let mut e: u64 = exponent;
    proof {
        lemma_power_wf(base, exponent as nat);
        F::mul_commutes(F::sp_one(), power(base, exponent as nat));
        F::mul_one(power(base, exponent as nat));
    }
    while e > 0
        invariant
            acc.sp_mul(power(sq, e as nat)) == power(base, exponent as nat),
            acc.wf(),
        decreases e,
    {
        let half: u64 = e / 2;
        proof {
            lemma_power_square(sq, half as nat);
            if e % 2 == 1 {
                assert(e == 2 * half + 1);
                let p = power(sq, (2 * half) as nat);
                F::mul_commutes(p, sq);
                F::mul_associates(acc, sq, p);
            } else {
                assert(e == 2 * half);
            }
        }
        if e % 2 == 1 {
            acc = acc.mul(sq);
        }
        sq = sq.mul(sq);
        e = half;
    }
    proof {
        F::mul_one(acc);
    }
    acc
}

/// `x` squared `n` times.
pub open spec fn repeated_square<F: Field>(x: F, n: nat) -> F
    decreases n,
{
    if n == 0 {
        x
    } else {
        repeated_square(x, (n - 1) as nat).sp_mul(repeated_square(x, (n - 1) as nat))
    }
}

/// `x` to the power `2^n`.
pub fn exp_power_of_2<F: Field>(x: F, n: usize) -> (r: F)
    ensures
        r == repeated_square(x, n as nat),
{
    let mut r: F = x;
    let mut i: usize = 0;
    while i < n
        invariant
            i <= n,
            r == repeated_square(x, i as nat),
        decreases n - i,
    {
        r = r.mul(r);
        i += 1;
    }
    r
}

/// Repeated squaring raises to a power of two.
pub proof fn lemma_repeated_square<F: CommutativeRing>(x: F, n: nat)
    requires
        x.wf(),
    ensures
        repeated_square(x, n) == power(x, pow2(n)),
    decreases n,
{
    if n == 0 {
        lemma2_to64();
        assert(power(x, 1) == power(x, 0).sp_mul(x));
        F::mul_commutes(F::sp_one(), x);
        F::mul_one(x);
    } else {
        lemma_repeated_square(x, (n - 1) as nat);
        lemma_pow2_unfold(n);
        lemma_power_add(x, pow2((n - 1) as nat), pow2((n - 1) as nat));
    }
}

/// A prime modulus together with the constants of its field.
pub trait PrimeModulus: Copy + Sized {
    spec fn sp_modulus() -> nat;

    spec fn sp_adicity() -> nat;

    spec fn sp_root(bits: nat) -> nat;

    spec fn sp_gen() -> nat;

    proof fn modulus_bounds()
        ensures
            1 < Self::sp_modulus() <= u64::MAX,
            Self::sp_modulus() % 2 == 1,
    ;

    fn modulus() -> (r: u64)
        ensures
            r == Self::sp_modulus(),
            r > 1,
    ;

    fn adicity() -> (r: usize)
        ensures
            r == Self::sp_adicity(),
            r < 64,
    ;

    fn gen() -> (r: u64)
        ensures
            r == Self::sp_gen(),
            r < Self::sp_modulus(),
    ;

    fn root(bits: usize) -> (r: u64)
        requires
            bits <= Self::sp_adicity(),
        ensures
            r == Self::sp_root(bits as nat),
            r < Self::sp_modulus(),
            pow(r as int, pow2(bits as nat)) % Self::sp_modulus() as int == 1,
            bits > 0 ==> pow(r as int, pow2((bits - 1) as nat)) % Self::sp_modulus() as int
                == Self::sp_modulus() - 1,
    ;

    fn inverse(x: u64) -> (r: u64)
        requires
            0 < x < Self::sp_modulus(),
        ensures
            r < Self::sp_modulus(),
            (x * r) as nat % Self::sp_modulus() == 1,
    ;
}

/// An element of the field of integers modulo a prime, kept reduced.
#[derive(Debug, PartialEq, Eq)]
pub struct Fp<M: PrimeModulus> {
    value: u64,
    modulus: PhantomData<M>,
}

impl<M: PrimeModulus> Clone for Fp<M> {
    fn clone(&self) -> (r: Self)
        ensures
            r == *self,
    {
        *self
    }
}

impl<M: PrimeModulus> Copy for Fp<M> {

}

impl<M: PrimeModulus> Fp<M> {
    #[verifier::type_invariant]
    spec fn reduced(self) -> bool {
        self.value < M::sp_modulus()
    }

    /// The canonical representative.
    pub closed spec fn val(self) -> nat {
        self.value as nat
    }

    /// The element with the given representative.
    pub closed spec fn of(n: nat) -> Self {
        Fp { value: (n % M::sp_modulus()) as u64, modulus: PhantomData }
    }

    /// Reduces an integer.
    pub fn new(n: u64) -> (r: Self)
        ensures
            r == Self::of(n as nat),
            r.val() == n as nat % M::sp_modulus(),
    {
        let p: u64 = M::modulus();
        Fp { value: n % p, modulus: PhantomData }
    }

    pub fn as_canonical_u64(self) -> (r: u64)
        ensures
            r == self.val(),
            r < M::sp_modulus(),
    {
        proof {
            use_type_invariant(&self);
        }
        self.value
    }

    /// The representative of `of(n)` is `n` reduced.
    pub proof fn lemma_of(n: nat)
        ensures
            Self::of(n).val() == n % M::sp_modulus(),
            Self::of(n).val() < M::sp_modulus(),
            n < M::sp_modulus() ==> Self::of(n).val() == n,
    {
        M::modulus_bounds();
        lemma_mod_bound(n as int, M::sp_modulus() as int);
        if n < M::sp_modulus() {
            lemma_small_mod(n, M::sp_modulus());
        }
    }

    /// Elements with equal representatives are equal.
    pub proof fn lemma_ext(a: Self, b: Self)
        requires
            a.val() == b.val(),
        ensures
            a == b,
    {
    }

    /// An element in canonical form is the image of its representative.
    pub proof fn lemma_val(a: Self)
        requires
            a.val() < M::sp_modulus(),
        ensures
            Self::of(a.val()) == a,
    {
        Self::lemma_of(a.val());
        Self::lemma_ext(Self::of(a.val()), a);
    }
}

impl<M: PrimeModulus> Field for Fp<M> {
    open spec fn wf(self) -> bool {
        self.val() < M::sp_modulus()
    }

    open spec fn sp_zero() -> Self {
        Self::of(0)
    }

    open spec fn sp_one() -> Self {
        Self::of(1)
    }

    open spec fn sp_add(self, rhs: Self) -> Self {
        Self::of(self.val() + rhs.val())
    }

    open spec fn sp_sub(self, rhs: Self) -> Self {
        Self::of(((self.val() - rhs.val()) % M::sp_modulus() as int) as nat)
    }

    open spec fn sp_mul(self, rhs: Self) -> Self {
        Self::of(self.val() * rhs.val())
    }

    open spec fn sp_inv(self) -> Self {
        choose|y: Self| y.wf() && #[trigger] self.sp_mul(y) == Self::sp_one()
    }

    open spec fn sp_from(n: nat) -> Self {
        Self::of(n)
    }

    fn zero() -> (r: Self) {
        proof {
            M::modulus_bounds();
            Self::lemma_of(0);
        }
        Fp { value: 0, modulus: PhantomData }
    }

    fn one() -> (r: Self) {
        proof {
            M::modulus_bounds();
            Self::lemma_of(1);
        }
        Fp { value: 1, modulus: PhantomData }
    }

    fn add(self, rhs: Self) -> (r: Self) {
        let p: u64 = M::modulus();
        let sum: u128 = (self.value as u128 + rhs.value as u128) % (p as u128);
        proof {
            lemma_mod_bound(self.value + rhs.value, p as int);
        }
        Fp { value: sum as u64, modulus: PhantomData }
    }

    fn sub(self, rhs: Self) -> (r: Self) {
        proof {
            use_type_invariant(&self);
            use_type_invariant(&rhs);
        }
        let p: u64 = M::modulus();
        let diff: u128 = (self.value as u128 + (p - rhs.value) as u128) % (p as u128);
        proof {
            lemma_mod_bound(self.value + (p - rhs.value), p as int);
            lemma_mod_add_multiples_vanish(self.value - rhs.value, p as int);
            lemma_mod_bound(self.value - rhs.value, p as int);
            Self::lemma_of(((self.value - rhs.value) % p as int) as nat);
        }
        Fp { value: diff as u64, modulus: PhantomData }
    }

    fn mul(self, rhs: Self) -> (r: Self) {
        let p: u64 = M::modulus();
        assert(self.value * rhs.value <= u64::MAX * u64::MAX) by (nonlinear_arith)
            requires
                self.value <= u64::MAX,
                rhs.value <= u64::MAX,
        ;
        let product: u128 = (self.value as u128 * rhs.value as u128) % (p as u128);
        proof {
            lemma_mod_bound(self.value * rhs.value, p as int);
        }
        Fp { value: product as u64, modulus: PhantomData }
    }

    fn inverse(self) -> (r: Self) {
        proof {
            use_type_invariant(&self);
            M::modulus_bounds();
            Self::lemma_of(0);
            Self::lemma_of(1);
            if self.value == 0 {
                Self::lemma_ext(self, Self::of(0));
            }
        }
        let inv: u64 = M::inverse(self.value);
        let r = Fp { value: inv, modulus: PhantomData };
        proof {
            Self::lemma_of(self.val() * r.val());
            Self::lemma_ext(self.sp_mul(r), Self::sp_one());
            lemma_inverse_unique(self, r);
        }
        r
    }

    fn from_u64(n: u64) -> (r: Self) {
        proof {
            Self::lemma_of(n as nat);
        }
        Self::new(n)
    }

    fn equals(self, rhs: Self) -> (b: bool) {
        proof {
            if self.value == rhs.value {
                Self::lemma_ext(self, rhs);
            }
        }
        self.value == rhs.value
    }
}

impl<M: PrimeModulus> CommutativeRing for Fp<M> {
    proof fn closed(a: Self, b: Self) {
        Self::lemma_of(0);
        Self::lemma_of(1);
        Self::lemma_of(a.val() + b.val());
        Self::lemma_of(((a.val() - b.val()) % M::sp_modulus() as int) as nat);
        Self::lemma_of(a.val() * b.val());
    }

    proof fn add_commutes(a: Self, b: Self) {
    }

    proof fn add_associates(a: Self, b: Self, c: Self) {
        let p = M::sp_modulus() as int;
        M::modulus_bounds();
        Self::lemma_of(a.val() + b.val());
        Self::lemma_of(b.val() + c.val());
        let (x, y, z) = (a.val() as int, b.val() as int, c.val() as int);
        lemma_add_mod_noop_right(z, x + y, p);
        lemma_add_mod_noop_right(x, y + z, p);
        Self::lemma_of((a.val() + b.val()) % M::sp_modulus() + c.val());
        Self::lemma_of(a.val() + (b.val() + c.val()) % M::sp_modulus());
        Self::lemma_ext(a.sp_add(b).sp_add(c), a.sp_add(b.sp_add(c)));
    }

    proof fn add_zero(a: Self) {
        M::modulus_bounds();
        Self::lemma_of(0);
        Self::lemma_val(a);
    }

    proof fn sub_add(a: Self, b: Self) {
        let p = M::sp_modulus() as int;
        M::modulus_bounds();
        let (x, y) = (a.val() as int, b.val() as int);
        lemma_mod_bound(x - y, p);
        let d = ((x - y) % p) as nat;
        Self::lemma_of(d);
        assert(a.sp_sub(b).val() == d);
        lemma_add_mod_noop_right(y, x - y, p);
        assert((d + b.val()) as int % p == x % p);
        Self::lemma_of(d + b.val());
        Self::lemma_of(a.val());
        Self::lemma_ext(a.sp_sub(b).sp_add(b), a);
        Self::lemma_of(a.val() + b.val());
        lemma_sub_mod_noop((x + y) as int, y, p);
        lemma_mod_bound(x + y, p);
        let e = ((x + y) % p) as nat;
        assert(a.sp_add(b).val() == e);
        lemma_sub_mod_noop(x + y, y, p);
        lemma_sub_mod_noop(e as int, y, p);
        lemma_mod_twice(x + y, p);
        assert((e - y) % p == (x + y - y) % p);
        Self::lemma_of(((e - y) % p) as nat);
        lemma_small_mod(a.val(), p as nat);
        Self::lemma_ext(a.sp_add(b).sp_sub(b), a);
    }

    proof fn mul_commutes(a: Self, b: Self) {
        lemma_mul_is_commutative(a.val() as int, b.val() as int);
    }

    proof fn mul_associates(a: Self, b: Self, c: Self) {
        let p = M::sp_modulus() as int;
        M::modulus_bounds();
        let (x, y, z) = (a.val() as int, b.val() as int, c.val() as int);
        lemma_mul_nonnegative(x, y);
        lemma_mul_nonnegative(y, z);
        Self::lemma_of(a.val() * b.val());
        Self::lemma_of(b.val() * c.val());
        lemma_mul_mod_noop_left(x * y, z, p);
        lemma_mul_mod_noop_right(x, y * z, p);
        lemma_mul_is_associative(x, y, z);
        lemma_mod_bound(x * y, p);
        lemma_mod_bound(y * z, p);
        lemma_mul_nonnegative((x * y) % p, z);
        lemma_mul_nonnegative(x, (y * z) % p);
        Self::lemma_of(((x * y) % p * z) as nat);
        Self::lemma_of((x * ((y * z) % p)) as nat);
        Self::lemma_ext(a.sp_mul(b).sp_mul(c), a.sp_mul(b.sp_mul(c)));
    }

    proof fn mul_one(a: Self) {
        M::modulus_bounds();
        Self::lemma_of(1);
        Self::lemma_val(a);
        lemma_mul_basics(a.val() as int);
    }

    proof fn mul_zero(a: Self) {
        M::modulus_bounds();
        Self::lemma_of(0);
        lemma_mul_basics(a.val() as int);
    }

    proof fn mul_distributes(a: Self, b: Self, c: Self) {
        let p = M::sp_modulus() as int;
        M::modulus_bounds();
        let (x, y, z) = (a.val() as int, b.val() as int, c.val() as int);
        lemma_mul_nonnegative(x, y);
        lemma_mul_nonnegative(x, z);
        Self::lemma_of(b.val() + c.val());
        Self::lemma_of(a.val() * b.val());
        Self::lemma_of(a.val() * c.val());
        lemma_mul_mod_noop_right(x, y + z, p);
        lemma_mul_is_distributive_add(x, y, z);
        lemma_add_mod_noop(x * y, x * z, p);
        lemma_mod_bound(y + z, p);
        lemma_mul_nonnegative(x, (y + z) % p);
        Self::lemma_of((x * ((y + z) % p)) as nat);
        Self::lemma_of((a.val() * b.val()) % p as nat + (a.val() * c.val()) % p as nat);
        Self::lemma_ext(a.sp_mul(b.sp_add(c)), a.sp_mul(b).sp_add(a.sp_mul(c)));
        lemma_mod_bound(y - z, p);
        Self::lemma_of(((y - z) % p) as nat);
        lemma_mod_twice(y - z, p);
        lemma_mul_mod_noop_right(x, y - z, p);
        lemma_mul_is_distributive_sub(x, y, z);
        lemma_sub_mod_noop(x * y, x * z, p);
        lemma_mul_nonnegative(x, (y - z) % p);
        Self::lemma_of((x * ((y - z) % p)) as nat);
        lemma_mod_bound(x * y, p);
        lemma_mod_bound(x * z, p);
        lemma_mod_bound((x * y) % p - (x * z) % p, p);
        Self::lemma_of((((x * y) % p - (x * z) % p) % p) as nat);
        lemma_mod_twice((x * y) % p - (x * z) % p, p);
        Self::lemma_ext(a.sp_mul(b.sp_sub(c)), a.sp_mul(b).sp_sub(a.sp_mul(c)));
    }

    proof fn from_adds(m: nat, n: nat) {
        let p = M::sp_modulus() as int;
        M::modulus_bounds();
        Self::lemma_of(m);
        Self::lemma_of(n);
        Self::lemma_of(m + n);
        Self::lemma_of(Self::of(m).val() + Self::of(n).val());
        lemma_add_mod_noop(m as int, n as int, p);
        Self::lemma_ext(Self::of(m + n), Self::of(m).sp_add(Self::of(n)));
    }
}

/// A canonical element whose product with `x` is one is the inverse of `x`.
pub proof fn lemma_inverse_unique<M: PrimeModulus>(x: Fp<M>, y: Fp<M>)
    requires
        y.wf(),
        x.sp_mul(y) == Fp::<M>::sp_one(),
    ensures
        x.sp_inv() == y,
{
    let z = x.sp_inv();
    assert(z.wf() && x.sp_mul(z) == Fp::<M>::sp_one());
    // y = y·(x·z) = (y·x)·z = z
    Fp::<M>::mul_one(y);
    Fp::<M>::mul_associates(y, x, z);
    Fp::<M>::mul_commutes(x, y);
    Fp::<M>::mul_commutes(Fp::<M>::sp_one(), z);
    Fp::<M>::mul_one(z);
}

/// Powers are computed on representatives.
pub proof fn lemma_power_val<M: PrimeModulus>(x: nat, n: nat)
    ensures
        power(Fp::<M>::of(x), n).val() == pow(x as int, n) % M::sp_modulus() as int,
        pow(x as int, n) >= 0,
    decreases n,
{
    let p = M::sp_modulus() as int;
    M::modulus_bounds();
    Fp::<M>::lemma_of(1);
    if n == 0 {
        lemma_pow0(x as int);
    } else {
        let m = (n - 1) as nat;
        lemma_power_val::<M>(x, m);
        reveal(pow);
        lemma_mul_nonnegative(x as int, pow(x as int, m));
        lemma_mul_is_commutative(x as int, pow(x as int, m));
        lemma_mul_mod_noop_general(pow(x as int, m), x as int, p);
        Fp::<M>::lemma_of(x);
        Fp::<M>::lemma_of(power(Fp::<M>::of(x), m).val() * Fp::<M>::of(x).val());
    }
}

impl<M: PrimeModulus> TwoAdicField for Fp<M> {
    open spec fn sp_two_adicity() -> nat {
        M::sp_adicity()
    }

    open spec fn sp_two_adic_generator(bits: nat) -> Self {
        Self::of(M::sp_root(bits))
    }

    open spec fn sp_generator() -> Self {
        Self::of(M::sp_gen())
    }

    proof fn nontrivial() {
        M::modulus_bounds();
        Self::lemma_of(0);
        Self::lemma_of(1);
    }

    proof fn power_of_two_unit(n: nat) {
        let p = M::sp_modulus() as int;
        M::modulus_bounds();
        let h = ((p + 1) / 2) as nat;
        assert(2 * h == p + 1);
        let x = Self::of(2);
        let y = Self::of(h);
        Self::lemma_of(2);
        Self::lemma_of(h);
        Self::lemma_of(1);
        lemma_mul_mod_noop_general(2, h as int, p);
        lemma_mod_add_multiples_vanish(1, p);
        Self::lemma_of(x.val() * y.val());
        Self::lemma_ext(x.sp_mul(y), Self::sp_one());
        assert(x.sp_mul(y) == Self::sp_one());
        lemma_unit_power(x, n);
        lemma_power_val::<M>(2, n);
        lemma_pow2(n);
        Self::lemma_of(pow2(n));
        Self::lemma_ext(power(x, n), Self::of(pow2(n)));
    }

    fn two_adicity() -> (r: usize) {
        M::adicity()
    }

    fn two_adic_generator(bits: usize) -> (r: Self) {
        let root: u64 = M::root(bits);
        let r = Self::new(root);
        proof {
            M::modulus_bounds();
            Self::lemma_of(root as nat);
            Self::lemma_of(1);
            lemma_power_val::<M>(root as nat, pow2(bits as nat));
            Self::lemma_ext(power(r, pow2(bits as nat)), Self::sp_one());
            if bits > 0 {
                lemma_power_val::<M>(root as nat, pow2((bits - 1) as nat));
                // Two is not zero modulo an odd prime, so one differs from minus one.
                assert(M::sp_modulus() > 2);
            }
        }
        r
    }

    fn generator() -> (r: Self) {
        let g: u64 = M::gen();
        Self::new(g)
    }
}

/// The modulus `2^31 - 2^27 + 1`.
#[derive(Clone, Copy, Debug, PartialEq, Eq)]
pub struct BabyBearModulus {}

pub type BabyBear = Fp<BabyBearModulus>;

/// What [`baby_bear_root`] returns.
pub uninterp spec fn baby_bear_root_of_unity(bits: nat) -> nat;

/// `p3_baby_bear::BabyBear::two_adic_generator`: a generator of the multiplicative group of order
/// `2^bits`, so its power `2^bits` is one and its power `2^(bits - 1)` is minus one.
#[verifier::external_body]
fn baby_bear_root(bits: usize) -> (r: u64)
    requires
        bits <= 27,
    ensures
        r == baby_bear_root_of_unity(bits as nat),
        r < 0x78000001,
        pow(r as int, pow2(bits as nat)) % 0x78000001 == 1,
        bits > 0 ==> pow(r as int, pow2((bits - 1) as nat)) % 0x78000001 == 0x78000000,
{
    p3_baby_bear::BabyBear::two_adic_generator(bits).as_canonical_u64()
}

/// `p3_baby_bear::BabyBear::inverse`: the multiplicative inverse of a nonzero element.
#[verifier::external_body]
fn baby_bear_inverse(x: u64) -> (r: u64)
    requires
        0 < x < 0x78000001,
    ensures
        r < 0x78000001,
        (x * r) as nat % 0x78000001 == 1,
{
    p3_baby_bear::BabyBear::from_u64(x).inverse().as_canonical_u64()
}

impl PrimeModulus for BabyBearModulus {
    open spec fn sp_modulus() -> nat {
        0x78000001
    }

    open spec fn sp_adicity() -> nat {
        27
    }

    open spec fn sp_root(bits: nat) -> nat {
        baby_bear_root_of_unity(bits)
    }

    open spec fn sp_gen() -> nat {
        31
    }

    proof fn modulus_bounds() {
    }

    fn modulus() -> (r: u64) {
        0x78000001
    }

    fn adicity() -> (r: usize) {
        27
    }

    fn gen() -> (r: u64) {
        31
    }

    fn root(bits: usize) -> (r: u64) {
        baby_bear_root(bits)
    }

    fn inverse(x: u64) -> (r: u64) {
        baby_bear_inverse(x)
    }
}

/// The modulus `2^31 - 2^24 + 1`.
#[derive(Clone, Copy, Debug, PartialEq, Eq)]
pub struct KoalaBearModulus {}

pub type KoalaBear = Fp<KoalaBearModulus>;

/// What [`koala_bear_root`] returns.
pub uninterp spec fn koala_bear_root_of_unity(bits: nat) -> nat;

/// `p3_koala_bear::KoalaBear::two_adic_generator`: a generator of the multiplicative group of order `2^bits`,
/// so its power `2^bits` is one and its power `2^(bits - 1)` is minus one.
#[verifier::external_body]
fn koala_bear_root(bits: usize) -> (r: u64)
    requires
        bits <= 24,
    ensures
        r == koala_bear_root_of_unity(bits as nat),
        r < 0x7f000001,
        pow(r as int, pow2(bits as nat)) % 0x7f000001 == 1,
        bits > 0 ==> pow(r as int, pow2((bits - 1) as nat)) % 0x7f000001 == 0x7f000000,
{
    p3_koala_bear::KoalaBear::two_adic_generator(bits).as_canonical_u64()
}

/// `p3_koala_bear::KoalaBear::inverse`: the multiplicative inverse of a nonzero element.
#[verifier::external_body]
fn koala_bear_inverse(x: u64) -> (r: u64)
    requires
        0 < x < 0x7f000001,
    ensures
        r < 0x7f000001,
        (x * r) as nat % 0x7f000001 == 1,
{
    p3_koala_bear::KoalaBear::from_u64(x).inverse().as_canonical_u64()
}

impl PrimeModulus for KoalaBearModulus {
    open spec fn sp_modulus() -> nat {
        0x7f000001
    }

    open spec fn sp_adicity() -> nat {
        24
    }

    open spec fn sp_root(bits: nat) -> nat {
        koala_bear_root_of_unity(bits)
    }

    open spec fn sp_gen() -> nat {
        3
    }

    proof fn modulus_bounds() {
    }

    fn modulus() -> (r: u64) {
        0x7f000001
    }

    fn adicity() -> (r: usize) {
        24
    }

    fn gen() -> (r: u64) {
        3
    }

    fn root(bits: usize) -> (r: u64) {
        koala_bear_root(bits)
    }

    fn inverse(x: u64) -> (r: u64) {
        koala_bear_inverse(x)
    }
}

/// The modulus `2^64 - 2^32 + 1`.
#[derive(Clone, Copy, Debug, PartialEq, Eq)]
pub struct GoldilocksModulus {}

pub type Goldilocks = Fp<GoldilocksModulus>;

/// What [`goldilocks_root`] returns.
pub uninterp spec fn goldilocks_root_of_unity(bits: nat) -> nat;

/// `p3_goldilocks::Goldilocks::two_adic_generator`: a generator of the multiplicative group of order `2^bits`,
/// so its power `2^bits` is one and its power `2^(bits - 1)` is minus one.
#[verifier::external_body]
fn goldilocks_root(bits: usize) -> (r: u64)
    requires
        bits <= 32,
    ensures
        r == goldilocks_root_of_unity(bits as nat),
        r < 0xffff_ffff_0000_0001,
        pow(r as int, pow2(bits as nat)) % 0xffff_ffff_0000_0001 == 1,
        bits > 0 ==> pow(r as int, pow2((bits - 1) as nat)) % 0xffff_ffff_0000_0001 == 0xffff_ffff_0000_0000,
{
    p3_goldilocks::Goldilocks::two_adic_generator(bits).as_canonical_u64()
}

/// `p3_goldilocks::Goldilocks::inverse`: the multiplicative inverse of a nonzero element.
#[verifier::external_body]
fn goldilocks_inverse(x: u64) -> (r: u64)
    requires
        0 < x < 0xffff_ffff_0000_0001,
    ensures
        r < 0xffff_ffff_0000_0001,
        (x * r) as nat % 0xffff_ffff_0000_0001 == 1,
{
    p3_goldilocks::Goldilocks::from_u64(x).inverse().as_canonical_u64()
}

impl PrimeModulus for GoldilocksModulus {
    open spec fn sp_modulus() -> nat {
        0xffff_ffff_0000_0001
    }

    open spec fn sp_adicity() -> nat {
        32
    }

    open spec fn sp_root(bits: nat) -> nat {
        goldilocks_root_of_unity(bits)
    }

    open spec fn sp_gen() -> nat {
        7
    }

    proof fn modulus_bounds() {
    }

    fn modulus() -> (r: u64) {
        0xffff_ffff_0000_0001
    }

    fn adicity() -> (r: usize) {
        32
    }

    fn gen() -> (r: u64) {
        7
    }

    fn root(bits: usize) -> (r: u64) {
        goldilocks_root(bits)
    }

    fn inverse(x: u64) -> (r: u64) {
        goldilocks_inverse(x)
    }
}

} // verus!
