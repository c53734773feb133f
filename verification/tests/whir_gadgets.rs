use p3_baby_bear::BabyBear as Native;
use p3_field::{PrimeCharacteristicRing, PrimeField32};
use p3_multilinear_util::point::Point;
use p3_multilinear_util::poly::Poly;
use p3_recursion::circuit::{CircuitBuilder, CircuitBuilderError};
use p3_recursion::field::{exp_u64, BabyBear, Field, TwoAdicField};
use p3_recursion::types::Target;
use p3_recursion::whir_gadgets::{
    eq_eval, eval_constraint_weight, eval_constraints_poly_circuit, eval_multilinear,
    eval_powers_combination, expand_from_univariate, horner_eval, pow_const_base, select_eval,
    ConstraintWeightData,
};

type F = BabyBear;

fn f(x: u64) -> F {
    F::from_u64(x)
}

fn native(x: F) -> Native {
    <Native as PrimeCharacteristicRing>::from_u64(x.as_canonical_u64())
}

fn natives(xs: &[F]) -> Vec<Native> {
    xs.iter().map(|&x| native(x)).collect()
}

fn back(x: Native) -> F {
    f(x.as_canonical_u32() as u64)
}

/// Builds a gadget over public inputs and reads its outputs.
fn eval_gadget_multi(
    inputs: &[F],
    gadget: impl FnOnce(&mut CircuitBuilder<F>, &[Target]) -> Vec<Target>,
) -> Vec<F> {
    let mut builder = CircuitBuilder::<F>::new();
    let targets: Vec<Target> = inputs.iter().map(|_| builder.public_input()).collect();
    let outputs = gadget(&mut builder, &targets);
    let values = builder.evaluate(inputs).unwrap();
    outputs.iter().map(|t| values[t.0]).collect()
}

fn eval_gadget(
    inputs: &[F],
    gadget: impl FnOnce(&mut CircuitBuilder<F>, &[Target]) -> Target,
) -> F {
    eval_gadget_multi(inputs, |b, ins| vec![gadget(b, ins)])[0]
}

#[test]
fn expand_empty_is_empty() {
    let mut builder = CircuitBuilder::<F>::new();
    let z = builder.public_input();
    assert!(expand_from_univariate(&mut builder, z, 0).is_empty());
}

#[test]
fn select_empty_is_one() {
    // An empty point yields the constant 1.
    let got = eval_gadget(&[f(123)], |b, ins| select_eval(b, &[], ins[0]));
    assert_eq!(got, F::one());
}

#[test]
fn select_single_coord_is_affine_in_z() {
    // point = [p]; select = p·(z - 1) + 1.
    let p = f(9);
    let z = f(40);
    let got = eval_gadget(&[p, z], |b, ins| select_eval(b, &ins[0..1], ins[1]));
    let expected = back(Point::eval_select(native(z), &[native(p)]));
    assert_eq!(got, expected);
    assert_eq!(expected, p.mul(z.sub(F::one())).add(F::one()));
}

#[test]
fn eval_multilinear_constant_case() {
    // Zero variables: the table has one entry, returned as-is.
    let c = f(77);
    let got = eval_gadget(&[c], |b, ins| eval_multilinear(b, &ins[0..1], &[]));
    assert_eq!(got, c);
}

#[test]
fn eval_multilinear_linear_case() {
    // One variable: f([a, b])(x) = a + x·(b - a).
    let (a, b, x) = (f(3), f(10), f(5));
    let got = eval_gadget(&[a, b, x], |bld, ins| eval_multilinear(bld, &ins[0..2], &ins[2..3]));
    assert_eq!(got, a.add(x.mul(b.sub(a))));
}

#[test]
fn powers_combination_known() {
    // 2 + 3·10 + 5·100 + 7·1000 = 7532.
    let vals = [f(2), f(3), f(5), f(7)];
    let base = f(10);
    let got = eval_gadget(&[vals[0], vals[1], vals[2], vals[3], base], |b, ins| {
        eval_powers_combination(b, &ins[0..4], ins[4])
    });
    assert_eq!(got, f(7532));
}

#[test]
fn powers_combination_empty_is_zero() {
    let got = eval_gadget(&[f(9)], |b, ins| eval_powers_combination(b, &[], ins[0]));
    assert_eq!(got, F::zero());
}

#[test]
fn pow_const_base_small_integer() {
    // base = 3, index = 5 (LE bits [1, 0, 1]) -> 3^5 = 243.
    let base = f(3);
    let bits = [F::one(), F::zero(), F::one()];
    let got = eval_gadget(&bits, |b, ins| pow_const_base(b, base, ins));
    assert_eq!(got, f(243));
}

#[test]
fn pow_const_base_uses_generator() {
    // Realistic use: a two-adic generator raised to an index via its bits.
    let base = F::two_adic_generator(10);
    let idx = 0b1011_0010u64;
    let bits: Vec<F> = (0..8).map(|i| f((idx >> i) & 1)).collect();
    let got = eval_gadget(&bits, |b, ins| pow_const_base(b, base, ins));
    assert_eq!(got, exp_u64(base, idx));
    assert_eq!(native(base), <Native as p3_field::TwoAdicField>::two_adic_generator(10));
    assert_eq!(native(got), native(base).exp_u64(idx));
}

#[test]
fn pow_const_base_empty_is_one() {
    let got = eval_gadget(&[], |b, _ins| pow_const_base(b, f(7), &[]));
    assert_eq!(got, F::one());
}

#[test]
fn constraint_weight_eq_only_single() {
    // A single equality constraint has weight W = γ^0·eq(X, z) = eq(X, z).
    let (x0, x1, z0, z1, gamma) = (f(2), f(3), f(5), f(7), f(11));
    let got = eval_gadget(&[x0, x1, z0, z1, gamma], |b, ins| {
        let (x, rest) = ins.split_at(2);
        eval_constraint_weight(b, x, &[rest[0..2].to_vec()], &[], rest[2])
    });
    let expected =
        Point::eval_eq(&[native(x0), native(x1)], &[native(z0), native(z1)]);
    assert_eq!(got, back(expected));
}

#[test]
fn expansion_matches_native_points() {
    for n in 1..7 {
        let z = f(987_654 + n as u64);
        let expected = Point::<Native>::expand_from_univariate(native(z), n);
        let got = eval_gadget_multi(&[z], |b, ins| expand_from_univariate(b, ins[0], n));
        assert_eq!(natives(&got), expected.as_slice());
    }
}

#[test]
fn equality_matches_native_points() {
    for n in 1usize..7 {
        let a: Vec<F> = (0..n).map(|i| f(1000 + 31 * i as u64)).collect();
        let b: Vec<F> = (0..n).map(|i| f(77 + 13 * i as u64)).collect();
        let inputs: Vec<F> = a.iter().chain(&b).copied().collect();
        let got = eval_gadget(&inputs, |bld, ins| eq_eval(bld, &ins[..n], &ins[n..]));
        assert_eq!(native(got), Point::eval_eq(&natives(&a), &natives(&b)));
        let turned = eval_gadget(&inputs, |bld, ins| eq_eval(bld, &ins[n..], &ins[..n]));
        assert_eq!(got, turned);
    }
}

#[test]
fn selection_matches_native_points() {
    for n in 1usize..7 {
        let point: Vec<F> = (0..n).map(|i| f(5 + 97 * i as u64)).collect();
        let z = f(4242);
        let inputs: Vec<F> = point.iter().copied().chain([z]).collect();
        let got = eval_gadget(&inputs, |bld, ins| select_eval(bld, &ins[..n], ins[n]));
        assert_eq!(native(got), Point::eval_select(native(z), &natives(&point)));
    }
}

#[test]
fn multilinear_evaluation_matches_native_polynomials() {
    for n in 0usize..5 {
        let evals: Vec<F> = (0..1u64 << n).map(|i| f(i * i + 3)).collect();
        let point: Vec<F> = (0..n).map(|i| f(11 + 7 * i as u64)).collect();
        let inputs: Vec<F> = evals.iter().chain(&point).copied().collect();
        let size = evals.len();
        let got =
            eval_gadget(&inputs, |b, ins| eval_multilinear(b, &ins[..size], &ins[size..]));
        let expected = Poly::new(natives(&evals)).eval_base(&Point::new(natives(&point)));
        assert_eq!(native(got), expected);
        // On the cube the polynomial takes the values of its table.
        let corner: Vec<F> = evals.iter().copied().chain(vec![F::one(); n]).collect();
        let at_ones =
            eval_gadget(&corner, |b, ins| eval_multilinear(b, &ins[..size], &ins[size..]));
        assert_eq!(at_ones, evals[size - 1]);
    }
}

#[test]
fn horner_is_the_combination_of_powers() {
    let inputs = [f(4), f(0), f(6), f(3)];
    let got = eval_gadget(&inputs, |b, ins| horner_eval(b, &ins[..3], ins[3]));
    assert_eq!(got, f(4 + 6 * 9));
}

#[test]
fn constraint_weight_batches_both_kinds() {
    // eq(X, z) + γ·select(X, s)
    let (x, z, s, gamma) = (f(2), f(5), f(3), f(100));
    let got = eval_gadget(&[x, z, s, gamma], |b, ins| {
        eval_constraint_weight(b, &ins[0..1], &[ins[1..2].to_vec()], &ins[2..3], ins[3])
    });
    // eq = 2·5 + (1-2)(1-5) = 14, select = 2·(3-1)+1 = 5
    assert_eq!(got, f(14 + 500));
}

#[test]
fn constraints_use_the_last_challenges() {
    let inputs = [f(2), f(3), f(5), f(7), f(1)];
    for is_suffix in [false, true] {
        let got = eval_gadget(&inputs, |b, ins| {
            let constraints = vec![
                ConstraintWeightData {
                    num_variables: 2,
                    eq_points: vec![vec![ins[2], ins[3]]],
                    sel_scalars: vec![],
                    gamma: ins[4],
                },
                ConstraintWeightData {
                    num_variables: 1,
                    eq_points: vec![vec![ins[3]]],
                    sel_scalars: vec![],
                    gamma: ins[4],
                },
            ];
            eval_constraints_poly_circuit(b, &ins[0..2], &constraints, is_suffix)
        });
        let point = if is_suffix { [inputs[1], inputs[0]] } else { [inputs[0], inputs[1]] };
        let first = Point::eval_eq(&natives(&point), &natives(&inputs[2..4]));
        let second = Point::eval_eq(&[native(inputs[1])], &[native(inputs[3])]);
        assert_eq!(native(got), first + second);
    }
}

#[test]
fn evaluation_needs_every_public_input() {
    let mut builder = CircuitBuilder::<F>::new();
    let a = builder.public_input();
    let b = builder.public_input();
    let sum = builder.add(a, b);
    let product = builder.mul_add(a, b, sum);
    assert_eq!(
        builder.evaluate(&[f(1)]),
        Err(CircuitBuilderError::PublicInputCountMismatch { expected: 2, got: 1 })
    );
    let values = builder.evaluate(&[f(3), f(4)]).unwrap();
    assert_eq!(values[product.0], f(3 * 4 + 7));
}
