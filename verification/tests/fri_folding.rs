use p3_recursion::extension::{BabyBearExt4, ExtensionField};
use p3_recursion::field::{exp_u64, BabyBear, Field, TwoAdicField};
use p3_recursion::fri_witness::fold_row;

fn ext(c: [u64; 4]) -> BabyBearExt4 {
    BabyBearExt4::from_coefficients(&c.iter().map(|&x| BabyBear::from_u64(x)).collect())
}

fn value(coefficients: &[BabyBearExt4], x: BabyBearExt4) -> BabyBearExt4 {
    coefficients.iter().rev().fold(BabyBearExt4::zero(), |acc, &c| acc.mul(x).add(c))
}

/// The points of the row with the given index, in the order of the row.
fn row_points(index: usize, log_height: usize, log_arity: usize) -> Vec<BabyBear> {
    let reversed = |x: usize, n: usize| (0..n).fold(0, |r, i| r | ((x >> i) & 1) << (n - 1 - i));
    let start = exp_u64(
        BabyBear::two_adic_generator(log_height + log_arity),
        reversed(index, log_height) as u64,
    );
    let base = BabyBear::two_adic_generator(log_arity);
    (0..1usize << log_arity)
        .map(|i| start.mul(exp_u64(base, reversed(i, log_arity) as u64)))
        .collect()
}

#[test]
fn folding_a_row_evaluates_its_polynomial() {
    let beta = ext([3, 1, 4, 1]);
    for log_arity in 0..4usize {
        let coefficients: Vec<BabyBearExt4> =
            (0..1u64 << log_arity).map(|i| ext([i + 5, 7 * i, 1, i * i])).collect();
        for index in [0usize, 3, 6] {
            let points = row_points(index, 3, log_arity);
            let row: Vec<BabyBearExt4> = points
                .iter()
                .map(|&x| value(&coefficients, BabyBearExt4::from_base(x)))
                .collect();
            let folded = fold_row::<BabyBear, BabyBearExt4>(index, 3, log_arity, beta, &row);
            assert_eq!(folded, value(&coefficients, beta));
        }
    }
}

#[test]
fn folding_at_a_point_of_the_row_picks_its_entry() {
    let points = row_points(5, 3, 2);
    let row = vec![ext([1, 2, 3, 4]), ext([5, 6, 7, 8]), ext([9, 0, 0, 1]), ext([2, 2, 2, 2])];
    for i in 0..4 {
        let beta = BabyBearExt4::from_base(points[i]);
        assert_eq!(fold_row::<BabyBear, BabyBearExt4>(5, 3, 2, beta, &row), row[i]);
    }
}

#[test]
fn the_extension_is_a_commutative_ring() {
    let (a, b, c) = (ext([1, 2, 3, 4]), ext([9, 8, 7, 6]), ext([2013265920, 0, 5, 11]));
    assert_eq!(a.mul(b), b.mul(a));
    assert_eq!(a.mul(b).mul(c), a.mul(b.mul(c)));
    assert_eq!(a.mul(b.add(c)), a.mul(b).add(a.mul(c)));
    assert_eq!(a.mul(b.sub(c)), a.mul(b).sub(a.mul(c)));
    assert_eq!(a.sub(b).add(b), a);
    assert_eq!(a.mul(BabyBearExt4::one()), a);
}
