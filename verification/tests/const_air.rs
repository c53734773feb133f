use p3_recursion::air_expr::{check_all, AirExpr, TraceWindow};
use p3_recursion::const_air::{ConstAir, ConstTrace};
use p3_recursion::extension::{BabyBearExt4, ExtensionField};
use p3_recursion::field::{BabyBear, Field};
use p3_recursion::matrix::RowMajorMatrix;
use p3_recursion::types::WitnessId;

type F = BabyBear;
type EF = BabyBearExt4;

fn f(n: u64) -> F {
    F::from_u64(n)
}

fn degree(e: &AirExpr<F>) -> usize {
    match e {
        AirExpr::Constant(_) => 0,
        AirExpr::Main(_)
        | AirExpr::MainNext(_)
        | AirExpr::Preprocessed(_)
        | AirExpr::PreprocessedNext(_) => 1,
        AirExpr::Add(a, b) | AirExpr::Sub(a, b) => degree(a).max(degree(b)),
        AirExpr::Mul(a, b) => degree(a) + degree(b),
        AirExpr::Neg(a) => degree(a),
    }
}

/// Every row satisfies the constraints.
fn satisfied<const D: usize>(air: &ConstAir<F, D>, main: &RowMajorMatrix<F>) -> bool {
    let rules = air.eval();
    let preprocessed = air.preprocessed_trace().unwrap();
    let n = main.height();
    (0..n).all(|i| {
        let next = (i + 1) % n;
        let window = TraceWindow {
            local: main.row_slice(i).unwrap(),
            next: main.row_slice(next).unwrap(),
            preprocessed: preprocessed.row_slice(i).unwrap(),
            preprocessed_next: preprocessed.row_slice(next).unwrap(),
        };
        check_all(&rules.constraints, &window, i + 1 < n)
    })
}

#[test]
fn test_const_air_base_field() {
    // Toy example used: assert(37 * x - 111 = 0)
    let const_values = vec![f(37), f(111), f(0)];
    // Witness IDs these constants bind to
    let const_indices = vec![WitnessId(1), WitnessId(3), WitnessId(4)];

    // Preprocessed values are [ext_mult, index, expected value] rows.
    let preprocessed_values = const_indices
        .iter()
        .zip([f(37), f(111), F::zero()])
        .flat_map(|(idx, value)| [F::one(), f(idx.0 as u64), value])
        .collect::<Vec<_>>();

    let trace = ConstTrace { index: const_indices.clone(), values: const_values };

    // Convert to matrix using the ConstAir
    let matrix = ConstAir::<F, 1>::trace_to_matrix(&trace, 1);

    // Verify matrix dimensions
    assert_eq!(matrix.width(), 1);

    // Height should be next power of two >= 3
    let height = matrix.height();
    assert_eq!(height, 4);

    // Verify the data layout: [value] per row (no index in main trace)
    let data = &matrix.values;
    assert_eq!(data[0], f(37));
    assert_eq!(data[1], f(111));
    assert_eq!(data[2], f(0));

    let air = ConstAir::<F, 1>::new_with_preprocessed(height, preprocessed_values);

    let preprocessed_matrix = air.preprocessed_trace().unwrap();
    assert_eq!(preprocessed_matrix.height(), height);

    // Layout: [ext_mult, index, expected value] (width=3)
    const_indices.iter().enumerate().for_each(|(i, const_idx)| {
        let row = preprocessed_matrix.row_slice(i).unwrap();
        assert_eq!(row[0], F::one());
        assert_eq!(row[1], f(const_idx.0 as u64));
        assert_eq!(row[2], matrix.row_slice(i).unwrap()[0]);
    });
    // Check the padding row
    let last_row = preprocessed_matrix.row_slice(height - 1).unwrap();
    assert_eq!(last_row[0], F::zero());
    assert_eq!(last_row[1], F::zero());
    assert_eq!(last_row[2], F::zero());
    assert!(satisfied(&air, &matrix));
}

fn ext(words: [u64; 4]) -> EF {
    EF::from_coefficients(&words.iter().map(|&w| f(w)).collect())
}

#[test]
fn test_const_air_extension_field() {
    // Create extension field constants with all non-zero coefficients
    let const1 = ext([1, 2, 3, 4]);
    let const2 = ext([5, 6, 7, 8]);

    let const_values = vec![const1, const2];
    let const_indices = vec![WitnessId(10), WitnessId(20)];
    // Preprocessed values are [ext_mult, index, expected coefficients] rows.
    let preprocessed_values = const_indices
        .iter()
        .zip([const1, const2])
        .flat_map(|(idx, value)| {
            let mut row = vec![F::one(), f(idx.0 as u64 * 4)];
            row.extend(value.coefficients());
            row
        })
        .collect::<Vec<_>>();

    let trace = ConstTrace { index: const_indices, values: const_values };

    // Convert to matrix for D=4 extension field
    let matrix: RowMajorMatrix<F> = ConstAir::<F, 4>::trace_to_matrix(&trace, 1);

    // Verify matrix dimensions: D = 4 (4 value coefficients)
    assert_eq!(matrix.width(), 4);
    let height = matrix.height();
    assert_eq!(height, 2);

    let data = &matrix.values;
    for i in 0..8 {
        assert_eq!(data[i], f(i as u64 + 1));
    }

    let air = ConstAir::<F, 4>::new_with_preprocessed(height, preprocessed_values);
    let preprocessed_matrix = air.preprocessed_trace().unwrap();
    // Layout: [ext_mult, index, expected coefficients] (D-scaled indices)
    let row0 = preprocessed_matrix.row_slice(0).unwrap();
    assert_eq!(row0[0], F::one()); // ext_mult
    // D-scaled index: WitnessId(10) → 10 * 4 = 40
    assert_eq!(row0[1], f(40));
    assert_eq!(&row0[2..], &[f(1), f(2), f(3), f(4)]);
    let last_row = preprocessed_matrix.row_slice(height - 1).unwrap();
    assert_eq!(last_row[0], F::one()); // ext_mult
    // D-scaled index: WitnessId(20) → 20 * 4 = 80
    assert_eq!(last_row[1], f(80));
    assert_eq!(&last_row[2..], &[f(5), f(6), f(7), f(8)]);
    assert!(satisfied(&air, &matrix));
}

#[test]
fn const_air_test_air_constraint_degree() {
    // 8 ops * 3 columns per op ([ext_mult, index, expected value])
    let air = ConstAir::<F, 1>::new_with_preprocessed(8, vec![F::zero(); 24]);
    let rules = air.eval();
    let highest = rules.constraints.iter().map(|c| degree(&c.body)).max();
    assert_eq!(highest, Some(1));
}

#[test]
fn a_value_not_bound_by_preprocessing_fails() {
    let trace = ConstTrace { index: vec![WitnessId(7)], values: vec![f(37)] };
    let matrix = ConstAir::<F, 1>::trace_to_matrix(&trace, 1);
    let air = ConstAir::<F, 1>::new_with_preprocessed(1, vec![F::one(), f(7), f(38)]);
    assert!(!satisfied(&air, &matrix));
}

#[test]
fn constants_are_sent_to_the_witness_bus() {
    let air = ConstAir::<F, 4>::new(1);
    assert_eq!(air.width(), 4);
    assert_eq!(ConstAir::<F, 4>::preprocessed_width(), 6);
    assert!(air.main_next_row_columns().is_empty());
    let rules = air.eval();
    assert_eq!(rules.interactions.len(), 1);
    let sent = &rules.interactions[0];
    let (main, preprocessed) = ([f(1), f(2), f(3), f(4)], [f(9), f(40), f(1), f(2), f(3), f(4)]);
    let window = TraceWindow {
        local: &main,
        next: &main,
        preprocessed: &preprocessed,
        preprocessed_next: &preprocessed,
    };
    let fields: Vec<F> = sent.fields.iter().map(|e| e.evaluate(&window)).collect();
    assert_eq!(fields, vec![f(40), f(1), f(2), f(3), f(4)]);
    assert_eq!(sent.count.evaluate(&window), f(9));
}

#[test]
fn short_traces_are_padded_to_the_minimum() {
    let trace = ConstTrace { index: vec![WitnessId(7)], values: vec![ext([1, 2, 3, 4])] };
    let matrix = ConstAir::<F, 4>::trace_to_matrix(&trace, 8);
    assert_eq!(matrix.height(), 8);
    assert!(matrix.values[4..].iter().all(|&x| x == F::zero()));
    let air = ConstAir::<F, 4>::new(1).with_min_height(8);
    assert_eq!(air.preprocessed_trace().unwrap().height(), 8);
}
