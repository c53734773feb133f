use p3_air::{get_max_constraint_degree, AirBuilder, AirLayout, BaseAir, WindowAccess};
use p3_baby_bear::{
    default_babybear_poseidon1_16, BabyBear as Native, MDSBabyBearData, Poseidon1BabyBear,
    BABYBEAR_POSEIDON1_HALF_FULL_ROUNDS, BABYBEAR_POSEIDON1_PARTIAL_ROUNDS_16,
    BABYBEAR_POSEIDON1_RC_16,
};
use p3_field::{PrimeCharacteristicRing, PrimeField64};
use p3_monty_31::MDSUtils;
use p3_poseidon1::Poseidon1Constants;
use p3_poseidon1_air::Poseidon1Air;
use p3_recursion::air_expr::{AirExpr, TraceWindow};
use p3_recursion::context::PoseidonCircuitRow;
use p3_recursion::field::{BabyBear, Field};
use p3_recursion::matrix::RowMajorMatrix;
use p3_recursion::permutation::Permutation;
use p3_recursion::poseidon1_air::extract_preprocessed_from_operations;
use p3_recursion::poseidon1_columns::{
    BabyBearPoseidon1Width16, Poseidon1CircuitAirBabyBearD4Width16,
};
use p3_recursion::poseidon1_rules::PermutationColumns;
use p3_symmetric::Permutation as StatePermutation;
use p3_uni_stark::SubAirBuilder;
use rand::rngs::SmallRng;
use rand::{RngExt, SeedableRng};

const WIDTH: usize = 16;
const D: usize = 4;
const LIMBS: usize = 4;
const PUBLIC_OUTPUT_LIMBS: usize = 2;

type Val = BabyBear;
type Air = Poseidon1CircuitAirBabyBearD4Width16;

fn back(x: Native) -> Val {
    Val::from_u64(x.as_canonical_u64())
}

fn perm() -> Poseidon1BabyBear<WIDTH> {
    default_babybear_poseidon1_16()
}

fn row(
    new_start: bool,
    merkle_path: bool,
    mmcs_bit: bool,
    state: &[Native],
    mmcs_ctl_enabled: bool,
) -> PoseidonCircuitRow<Val> {
    PoseidonCircuitRow {
        new_start,
        merkle_path,
        mmcs_bit,
        mmcs_bit2: false,
        mmcs_index_sum: Val::zero(),
        input_values: state.iter().map(|&x| back(x)).collect(),
        in_ctl: vec![false; LIMBS],
        input_indices: vec![0; LIMBS],
        out_ctl: vec![false; PUBLIC_OUTPUT_LIMBS],
        output_indices: vec![0; PUBLIC_OUTPUT_LIMBS],
        mmcs_index_sum_idx: 0,
        mmcs_ctl_enabled,
    }
}

fn zero() -> Native {
    Native::ZERO
}

fn padded(rows: Vec<PoseidonCircuitRow<Val>>) -> Vec<PoseidonCircuitRow<Val>> {
    let mut padded = rows;
    padded.resize(32, row(true, false, false, &[zero(); WIDTH], false));
    padded
}

/// The table of the rows: its rules hold on every pair of neighbouring rows.
fn satisfied(rows: &[PoseidonCircuitRow<Val>]) -> bool {
    let preprocessed = extract_preprocessed_from_operations::<4, 2, Val, Val>(rows, 4, 4);
    let air = Air::new_with_preprocessed(preprocessed);
    let trace = air.generate_trace_rows(rows);
    holds(&air, &trace)
}

fn holds(air: &Air, trace: &RowMajorMatrix<Val>) -> bool {
    let rules = air.eval();
    let preprocessed = air.preprocessed_trace().unwrap();
    let n = trace.height();
    assert_eq!(preprocessed.height(), n);
    (0..n).all(|i| {
        let next = (i + 1) % n;
        let window = TraceWindow {
            local: trace.row_slice(i).unwrap(),
            next: trace.row_slice(next).unwrap(),
            preprocessed: preprocessed.row_slice(i).unwrap(),
            preprocessed_next: preprocessed.row_slice(next).unwrap(),
        };
        rules.constraints.check(&window, i + 1 < n)
    })
}

fn check_rows(rows: Vec<PoseidonCircuitRow<Val>>) {
    assert!(satisfied(&padded(rows)));
}

#[test]
fn satisfies_poseidon1_sponge() {
    let mut rng = SmallRng::seed_from_u64(1);
    let perm = perm();

    // Row A: new_start=true, sponge mode - use random initial state.
    let state_a: [Native; WIDTH] = core::array::from_fn(|_| rng.random());
    let output_a = perm.permute(state_a);
    let sponge_a = row(true, false, false, &state_a, false);

    // Row B: new_start=false, sponge mode - chain from output_a.
    let state_b = output_a;
    let output_b = perm.permute(state_b);
    let sponge_b = row(false, false, true, &state_b, false);

    // Row C: merkle mode, mmcs_bit=false. Prev digest chains into limbs 0..1; sibling
    // (limbs 2..3) zeros are fine.
    let mut state_c = [zero(); WIDTH];
    state_c[0..2 * D].copy_from_slice(&output_b[0..2 * D]);
    let output_c = perm.permute(state_c);
    let sponge_c = row(false, true, false, &state_c, false);

    // Row D: sponge mode chaining from output_c.
    let sponge_d = row(false, false, false, &output_c, false);

    check_rows(vec![sponge_a, sponge_b, sponge_c, sponge_d]);
}

#[test]
fn satisfies_poseidon1_merkle_right() {
    let mut rng = SmallRng::seed_from_u64(42);
    let perm = perm();

    // Row A: new_start, random state.
    let state_a: [Native; WIDTH] = core::array::from_fn(|_| rng.random());
    let output_a = perm.permute(state_a);
    let row_a = row(true, false, false, &state_a, false);

    // Row B: merkle mode, mmcs_bit=true (right child).
    // With mmcs_bit=1: prev output[0..D] → input[2D..3D], output[D..2D] → input[3D..4D];
    // limbs 0-1 hold the sibling.
    let sibling: [Native; 2 * D] = core::array::from_fn(|_| rng.random());
    let mut state_b = [zero(); WIDTH];
    state_b[0..2 * D].copy_from_slice(&sibling);
    state_b[2 * D..3 * D].copy_from_slice(&output_a[0..D]);
    state_b[3 * D..4 * D].copy_from_slice(&output_a[D..2 * D]);
    let output_b = perm.permute(state_b);
    let row_b = row(false, true, true, &state_b, false);

    // Row C: sponge chaining from output_b.
    let row_c = row(false, false, false, &output_b, false);

    check_rows(vec![row_a, row_b, row_c]);
}

/// A Merkle chain of three rows with directions right, left, right.
fn accumulator_rows() -> Vec<PoseidonCircuitRow<Val>> {
    let mut rng = SmallRng::seed_from_u64(99);
    let perm = perm();

    //   Row 0: new_start=true,  merkle, mmcs_bit=1 → mmcs_index_sum resets to 0
    //   Row 1: new_start=false, merkle, mmcs_bit=0 → mmcs_index_sum = 0*2 + 0 = 0
    //   Row 2: new_start=false, merkle, mmcs_bit=1 → mmcs_index_sum = 0*2 + 1 = 1
    let bits = [true, false, true];

    let state_0: [Native; WIDTH] = core::array::from_fn(|_| rng.random());
    let output_0 = perm.permute(state_0);
    let row_0 = row(true, true, bits[0], &state_0, true);

    // Row 1: left child (mmcs_bit=0), chain output[0..2D] → input[0..2D].
    let mut state_1 = [zero(); WIDTH];
    state_1[0..D].copy_from_slice(&output_0[0..D]);
    state_1[D..2 * D].copy_from_slice(&output_0[D..2 * D]);
    let output_1 = perm.permute(state_1);
    let row_1 = row(false, true, bits[1], &state_1, true);

    // Row 2: right child (mmcs_bit=1), output[0..D]→input[2D..3D], output[D..2D]→input[3D..4D].
    let sibling: [Native; 2 * D] = core::array::from_fn(|_| rng.random());
    let mut state_2 = [zero(); WIDTH];
    state_2[0..2 * D].copy_from_slice(&sibling);
    state_2[2 * D..3 * D].copy_from_slice(&output_1[0..D]);
    state_2[3 * D..4 * D].copy_from_slice(&output_1[D..2 * D]);
    let row_2 = row(false, true, bits[2], &state_2, true);

    vec![row_0, row_1, row_2]
}

#[test]
fn satisfies_poseidon1_mmcs_accumulator() {
    check_rows(accumulator_rows());
}

#[test]
fn accumulated_sums_stand_in_the_last_column() {
    let rows = padded(accumulator_rows());
    let air = Air::new();
    let trace = air.generate_trace_rows(&rows);
    let last = air.width() - 1;
    let sums: Vec<u64> =
        (0..3).map(|i| trace.row_slice(i).unwrap()[last].as_canonical_u64()).collect();
    assert_eq!(sums, vec![0, 0, 1]);
    // The input of the permutation comes first.
    assert_eq!(trace.row_slice(2).unwrap()[..WIDTH], rows[2].input_values[..]);
}

#[test]
fn broken_chains_fail() {
    let mut rng = SmallRng::seed_from_u64(1);
    let state_a: [Native; WIDTH] = core::array::from_fn(|_| rng.random());
    let mut state_b = perm().permute(state_a);
    let good = padded(vec![
        row(true, false, false, &state_a, false),
        row(false, false, false, &state_b, false),
    ]);
    assert!(satisfied(&good));
    state_b[3] = zero();
    let bad = padded(vec![
        row(true, false, false, &state_a, false),
        row(false, false, false, &state_b, false),
    ]);
    assert!(!satisfied(&bad));
}

#[test]
fn a_wrong_sum_fails() {
    let rows = padded(accumulator_rows());
    let preprocessed = extract_preprocessed_from_operations::<4, 2, Val, Val>(&rows, 4, 4);
    let air = Air::new_with_preprocessed(preprocessed);
    let mut trace = air.generate_trace_rows(&rows);
    assert!(holds(&air, &trace));
    let at = 3 * air.width() - 1;
    trace.values[at] = trace.values[at].add(Val::one());
    assert!(!holds(&air, &trace));
}

type PermutationAir = Poseidon1Air<Native, WIDTH, 7, 1, 4, 13>;

/// The whole table over the builders of the proving stack.
struct Table {
    air: Air,
    permutation: PermutationAir,
}

fn table() -> Table {
    let (full, partial) = Poseidon1Constants {
        rounds_f: 2 * BABYBEAR_POSEIDON1_HALF_FULL_ROUNDS,
        rounds_p: BABYBEAR_POSEIDON1_PARTIAL_ROUNDS_16,
        mds_circ_col: MDSBabyBearData::MATRIX_CIRC_MDS_16_COL,
        round_constants: BABYBEAR_POSEIDON1_RC_16.to_vec(),
    }
    .to_optimized();
    Table { air: Air::new(), permutation: PermutationAir::new(full, partial) }
}

impl BaseAir<Native> for Table {
    fn width(&self) -> usize {
        self.air.width()
    }

    fn preprocessed_width(&self) -> usize {
        Air::preprocessed_width()
    }
}

fn expr<AB: AirBuilder<F = Native>>(e: &AirExpr<Val>, rows: &[Vec<AB::Var>; 4]) -> AB::Expr {
    match e {
        AirExpr::Constant(x) => AB::Expr::from(Native::from_u64(x.as_canonical_u64())),
        AirExpr::Main(i) => rows[0][*i].into(),
        AirExpr::MainNext(i) => rows[1][*i].into(),
        AirExpr::Preprocessed(i) => rows[2][*i].into(),
        AirExpr::PreprocessedNext(i) => rows[3][*i].into(),
        AirExpr::Add(a, b) => expr::<AB>(a, rows) + expr::<AB>(b, rows),
        AirExpr::Sub(a, b) => expr::<AB>(a, rows) - expr::<AB>(b, rows),
        AirExpr::Mul(a, b) => expr::<AB>(a, rows) * expr::<AB>(b, rows),
        AirExpr::Neg(a) => -expr::<AB>(a, rows),
    }
}

impl<AB: AirBuilder<F = Native>> p3_air::Air<AB> for Table {
    fn eval(&self, builder: &mut AB) {
        let main = builder.main();
        let preprocessed = builder.preprocessed();
        let rows = [
            main.current_slice().to_vec(),
            main.next_slice().to_vec(),
            preprocessed.current_slice().to_vec(),
            preprocessed.next_slice().to_vec(),
        ];
        for c in &self.air.eval().constraints.chaining {
            let body = expr::<AB>(&c.body, &rows);
            if c.transition {
                builder.when_transition().assert_zero(body);
            } else {
                builder.assert_zero(body);
            }
        }
        let mut columns = SubAirBuilder::<AB, PermutationAir, AB::Var>::new(builder, 0..298);
        p3_air::Air::eval(&self.permutation, &mut columns);
    }
}

#[test]
fn air_test_air_constraint_degree() {
    let table = table();
    let layout = AirLayout::from_air::<Native>(&table);
    assert_eq!(get_max_constraint_degree::<Native, Table>(&table, layout, 32), 3);
}

#[test]
fn rows_that_do_not_permute_fail() {
    let rows = padded(accumulator_rows());
    let preprocessed = extract_preprocessed_from_operations::<4, 2, Val, Val>(&rows, 4, 4);
    let air = Air::new_with_preprocessed(preprocessed);
    let trace = air.generate_trace_rows(&rows);
    // Any column of the rounds is fixed by the columns before it. Row 31 ends no chain.
    for column in [16, 17, 100, 143, 144, 150, 169, 170, 281, 297] {
        let mut broken = trace.clone();
        let at = 31 * air.width() + column;
        broken.values[at] = broken.values[at].add(Val::one());
        assert!(!holds(&air, &broken), "column {column}");
    }
    // A row of zeros obeys every rule but those of the permutation.
    let zeros = vec![Val::zero(); 300];
    let none = vec![Val::zero(); PREP_WIDTH];
    let window = TraceWindow {
        local: &zeros,
        next: &zeros,
        preprocessed: &none,
        preprocessed_next: &none,
    };
    let rules = air.eval();
    assert!(!rules.constraints.check(&window, false));
    assert!(rules.constraints.chaining.iter().all(|c| c.check(&window, true)));
}

#[test]
fn columns_run_from_the_input_to_its_image() {
    let mut rng = SmallRng::seed_from_u64(13);
    let state: [Native; WIDTH] = core::array::from_fn(|_| rng.random());
    let input: Vec<Val> = state.iter().map(|&x| back(x)).collect();
    let image: Vec<Val> = perm().permute(state).iter().map(|&x| back(x)).collect();
    assert_eq!(BabyBearPoseidon1Width16 {}.permute(&input), image);
    let mut columns = BabyBearPoseidon1Width16::columns(&input);
    assert_eq!(columns[..WIDTH], input[..]);
    assert_eq!(columns[298 - WIDTH..], image[..]);
    assert!(BabyBearPoseidon1Width16::accepts(&columns));
    // Another input has other columns.
    columns[0] = columns[0].add(Val::one());
    assert!(!BabyBearPoseidon1Width16::accepts(&columns));
}

/// Build an AIR with the given preprocessed data and optional minimum
/// height, then return the materialized preprocessed trace matrix.
fn build_preprocessed_trace(preprocessed: Vec<Val>, min_height: usize) -> RowMajorMatrix<Val> {
    Air::new_with_preprocessed(preprocessed)
        .with_min_height(min_height)
        .preprocessed_trace()
        .expect("preprocessed_trace returned None")
}

/// The preprocessed width for BabyBear width-16 is 24 columns.
///
/// 4 input limbs × 4 fields each  = 16
/// 2 output limbs × 2 fields each =  4
/// 4 scalar fields                =  4
///                           total = 24
const PREP_WIDTH: usize = 24;

#[test]
fn preprocessed_trace_pads_to_power_of_two() {
    // 3 is not a power of two, so the method must round up to 4 rows.
    let three_rows = vec![Val::one(); 3 * PREP_WIDTH];
    let trace = build_preprocessed_trace(three_rows, 1);

    assert_eq!(trace.height(), 4);
    assert_eq!(trace.width(), PREP_WIDTH);
    assert_eq!(Air::preprocessed_width(), PREP_WIDTH);
}

#[test]
fn preprocessed_trace_respects_min_height() {
    // 2 rows of data and a minimum height of 8: the result must have 8 rows, not 2.
    let two_rows = vec![Val::one(); 2 * PREP_WIDTH];
    let trace = build_preprocessed_trace(two_rows, 8);

    assert_eq!(trace.height(), 8);
    assert_eq!(trace.width(), PREP_WIDTH);
}

#[test]
fn preprocessed_trace_preserves_original_data() {
    // One row of all-twos must still stand in the first row.
    let one_row = vec![Val::from_u64(2); PREP_WIDTH];
    let trace = build_preprocessed_trace(one_row.clone(), 1);

    let values = trace.values.as_slice();
    assert_eq!(&values[..PREP_WIDTH], &one_row[..]);
}

#[test]
fn preprocessed_trace_sets_chain_boundary_on_first_padding_row() {
    // 3 rows are padded to 4. The first padding row (row index 3) must have its chain-start
    // flag set to one. That flag is the second-to-last column.
    let three_rows = vec![Val::zero(); 3 * PREP_WIDTH];
    let trace = build_preprocessed_trace(three_rows, 1);

    assert_eq!(trace.height(), 4);

    // Row 3 (first padding row): second-to-last column = 1.
    let values = trace.values.as_slice();
    let padding_row = &values[3 * PREP_WIDTH..4 * PREP_WIDTH];
    let chain_start_flag = padding_row[PREP_WIDTH - 2];
    assert_eq!(chain_start_flag, Val::one());

    // All other columns in the padding row should be zero.
    for (i, &val) in padding_row.iter().enumerate() {
        if i != PREP_WIDTH - 2 {
            assert_eq!(val, Val::zero(), "padding row column {i} should be zero");
        }
    }
}

#[test]
fn preprocessed_trace_no_padding_when_exact_power_of_two() {
    // Exactly 4 rows: no padding should occur, so no chain-boundary flag is set.
    let four_rows = vec![Val::one(); 4 * PREP_WIDTH];
    let trace = build_preprocessed_trace(four_rows, 1);

    assert_eq!(trace.height(), 4);

    // All 4 rows should contain the original data (all ones).
    let values = trace.values.as_slice();
    for row_idx in 0..4 {
        let start = row_idx * PREP_WIDTH;
        let row = &values[start..start + PREP_WIDTH];
        assert!(row.iter().all(|&v| v == Val::one()), "row {row_idx} should be all ones");
    }
}

#[test]
fn preprocessed_trace_padding_rows_beyond_first_are_all_zero() {
    // 1 row and a minimum height of 8: row 1 has the chain-boundary flag, rows 2..8 are zero.
    let one_row = vec![Val::one(); PREP_WIDTH];
    let trace = build_preprocessed_trace(one_row, 8);

    assert_eq!(trace.height(), 8);

    let values = trace.values.as_slice();
    for row_idx in 2..8 {
        let start = row_idx * PREP_WIDTH;
        let row = &values[start..start + PREP_WIDTH];
        assert!(
            row.iter().all(|&v| v == Val::zero()),
            "padding row {row_idx} should be all zeros"
        );
    }
}

#[test]
fn columns_are_those_of_the_permutation_table() {
    let mut rng = SmallRng::seed_from_u64(7);
    let state: [Native; WIDTH] = core::array::from_fn(|_| rng.random());
    let output = perm().permute(state);
    let trace = Air::new().generate_trace_rows(&[row(true, false, false, &state, false)]);
    let columns = trace.row_slice(0).unwrap();
    assert_eq!(columns.len(), 298 + 2);
    // The image of the permutation stands in the last round.
    let image: Vec<Val> = output.iter().map(|&x| back(x)).collect();
    assert_eq!(columns[298 - WIDTH..298], image[..]);
}
