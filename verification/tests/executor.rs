use p3_field::extension::BinomialExtensionField;
use p3_field::{BasedVectorSpace, PrimeCharacteristicRing};
use p3_recursion::config::{PoseidonConfigApi, Poseidon2Config, Poseidon2Variant};
use p3_recursion::context::{
    ExecutionContext, NpoPrivateData, PoseidonCircuitRow, PoseidonPermPrivateData,
};
use p3_recursion::executor::PoseidonPermExecutor;
use p3_recursion::extension::{BabyBearExt4, ExtensionField};
use p3_recursion::field::{BabyBear, Field};
use p3_recursion::poseidon2_hash::{
    BabyBearPoseidon2LimbPermutation, BabyBearPoseidon2Permutation,
};
use p3_recursion::types::{CircuitError, NonPrimitiveOpId, NpoTypeId, WitnessId};
use p3_symmetric::Permutation;

type F = BabyBear;

const CONFIG_D4_W16: Poseidon2Config = Poseidon2Config::BABY_BEAR_D4_W16;
const CONFIG_D1_W16: Poseidon2Config = Poseidon2Config::BABY_BEAR_D1_W16;

fn f(n: u64) -> F {
    F::from_u64(n)
}

fn fs(ns: &[u64]) -> Vec<F> {
    ns.iter().map(|&n| f(n)).collect()
}

fn op_type_d4() -> NpoTypeId {
    NpoTypeId::poseidon2_perm(CONFIG_D4_W16)
}

fn executor(
    config: Poseidon2Config,
    new_start: bool,
    merkle_path: bool,
) -> PoseidonPermExecutor<Poseidon2Variant> {
    PoseidonPermExecutor::<Poseidon2Variant>::new(
        NpoTypeId::poseidon2_perm(config),
        config,
        new_start,
        merkle_path,
        0,
    )
}

fn make_ctx(witness: Vec<Option<F>>) -> ExecutionContext<F> {
    ExecutionContext::new(witness, None, NonPrimitiveOpId(0))
}

#[test]
fn init_chain_state_new_start_returns_zeros() {
    let exec = executor(CONFIG_D4_W16, true, false);
    let ctx = make_ctx(vec![]);

    let state = exec.init_chain_state(Some(&[F::one(); 4]), &ctx).unwrap();
    assert_eq!(state, vec![F::zero(); CONFIG_D4_W16.width_ext()]);
}

#[test]
fn init_chain_state_chain_normal_copies_full_width() {
    let exec = executor(CONFIG_D4_W16, false, false);
    let width_ext = CONFIG_D4_W16.width_ext(); // 4
    let prev: Vec<F> = (1..=width_ext).map(|i| f(i as u64)).collect();
    let ctx = make_ctx(vec![]);

    let state = exec.init_chain_state(Some(&prev), &ctx).unwrap();
    assert_eq!(state, prev);
}

#[test]
fn init_chain_state_chain_merkle_copies_rate_only() {
    let exec = executor(CONFIG_D4_W16, false, true);
    let prev: Vec<F> = (1..=CONFIG_D4_W16.width_ext()).map(|i| f(i as u64)).collect();
    let ctx = make_ctx(vec![]);

    let state = exec.init_chain_state(Some(&prev), &ctx).unwrap();
    assert_eq!(state, vec![f(1), f(2), F::zero(), F::zero()]);
}

#[test]
fn init_chain_state_missing_previous_errors() {
    let exec = executor(CONFIG_D4_W16, false, false);
    let ctx = make_ctx(vec![]);

    let Err(CircuitError::Poseidon2ChainMissingPreviousState { operation_index }) =
        exec.init_chain_state(None, &ctx)
    else {
        panic!("expected Poseidon2ChainMissingPreviousState");
    };
    assert_eq!(operation_index, NonPrimitiveOpId(0));
}

#[test]
fn fill_sibling_data_merkle_mode_writes_capacity_slots() {
    let exec = executor(CONFIG_D4_W16, true, true);
    let mut state = vec![F::zero(); CONFIG_D4_W16.width_ext()];
    let sibling = [f(10), f(20)];

    exec.fill_sibling_data(&mut state, Some(&sibling), false, false);

    assert_eq!(state, vec![F::zero(), F::zero(), f(10), f(20)]);
}

#[test]
fn fill_sibling_data_non_merkle_is_noop() {
    let exec = executor(CONFIG_D4_W16, true, false);
    let width_ext = CONFIG_D4_W16.width_ext();
    let mut state = vec![F::zero(); width_ext];

    exec.fill_sibling_data(&mut state, Some(&[F::one(), F::one()]), false, false);

    assert!(state.iter().all(|&v| v == F::zero()));
}

#[test]
fn fill_sibling_data_none_private_is_noop() {
    let exec = executor(CONFIG_D4_W16, true, true);
    let width_ext = CONFIG_D4_W16.width_ext();
    let mut state = vec![F::zero(); width_ext];

    exec.fill_sibling_data(&mut state, None, false, false);

    assert!(state.iter().all(|&v| v == F::zero()));
}

#[test]
fn apply_witness_values_reads_single_element_slots() {
    let exec = executor(CONFIG_D4_W16, true, false);
    let ctx = make_ctx(vec![Some(f(10)), None, Some(f(30)), None]);

    let mut state = vec![F::zero(); CONFIG_D4_W16.width_ext()];
    let inputs: Vec<Vec<WitnessId>> = vec![
        vec![WitnessId(0)], // slot 0: has witness
        vec![],             // slot 1: empty
        vec![WitnessId(2)], // slot 2: has witness
        vec![],             // slot 3: empty
    ];

    exec.apply_witness_values(&mut state, &inputs, &ctx).unwrap();

    assert_eq!(state, vec![f(10), F::zero(), f(30), F::zero()]);
}

#[test]
fn apply_merkle_swap_swaps_when_merkle_and_bit_set() {
    let exec = executor(CONFIG_D4_W16, true, true);
    let mut state = fs(&[1, 2, 3, 4]);

    exec.apply_merkle_swap(&mut state, true);

    // rate_ext=2, so [0..2] and [2..4] should swap.
    assert_eq!(state, fs(&[3, 4, 1, 2]));
    // A second swap undoes the first.
    exec.apply_merkle_swap(&mut state, true);
    assert_eq!(state, fs(&[1, 2, 3, 4]));
}

#[test]
fn apply_merkle_swap_noop_when_bit_false() {
    let exec = executor(CONFIG_D4_W16, true, true);
    let original = fs(&[1, 2, 3, 4]);
    let mut state = original.clone();

    exec.apply_merkle_swap(&mut state, false);

    assert_eq!(state, original);
}

#[test]
fn apply_merkle_swap_noop_when_not_merkle() {
    let exec = executor(CONFIG_D4_W16, true, false);
    let original = fs(&[1, 2, 3, 4]);
    let mut state = original.clone();

    exec.apply_merkle_swap(&mut state, true);

    assert_eq!(state, original);
}

fn bit_inputs(width_ext: usize) -> Vec<Vec<WitnessId>> {
    let mut inputs: Vec<Vec<WitnessId>> = vec![vec![]; width_ext + 2];
    inputs[width_ext + 1] = vec![WitnessId(5)];
    inputs
}

fn bit_ctx(width_ext: usize, bit: F) -> ExecutionContext<F> {
    let mut witness = vec![None; width_ext + 2];
    witness[5] = Some(bit);
    make_ctx(witness)
}

#[test]
fn resolve_mmcs_bit_zero() {
    let exec = executor(CONFIG_D4_W16, true, false);
    let width_ext = CONFIG_D4_W16.width_ext();
    let ctx = bit_ctx(width_ext, F::zero());
    assert!(!exec.resolve_mmcs_bit(&bit_inputs(width_ext), &ctx).unwrap());
}

#[test]
fn resolve_mmcs_bit_one() {
    let exec = executor(CONFIG_D4_W16, true, false);
    let width_ext = CONFIG_D4_W16.width_ext();
    let ctx = bit_ctx(width_ext, F::one());
    assert!(exec.resolve_mmcs_bit(&bit_inputs(width_ext), &ctx).unwrap());
}

#[test]
fn resolve_mmcs_bit_invalid_value_errors() {
    let exec = executor(CONFIG_D4_W16, true, false);
    let width_ext = CONFIG_D4_W16.width_ext();
    let ctx = bit_ctx(width_ext, f(7));

    let Err(CircuitError::IncorrectNonPrimitiveOpPrivateData {
        op,
        operation_index,
        expected,
        got,
    }) = exec.resolve_mmcs_bit(&bit_inputs(width_ext), &ctx)
    else {
        panic!("expected IncorrectNonPrimitiveOpPrivateData");
    };
    assert_eq!(op, op_type_d4());
    assert_eq!(operation_index, NonPrimitiveOpId(0));
    assert_eq!(expected, "boolean mmcs_bit (0 or 1)");
    assert_eq!(
        got,
        format!("{:?}", <p3_baby_bear::BabyBear as PrimeCharacteristicRing>::from_u64(7))
    );
}

#[test]
fn resolve_mmcs_bit_missing_in_merkle_mode_errors() {
    let exec = executor(CONFIG_D4_W16, true, true);
    let width_ext = CONFIG_D4_W16.width_ext();
    let ctx = make_ctx(vec![None; width_ext + 2]);

    let inputs: Vec<Vec<WitnessId>> = vec![vec![]; width_ext + 2];

    let Err(CircuitError::IncorrectNonPrimitiveOpPrivateData {
        op,
        operation_index,
        expected,
        got,
    }) = exec.resolve_mmcs_bit(&inputs, &ctx)
    else {
        panic!("expected IncorrectNonPrimitiveOpPrivateData");
    };
    assert_eq!(op, op_type_d4());
    assert_eq!(operation_index, NonPrimitiveOpId(0));
    assert_eq!(expected, "mmcs_bit must be provided when merkle_path=true");
    assert_eq!(got, "missing mmcs_bit");
}

#[test]
fn resolve_mmcs_bit_missing_non_merkle_defaults_false() {
    let exec = executor(CONFIG_D4_W16, true, false);
    let width_ext = CONFIG_D4_W16.width_ext();
    let ctx = make_ctx(vec![None; width_ext + 2]);

    let inputs: Vec<Vec<WitnessId>> = vec![vec![]; width_ext + 2];

    assert!(!exec.resolve_mmcs_bit(&inputs, &ctx).unwrap());
}

#[test]
fn validate_ext_inputs_correct_layout() {
    let exec = executor(CONFIG_D4_W16, true, false);
    let width_ext = CONFIG_D4_W16.width_ext(); // 4
    // width_ext + 2 = 6 input vectors, each with 0 or 1 element
    let inputs: Vec<Vec<WitnessId>> = vec![vec![]; width_ext + 2];
    assert!(exec.validate_ext_inputs(&inputs).is_ok());
}

#[test]
fn validate_ext_inputs_wrong_count_errors() {
    let exec = executor(CONFIG_D4_W16, true, false);
    let inputs: Vec<Vec<WitnessId>> = vec![vec![]; 3]; // too few
    let Err(CircuitError::NonPrimitiveOpLayoutMismatch { op, expected, got }) =
        exec.validate_ext_inputs(&inputs)
    else {
        panic!("expected NonPrimitiveOpLayoutMismatch");
    };
    assert_eq!(op, op_type_d4());
    assert_eq!(expected, "6 input vectors");
    assert_eq!(got, 3);
}

#[test]
fn validate_ext_inputs_multi_witness_limb_errors() {
    let exec = executor(CONFIG_D4_W16, true, false);
    let width_ext = CONFIG_D4_W16.width_ext();
    let mut inputs: Vec<Vec<WitnessId>> = vec![vec![]; width_ext + 2];
    inputs[0] = vec![WitnessId(0), WitnessId(1)]; // 2 witnesses = invalid
    let Err(CircuitError::NonPrimitiveOpLayoutMismatch { op, expected, got }) =
        exec.validate_ext_inputs(&inputs)
    else {
        panic!("expected NonPrimitiveOpLayoutMismatch");
    };
    assert_eq!(op, op_type_d4());
    assert_eq!(expected, "0 or 1 witness per input limb (extension-only)");
    assert_eq!(got, 2);
}

#[test]
fn validate_ext_inputs_multi_mmcs_index_sum_errors() {
    let exec = executor(CONFIG_D4_W16, true, false);
    let width_ext = CONFIG_D4_W16.width_ext();
    let mut inputs: Vec<Vec<WitnessId>> = vec![vec![]; width_ext + 2];
    inputs[width_ext] = vec![WitnessId(0), WitnessId(1)];
    let Err(CircuitError::IncorrectNonPrimitiveOpPrivateDataSize { op, expected, got }) =
        exec.validate_ext_inputs(&inputs)
    else {
        panic!("expected IncorrectNonPrimitiveOpPrivateDataSize");
    };
    assert_eq!(op, op_type_d4());
    assert_eq!(expected, "0 or 1 element for mmcs_index_sum");
    assert_eq!(got, 2);
}

#[test]
fn validate_ext_inputs_multi_mmcs_bit_errors() {
    let exec = executor(CONFIG_D4_W16, true, false);
    let width_ext = CONFIG_D4_W16.width_ext();
    let mut inputs: Vec<Vec<WitnessId>> = vec![vec![]; width_ext + 2];
    inputs[width_ext + 1] = vec![WitnessId(0), WitnessId(1)];
    let Err(CircuitError::IncorrectNonPrimitiveOpPrivateDataSize { op, expected, got }) =
        exec.validate_ext_inputs(&inputs)
    else {
        panic!("expected IncorrectNonPrimitiveOpPrivateDataSize");
    };
    assert_eq!(op, op_type_d4());
    assert_eq!(expected, "0 or 1 element for mmcs_bit");
    assert_eq!(got, 2);
}

#[test]
fn validate_ext_outputs_rate_count_ok() {
    let exec = executor(CONFIG_D4_W16, true, false);
    let outputs: Vec<Vec<WitnessId>> = vec![vec![]; CONFIG_D4_W16.rate_ext()];
    assert!(exec.validate_ext_outputs(&outputs).is_ok());
}

#[test]
fn validate_ext_outputs_width_count_ok() {
    let exec = executor(CONFIG_D4_W16, true, false);
    let outputs: Vec<Vec<WitnessId>> = vec![vec![]; CONFIG_D4_W16.width_ext()];
    assert!(exec.validate_ext_outputs(&outputs).is_ok());
}

#[test]
fn validate_ext_outputs_wrong_count_errors() {
    let exec = executor(CONFIG_D4_W16, true, false);
    let outputs: Vec<Vec<WitnessId>> = vec![vec![]; 1]; // neither rate nor width
    let Err(CircuitError::NonPrimitiveOpLayoutMismatch { op, expected, got }) =
        exec.validate_ext_outputs(&outputs)
    else {
        panic!("expected NonPrimitiveOpLayoutMismatch");
    };
    assert_eq!(op, op_type_d4());
    assert_eq!(expected, "2 or 4 output vectors");
    assert_eq!(got, 1);
}

#[test]
fn write_outputs_writes_single_witness_slots() {
    let exec = executor(CONFIG_D4_W16, true, false);
    let mut ctx = make_ctx(vec![None; 4]);

    let outputs = vec![vec![WitnessId(0)], vec![], vec![WitnessId(2)]];
    let values = fs(&[10, 20, 30]);

    exec.write_outputs(&outputs, &values, &mut ctx).unwrap();

    assert_eq!(ctx.witness, [Some(f(10)), None, Some(f(30)), None]);
}

#[test]
fn write_outputs_multi_witness_slot_errors() {
    let exec = executor(CONFIG_D4_W16, true, false);
    let mut ctx = make_ctx(vec![None; 4]);

    let outputs = vec![vec![WitnessId(0), WitnessId(1)]]; // 2 witnesses = invalid
    let values = vec![F::one()];

    let Err(CircuitError::NonPrimitiveOpLayoutMismatch { op, expected, got }) =
        exec.write_outputs(&outputs, &values, &mut ctx)
    else {
        panic!("expected NonPrimitiveOpLayoutMismatch");
    };
    assert_eq!(op, op_type_d4());
    assert_eq!(expected, "0 or 1 witness per output limb");
    assert_eq!(got, 2);
}

#[test]
fn build_trace_row_sets_ctl_flags() {
    let exec = executor(CONFIG_D4_W16, true, false);
    let width_ext = CONFIG_D4_W16.width_ext();

    let mut witness: Vec<Option<F>> = vec![None; 10];
    witness[7] = Some(f(42));
    let ctx = make_ctx(witness);

    let mut inputs: Vec<Vec<WitnessId>> = vec![vec![]; width_ext + 2];
    inputs[0] = vec![WitnessId(1)];
    inputs[2] = vec![WitnessId(3)];
    inputs[width_ext] = vec![WitnessId(7)];

    let outputs: Vec<Vec<WitnessId>> = vec![
        vec![WitnessId(5)], // out 0 exposed
        vec![],             // out 1 not exposed
    ];

    let input_values: Vec<F> = (0..width_ext).map(|i| f(i as u64)).collect();

    let row = exec.build_trace_row(&inputs, &outputs, false, false, input_values, &ctx).unwrap();

    assert_eq!(row.in_ctl, vec![true, false, true, false]);
    assert_eq!(row.input_indices, vec![1, 0, 3, 0]);
    assert_eq!(row.out_ctl, vec![true, false]);
    assert_eq!(row.output_indices, vec![5, 0]);
    assert!(row.mmcs_ctl_enabled);
    assert_eq!(row.mmcs_index_sum, f(42));
}

#[test]
fn build_trace_row_no_mmcs_index() {
    let exec = executor(CONFIG_D4_W16, true, false);
    let width_ext = CONFIG_D4_W16.width_ext();

    let ctx = make_ctx(vec![None; 10]);

    let inputs: Vec<Vec<WitnessId>> = vec![vec![]; width_ext + 2];
    let outputs: Vec<Vec<WitnessId>> = vec![vec![]; CONFIG_D4_W16.rate_ext()];
    let input_values = vec![F::zero(); width_ext];

    let row = exec.build_trace_row(&inputs, &outputs, false, false, input_values, &ctx).unwrap();

    assert!(!row.mmcs_ctl_enabled);
    assert_eq!(row.mmcs_index_sum, F::zero());
}

#[test]
fn build_base_trace_row_one_ctl_flag_per_input_slot() {
    let exec = executor(CONFIG_D1_W16, true, false);

    // 16 inputs: make slot 0 and slot 4 nonempty
    let mut inputs: Vec<Vec<WitnessId>> = vec![vec![]; 16];
    inputs[0] = vec![WitnessId(10)];
    inputs[4] = vec![WitnessId(20)];

    let outputs: Vec<Vec<WitnessId>> = vec![vec![]; 8];
    let input_values = vec![F::zero(); 16];

    let row = exec.build_base_trace_row(&inputs, &outputs, &input_values);

    let mut exp_ctl = vec![false; 16];
    exp_ctl[0] = true;
    exp_ctl[4] = true;
    let mut exp_idx = vec![0u32; 16];
    exp_idx[0] = 10;
    exp_idx[4] = 20;
    assert_eq!(row.in_ctl, exp_ctl);
    assert_eq!(row.input_indices, exp_idx);
}

fn empty_row(merkle_path: bool) -> PoseidonCircuitRow<F> {
    PoseidonCircuitRow {
        new_start: true,
        merkle_path,
        mmcs_bit: false,
        mmcs_bit2: false,
        mmcs_index_sum: F::zero(),
        input_values: vec![],
        in_ctl: vec![],
        input_indices: vec![],
        out_ctl: vec![],
        output_indices: vec![],
        mmcs_index_sum_idx: 0,
        mmcs_ctl_enabled: false,
    }
}

#[test]
fn update_chain_state_normal_mode() {
    let exec = executor(CONFIG_D4_W16, true, false);
    let mut ctx = make_ctx(vec![]);

    let output = fs(&[1, 2, 3, 4]);

    exec.update_chain_state(&mut ctx, output.clone(), empty_row(false));

    let state = ctx.op_states.get(exec.op_type).unwrap();
    assert_eq!(state.last_output_normal, Some(output));
    assert_eq!(state.last_output_merkle, None);
    assert_eq!(state.rows.len(), 1);
}

#[test]
fn update_chain_state_merkle_mode() {
    let exec = executor(CONFIG_D4_W16, true, true);
    let mut ctx = make_ctx(vec![]);

    let output = fs(&[5, 6, 7, 8]);

    exec.update_chain_state(&mut ctx, output.clone(), empty_row(true));

    let state = ctx.op_states.get(exec.op_type).unwrap();
    assert_eq!(state.last_output_normal, None);
    assert_eq!(state.last_output_merkle, Some(output));
}

#[test]
fn execute_base_wrong_input_count_errors() {
    let exec = executor(CONFIG_D1_W16, true, false);
    let mut ctx = make_ctx(vec![None; 32]);

    let inputs: Vec<Vec<WitnessId>> = vec![vec![]; 10]; // not 16
    let outputs: Vec<Vec<WitnessId>> = vec![vec![]; 8];

    let Err(CircuitError::NonPrimitiveOpLayoutMismatch { op, expected, got }) =
        exec.execute_base(&inputs, &outputs, &mut ctx, &BabyBearPoseidon2Permutation::new())
    else {
        panic!("expected NonPrimitiveOpLayoutMismatch");
    };
    assert_eq!(op, NpoTypeId::poseidon2_perm(CONFIG_D1_W16));
    assert_eq!(expected, "16 or 18 input vectors for D=1 mode");
    assert_eq!(got, 10);
}

#[test]
fn execute_base_wrong_output_count_errors() {
    let exec = executor(CONFIG_D1_W16, true, false);
    let mut ctx = make_ctx(vec![None; 32]);

    let inputs: Vec<Vec<WitnessId>> = vec![vec![]; 16];
    let outputs: Vec<Vec<WitnessId>> = vec![vec![]; 5]; // neither 8 nor 16

    let Err(CircuitError::NonPrimitiveOpLayoutMismatch { op, expected, got }) =
        exec.execute_base(&inputs, &outputs, &mut ctx, &BabyBearPoseidon2Permutation::new())
    else {
        panic!("expected NonPrimitiveOpLayoutMismatch");
    };
    assert_eq!(op, NpoTypeId::poseidon2_perm(CONFIG_D1_W16));
    assert_eq!(expected, "8 or 16 output vectors for D=1 mode");
    assert_eq!(got, 5);
}

#[test]
fn execute_base_multi_witness_per_input_errors() {
    let exec = executor(CONFIG_D1_W16, true, false);
    let mut ctx = make_ctx(vec![None; 32]);

    let mut inputs: Vec<Vec<WitnessId>> = vec![vec![]; 16];
    inputs[3] = vec![WitnessId(0), WitnessId(1)];
    let outputs: Vec<Vec<WitnessId>> = vec![vec![]; 8];

    let Err(CircuitError::NonPrimitiveOpLayoutMismatch { op, expected, got }) =
        exec.execute_base(&inputs, &outputs, &mut ctx, &BabyBearPoseidon2Permutation::new())
    else {
        panic!("expected NonPrimitiveOpLayoutMismatch");
    };
    assert_eq!(op, NpoTypeId::poseidon2_perm(CONFIG_D1_W16));
    assert_eq!(expected, "0 or 1 witness per input element 3");
    assert_eq!(got, 2);
}

/// The permutation as its own crate computes it.
fn permuted(state: [u64; 16]) -> [u64; 16] {
    let mut state: [p3_baby_bear::BabyBear; 16] =
        state.map(<p3_baby_bear::BabyBear as PrimeCharacteristicRing>::from_u64);
    p3_baby_bear::default_babybear_poseidon2_16().permute_mut(&mut state);
    state.map(|x| p3_field::PrimeField32::as_canonical_u32(&x) as u64)
}

fn native_limb(words: &[u64]) -> BinomialExtensionField<p3_baby_bear::BabyBear, 4> {
    BinomialExtensionField::from_basis_coefficients_fn(|i| {
        p3_baby_bear::BabyBear::from_u64(words[i])
    })
}

fn limb(words: &[u64]) -> BabyBearExt4 {
    BabyBearExt4::from_coefficients(&fs(words))
}

#[test]
fn execute_base_runs_the_real_permutation() {
    let exec = executor(CONFIG_D1_W16, true, false);
    let values: Vec<Option<F>> = (0..16).map(|n| Some(f(n + 1))).chain(vec![None; 16]).collect();
    let mut ctx = make_ctx(values);
    let inputs: Vec<Vec<WitnessId>> = (0..16).map(|n| vec![WitnessId(n)]).collect();
    let outputs: Vec<Vec<WitnessId>> = (16..32).map(|n| vec![WitnessId(n)]).collect();
    exec.execute_base(&inputs, &outputs, &mut ctx, &BabyBearPoseidon2Permutation::new()).unwrap();

    let image = permuted(core::array::from_fn(|i| i as u64 + 1));
    for i in 0..16 {
        assert_eq!(ctx.witness[16 + i], Some(f(image[i])));
        assert_ne!(image[i], i as u64 + 1);
    }
    assert_eq!(ctx.op_states.get(exec.op_type).unwrap().rows.len(), 1);
}

#[test]
fn execute_chains_one_row_after_another() {
    let first = executor(CONFIG_D4_W16, true, false);
    let second = executor(CONFIG_D4_W16, false, false);
    let permutation = BabyBearPoseidon2LimbPermutation::new();
    let mut ctx = ExecutionContext::<BabyBearExt4>::new(
        vec![Some(limb(&[1, 2, 3, 4])), Some(limb(&[5, 6, 7, 8])), None, None],
        None,
        NonPrimitiveOpId(0),
    );
    let mut inputs: Vec<Vec<WitnessId>> = vec![vec![]; 6];
    inputs[0] = vec![WitnessId(0)];
    inputs[1] = vec![WitnessId(1)];
    first.execute(&inputs, &[vec![], vec![]], &mut ctx, Some(&permutation)).unwrap();
    // The second row reads nothing and permutes the state that the first row left.
    let idle: Vec<Vec<WitnessId>> = vec![vec![]; 6];
    let outputs = vec![vec![WitnessId(2)], vec![WitnessId(3)]];
    second.execute(&idle, &outputs, &mut ctx, Some(&permutation)).unwrap();
    let mut start = [0u64; 16];
    for i in 0..8 {
        start[i] = i as u64 + 1;
    }
    let image = permuted(permuted(start));
    assert_eq!(ctx.witness[2], Some(limb(&image[0..4])));
    assert_eq!(ctx.witness[3], Some(limb(&image[4..8])));
    assert_eq!(ctx.op_states.get(first.op_type).unwrap().rows.len(), 2);
}

#[test]
fn execute_merkle_row_places_the_sibling_by_the_direction_bit() {
    let exec = executor(CONFIG_D4_W16, true, true);
    let (a, b) = ([1, 2, 3, 4, 5, 6, 7, 8], [11, 12, 13, 14, 15, 16, 17, 18]);
    for bit in [0u64, 1] {
        let mut ctx = ExecutionContext::<BabyBearExt4>::new(
            vec![
                Some(limb(&a[0..4])),
                Some(limb(&a[4..8])),
                Some(BabyBearExt4::from_u64(bit)),
                None,
                None,
            ],
            Some(NpoPrivateData::Poseidon2(PoseidonPermPrivateData {
                sibling: vec![limb(&b[0..4]), limb(&b[4..8])],
            })),
            NonPrimitiveOpId(0),
        );
        let mut inputs: Vec<Vec<WitnessId>> = vec![vec![]; 6];
        inputs[0] = vec![WitnessId(0)];
        inputs[1] = vec![WitnessId(1)];
        inputs[5] = vec![WitnessId(2)];
        let outputs = vec![vec![WitnessId(3)], vec![WitnessId(4)]];
        let permutation = BabyBearPoseidon2LimbPermutation::new();
        exec.execute(&inputs, &outputs, &mut ctx, Some(&permutation)).unwrap();
        let (left, right) = if bit == 0 { (a, b) } else { (b, a) };
        let image = permuted(core::array::from_fn(|i| if i < 8 { left[i] } else { right[i - 8] }));
        assert_eq!(ctx.witness[3], Some(limb(&image[0..4])));
        assert_eq!(ctx.witness[4], Some(limb(&image[4..8])));
    }
}

#[test]
fn extension_bits_are_shown_as_the_field_shows_them() {
    let exec = executor(CONFIG_D4_W16, true, false);
    let ctx = ExecutionContext::<BabyBearExt4>::new(
        vec![Some(limb(&[1, 20, 0, 3]))],
        None,
        NonPrimitiveOpId(4),
    );
    let mut inputs: Vec<Vec<WitnessId>> = vec![vec![]; 6];
    inputs[5] = vec![WitnessId(0)];
    assert_eq!(
        exec.resolve_mmcs_bit(&inputs, &ctx),
        Err(CircuitError::IncorrectNonPrimitiveOpPrivateData {
            op: op_type_d4(),
            operation_index: NonPrimitiveOpId(4),
            expected: "boolean mmcs_bit (0 or 1)".to_string(),
            got: format!("{:?}", native_limb(&[1, 20, 0, 3])),
        })
    );
}

#[test]
fn execute_without_a_permutation_errors() {
    let exec = executor(CONFIG_D4_W16, true, false);
    let mut ctx = make_ctx(vec![]);
    let inputs: Vec<Vec<WitnessId>> = vec![vec![]; 6];
    let r = exec.execute::<F, BabyBearPoseidon2Permutation>(
        &inputs,
        &[vec![], vec![]],
        &mut ctx,
        None,
    );
    assert_eq!(r, Err(CircuitError::InvalidNonPrimitiveOpConfiguration { op: op_type_d4() }));
}

#[test]
fn witness_slots_are_set_once() {
    let mut ctx = make_ctx(vec![None, Some(f(4))]);
    assert_eq!(
        ctx.get_witness(WitnessId(0)),
        Err(CircuitError::WitnessNotSet { witness_id: WitnessId(0) })
    );
    assert_eq!(ctx.get_witness(WitnessId(1)), Ok(f(4)));
    assert_eq!(
        ctx.set_witness(WitnessId(2), f(1)),
        Err(CircuitError::WitnessIdOutOfBounds { witness_id: WitnessId(2) })
    );
    assert_eq!(ctx.set_witness(WitnessId(1), f(4)), Ok(()));
    assert_eq!(
        ctx.set_witness(WitnessId(1), f(5)),
        Err(CircuitError::WitnessConflict { witness_id: WitnessId(1) })
    );
    assert_eq!(ctx.set_witness(WitnessId(0), f(5)), Ok(()));
    assert_eq!(ctx.witness, vec![Some(f(5)), Some(f(4))]);
}

#[test]
fn private_data_outside_merkle_mode_errors() {
    let data = NpoPrivateData::Poseidon2(PoseidonPermPrivateData { sibling: fs(&[1, 2]) });
    let ctx = ExecutionContext::new(vec![], Some(data), NonPrimitiveOpId(3));
    let merkle = executor(CONFIG_D4_W16, true, true);
    assert_eq!(merkle.resolve_private_data(&ctx), Ok(Some(&fs(&[1, 2])[..])));
    let exec = executor(CONFIG_D4_W16, true, false);
    let Err(CircuitError::IncorrectNonPrimitiveOpPrivateData {
        op,
        operation_index,
        expected,
        got,
    }) = exec.resolve_private_data(&ctx)
    else {
        panic!("expected IncorrectNonPrimitiveOpPrivateData");
    };
    assert_eq!(op, op_type_d4());
    assert_eq!(operation_index, NonPrimitiveOpId(3));
    assert_eq!(expected, "no private data (only Merkle mode accepts private data)");
    assert_eq!(got, "private data provided for non-Merkle operation");
}

#[test]
fn states_may_be_longer_than_the_permutation() {
    let exec = executor(CONFIG_D4_W16, true, true);
    let ctx = make_ctx(vec![Some(f(9))]);
    let mut state = fs(&[1, 2, 3, 4, 5, 6]);
    let mut inputs: Vec<Vec<WitnessId>> = vec![vec![]; 6];
    inputs[1] = vec![WitnessId(0)];
    exec.apply_witness_values(&mut state, &inputs, &ctx).unwrap();
    assert_eq!(state, fs(&[1, 9, 3, 4, 5, 6]));
    let siblings = fs(&[7, 8]);
    exec.fill_sibling_data(&mut state, Some(&siblings), false, false);
    assert_eq!(state, fs(&[1, 9, 7, 8, 5, 6]));
}
