use p3_recursion::config::{Poseidon2Config, Poseidon2Variant};
use p3_recursion::executor::PoseidonPermExecutor;
use p3_recursion::field::{BabyBear, Field};
use p3_recursion::layout::poseidon_preprocessed_row_width_for_air;
use p3_recursion::preprocess::{PreprocessedCell, PreprocessedWriter};
use p3_recursion::types::{CircuitError, NpoTypeId, WitnessId};

type F = BabyBear;

fn executor(
    config: Poseidon2Config,
    new_start: bool,
    merkle_path: bool,
) -> PoseidonPermExecutor<Poseidon2Variant> {
    let op = NpoTypeId::poseidon2_perm(config);
    PoseidonPermExecutor::new(op, config, new_start, merkle_path, 0)
}

fn f(n: u64) -> F {
    F::from_u64(n)
}

#[test]
fn a_sponge_row_reads_its_limbs() {
    let config = Poseidon2Config::BABY_BEAR_D4_W16;
    let exec = executor(config, false, false);
    let mut inputs: Vec<Vec<WitnessId>> = vec![vec![]; 6];
    inputs[0] = vec![WitnessId(7)];
    let outputs = vec![vec![], vec![WitnessId(9)]];
    let mut writer = PreprocessedWriter::<F>::new();
    exec.preprocess(&inputs, &outputs, &mut writer).unwrap();
    let columns = writer.columns(exec.op_type, 4);
    assert_eq!(columns.len(), poseidon_preprocessed_row_width_for_air(4, 4, 2));
    // The first limb is exposed; the other limbs continue the sponge.
    assert_eq!(columns[..4], [f(28), f(1), f(0), f(0)]);
    assert_eq!(columns[4..8], [f(0), f(0), f(1), f(0)]);
    assert_eq!(columns[12..16], [f(0), f(0), f(1), f(0)]);
    // The second output is exposed.
    assert_eq!(columns[16..20], [f(0), f(0), f(36), f(1)]);
    assert_eq!(columns[20..], [f(0), f(0), f(0), f(0)]);
    assert!(writer
        .cells
        .iter()
        .any(|(_, c)| matches!(c, PreprocessedCell::Read(WitnessId(7)))));
}

#[test]
fn a_merkle_row_exposes_its_index_sum() {
    let exec = executor(Poseidon2Config::BABY_BEAR_D4_W16, true, true);
    let mut inputs: Vec<Vec<WitnessId>> = vec![vec![]; 6];
    inputs[4] = vec![WitnessId(3)];
    let mut writer = PreprocessedWriter::<F>::new();
    exec.preprocess(&inputs, &[vec![], vec![]], &mut writer).unwrap();
    let columns = writer.columns(exec.op_type, 1);
    // A row that starts a chain continues none.
    assert!(columns[..20].iter().all(|&x| x == f(0)));
    assert_eq!(columns[20..], [f(3), f(1), f(1), f(1)]);
    // Another table has no columns.
    let other = NpoTypeId::poseidon2_perm(Poseidon2Config::BABY_BEAR_D1_W16);
    assert!(writer.columns(other, 1).is_empty());
}

#[test]
fn compact_rows_fill_their_width() {
    let exec = executor(Poseidon2Config::BABY_BEAR_D1_W16, true, false);
    let inputs: Vec<Vec<WitnessId>> =
        (0..16).map(|i| if i < 8 { vec![WitnessId(i)] } else { vec![] }).collect();
    let outputs: Vec<Vec<WitnessId>> = (0..8).map(|i| vec![WitnessId(20 + i)]).collect();
    let mut writer = PreprocessedWriter::<F>::new();
    exec.preprocess(&inputs, &outputs, &mut writer).unwrap();
    let columns = writer.columns(exec.op_type, 1);
    assert_eq!(columns.len(), poseidon_preprocessed_row_width_for_air(1, 16, 8));
}

#[test]
fn compact_sponge_rows_leave_the_capacity_alone() {
    let exec = executor(Poseidon2Config::BABY_BEAR_D1_W16, true, false);
    let mut inputs: Vec<Vec<WitnessId>> = vec![vec![]; 16];
    inputs[11] = vec![WitnessId(1)];
    let mut writer = PreprocessedWriter::<F>::new();
    assert_eq!(
        exec.preprocess(&inputs, &vec![vec![]; 8], &mut writer),
        Err(CircuitError::NonPrimitiveOpLayoutMismatch {
            op: exec.op_type,
            expected: "capacity input slots must be empty on compact D=1 sponge rows".to_string(),
            got: 1,
        })
    );
    inputs[11] = vec![];
    inputs[2] = vec![WitnessId(1), WitnessId(2)];
    assert_eq!(
        exec.preprocess(&inputs, &vec![vec![]; 8], &mut writer),
        Err(CircuitError::NonPrimitiveOpLayoutMismatch {
            op: exec.op_type,
            expected: "0 or 1 witness per input limb".to_string(),
            got: 2,
        })
    );
}
