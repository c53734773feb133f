use p3_recursion::layout::{
    poseidon_d1_compact_preprocessed_header_cols, poseidon_preprocessed_row_width,
    poseidon_preprocessed_row_width_for_air, poseidon_uses_compact_d1_preprocessed,
    PoseidonPrepInputLimb, PoseidonPrepOutputLimb, PoseidonPreprocessedRow,
};

#[test]
fn test_uses_compact_d1_true() {
    assert!(poseidon_uses_compact_d1_preprocessed(1, 16, 8));
}

#[test]
fn test_uses_compact_d1_false_wrong_d() {
    assert!(!poseidon_uses_compact_d1_preprocessed(4, 16, 8));
}

#[test]
fn test_uses_compact_d1_width_8_rate_4() {
    assert!(poseidon_uses_compact_d1_preprocessed(1, 8, 4));
}

#[test]
fn test_uses_compact_d1_false_wrong_rate() {
    assert!(!poseidon_uses_compact_d1_preprocessed(1, 16, 4));
}

#[test]
fn test_uses_compact_d1_width_12_rate_6() {
    assert!(poseidon_uses_compact_d1_preprocessed(1, 12, 6));
}

#[test]
fn test_d1_compact_header_cols() {
    assert_eq!(poseidon_d1_compact_preprocessed_header_cols(8), 3 * 8 + 2);
}

#[test]
fn test_d1_compact_header_cols_12() {
    assert_eq!(poseidon_d1_compact_preprocessed_header_cols(12), 3 * 12 + 2);
}

#[test]
fn test_preprocessed_row_width_zero_limbs() {
    assert_eq!(poseidon_preprocessed_row_width(0, 0), 4);
}

#[test]
fn test_preprocessed_row_width_basic() {
    // Four input limbs of four columns, two output limbs of two, and four columns of flags.
    assert_eq!(poseidon_preprocessed_row_width(4, 2), 24);
}

#[test]
fn a_written_row_reads_back() {
    let limb = |n: u32| PoseidonPrepInputLimb {
        idx: n,
        in_ctl: n + 1,
        normal_chain_sel: n + 2,
        merkle_chain_sel: n + 3,
    };
    let row = PoseidonPreprocessedRow::<2, 1, u32> {
        input_limbs: [limb(10), limb(20)],
        output_limbs: [PoseidonPrepOutputLimb { idx: 30, out_ctl: 31 }],
        mmcs_index_sum_ctl_idx: 40,
        mmcs_merkle_flag: 41,
        new_start: 42,
        merkle_path: 43,
    };
    let mut columns = vec![7u32];
    row.write_into(&mut columns);
    assert_eq!(columns, vec![7, 10, 11, 12, 13, 20, 21, 22, 23, 30, 31, 40, 41, 42, 43]);
    assert_eq!(columns.len() - 1, poseidon_preprocessed_row_width(2, 1));
    assert_eq!(PoseidonPreprocessedRow::<2, 1, u32>::from_columns(&columns[1..]), Some(row));
    assert_eq!(PoseidonPreprocessedRow::<2, 1, u32>::from_columns(&columns), None);
}

#[test]
fn row_width_of_tables() {
    assert_eq!(poseidon_preprocessed_row_width_for_air(4, 4, 2), 24);
    // A header of 3 * 8 + 2 columns, 16 inputs, 8 outputs, 8 selectors and 4 flags.
    assert_eq!(poseidon_preprocessed_row_width_for_air(1, 16, 8), 26 + 16 + 8 + 8 + 4);
}
