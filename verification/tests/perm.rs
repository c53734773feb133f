use p3_recursion::circuit::{CircuitBuilder, CircuitBuilderError, Expr};
use p3_recursion::config::{
    PermConfig, Poseidon1Config, Poseidon1Variant, Poseidon2Config, Poseidon2Variant,
};
use p3_recursion::context::{NpoPrivateData, PoseidonPermPrivateData};
use p3_recursion::field::{BabyBear, Field};
use p3_recursion::perm::{perm_private_data, PermCall, PoseidonPermCall, PoseidonPermCallBase};
use p3_recursion::types::{ExprId, NonPrimitiveOpId, NpoTypeId};

type F = BabyBear;

#[test]
fn test_perm_config_poseidon1_accessors() {
    let cfg = PermConfig::Poseidon1(Poseidon1Config::BABY_BEAR_D1_W16);
    assert_eq!(cfg.d(), 1);
    assert_eq!(cfg.width_ext(), cfg.rate_ext() + cfg.capacity_ext());
    assert!(cfg.as_poseidon1().is_some());
    assert!(cfg.as_poseidon2().is_none());
}

#[test]
fn test_perm_config_poseidon2_accessors() {
    let cfg = PermConfig::Poseidon2(Poseidon2Config::BABY_BEAR_D1_W16);
    assert_eq!(cfg.d(), 1);
    assert_eq!(cfg.width_ext(), cfg.rate_ext() + cfg.capacity_ext());
    assert!(cfg.as_poseidon1().is_none());
    assert!(cfg.as_poseidon2().is_some());
}

#[test]
fn test_perm_config_from_poseidon1() {
    let cfg = PermConfig::from(Poseidon1Config::BABY_BEAR_D1_W16);
    assert_eq!(cfg, PermConfig::Poseidon1(Poseidon1Config::BABY_BEAR_D1_W16));
    assert!(cfg.as_poseidon1().is_some());
}

#[test]
fn test_perm_config_from_poseidon2() {
    let cfg = PermConfig::from(Poseidon2Config::BABY_BEAR_D1_W16);
    assert_eq!(cfg, PermConfig::Poseidon2(Poseidon2Config::BABY_BEAR_D1_W16));
    assert!(cfg.as_poseidon2().is_some());
}

#[test]
fn test_is_arity4_shape_false_for_standard() {
    assert!(!PermConfig::Poseidon2(Poseidon2Config::BABY_BEAR_D1_W16).is_arity4_shape());
}

#[test]
fn test_is_arity4_shape_true() {
    assert!(PermConfig::Poseidon2(Poseidon2Config::KOALA_BEAR_D1_W32).is_arity4_shape());
}

#[test]
fn test_width_ext_equals_rate_ext_plus_capacity_ext() {
    let configs = [
        PermConfig::Poseidon1(Poseidon1Config::BABY_BEAR_D1_W16),
        PermConfig::Poseidon1(Poseidon1Config::BABY_BEAR_D4_W16),
        PermConfig::Poseidon2(Poseidon2Config::BABY_BEAR_D1_W16),
        PermConfig::Poseidon2(Poseidon2Config::KOALA_BEAR_D1_W32),
        PermConfig::Poseidon2(Poseidon2Config::KOALA_BEAR_D4_W32),
    ];
    for cfg in configs {
        assert_eq!(cfg.width_ext(), cfg.rate_ext() + cfg.capacity_ext());
    }
}

#[test]
fn test_perm_private_data_poseidon1_type() {
    let data = perm_private_data(
        PermConfig::from(Poseidon1Config::BABY_BEAR_D1_W16),
        Vec::<F>::new(),
    );
    assert_eq!(data, NpoPrivateData::Poseidon1(PoseidonPermPrivateData { sibling: vec![] }));
}

#[test]
fn test_perm_private_data_poseidon2_type() {
    let data = perm_private_data(
        PermConfig::from(Poseidon2Config::BABY_BEAR_D1_W16),
        Vec::<F>::new(),
    );
    assert_eq!(data, NpoPrivateData::Poseidon2(PoseidonPermPrivateData { sibling: vec![] }));
}

#[test]
fn test_poseidon1_constructor_helper() {
    let cfg = PermConfig::poseidon1(Poseidon1Config::BABY_BEAR_D1_W16);
    assert_eq!(cfg, PermConfig::Poseidon1(Poseidon1Config::BABY_BEAR_D1_W16));
}

#[test]
fn test_poseidon2_constructor_helper() {
    let cfg = PermConfig::poseidon2(Poseidon2Config::BABY_BEAR_D1_W16);
    assert_eq!(cfg, PermConfig::Poseidon2(Poseidon2Config::BABY_BEAR_D1_W16));
}

#[test]
fn test_permconfig_debug() {
    let cfg = PermConfig::Poseidon2(Poseidon2Config::BABY_BEAR_D1_W16);
    let s = format!("{cfg:?}");
    assert!(!s.is_empty());
}

#[test]
fn perm_config_width_ext_of_every_configuration() {
    let configs = [
        PermConfig::Poseidon1(Poseidon1Config::BABY_BEAR_D1_W16),
        PermConfig::Poseidon1(Poseidon1Config::BABY_BEAR_D4_W16),
        PermConfig::Poseidon1(Poseidon1Config::BABY_BEAR_D4_W24),
        PermConfig::Poseidon1(Poseidon1Config::KOALA_BEAR_D1_W16),
        PermConfig::Poseidon1(Poseidon1Config::KOALA_BEAR_D4_W16),
        PermConfig::Poseidon1(Poseidon1Config::KOALA_BEAR_D4_W24),
        PermConfig::Poseidon1(Poseidon1Config::GOLDILOCKS_D2_W8),
    ];
    for cfg in configs {
        assert_eq!(cfg.width_ext(), cfg.rate_ext() + cfg.capacity_ext());
    }
    assert_eq!(configs[1].width_ext(), 4);
    assert_eq!(configs[1].rate_ext(), 2);
    assert_eq!(configs[1].rate(), 8);
    assert_eq!(configs[6].d(), 2);
}

fn call(inputs: Vec<Option<ExprId>>) -> PermCall {
    PermCall {
        new_start: true,
        merkle_path: false,
        mmcs_bit: None,
        mmcs_bit2: None,
        inputs,
        out_ctl: vec![true, false],
        return_all_outputs: false,
        mmcs_index_sum: None,
    }
}

#[test]
fn add_perm_lays_out_inputs_and_outputs() {
    let config = Poseidon2Config::BABY_BEAR_D4_W16;
    let op = NpoTypeId::poseidon2_perm(config);
    let mut circuit = CircuitBuilder::<F>::new();
    circuit.enable_op(op);
    let x = circuit.public_input();
    let (id, outputs) =
        circuit.add_perm(PermConfig::Poseidon2(config), &call(vec![Some(x), None, None, None])).unwrap();
    assert_eq!(id, NonPrimitiveOpId(0));
    assert_eq!(outputs.len(), 4);
    assert!(outputs[0].is_some());
    assert!(outputs[1].is_none());
    let entry = &circuit.ops[0];
    assert_eq!(entry.op_type, op);
    // Four limbs, the index sum and the direction bit.
    assert_eq!(entry.inputs.len(), 6);
    assert_eq!(entry.inputs[0], vec![x]);
    assert_eq!(entry.inputs[1], vec![]);
    assert!(entry.params.new_start);
    assert_eq!(circuit.nodes[1], Expr::Call(id));
}

#[test]
fn add_perm_needs_an_enabled_operation() {
    let config = Poseidon1Config::BABY_BEAR_D4_W16;
    let mut circuit = CircuitBuilder::<F>::new();
    let r = circuit.add_perm(PermConfig::Poseidon1(config), &call(vec![None; 4]));
    assert_eq!(
        r,
        Err(CircuitBuilderError::OpNotAllowed { op: NpoTypeId::poseidon1_perm(config) })
    );
    assert_eq!(circuit.ops.len(), 0);
}

#[test]
fn merkle_rows_need_their_direction_bits() {
    let config = Poseidon2Config::BABY_BEAR_D4_W16;
    let op = NpoTypeId::poseidon2_perm(config);
    let mut circuit = CircuitBuilder::<F>::new();
    circuit.enable_op(op);
    let bit = circuit.define_const(F::one());
    let mut row = call(vec![None; 4]);
    row.merkle_path = true;
    assert_eq!(
        circuit.add_perm(PermConfig::Poseidon2(config), &row),
        Err(CircuitBuilderError::MerkleMissingMmcsBit { op })
    );
    row.mmcs_bit = Some(bit);
    row.mmcs_bit2 = Some(bit);
    assert_eq!(
        circuit.add_perm(PermConfig::Poseidon2(config), &row),
        Err(CircuitBuilderError::UnexpectedMmcsBit2 { op })
    );
    row.mmcs_bit2 = None;
    assert!(circuit.add_perm(PermConfig::Poseidon2(config), &row).is_ok());
    assert_eq!(circuit.ops[0].inputs[5], vec![bit]);

    let wide = Poseidon2Config::KOALA_BEAR_D1_W32;
    let wide_op = NpoTypeId::poseidon2_perm(wide);
    circuit.enable_op(wide_op);
    let mut wide_row = call(vec![None; 32]);
    wide_row.merkle_path = true;
    wide_row.mmcs_bit = Some(bit);
    wide_row.out_ctl = vec![false; 8];
    assert_eq!(
        circuit.add_perm(PermConfig::Poseidon2(wide), &wide_row),
        Err(CircuitBuilderError::MerkleMissingMmcsBit2 { op: wide_op })
    );
}

#[test]
fn base_rows_take_one_element_per_slot() {
    let config = Poseidon2Config::BABY_BEAR_D1_W16;
    let op = NpoTypeId::poseidon2_perm(config);
    let mut circuit = CircuitBuilder::<F>::new();
    let x = circuit.public_input();
    let mut row = PoseidonPermCallBase::<Poseidon2Variant>::default();
    row.config = config;
    row.inputs[3] = Some(x);
    row.out_ctl[1] = true;
    assert_eq!(
        circuit.add_poseidon_perm_base_inner::<Poseidon2Variant>(&row, "out", "capacity", "row"),
        Err(CircuitBuilderError::OpNotAllowed { op })
    );
    circuit.enable_op(op);
    let (id, outputs) = circuit
        .add_poseidon_perm_base_inner::<Poseidon2Variant>(&row, "out", "capacity", "row")
        .unwrap();
    assert_eq!(id, NonPrimitiveOpId(0));
    assert_eq!(circuit.ops[0].inputs.len(), 16);
    assert_eq!(circuit.ops[0].inputs[3], vec![x]);
    assert_eq!(outputs[1], Some(ExprId(2)));
    assert_eq!(circuit.nodes[2], Expr::Output(id, 1, "out"));
    assert_eq!(outputs.iter().filter(|o| o.is_some()).count(), 1);
}

#[test]
fn default_calls_are_idle() {
    let row = PoseidonPermCall::<Poseidon1Variant>::default();
    assert!(!row.new_start);
    assert!(!row.merkle_path);
    assert!(row.mmcs_bit.is_none());
    assert!(!row.return_all_outputs);
    assert_eq!(row.absorb_len, 0);
}
