use p3_recursion::dedup::{AluOpKind, Deduplicator, Op};
use p3_recursion::field::{BabyBear, Field};
use p3_recursion::types::{NonPrimitiveOpId, WitnessId};

type F = BabyBear;

#[test]
fn test_duplicated_op_fusion() {
    let a = WitnessId(0);
    let b = WitnessId(1);
    let c = WitnessId(2);
    let mul_out = WitnessId(3);
    let mul_out2 = WitnessId(5);
    let add_out = WitnessId(4);

    let ops: Vec<Op<F>> =
        vec![Op::mul(a, b, mul_out), Op::mul(a, b, mul_out2), Op::add(mul_out, c, add_out)];

    let (deduped, rewrite) = Deduplicator::with_capacity(ops.len()).run(ops);

    assert_eq!(deduped, vec![Op::mul(a, b, mul_out), Op::add(mul_out, c, add_out)]);
    assert_eq!(rewrite.get(&mul_out2), Some(mul_out));
}

#[test]
fn test_empty_input() {
    let ops: Vec<Op<F>> = vec![];
    let (deduped, rewrite) = Deduplicator::with_capacity(ops.len()).run(ops);
    assert!(deduped.is_empty());
    assert!(rewrite.is_empty());
}

#[test]
fn test_non_alu_ops_pass_through() {
    let ops: Vec<Op<F>> = vec![
        Op::Const { out: WitnessId(0), val: F::one() },
        Op::Const { out: WitnessId(1), val: F::from_u64(2) },
    ];

    let (deduped, rewrite) = Deduplicator::with_capacity(ops.len()).run(ops.clone());
    assert_eq!(deduped, ops);
    assert!(rewrite.is_empty());
}

#[test]
fn late_duplicate_rewrites_an_earlier_public_output() {
    // The last operation repeats the second, so its witness, which the first row reads, is replaced.
    let ops: Vec<Op<F>> = vec![
        Op::Public { out: WitnessId(4), public_pos: 2 },
        Op::add(WitnessId(0), WitnessId(1), WitnessId(3)),
        Op::add(WitnessId(1), WitnessId(0), WitnessId(4)),
    ];
    let (deduped, rewrite) = Deduplicator::with_capacity(ops.len()).run(ops);
    assert_eq!(
        deduped,
        vec![
            Op::Public { out: WitnessId(3), public_pos: 2 },
            Op::add(WitnessId(0), WitnessId(1), WitnessId(3)),
        ]
    );
    assert_eq!(rewrite.get(&WitnessId(4)), Some(WitnessId(3)));
    assert_eq!(WitnessId(4).resolve(&rewrite), WitnessId(3));
    assert_eq!(WitnessId(1).resolve(&rewrite), WitnessId(1));
}

#[test]
fn test_commutative_dedup_add() {
    let (a, b) = (WitnessId(0), WitnessId(1));
    let ops: Vec<Op<F>> = vec![
        Op::add(a, b, WitnessId(2)),
        Op::add(b, a, WitnessId(3)), // same as above (commutative)
    ];

    let (deduped, rewrite) = Deduplicator::with_capacity(ops.len()).run(ops);
    assert_eq!(deduped, vec![Op::add(a, b, WitnessId(2))]);
    assert_eq!(rewrite.get(&WitnessId(3)), Some(WitnessId(2)));
}

#[test]
fn test_commutative_dedup_mul() {
    let (a, b) = (WitnessId(0), WitnessId(1));
    let ops: Vec<Op<F>> = vec![Op::mul(a, b, WitnessId(2)), Op::mul(b, a, WitnessId(3))];

    let (deduped, rewrite) = Deduplicator::with_capacity(ops.len()).run(ops);
    assert_eq!(deduped, vec![Op::mul(a, b, WitnessId(2))]);
    assert_eq!(rewrite.get(&WitnessId(3)), Some(WitnessId(2)));
}

#[test]
fn test_chained_rewrite() {
    // op0: a + b = c
    // op1: a + b = d  (dup of op0, d -> c)
    // op2: d + a = e  (d rewrites to c, so this is c + a = e)
    // op3: c + a = f  (dup of op2 after rewrite, f -> e)
    let (a, b) = (WitnessId(0), WitnessId(1));
    let ops: Vec<Op<F>> = vec![
        Op::add(a, b, WitnessId(2)),
        Op::add(a, b, WitnessId(3)),
        Op::add(WitnessId(3), a, WitnessId(4)),
        Op::add(WitnessId(2), a, WitnessId(5)),
    ];

    let (deduped, rewrite) = Deduplicator::with_capacity(ops.len()).run(ops);
    assert_eq!(
        deduped,
        vec![Op::add(a, b, WitnessId(2)), Op::add(WitnessId(2), a, WitnessId(4))]
    );
    assert_eq!(rewrite.get(&WitnessId(3)), Some(WitnessId(2)));
    assert_eq!(rewrite.get(&WitnessId(5)), Some(WitnessId(4)));
}

#[test]
fn test_distinct_ops_not_deduped() {
    let ops: Vec<Op<F>> = vec![
        Op::add(WitnessId(0), WitnessId(1), WitnessId(2)),
        Op::mul(WitnessId(0), WitnessId(1), WitnessId(3)),
    ];

    let (deduped, rewrite) = Deduplicator::with_capacity(ops.len()).run(ops.clone());
    assert_eq!(deduped, ops);
    assert!(rewrite.is_empty());
}

#[test]
fn horner_acc_distinct_accumulators_not_deduped() {
    let (a, b, c) = (WitnessId(1), WitnessId(2), WitnessId(3));
    let ops: Vec<Op<F>> = vec![
        Op::horner_acc(a, b, c, WitnessId(20), WitnessId(10)),
        Op::horner_acc(a, b, c, WitnessId(21), WitnessId(11)),
    ];

    let (deduped, rewrite) = Deduplicator::with_capacity(ops.len()).run(ops.clone());
    assert_eq!(deduped, ops, "distinct accumulators must not be deduplicated");
    assert!(rewrite.is_empty());
}

#[test]
fn horner_acc_same_accumulator_deduped() {
    let (a, b, c, acc) = (WitnessId(1), WitnessId(2), WitnessId(3), WitnessId(10));
    let ops: Vec<Op<F>> = vec![
        Op::horner_acc(a, b, c, WitnessId(20), acc),
        Op::horner_acc(a, b, c, WitnessId(21), acc),
    ];

    let (deduped, rewrite) = Deduplicator::with_capacity(ops.len()).run(ops);
    assert_eq!(deduped.len(), 1, "identical Horner steps should dedup");
    assert_eq!(rewrite.get(&WitnessId(21)), Some(WitnessId(20)));
}

#[test]
fn every_slot_of_other_operations_is_rewritten() {
    let ops: Vec<Op<F>> = vec![
        Op::mul(WitnessId(0), WitnessId(1), WitnessId(2)),
        Op::mul(WitnessId(0), WitnessId(1), WitnessId(3)),
        Op::Hint { inputs: vec![WitnessId(3)], outputs: vec![WitnessId(6)] },
        Op::NonPrimitive {
            op_id: NonPrimitiveOpId(0),
            inputs: vec![vec![], vec![WitnessId(3)]],
            outputs: vec![vec![WitnessId(7)]],
        },
        Op::Alu {
            kind: AluOpKind::MulAdd,
            a: WitnessId(3),
            b: WitnessId(1),
            c: Some(WitnessId(3)),
            out: WitnessId(8),
            intermediate_out: None,
        },
    ];
    let (deduped, _) = Deduplicator::with_capacity(ops.len()).run(ops);
    assert_eq!(deduped.len(), 4);
    assert_eq!(
        deduped[1],
        Op::Hint { inputs: vec![WitnessId(2)], outputs: vec![WitnessId(6)] }
    );
    assert_eq!(
        deduped[2],
        Op::NonPrimitive {
            op_id: NonPrimitiveOpId(0),
            inputs: vec![vec![], vec![WitnessId(2)]],
            outputs: vec![vec![WitnessId(7)]],
        }
    );
    assert_eq!(
        deduped[3],
        Op::Alu {
            kind: AluOpKind::MulAdd,
            a: WitnessId(2),
            b: WitnessId(1),
            c: Some(WitnessId(2)),
            out: WitnessId(8),
            intermediate_out: None,
        }
    );
}

#[test]
fn a_second_pass_finds_nothing_to_do() {
    let ops: Vec<Op<F>> = vec![
        Op::mul(WitnessId(0), WitnessId(1), WitnessId(2)),
        Op::mul(WitnessId(1), WitnessId(0), WitnessId(3)),
        Op::add(WitnessId(2), WitnessId(1), WitnessId(4)),
        Op::add(WitnessId(1), WitnessId(3), WitnessId(5)),
        Op::Public { out: WitnessId(5), public_pos: 0 },
    ];
    let (once, rewrite) = Deduplicator::with_capacity(1).run(ops);
    assert_eq!(once.len(), 3);
    assert_eq!(rewrite.get(&WitnessId(5)), Some(WitnessId(4)));
    for capacity in [0usize, 7] {
        let (twice, nothing) = Deduplicator::with_capacity(capacity).run(once.clone());
        assert_eq!(twice, once);
        assert!(nothing.is_empty());
    }
}
