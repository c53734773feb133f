use p3_baby_bear::{default_babybear_poseidon2_16, BabyBear as BF, Poseidon2BabyBear};
use p3_challenger::{
    CanObserve, CanSample, CanSampleUniformBits, DuplexChallenger, FieldChallenger,
};
use p3_commit::MultilinearPcs;
use p3_dft::Radix2DFTSmallBatch;
use p3_field::extension::BinomialExtensionField;
use p3_field::{BasedVectorSpace, Field as NativeField, PrimeCharacteristicRing, PrimeField64};
use p3_matrix::dense::RowMajorMatrix;
use p3_merkle_tree::MerkleTreeMmcs;
use p3_multilinear_util::poly::Poly;
use p3_recursion::circuit::CircuitBuilder;
use p3_recursion::config::{PermConfig, Poseidon2Config};
use p3_recursion::extension::{BabyBearExt4, ExtensionField};
use p3_recursion::field::{BabyBear, Field};
use p3_recursion::merkle::{Dimensions, PrunedMerklePaths};
use p3_recursion::path_checks::DeferredPaths;
use p3_recursion::poseidon2_hash::{BabyBearPoseidon2Compress, BabyBearPoseidon2Hash};
use p3_recursion::transcript::InputChallenger;
use p3_recursion::types::Target;
use p3_recursion::whir_gadgets::ConstraintWeightData;
use p3_recursion::whir_params::{VariableOrder, WhirRoundParams, WhirVerifierParams};
use p3_recursion::whir_sumcheck::{
    sumcheck_round_claim_update, verify_sumcheck_rounds, SumcheckTargets,
};
use p3_recursion::whir_verifier::{
    verify_whir_circuit, QueryOpeningTargets, WhirProofTargets, WhirRoundTargets,
};
use p3_recursion::whir_witness::{
    expand_whir_mmcs_paths, QueryOpenings as Openings, SharedRows, WhirProof,
};
use p3_sumcheck::constraints::Statements;
use p3_sumcheck::layout::{Layout, PrefixProver, Table, Verifier};
use p3_sumcheck::{OpeningBatch, OpeningProtocol, TableShape, TableSpec};
use p3_symmetric::{PaddingFreeSponge, TruncatedPermutation};
use p3_util::log2_strict_usize;
use p3_whir::fiat_shamir::domain_separator::DomainSeparator;
use p3_whir::parameters::{FoldingFactor, ProtocolParameters, SecurityAssumption, WhirConfig};
use p3_whir::pcs::proof::QueryOpenings;
use p3_whir::pcs::prover::WhirProver;
use rand::rngs::SmallRng;
use rand::SeedableRng;

type EF = BinomialExtensionField<BF, 4>;
type Perm = Poseidon2BabyBear<16>;
type MyHash = PaddingFreeSponge<Perm, 16, 8, 8>;
type MyCompress = TruncatedPermutation<Perm, 2, 8, 16>;
type MyChallenger = DuplexChallenger<BF, Perm, 16, 8>;
type PackedBF = <BF as NativeField>::Packing;
type MyMmcs = MerkleTreeMmcs<PackedBF, PackedBF, MyHash, MyCompress, 2, 8>;
type MyDft = Radix2DFTSmallBatch<BF>;
type TestPcs = WhirProver<EF, BF, MyDft, MyMmcs, MyChallenger, PrefixProver<BF, EF>>;
type Config = WhirConfig<EF, BF, MyChallenger>;
type E = BabyBearExt4;

fn make_perm() -> Perm {
    let mut rng = SmallRng::seed_from_u64(1);
    Perm::new_from_rng_128(&mut rng)
}

fn bb(x: &BF) -> BabyBear {
    BabyBear::from_u64(x.as_canonical_u64())
}

fn ext(x: &EF) -> E {
    let c: &[BF] = x.as_basis_coefficients_slice();
    E::from_coefficients(&c.iter().map(bb).collect())
}

fn base(x: &BF) -> E {
    E::from_base(bb(x))
}

fn one_poly_spec(num_variables: usize) -> TableSpec {
    TableSpec::new(TableShape::new(num_variables, 1), vec![OpeningBatch::new(vec![0], vec![])])
}

fn one_poly_table(poly: Poly<BF>, num_variables: usize) -> Table<BF> {
    Table::new(RowMajorMatrix::new(poly.into_evals(), 1usize << num_variables))
}

/// The distinct query positions that the native verifier draws.
fn sample_stir_indices(
    vc: &mut MyChallenger,
    domain_size: usize,
    folding_factor: usize,
    num_queries: usize,
) -> Vec<usize> {
    let folded_domain_size = domain_size >> folding_factor;
    let k = log2_strict_usize(folded_domain_size);
    let target = num_queries.min(folded_domain_size);
    let mut indices: Vec<usize> = Vec::new();
    while indices.len() < target {
        let q = vc.sample_uniform_bits::<true>(k).expect("RESAMPLE=true never errors");
        if !indices.contains(&q) {
            indices.push(q);
        }
    }
    indices.sort_unstable();
    indices
}

/// A proof for the circuit: its values, the challenges in the order in which they are drawn, and
/// what the circuit is built with.
struct Fixture {
    params: WhirVerifierParams<BabyBear>,
    initial_points: Vec<Vec<E>>,
    initial_gamma: E,
    initial_claim: E,
    initial_variables: usize,
    initial_sumcheck: Vec<[E; 2]>,
    round_ood: Vec<E>,
    round_pow: E,
    round_rows: Vec<Vec<E>>,
    round_sumcheck: Vec<[E; 2]>,
    final_poly: Vec<E>,
    final_pow: E,
    final_rows: Vec<Vec<E>>,
    final_sumcheck: Option<Vec<[E; 2]>>,
    draws: Vec<E>,
    round_indices: Vec<usize>,
    final_indices: Vec<usize>,
    openings: WhirProof<BabyBear, E, 8>,
}

fn pairs(polys: &[[EF; 2]]) -> Vec<[E; 2]> {
    polys.iter().map(|[a, b]| [ext(a), ext(b)]).collect()
}

fn rows<P>(opening: &QueryOpenings<BF, EF, P>) -> Vec<Vec<E>> {
    match opening {
        QueryOpenings::Base(o) => {
            o.rows.iter().map(|row| row.iter().map(base).collect()).collect()
        }
        QueryOpenings::Extension(o) => {
            o.rows.iter().map(|row| row.iter().map(ext).collect()).collect()
        }
    }
}

fn pruned(p: &p3_merkle_tree::PrunedMerklePaths<BF, 8>) -> PrunedMerklePaths<BabyBear, 8> {
    PrunedMerklePaths {
        sibling_hashes: p.sibling_hashes.iter().map(|d| d.map(|x| bb(&x))).collect(),
    }
}

fn openings(
    o: &QueryOpenings<BF, EF, p3_merkle_tree::PrunedMerklePaths<BF, 8>>,
) -> Openings<BabyBear, E, 8> {
    match o {
        QueryOpenings::Base(o) => Openings::Base(SharedRows {
            rows: o.rows.iter().map(|row| row.iter().map(bb).collect()).collect(),
            pruned: pruned(&o.proof),
        }),
        QueryOpenings::Extension(o) => Openings::Extension(SharedRows {
            rows: o.rows.iter().map(|row| row.iter().map(ext).collect()).collect(),
            pruned: pruned(&o.proof),
        }),
    }
}

fn bits(index: usize, count: usize) -> Vec<E> {
    (0..count).map(|i| E::from_u64((index as u64 >> i) & 1)).collect()
}

fn fixture(perm: Perm) -> Fixture {
    const NUM_VARIABLES: usize = 12;
    const FOLDING: usize = 4;

    let make_challenger = || MyChallenger::new(perm.clone());
    let hash = MyHash::new(perm.clone());
    let compress = MyCompress::new(perm.clone());
    let mmcs = MyMmcs::new(hash, compress, 0);
    let dft = MyDft::default();

    let spec = one_poly_spec(NUM_VARIABLES);
    let protocol = OpeningProtocol::new(vec![spec]).pad_to_min_num_variables(FOLDING);
    let poly = Poly::<BF>::rand(&mut SmallRng::seed_from_u64(42), NUM_VARIABLES);
    let table = one_poly_table(poly, NUM_VARIABLES);
    let witness = PrefixProver::<BF, EF>::new_witness(vec![table], FOLDING);

    let whir_params = ProtocolParameters {
        security_level: 32,
        pow_bits: 0,
        round_log_inv_rates: vec![4],
        folding_factor: FoldingFactor::Constant(FOLDING),
        soundness_type: SecurityAssumption::CapacityBound,
        starting_log_inv_rate: 1,
    };
    let config = Config::new(NUM_VARIABLES, whir_params).unwrap();
    let pcs = TestPcs::new(config.clone(), dft, mmcs);

    let (commitment, opened) = {
        let mut ch = make_challenger();
        let mut ds = DomainSeparator::new(vec![]);
        pcs.add_domain_separator::<8>(&mut ds);
        ds.observe_domain_separator(&mut ch);
        let (commitment, prover_data) =
            <TestPcs as MultilinearPcs<EF, MyChallenger>>::commit(&pcs, witness, &mut ch);
        let opened = <TestPcs as MultilinearPcs<EF, MyChallenger>>::open(
            &pcs,
            prover_data,
            protocol.clone(),
            &mut ch,
        );
        (commitment, opened)
    };

    let (initial_constraint, initial_claimed_eval, alpha, mut vc) = {
        let mut ch = make_challenger();
        let mut ds = DomainSeparator::new(vec![]);
        pcs.add_domain_separator::<8>(&mut ds);
        ds.observe_domain_separator(&mut ch);
        ch.observe(commitment);
        let mut lv = Verifier::<BF, EF>::new(
            &protocol.table_shapes(),
            PrefixProver::<BF, EF>::strategy(),
        );
        for &eval in &opened.whir.initial_ood_answers {
            lv.add_virtual_eval(eval, &mut ch);
        }
        for ((table_idx, polys), evals) in protocol.iter_openings().zip(&opened.evals) {
            lv.add_claim(table_idx, polys, evals, &mut ch)
                .expect("proof evaluations must match the opening schedule");
        }
        let alpha: EF = ch.sample_algebra_element();
        let constraint = lv.constraint(alpha);
        let mut claimed_eval = EF::ZERO;
        constraint.combine_evals(&mut claimed_eval);
        (constraint, claimed_eval, alpha, ch)
    };

    let mut draws: Vec<E> = Vec::new();
    let rp0 = &config.round_parameters[0];
    let last = config.final_round_config();

    for &[c0, cinf] in opened.whir.initial_sumcheck.polynomial_evaluations() {
        vc.observe_algebra_element(c0);
        vc.observe_algebra_element(cinf);
        let r: EF = vc.sample_algebra_element();
        draws.push(ext(&r));
    }
    let round = &opened.whir.rounds[0];
    let cap = round.commitment.as_ref().expect("round commitment");
    vc.observe(cap.clone());
    for &answer in &round.ood_answers {
        let z: EF = vc.sample_algebra_element();
        draws.push(ext(&z));
        vc.observe_algebra_element(answer);
    }
    let checkpoint: BF = CanSample::sample(&mut vc);
    draws.push(base(&checkpoint));
    let round_indices =
        sample_stir_indices(&mut vc, rp0.domain_size, rp0.folding_factor, rp0.num_queries);
    let round_bits = log2_strict_usize(rp0.domain_size >> rp0.folding_factor);
    for &index in &round_indices {
        draws.extend(bits(index, round_bits));
    }
    let gamma: EF = vc.sample_algebra_element();
    draws.push(ext(&gamma));
    for &[c0, cinf] in round.sumcheck.polynomial_evaluations() {
        vc.observe_algebra_element(c0);
        vc.observe_algebra_element(cinf);
        let r: EF = vc.sample_algebra_element();
        draws.push(ext(&r));
    }
    let final_poly = opened.whir.final_poly.as_ref().expect("final_poly");
    vc.observe_algebra_slice(final_poly.as_slice());
    let final_indices = sample_stir_indices(
        &mut vc,
        last.domain_size,
        config.final_sumcheck_rounds,
        config.final_queries,
    );
    let final_bits = log2_strict_usize(last.domain_size >> config.final_sumcheck_rounds);
    for &index in &final_indices {
        draws.extend(bits(index, final_bits));
    }
    if let Some(final_sc) = &opened.whir.final_sumcheck {
        for &[c0, cinf] in final_sc.polynomial_evaluations() {
            vc.observe_algebra_element(c0);
            vc.observe_algebra_element(cinf);
            let r: EF = vc.sample_algebra_element();
            draws.push(ext(&r));
        }
    }

    let initial_points = initial_constraint
        .statements()
        .iter()
        .flat_map(|statements| match statements {
            Statements::Eq(statement) => statement
                .iter()
                .map(|(point, _)| point.as_slice().iter().map(ext).collect())
                .collect::<Vec<Vec<E>>>(),
            Statements::Next(_) | Statements::Select(_) => {
                panic!("initial WHIR fixture must contain equality statements only")
            }
        })
        .collect();
    Fixture {
        params: WhirVerifierParams {
            variable_order: VariableOrder::Prefix,
            starting_folding_pow_bits: config.starting_folding_pow_bits,
            round_params: vec![WhirRoundParams {
                num_variables: rp0.num_variables,
                folding_factor: rp0.folding_factor,
                folding_pow_bits: rp0.folding_pow_bits,
                domain_size: rp0.domain_size,
                folded_domain_gen: bb(&rp0.folded_domain_gen),
                num_queries: round_indices.len(),
                ood_samples: rp0.ood_samples,
                pow_bits: rp0.pow_bits,
            }],
            final_queries: final_indices.len(),
            final_pow_bits: config.final_pow_bits,
            final_domain_size: last.domain_size,
            final_folded_domain_gen: bb(&last.folded_domain_gen),
            final_sumcheck_rounds: config.final_sumcheck_rounds,
            final_folding_pow_bits: config.final_folding_pow_bits,
            permutation_config: None,
        },
        initial_points,
        initial_gamma: ext(&alpha),
        initial_claim: ext(&initial_claimed_eval),
        initial_variables: initial_constraint.num_variables(),
        initial_sumcheck: pairs(opened.whir.initial_sumcheck.polynomial_evaluations()),
        round_ood: round.ood_answers.iter().map(ext).collect(),
        round_pow: base(&round.pow_witness),
        round_rows: rows(&round.openings),
        round_sumcheck: pairs(round.sumcheck.polynomial_evaluations()),
        final_poly: final_poly.as_slice().iter().map(ext).collect(),
        final_pow: base(&opened.whir.final_pow_witness),
        final_rows: rows(&opened.whir.final_openings),
        final_sumcheck: opened
            .whir
            .final_sumcheck
            .as_ref()
            .map(|s| pairs(s.polynomial_evaluations())),
        draws,
        round_indices,
        final_indices,
        openings: WhirProof {
            rounds: vec![openings(&round.openings)],
            final_openings: openings(&opened.whir.final_openings),
        },
    }
}

struct Built {
    circuit: CircuitBuilder<E>,
    paths: DeferredPaths,
    values: Vec<E>,
}

/// A public input for a value.
fn input(circuit: &mut CircuitBuilder<E>, values: &mut Vec<E>, x: E) -> Target {
    values.push(x);
    circuit.public_input()
}

fn inputs(circuit: &mut CircuitBuilder<E>, values: &mut Vec<E>, xs: &[E]) -> Vec<Target> {
    xs.iter().map(|&x| input(circuit, values, x)).collect()
}

fn sumcheck(
    circuit: &mut CircuitBuilder<E>,
    values: &mut Vec<E>,
    polys: &[[E; 2]],
) -> SumcheckTargets {
    SumcheckTargets {
        round_polys: polys
            .iter()
            .map(|[a, b]| [input(circuit, values, *a), input(circuit, values, *b)])
            .collect(),
        pow_witnesses: vec![],
    }
}

fn build(f: &Fixture) -> Built {
    let mut circuit = CircuitBuilder::<E>::new();
    let c = &mut circuit;
    let mut values: Vec<E> = Vec::new();
    let v = &mut values;
    let initial_sumcheck = sumcheck(c, v, &f.initial_sumcheck);
    let cap = vec![vec![input(c, v, E::zero())]];
    let ood_answers = inputs(c, v, &f.round_ood);
    let pow_witness = input(c, v, f.round_pow);
    let queries = f
        .round_rows
        .iter()
        .map(|row| QueryOpeningTargets::Base { leaf_values: inputs(c, v, row) })
        .collect();
    let round_sumcheck = sumcheck(c, v, &f.round_sumcheck);
    let final_poly = inputs(c, v, &f.final_poly);
    let final_pow_witness = input(c, v, f.final_pow);
    let final_queries = f
        .final_rows
        .iter()
        .map(|row| QueryOpeningTargets::Extension { leaf_values: inputs(c, v, row) })
        .collect();
    let final_sumcheck = f.final_sumcheck.as_ref().map(|polys| sumcheck(c, v, polys));
    let pieces = WhirProofTargets {
        initial_sumcheck,
        rounds: vec![WhirRoundTargets {
            commitment_cap: cap,
            ood_answers,
            pow_witness,
            queries,
            sumcheck: round_sumcheck,
        }],
        final_poly,
        final_pow_witness,
        final_queries,
        final_sumcheck,
    };
    let initial_cap = vec![vec![c.define_const(E::zero())]];
    let constraint = ConstraintWeightData {
        num_variables: f.initial_variables,
        eq_points: f
            .initial_points
            .iter()
            .map(|point| point.iter().map(|&x| c.define_const(x)).collect())
            .collect(),
        sel_scalars: vec![],
        gamma: c.define_const(f.initial_gamma),
    };
    let claim = c.define_const(f.initial_claim);
    let mut challenger = InputChallenger::new();
    let mut paths = DeferredPaths::new();
    let ops = verify_whir_circuit::<BabyBear, E, InputChallenger, DeferredPaths>(
        c,
        &mut challenger,
        &mut paths,
        &f.params,
        &pieces,
        &initial_cap,
        constraint,
        claim,
    )
    .expect("verify_whir_circuit failed");
    assert!(ops.is_empty());
    values.extend(f.draws.iter().copied());
    assert_eq!(circuit.public_inputs, values.len(), "every challenge is drawn once");
    Built { circuit, paths, values }
}

/// All connected expressions have equal values.
fn satisfied(circuit: &CircuitBuilder<E>, values: &[E]) -> bool {
    let all = circuit.evaluate(values).unwrap();
    circuit.connections.iter().all(|(a, b)| all[a.0] == all[b.0])
}

#[test]
fn test_verify_whir_circuit_arithmetic_only() {
    let built = build(&fixture(make_perm()));
    assert!(!built.circuit.connections.is_empty());
    assert!(built.paths.kept.is_empty());
    assert!(satisfied(&built.circuit, &built.values));
}

#[test]
fn test_verify_whir_circuit_tamper_rejects() {
    let mut built = build(&fixture(make_perm()));
    // Corrupt the first entry of the initial sumcheck round polynomial.
    // This value feeds directly into sumcheck_round_claim_update, so any corruption
    // propagates through the claimed-eval accumulator and breaks the final identity check.
    built.values[0] = built.values[0].add(E::one());
    assert!(
        !satisfied(&built.circuit, &built.values),
        "tampered proof must be rejected by the circuit"
    );
}

#[test]
fn every_kind_of_value_is_bound() {
    let built = build(&fixture(make_perm()));
    // The second message of a round, an opened row, the final polynomial and a challenge.
    let f = fixture(make_perm());
    let sumchecks = 2 * f.initial_sumcheck.len();
    let first_row = sumchecks + 1 + f.round_ood.len() + 1;
    let final_poly =
        first_row + f.round_rows.iter().map(|r| r.len()).sum::<usize>() + 2 * f.round_sumcheck.len();
    let first_draw = built.values.len() - f.draws.len();
    for at in [1, sumchecks + 1, first_row, final_poly, first_draw] {
        let mut values = built.values.clone();
        values[at] = values[at].add(E::one());
        assert!(!satisfied(&built.circuit, &values), "value {at} is not bound");
    }
}

#[test]
fn openings_are_handed_over_with_their_geometry() {
    let mut f = fixture(default_babybear_poseidon2_16());
    f.params.permutation_config =
        Some(PermConfig::Poseidon2(Poseidon2Config::BABY_BEAR_D4_W16));
    let built = build(&f);
    let (n, m) = (f.round_indices.len(), f.final_indices.len());
    assert_eq!(built.paths.kept.len(), n + m);
    let all = built.circuit.evaluate(&built.values).unwrap();
    for (q, path) in built.paths.kept.iter().enumerate() {
        assert_eq!(path.extension, q >= n);
        let index: usize =
            path.index_bits.iter().enumerate().map(|(i, b)| {
                if all[b.0] == E::one() { 1usize << i } else { 0 }
            }).sum();
        let (expected, row, height) = if q < n {
            (f.round_indices[q], &f.round_rows[q], f.params.round_params[0].domain_size >> 4)
        } else {
            let height = f.params.final_domain_size >> f.params.final_sumcheck_rounds;
            (f.final_indices[q - n], &f.final_rows[q - n], height)
        };
        assert_eq!(index, expected);
        let leaf: Vec<E> = path.leaf.iter().map(|t| all[t.0]).collect();
        assert_eq!(&leaf, row);
        assert_eq!(path.dimensions, vec![Dimensions { width: row.len(), height }]);
    }

    // The shared proofs of the same queries expand to one path for each of them.
    let expanded = expand_whir_mmcs_paths::<
        BabyBear,
        E,
        BabyBearPoseidon2Hash,
        BabyBearPoseidon2Compress,
        2,
        8,
    >(
        &f.openings,
        &f.params,
        &[f.round_indices.clone()],
        &f.final_indices,
        &BabyBearPoseidon2Hash::new(),
        &BabyBearPoseidon2Compress::new(),
        0,
    )
    .unwrap();
    assert_eq!(expanded.paths.len(), n + m);
}

#[test]
fn a_round_splits_its_claim() {
    let mut circuit = CircuitBuilder::<E>::new();
    let t: Vec<Target> = (0..4).map(|_| circuit.public_input()).collect();
    let next = sumcheck_round_claim_update(&mut circuit, t[0], t[1], t[2], t[3]);
    let at = |r: u64| {
        let values = [100, 30, 7, r].map(E::from_u64);
        circuit.evaluate(&values).unwrap()[next.0]
    };
    assert_eq!(at(0), E::from_u64(30));
    assert_eq!(at(1), E::from_u64(70));
    // h(2) = 30·(1 - 2) + 70·2 + 7·2·1
    assert_eq!(at(2), E::from_u64(124));
}

#[test]
fn sumcheck_rounds_chain_their_claims() {
    let mut circuit = CircuitBuilder::<E>::new();
    let t: Vec<Target> = (0..5).map(|_| circuit.public_input()).collect();
    let data = SumcheckTargets {
        round_polys: vec![[t[1], t[2]], [t[3], t[4]]],
        pow_witnesses: vec![],
    };
    let mut challenger = InputChallenger::new();
    let (claim, challenges) =
        verify_sumcheck_rounds(&mut circuit, &mut challenger, t[0], &data, 0).unwrap();
    assert_eq!(challenges.len(), 2);
    let values = [100, 30, 7, 50, 1, 2, 3].map(E::from_u64);
    let all = circuit.evaluate(&values).unwrap();
    // 124 after the first round, then 50·(1 - 3) + 74·3 + 1·3·2.
    assert_eq!(all[claim.0], E::from_u64(128));
}
