//! Sizes of permutations, columns of rows and counts of random openings.

use vstd::prelude::*;

use crate::config::{PermConfig, Poseidon1Config, Poseidon2Config, PoseidonConfigApi, Sizes};
use crate::generation;
use crate::generation::Round;
use crate::layout;
use crate::layout::{PoseidonPrepInputLimb, PoseidonPrepOutputLimb, PoseidonPreprocessedRow};
use crate::seqs;

verus! {

/// The number of base elements of the state, of the capacity, and of a limb.
pub open spec fn elements(s: Sizes) -> (nat, nat, nat) {
    (s.width_ext * s.d, ((s.width_ext - s.rate_ext) * s.d) as nat, s.d)
}

/// Every configuration has the state and the limbs that its name says. Its capacity holds a digest:
/// eight elements of a field of 31 bits, four elements of Goldilocks, and half the state where the
/// state has twelve elements.
pub proof fn law_configurations(c: PermConfig)
    ensures
        elements(c.sizes()) == match c {
            PermConfig::Poseidon1(p) => match p {
                Poseidon1Config::BabyBearD1W16 | Poseidon1Config::KoalaBearD1W16 => (16nat, 8nat, 1nat),
                Poseidon1Config::BabyBearD4W16 | Poseidon1Config::KoalaBearD4W16 => (16nat, 8nat, 4nat),
                Poseidon1Config::BabyBearD4W24 | Poseidon1Config::KoalaBearD4W24 => (24nat, 8nat, 4nat),
                Poseidon1Config::GoldilocksD2W8 => (8nat, 4nat, 2nat),
            },
            PermConfig::Poseidon2(p) => match p {
                Poseidon2Config::BabyBearD1W16 | Poseidon2Config::KoalaBearD1W16 => (16nat, 8nat, 1nat),
                Poseidon2Config::BabyBearD4W16 | Poseidon2Config::KoalaBearD4W16 => (16nat, 8nat, 4nat),
                Poseidon2Config::BabyBearD4W24 | Poseidon2Config::KoalaBearD4W24 => (24nat, 8nat, 4nat),
                Poseidon2Config::BabyBearD4W32 | Poseidon2Config::KoalaBearD4W32 => (32nat, 8nat, 4nat),
                Poseidon2Config::KoalaBearD1W32 => (32nat, 8nat, 1nat),
                Poseidon2Config::GoldilocksD1W12 => (12nat, 6nat, 1nat),
                Poseidon2Config::GoldilocksD2W8 => (8nat, 4nat, 2nat),
                Poseidon2Config::GoldilocksD2W16 => (16nat, 4nat, 2nat),
            },
        },
{
}

proof fn lemma_input_columns<T>(limbs: Seq<PoseidonPrepInputLimb<T>>, n: nat)
    requires
        n <= limbs.len(),
    ensures
        layout::input_columns(limbs, n).len() == 4 * n,
        forall|i: int|
            0 <= i < n ==> {
                &&& layout::input_columns(limbs, n)[4 * i] == (#[trigger] limbs[i]).idx
                &&& layout::input_columns(limbs, n)[4 * i + 1] == limbs[i].in_ctl
                &&& layout::input_columns(limbs, n)[4 * i + 2] == limbs[i].normal_chain_sel
                &&& layout::input_columns(limbs, n)[4 * i + 3] == limbs[i].merkle_chain_sel
            },
    decreases n,
{
    if n > 0 {
        lemma_input_columns(limbs, (n - 1) as nat);
    }
}

proof fn lemma_output_columns<T>(limbs: Seq<PoseidonPrepOutputLimb<T>>, n: nat)
    requires
        n <= limbs.len(),
    ensures
        layout::output_columns(limbs, n).len() == 2 * n,
        forall|i: int|
            0 <= i < n ==> {
                &&& layout::output_columns(limbs, n)[2 * i] == (#[trigger] limbs[i]).idx
                &&& layout::output_columns(limbs, n)[2 * i + 1] == limbs[i].out_ctl
            },
    decreases n,
{
    if n > 0 {
        lemma_output_columns(limbs, (n - 1) as nat);
    }
}

/// The columns of a row, one by one: four for each input limb, two for each output limb, and four
/// flags.
pub proof fn law_row_columns<const INPUT_LIMBS: usize, const OUTPUT_LIMBS: usize, T: Copy>(
    row: PoseidonPreprocessedRow<INPUT_LIMBS, OUTPUT_LIMBS, T>,
)
    ensures
        ({
            let columns = row.columns();
            let inputs = row.input_limbs@;
            let outputs = row.output_limbs@;
            let mid = 4 * INPUT_LIMBS as int;
            let end = mid + 2 * OUTPUT_LIMBS;
            &&& columns.len() == end + 4
            &&& forall|i: int|
                0 <= i < INPUT_LIMBS ==> {
                    &&& columns[4 * i] == (#[trigger] inputs[i]).idx
                    &&& columns[4 * i + 1] == inputs[i].in_ctl
                    &&& columns[4 * i + 2] == inputs[i].normal_chain_sel
                    &&& columns[4 * i + 3] == inputs[i].merkle_chain_sel
                }
            &&& forall|i: int|
                0 <= i < OUTPUT_LIMBS ==> {
                    &&& columns[mid + 2 * i] == (#[trigger] outputs[i]).idx
                    &&& columns[mid + 2 * i + 1] == outputs[i].out_ctl
                }
            &&& columns[end] == row.mmcs_index_sum_ctl_idx
            &&& columns[end + 1] == row.mmcs_merkle_flag
            &&& columns[end + 2] == row.new_start
            &&& columns[end + 3] == row.merkle_path
        }),
{
    lemma_input_columns(row.input_limbs@, INPUT_LIMBS as nat);
    lemma_output_columns(row.output_limbs@, OUTPUT_LIMBS as nat);
    let first = layout::input_columns(row.input_limbs@, INPUT_LIMBS as nat);
    let columns = row.columns();
    let inputs = row.input_limbs@;
    assert forall|i: int| 0 <= i < INPUT_LIMBS implies {
        &&& columns[4 * i] == (#[trigger] inputs[i]).idx
        &&& columns[4 * i + 1] == inputs[i].in_ctl
        &&& columns[4 * i + 2] == inputs[i].normal_chain_sel
        &&& columns[4 * i + 3] == inputs[i].merkle_chain_sel
    } by {
        assert(columns[4 * i] == first[4 * i]);
        assert(columns[4 * i + 1] == first[4 * i + 1]);
        assert(columns[4 * i + 2] == first[4 * i + 2]);
        assert(columns[4 * i + 3] == first[4 * i + 3]);
    }
}

/// Rows with the same columns are the same: what is read from written columns is what was written.
pub proof fn law_columns_determine_row<
    const INPUT_LIMBS: usize,
    const OUTPUT_LIMBS: usize,
    T: Copy,
>(
    a: PoseidonPreprocessedRow<INPUT_LIMBS, OUTPUT_LIMBS, T>,
    b: PoseidonPreprocessedRow<INPUT_LIMBS, OUTPUT_LIMBS, T>,
)
    requires
        a.columns() == b.columns(),
    ensures
        a.input_limbs@ == b.input_limbs@,
        a.output_limbs@ == b.output_limbs@,
        a.mmcs_index_sum_ctl_idx == b.mmcs_index_sum_ctl_idx,
        a.mmcs_merkle_flag == b.mmcs_merkle_flag,
        a.new_start == b.new_start,
        a.merkle_path == b.merkle_path,
{
    law_row_columns(a);
    law_row_columns(b);
    assert forall|i: int| 0 <= i < INPUT_LIMBS implies a.input_limbs@[i] == b.input_limbs@[i] by {
        let (x, y) = (a.input_limbs@[i], b.input_limbs@[i]);
        assert(x.idx == y.idx && x.in_ctl == y.in_ctl);
    }
    assert forall|i: int| 0 <= i < OUTPUT_LIMBS implies a.output_limbs@[i]
        == b.output_limbs@[i] by {
        let (x, y) = (a.output_limbs@[i], b.output_limbs@[i]);
        assert(x.idx == y.idx && x.out_ctl == y.out_ctl);
    }
    assert(a.input_limbs@ =~= b.input_limbs@);
    assert(a.output_limbs@ =~= b.output_limbs@);
}

/// A round has random openings for each of its matrices and points.
pub open spec fn round_covered<F, EF>(
    rounds: Seq<Round<F, EF>>,
    random: Seq<Seq<Seq<Seq<EF>>>>,
    r: int,
) -> bool {
    &&& random[r].len() == rounds[r].matrices.len()
    &&& forall|m: int|
        0 <= m < rounds[r].matrices.len() ==> (#[trigger] random[r][m]).len()
            == rounds[r].matrices[m].points.len()
}

proof fn lemma_covered<F, EF>(
    rounds: Seq<Round<F, EF>>,
    random: Seq<Seq<Seq<Seq<EF>>>>,
    n: nat,
)
    ensures
        generation::merge_rounds_failure(rounds, random, n) is None <==> forall|r: int|
            0 <= r < n ==> #[trigger] round_covered(rounds, random, r),
    decreases n,
{
    if n > 0 {
        lemma_covered(rounds, random, (n - 1) as nat);
        let matrices = rounds[n - 1].matrices;
        let differ = generation::point_counts_differ(matrices, random[n - 1]);
        seqs::lemma_least(matrices.len(), differ);
        match seqs::least(matrices.len(), differ) {
            Some(m) => {
                assert(random[n - 1][m].len() != matrices[m].points.len());
                assert(!round_covered(rounds, random, n - 1));
            },
            None => {
                assert forall|m: int| 0 <= m < matrices.len() implies (
                #[trigger] random[n - 1][m]).len() == matrices[m].points.len() by {
                    assert(!differ(m));
                }
            },
        }
        assert(round_covered(rounds, random, n - 1) == (generation::merge_round_failure(
            rounds,
            random,
            n - 1,
        ) is None));
        if forall|r: int| 0 <= r < n ==> #[trigger] round_covered(rounds, random, r) {
            assert(forall|r: int| 0 <= r < n - 1 ==> #[trigger] round_covered(rounds, random, r));
        }
    }
}

/// Random openings can be merged exactly if there is one list for each point of each matrix of each
/// round.
pub proof fn law_random_openings_fit<F, EF>(
    rounds: Seq<Round<F, EF>>,
    random: Seq<Seq<Seq<Seq<EF>>>>,
)
    ensures
        generation::merge_failure(rounds, random) is None <==> {
            &&& random.len() == rounds.len()
            &&& forall|r: int| 0 <= r < rounds.len() ==> #[trigger] round_covered(rounds, random, r)
        },
{
    lemma_covered(rounds, random, rounds.len());
}

} // verus!
