//! Preprocessed-row layout shared by the Poseidon circuit tables.

use vstd::prelude::*;

verus! {

/// Preprocessed columns for a single Poseidon **input** limb.
///
/// The two chain selectors are mutually exclusive:
///
/// ```text
///     sponge_chain  = !new_start && !merkle_path && !in_ctl
///     merkle_chain  = !new_start &&  merkle_path && !in_ctl
/// ```
#[derive(Clone, Copy, Debug, PartialEq, Eq)]
pub struct PoseidonPrepInputLimb<T> {
    /// Witness index for this input limb, scaled by the extension degree.
    pub idx: T,
    /// Cross-table lookup enable flag.
    pub in_ctl: T,
    /// Sponge-mode chain selector.
    pub normal_chain_sel: T,
    /// Merkle-mode chain selector.
    pub merkle_chain_sel: T,
}

/// Preprocessed columns for a single Poseidon **output** limb.
#[derive(Clone, Copy, Debug, PartialEq, Eq)]
pub struct PoseidonPrepOutputLimb<T> {
    /// Witness index for this output limb, scaled by the extension degree.
    pub idx: T,
    /// Cross-table lookup enable flag.
    pub out_ctl: T,
}

/// The width of a row in the standard layout.
pub open spec fn standard_width(input_limbs: nat, output_limbs: nat) -> nat {
    4 * input_limbs + 2 * output_limbs + 4
}

/// Number of preprocessed columns for one Poseidon row: four per input limb, two per output limb,
/// and four flags.
pub fn poseidon_preprocessed_row_width(input_limbs: usize, output_limbs: usize) -> (r: usize)
    requires
        standard_width(input_limbs as nat, output_limbs as nat) <= usize::MAX,
    ensures
        r == standard_width(input_limbs as nat, output_limbs as nat),
{
    input_limbs * 4 + output_limbs * 2 + 4
}

/// The layout of the row is the compact one.
pub open spec fn compact_d1(d: nat, width_ext: nat, rate_ext: nat) -> bool {
    d == 1 && width_ext == 2 * rate_ext
}

/// `true` when the Poseidon table uses the compact base-field layout: the capacity equals the rate
/// and limbs are base elements.
pub fn poseidon_uses_compact_d1_preprocessed(
    poseidon_d: usize,
    width_ext: usize,
    rate_ext: usize,
) -> (r: bool)
    requires
        poseidon_d == 1 ==> 2 * rate_ext <= usize::MAX,
    ensures
        r == compact_d1(poseidon_d as nat, width_ext as nat, rate_ext as nat),
{
    poseidon_d == 1 && width_ext == 2 * rate_ext
}

/// Columns before the input indices in the compact layout: one lookup flag per rate limb, the
/// length tag and the capacity chain flag, then one sponge and one Merkle chain selector per rate
/// limb.
pub fn poseidon_d1_compact_preprocessed_header_cols(rate_ext: usize) -> (r: usize)
    requires
        3 * rate_ext + 2 <= usize::MAX,
    ensures
        r == 3 * rate_ext + 2,
{
    rate_ext + 2 + rate_ext + rate_ext
}

/// The width of a row of a table.
pub open spec fn row_width(d: nat, width_ext: nat, rate_ext: nat) -> nat {
    if compact_d1(d, width_ext, rate_ext) {
        3 * rate_ext + 2 + width_ext + 2 * rate_ext + 4
    } else {
        standard_width(width_ext, rate_ext)
    }
}

/// Preprocessed row width for a Poseidon circuit table.
pub fn poseidon_preprocessed_row_width_for_air(
    poseidon_d: usize,
    width_ext: usize,
    rate_ext: usize,
) -> (r: usize)
    requires
        row_width(poseidon_d as nat, width_ext as nat, rate_ext as nat) <= usize::MAX,
    ensures
        r == row_width(poseidon_d as nat, width_ext as nat, rate_ext as nat),
{
    if poseidon_uses_compact_d1_preprocessed(poseidon_d, width_ext, rate_ext) {
        poseidon_d1_compact_preprocessed_header_cols(rate_ext) + width_ext + rate_ext + rate_ext + 4
    } else {
        poseidon_preprocessed_row_width(width_ext, rate_ext)
    }
}

/// Full preprocessed row for a Poseidon circuit table, one per permutation.
///
/// When padded to a power-of-two height, the **first** padding row sets the chain-start flag.
#[derive(Clone, Copy, Debug, PartialEq, Eq)]
pub struct PoseidonPreprocessedRow<const INPUT_LIMBS: usize, const OUTPUT_LIMBS: usize, T> {
    /// Per-limb preprocessed input columns.
    pub input_limbs: [PoseidonPrepInputLimb<T>; INPUT_LIMBS],
    /// Per-limb preprocessed output columns for rate outputs.
    pub output_limbs: [PoseidonPrepOutputLimb<T>; OUTPUT_LIMBS],
    /// Witness index for the MMCS accumulator column.
    pub mmcs_index_sum_ctl_idx: T,
    /// Product of the MMCS-enabled flag and the Merkle-path flag.
    pub mmcs_merkle_flag: T,
    /// Chain boundary flag.
    pub new_start: T,
    /// Merkle-path flag.
    pub merkle_path: T,
}

/// The columns of the first `n` input limbs.
pub open spec fn input_columns<T>(limbs: Seq<PoseidonPrepInputLimb<T>>, n: nat) -> Seq<T>
    decreases n,
{
    if n == 0 {
        Seq::empty()
    } else {
        let limb = limbs[n - 1];
        input_columns(limbs, (n - 1) as nat) + seq![
            limb.idx,
            limb.in_ctl,
            limb.normal_chain_sel,
            limb.merkle_chain_sel,
        ]
    }
}

/// The columns of the first `n` output limbs.
pub open spec fn output_columns<T>(limbs: Seq<PoseidonPrepOutputLimb<T>>, n: nat) -> Seq<T>
    decreases n,
{
    if n == 0 {
        Seq::empty()
    } else {
        let limb = limbs[n - 1];
        output_columns(limbs, (n - 1) as nat) + seq![limb.idx, limb.out_ctl]
    }
}

impl<
    const INPUT_LIMBS: usize,
    const OUTPUT_LIMBS: usize,
    T: Copy,
> PoseidonPreprocessedRow<INPUT_LIMBS, OUTPUT_LIMBS, T> {
    /// The row as scalar columns in declaration order.
    pub open spec fn columns(self) -> Seq<T> {
        input_columns(self.input_limbs@, INPUT_LIMBS as nat) + output_columns(
            self.output_limbs@,
            OUTPUT_LIMBS as nat,
        ) + seq![
            self.mmcs_index_sum_ctl_idx,
            self.mmcs_merkle_flag,
            self.new_start,
            self.merkle_path,
        ]
    }

    /// Appends the row's scalar columns, in declaration order.
    pub fn write_into(&self, out: &mut Vec<T>)
        ensures
            final(out)@ == old(out)@ + self.columns(),
    {
        let mut i: usize = 0;
        while i < INPUT_LIMBS
            invariant
                i <= INPUT_LIMBS,
                out@ == old(out)@ + input_columns(self.input_limbs@, i as nat),
            decreases INPUT_LIMBS - i,
        {
            let limb = self.input_limbs[i];
            out.push(limb.idx);
            out.push(limb.in_ctl);
            out.push(limb.normal_chain_sel);
            out.push(limb.merkle_chain_sel);
            i += 1;
            assert(out@ =~= old(out)@ + input_columns(self.input_limbs@, i as nat));
        }
        let ghost mid = out@;
        let mut i: usize = 0;
        while i < OUTPUT_LIMBS
            invariant
                i <= OUTPUT_LIMBS,
                out@ == mid + output_columns(self.output_limbs@, i as nat),
            decreases OUTPUT_LIMBS - i,
        {
            let limb = self.output_limbs[i];
            out.push(limb.idx);
            out.push(limb.out_ctl);
            i += 1;
            assert(out@ =~= mid + output_columns(self.output_limbs@, i as nat));
        }
        out.push(self.mmcs_index_sum_ctl_idx);
        out.push(self.mmcs_merkle_flag);
        out.push(self.new_start);
        out.push(self.merkle_path);
        assert(out@ =~= old(out)@ + self.columns());
    }

    /// Reads a row from its scalar columns.
    pub fn from_columns(columns: &[T]) -> (r: Option<Self>)
        ensures
            match r {
                Some(row) => row.columns() == columns@,
                None => columns@.len() != standard_width(INPUT_LIMBS as nat, OUTPUT_LIMBS as nat),
            },
    {
        if columns.len() < 4 || (columns.len() - 4) / 2 < OUTPUT_LIMBS {
            return None;
        }
        let rest: usize = columns.len() - 4 - OUTPUT_LIMBS * 2;
        if rest % 4 != 0 || rest / 4 != INPUT_LIMBS {
            return None;
        }
        let first: T = columns[0];
        let mut input_limbs: [PoseidonPrepInputLimb<T>; INPUT_LIMBS] = [PoseidonPrepInputLimb {
            idx: first,
            in_ctl: first,
            normal_chain_sel: first,
            merkle_chain_sel: first,
        };INPUT_LIMBS];
        let mut i: usize = 0;
        assert(columns@.subrange(0, 0) =~= Seq::empty());
        while i < INPUT_LIMBS
            invariant
                i <= INPUT_LIMBS,
                columns@.len() == 4 * INPUT_LIMBS + 2 * OUTPUT_LIMBS + 4,
                columns@.len() <= usize::MAX,
                input_columns(input_limbs@, i as nat) == columns@.subrange(0, 4 * i as int),
            decreases INPUT_LIMBS - i,
        {
            let ghost before = input_limbs@;
            input_limbs[i] =
            PoseidonPrepInputLimb {
                idx: columns[4 * i],
                in_ctl: columns[4 * i + 1],
                normal_chain_sel: columns[4 * i + 2],
                merkle_chain_sel: columns[4 * i + 3],
            };
            proof {
                lemma_input_columns_agree(before, input_limbs@, i as nat);
            }
            i += 1;
            assert(input_columns(input_limbs@, i as nat) =~= columns@.subrange(0, 4 * i as int));
        }
        let mut output_limbs: [PoseidonPrepOutputLimb<T>; OUTPUT_LIMBS] = [PoseidonPrepOutputLimb {
            idx: first,
            out_ctl: first,
        };OUTPUT_LIMBS];
        let base: usize = 4 * INPUT_LIMBS;
        let mut i: usize = 0;
        assert(columns@.subrange(base as int, base as int) =~= Seq::empty());
        while i < OUTPUT_LIMBS
            invariant
                i <= OUTPUT_LIMBS,
                base == 4 * INPUT_LIMBS,
                columns@.len() == 4 * INPUT_LIMBS + 2 * OUTPUT_LIMBS + 4,
                columns@.len() <= usize::MAX,
                output_columns(output_limbs@, i as nat) == columns@.subrange(
                    base as int,
                    base + 2 * i as int,
                ),
            decreases OUTPUT_LIMBS - i,
        {
            let ghost before = output_limbs@;
            output_limbs[i] =
            PoseidonPrepOutputLimb { idx: columns[base + 2 * i], out_ctl: columns[base + 2 * i + 1] };
            proof {
                lemma_output_columns_agree(before, output_limbs@, i as nat);
            }
            i += 1;
            assert(output_columns(output_limbs@, i as nat) =~= columns@.subrange(
                base as int,
                base + 2 * i as int,
            ));
        }
        let n: usize = columns.len();
        let row = PoseidonPreprocessedRow {
            input_limbs,
            output_limbs,
            mmcs_index_sum_ctl_idx: columns[n - 4],
            mmcs_merkle_flag: columns[n - 3],
            new_start: columns[n - 2],
            merkle_path: columns[n - 1],
        };
        assert(row.columns() =~= columns@);
        Some(row)
    }
}

proof fn lemma_input_columns_agree<T>(
    a: Seq<PoseidonPrepInputLimb<T>>,
    b: Seq<PoseidonPrepInputLimb<T>>,
    n: nat,
)
    requires
        forall|i: int| 0 <= i < n ==> a[i] == b[i],
    ensures
        input_columns(a, n) == input_columns(b, n),
    decreases n,
{
    if n > 0 {
        lemma_input_columns_agree(a, b, (n - 1) as nat);
    }
}

proof fn lemma_output_columns_agree<T>(
    a: Seq<PoseidonPrepOutputLimb<T>>,
    b: Seq<PoseidonPrepOutputLimb<T>>,
    n: nat,
)
    requires
        forall|i: int| 0 <= i < n ==> a[i] == b[i],
    ensures
        output_columns(a, n) == output_columns(b, n),
    decreases n,
{
    if n > 0 {
        lemma_output_columns_agree(a, b, (n - 1) as nat);
    }
}

proof fn lemma_input_columns_len<T>(limbs: Seq<PoseidonPrepInputLimb<T>>, n: nat)
    ensures
        input_columns(limbs, n).len() == 4 * n,
    decreases n,
{
    if n > 0 {
        lemma_input_columns_len(limbs, (n - 1) as nat);
    }
}

proof fn lemma_output_columns_len<T>(limbs: Seq<PoseidonPrepOutputLimb<T>>, n: nat)
    ensures
        output_columns(limbs, n).len() == 2 * n,
    decreases n,
{
    if n > 0 {
        lemma_output_columns_len(limbs, (n - 1) as nat);
    }
}

/// A written row has exactly the columns that the row width announces.
pub proof fn law_written_row_fills_width<const INPUT_LIMBS: usize, const OUTPUT_LIMBS: usize, T: Copy>(
    row: PoseidonPreprocessedRow<INPUT_LIMBS, OUTPUT_LIMBS, T>,
)
    ensures
        row.columns().len() == standard_width(INPUT_LIMBS as nat, OUTPUT_LIMBS as nat),
{
    lemma_input_columns_len(row.input_limbs@, INPUT_LIMBS as nat);
    lemma_output_columns_len(row.output_limbs@, OUTPUT_LIMBS as nat);
}

} // verus!
