//! What the tables of constants hold, row by row.

use vstd::arithmetic::div_mod::*;
use vstd::arithmetic::mul::*;
use vstd::arithmetic::power2::*;
use vstd::prelude::*;

use crate::air_expr::Window;
use crate::bits;
use crate::const_air;
use crate::extension::ExtensionField;
use crate::field::{CommutativeRing, Field};
use crate::matrix;
use crate::poseidon1_air::Poseidon1CircuitAir;
use crate::poseidon1_rules::PermutationColumns;

verus! {

/// The padded height is the least power of two that is at least the number of rows and at least the
/// minimum.
pub proof fn law_padded_height(rows: nat, min_height: nat, k: nat)
    ensures
        rows <= matrix::padded_height(rows, min_height),
        min_height <= matrix::padded_height(rows, min_height),
        exists|j: nat| matrix::padded_height(rows, min_height) == #[trigger] pow2(j),
        rows <= pow2(k) && min_height <= pow2(k) ==> matrix::padded_height(rows, min_height)
            <= pow2(k),
{
    let a = lemma_log2_ceil(rows);
    let b = lemma_log2_ceil(min_height);
    bits::lemma_next_pow2(rows, a);
    bits::lemma_next_pow2(min_height, b);
    if k < a {
        assert(pow2(k) < rows);
    } else if a < k {
        lemma_pow2_strictly_increases(a, k);
    }
    if k < b {
        assert(pow2(k) < min_height);
    } else if b < k {
        lemma_pow2_strictly_increases(b, k);
    }
    assert(matrix::padded_height(rows, min_height) == pow2(a) || matrix::padded_height(
        rows,
        min_height,
    ) == pow2(b));
}

/// Every number has a rounded logarithm.
proof fn lemma_log2_ceil(h: nat) -> (k: nat)
    ensures
        bits::is_log2_ceil(h, k),
    decreases h,
{
    lemma2_to64();
    if h <= 1 {
        0
    } else {
        let j = lemma_log2_ceil((h - 1) as nat);
        if h <= pow2(j) {
            assert forall|i: nat| i < j implies #[trigger] pow2(i) < h by {
                assert(pow2(i) < h - 1);
            }
            j
        } else {
            lemma_pow2_unfold(j + 1);
            lemma_pow2_pos(j);
            assert forall|i: nat| i < j + 1 implies #[trigger] pow2(i) < h by {
                if i < j {
                    lemma_pow2_strictly_increases(i, j);
                }
            }
            j + 1
        }
    }
}

/// Coefficient `c` of value `i` stands in row `i` and column `c`.
pub open spec fn placed<F: Field, EF: ExtensionField<F>>(
    values: Seq<EF>,
    flat: Seq<F>,
    d: nat,
    i: int,
    c: int,
) -> bool {
    &&& 0 <= i * d + c < flat.len()
    &&& flat[i * d + c] == values[i].sp_coefficients()[c]
}

proof fn lemma_flat<F: Field, EF: ExtensionField<F>>(values: Seq<EF>, d: nat, n: nat)
    requires
        n <= values.len(),
        forall|i: int| 0 <= i < values.len() ==> (#[trigger] values[i]).sp_coefficients().len() == d,
    ensures
        const_air::flat_coefficients::<F, EF>(values, n).len() == n * d,
        forall|i: int, c: int|
            0 <= i < n && 0 <= c < d ==> #[trigger] placed(
                values,
                const_air::flat_coefficients::<F, EF>(values, n),
                d,
                i,
                c,
            ),
    decreases n,
{
    if n > 0 {
        let m = (n - 1) as nat;
        lemma_flat::<F, EF>(values, d, m);
        assert(values[n - 1].sp_coefficients().len() == d);
        assert(n * d == m * d + d) by (nonlinear_arith)
            requires
                n == m + 1,
        ;
        let flat = const_air::flat_coefficients::<F, EF>(values, n);
        let before = const_air::flat_coefficients::<F, EF>(values, m);
        assert forall|i: int, c: int| 0 <= i < n && 0 <= c < d implies #[trigger] placed(
            values,
            flat,
            d,
            i,
            c,
        ) by {
            assert(0 <= i * d + c < (i + 1) * d <= n * d) by (nonlinear_arith)
                requires
                    0 <= i < n,
                    0 <= c < d,
            ;
            if i < m {
                assert(placed(values, before, d, i, c));
                assert(flat[i * d + c] == before[i * d + c]);
            }
        }
    }
}

/// Row `i` of the table of constants holds the coefficients of constant `i`, the lowest first, and
/// the rows after the constants are zero.
pub proof fn law_constant_rows<F: Field, EF: ExtensionField<F>>(
    values: Seq<EF>,
    d: nat,
    height: nat,
    table: Seq<F>,
)
    requires
        d > 0,
        values.len() <= height,
        forall|i: int| 0 <= i < values.len() ==> (#[trigger] values[i]).sp_coefficients().len() == d,
        table == matrix::padded_to(
            const_air::flat_coefficients::<F, EF>(values, values.len()),
            height * d,
            F::sp_zero(),
        ),
    ensures
        forall|i: int, c: int|
            0 <= i < values.len() && 0 <= c < d ==> #[trigger] placed(values, table, d, i, c),
        forall|k: int| values.len() * d <= k < height * d ==> #[trigger] table[k] == F::sp_zero(),
{
    lemma_flat::<F, EF>(values, d, values.len());
    assert(values.len() * d <= height * d) by (nonlinear_arith)
        requires
            values.len() <= height,
    ;
    let flat = const_air::flat_coefficients::<F, EF>(values, values.len());
    assert forall|i: int, c: int| 0 <= i < values.len() && 0 <= c < d implies #[trigger] placed(
        values,
        table,
        d,
        i,
        c,
    ) by {
        assert(placed(values, flat, d, i, c));
    }
}

/// A row that the constraints accept sends the committed constant under its committed index, as
/// often as committed.
pub proof fn law_constant_is_sent<F: CommutativeRing>(w: Window<F>, d: nat)
    requires
        forall|i: int| 0 <= i < d ==> (#[trigger] w.local[i]).wf() && w.preprocessed[i + 2].wf(),
        const_air::bound_to_preprocessed(w, d),
    ensures
        ({
            let message = const_air::constant_message(w, d);
            &&& message.bus == "WitnessChecks"
            &&& message.count == w.preprocessed[0]
            &&& message.fields.len() == d + 1
            &&& message.fields[0] == w.preprocessed[1]
            &&& forall|i: int|
                0 <= i < d ==> #[trigger] message.fields[i + 1] == w.preprocessed[i + 2]
        }),
{
    const_air::law_constants_are_bound(w, d);
    let message = const_air::constant_message(w, d);
    assert forall|i: int| 0 <= i < d implies #[trigger] message.fields[i + 1]
        == w.preprocessed[i + 2] by {
        assert(w.local[i] == w.preprocessed[i + 2]);
    }
}

/// As many rows as committed values need, and at least one.
pub proof fn law_row_count(len: nat, width: nat)
    requires
        width > 0,
    ensures
        const_air::row_count(len, width) >= 1,
        len <= const_air::row_count(len, width) * width,
        len > 0 ==> (const_air::row_count(len, width) - 1) * width < len,
{
    if len > 0 {
        let n = len + width - 1;
        lemma_fundamental_div_mod(n as int, width as int);
        lemma_mod_bound(n as int, width as int);
        let q = n as int / width as int;
        let m = n as int % width as int;
        assert(len <= q * width && (q - 1) * width < len && q >= 1) by (nonlinear_arith)
            requires
                len + width - 1 == width * q + m,
                0 <= m < width,
                len > 0,
                width > 0,
        ;
    }
}

/// The preprocessed table of a permutation holds the given rows and the minimum, and is the least
/// power of two that does.
pub proof fn law_preprocessed_height<
    F: Field,
    P: PermutationColumns<F>,
    const D: usize,
    const WIDTH: usize,
    const WIDTH_EXT: usize,
    const RATE_EXT: usize,
    const CAPACITY_EXT: usize,
    const WITNESS_EXT_D: usize,
>(
    air: Poseidon1CircuitAir<F, P, D, WIDTH, WIDTH_EXT, RATE_EXT, CAPACITY_EXT, WITNESS_EXT_D>,
    rows: nat,
    k: nat,
    j: nat,
)
    requires
        Poseidon1CircuitAir::<
            F,
            P,
            D,
            WIDTH,
            WIDTH_EXT,
            RATE_EXT,
            CAPACITY_EXT,
            WITNESS_EXT_D,
        >::shape().preprocessed_width() > 0,
        air.preprocessed@.len() == rows * Poseidon1CircuitAir::<
            F,
            P,
            D,
            WIDTH,
            WIDTH_EXT,
            RATE_EXT,
            CAPACITY_EXT,
            WITNESS_EXT_D,
        >::shape().preprocessed_width(),
        air.min_height == pow2(j),
    ensures
        rows <= air.preprocessed_rows(),
        air.min_height <= air.preprocessed_rows(),
        exists|i: nat| air.preprocessed_rows() == #[trigger] pow2(i),
        rows <= pow2(k) && air.min_height <= pow2(k) ==> air.preprocessed_rows() <= pow2(k),
{
    let width = Poseidon1CircuitAir::<
        F,
        P,
        D,
        WIDTH,
        WIDTH_EXT,
        RATE_EXT,
        CAPACITY_EXT,
        WITNESS_EXT_D,
    >::shape().preprocessed_width();
    lemma_div_multiples_vanish(rows as int, width as int);
    lemma_mul_is_commutative(rows as int, width as int);
    let a = lemma_log2_ceil(rows);
    bits::lemma_next_pow2(rows, a);
    if k < a {
        assert(pow2(k) < rows);
    } else if a < k {
        lemma_pow2_strictly_increases(a, k);
    }
    assert(air.preprocessed_rows() == pow2(a) || air.preprocessed_rows() == pow2(j));
}

} // verus!
