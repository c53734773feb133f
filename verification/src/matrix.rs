//! Dense matrices in row-major order.

use vstd::arithmetic::div_mod::*;
use vstd::arithmetic::mul::*;
use vstd::prelude::*;

use crate::bits;
use crate::bits::next_power_of_two;

verus! {

/// A dense matrix in row-major order.
#[derive(Clone, Debug, PartialEq, Eq)]
pub struct RowMajorMatrix<T> {
    pub values: Vec<T>,
    pub width: usize,
}

impl<T: Copy> RowMajorMatrix<T> {
    /// The number of rows.
    pub open spec fn rows(self) -> nat {
        if self.width == 0 {
            0
        } else {
            self.values@.len() / self.width as nat
        }
    }

    /// The given row.
    pub open spec fn row(self, r: int) -> Seq<T> {
        self.values@.subrange(r * self.width, (r + 1) * self.width)
    }

    pub fn width(&self) -> (r: usize)
        ensures
            r == self.width,
    {
        self.width
    }

    pub fn height(&self) -> (r: usize)
        ensures
            r == self.rows(),
    {
        if self.width == 0 {
            0
        } else {
            self.values.len() / self.width
        }
    }

    /// The given row, if there is one.
    pub fn row_slice(&self, r: usize) -> (slice: Option<&[T]>)
        ensures
            match slice {
                Some(slice) => r < self.rows() && slice@ == self.row(r as int),
                None => r >= self.rows(),
            },
    {
        let height: usize = self.height();
        if r >= height {
            return None;
        }
        let len: usize = self.values.len();
        proof {
            let w = self.width as int;
            let n = self.values@.len() as int;
            lemma_fundamental_div_mod(n, w);
            lemma_mul_inequality(r + 1, n / w, w);
            lemma_mul_is_commutative(w, n / w);
            lemma_mul_is_distributive_add_other_way(w, r as int, 1);
            lemma_mul_nonnegative(r as int, w);
            assert((r + 1) * w <= len);
        }
        let start: usize = r * self.width;
        let end: usize = start + self.width;
        assert(end == (r + 1) * self.width);
        Some(vstd::slice::slice_subrange(self.values.as_slice(), start, end))
    }
}

/// A sequence followed by copies of `fill` up to the given length.
pub open spec fn padded_to<T>(values: Seq<T>, len: nat, fill: T) -> Seq<T> {
    Seq::new(
        len,
        |i: int|
            if i < values.len() {
                values[i]
            } else {
                fill
            },
    )
}

/// Appends copies of `fill` until the given length is reached.
pub fn pad_to<T: Copy>(values: &mut Vec<T>, len: usize, fill: T)
    requires
        old(values)@.len() <= len,
    ensures
        final(values)@ == padded_to(old(values)@, len as nat, fill),
{
    let ghost start = values@;
    while values.len() < len
        invariant
            start.len() <= values@.len() <= len,
            values@ == padded_to(start, values@.len(), fill),
        decreases len - values@.len(),
    {
        values.push(fill);
        assert(values@ =~= padded_to(start, values@.len(), fill));
    }
    assert(values@ =~= padded_to(start, len as nat, fill));
}

/// The height to which a matrix is padded: the larger of the least powers of two that are at least
/// the number of rows and at least the minimum.
pub open spec fn padded_height(rows: nat, min_height: nat) -> nat {
    if bits::next_pow2(rows) >= bits::next_pow2(min_height) {
        bits::next_pow2(rows)
    } else {
        bits::next_pow2(min_height)
    }
}

/// The height to which a matrix is padded.
pub fn padded_height_of(rows: usize, min_height: usize) -> (r: usize)
    requires
        rows <= usize::MAX / 2 + 1,
        min_height <= usize::MAX / 2 + 1,
    ensures
        r == padded_height(rows as nat, min_height as nat),
        r >= rows,
        r >= min_height,
        r >= 1,
{
    let a: usize = next_power_of_two(rows);
    let b: usize = next_power_of_two(min_height);
    if a >= b {
        a
    } else {
        b
    }
}

} // verus!
