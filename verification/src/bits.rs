//! Powers of two, shifts and bit reversal on machine integers.

use vstd::arithmetic::power2::*;
use vstd::bits::*;
use vstd::prelude::*;

verus! {

/// A power of two below the word size fits the word.
pub proof fn lemma_fits(k: nat)
    requires
        k < usize::BITS,
    ensures
        0 < pow2(k) <= usize::MAX,
{
    lemma_pow2_pos(k);
    lemma_usize_pow2_no_overflow(k);
}

/// `2^k`.
pub fn two_pow(k: usize) -> (r: usize)
    requires
        k < usize::BITS,
    ensures
        r == pow2(k as nat),
        r > 0,
{
    proof {
        lemma_fits(k as nat);
        lemma_usize_shl_is_mul(1, k);
    }
    1usize << k
}

/// `x` without its `k` lowest bits.
pub fn shift_right(x: usize, k: usize) -> (r: usize)
    requires
        k < usize::BITS,
    ensures
        r == x as nat / pow2(k as nat),
{
    proof {
        lemma_usize_shr_is_div(x, k);
    }
    x >> k
}

/// The lowest `bits` bits of `x` in reverse order.
pub open spec fn reversed_bits(x: nat, bits: nat) -> nat
    decreases bits,
{
    if bits == 0 {
        0
    } else {
        (x % 2) * pow2((bits - 1) as nat) + reversed_bits(x / 2, (bits - 1) as nat)
    }
}

pub proof fn lemma_reversed_bits(x: nat, bits: nat)
    ensures
        reversed_bits(x, bits) < pow2(bits),
    decreases bits,
{
    lemma_pow2_pos(bits);
    if bits > 0 {
        let m = (bits - 1) as nat;
        lemma_reversed_bits(x / 2, m);
        lemma_pow2_unfold(bits);
        assert((x % 2) * pow2(m) <= pow2(m)) by (nonlinear_arith)
            requires
                x % 2 <= 1,
        ;
    }
}

/// Reverses the lowest `bits` bits of `x`.
pub fn reverse_bits_len(x: usize, bits: usize) -> (r: usize)
    requires
        bits < usize::BITS,
    ensures
        r == reversed_bits(x as nat, bits as nat),
        r < pow2(bits as nat),
{
    let mut r: usize = 0;
    let mut y: usize = x;
    let mut i: usize = 0;
    proof {
        lemma_fits(bits as nat);
        lemma_reversed_bits(x as nat, bits as nat);
        lemma_pow2(0);
        lemma2_to64();
    }
    while i < bits
        invariant
            i <= bits,
            bits < usize::BITS,
            r < pow2(i as nat),
            r * pow2((bits - i) as nat) + reversed_bits(y as nat, (bits - i) as nat)
                == reversed_bits(x as nat, bits as nat),
        decreases bits - i,
    {
        proof {
            let m = (bits - i) as nat;
            let n = (m - 1) as nat;
            lemma_pow2_unfold(m);
            lemma_pow2_unfold((i + 1) as nat);
            lemma_fits((i + 1) as nat);
            let b = y as nat % 2;
            assert((r * 2 + b) * pow2(n) == r * (2 * pow2(n)) + b * pow2(n)) by (nonlinear_arith);
        }
        r = r * 2 + y % 2;
        y = y / 2;
        i += 1;
    }
    proof {
        lemma2_to64();
        assert(r * pow2(0) == r) by (nonlinear_arith)
            requires
                pow2(0) == 1,
        ;
    }
    r
}

/// The exponent of a power of two.
pub fn log2_strict(n: usize) -> (r: usize)
    requires
        is_pow2(n as int),
    ensures
        n == pow2(r as nat),
        r < usize::BITS,
{
    let ghost m: nat = 0;
    proof {
        is_pow2_equiv(n as int);
        m = choose|k: nat| vstd::arithmetic::power::pow(2, k) == n;
        lemma_pow2(m);
        lemma2_to64();
    }
    let mut k: usize = 0;
    let mut p: usize = 1;
    while p < n
        invariant
            n == pow2(m),
            p == pow2(k as nat),
            k <= m,
            k < usize::BITS,
        decreases m - k,
    {
        proof {
            assert(k != m);
            if k + 1 < m {
                lemma_pow2_strictly_increases((k + 1) as nat, m);
            }
            lemma_pow2_unfold((k + 1) as nat);
            if k + 1 >= usize::BITS {
                lemma2_to64();
                lemma2_to64_rest();
                if k + 1 > 64 {
                    lemma_pow2_strictly_increases(64, (k + 1) as nat);
                }
                if k + 1 > 32 {
                    lemma_pow2_strictly_increases(32, (k + 1) as nat);
                }
                assert(pow2((k + 1) as nat) > usize::MAX);
            }
        }
        p = p * 2;
        k += 1;
    }
    proof {
        if k < m {
            lemma_pow2_strictly_increases(k as nat, m);
        }
    }
    k
}

/// `k` is the least exponent with `2^k >= h`.
pub open spec fn is_log2_ceil(h: nat, k: nat) -> bool {
    &&& pow2(k) >= h
    &&& forall|j: nat| j < k ==> #[trigger] pow2(j) < h
}

/// The least power of two that is at least `h`.
pub open spec fn next_pow2(h: nat) -> nat {
    pow2(choose|k: nat| is_log2_ceil(h, k))
}

pub proof fn lemma_next_pow2(h: nat, k: nat)
    requires
        is_log2_ceil(h, k),
    ensures
        next_pow2(h) == pow2(k),
{
    let c = choose|k: nat| is_log2_ceil(h, k);
    assert(is_log2_ceil(h, c));
    if c < k {
        assert(pow2(c) < h);
    }
    if k < c {
        assert(pow2(k) < h);
    }
}

/// The least power of two that is at least `h`.
pub fn next_power_of_two(h: usize) -> (r: usize)
    requires
        h <= usize::MAX / 2 + 1,
    ensures
        r == next_pow2(h as nat),
        r >= h,
        r >= 1,
{
    let mut p: usize = 1;
    let ghost mut k: nat = 0;
    proof {
        lemma_pow2(0);
        lemma2_to64();
    }
    while p < h
        invariant
            p == pow2(k),
            p >= 1,
            h <= usize::MAX / 2 + 1,
            forall|j: nat| j < k ==> #[trigger] pow2(j) < h,
        decreases 2 * h - p,
    {
        proof {
            lemma_pow2_unfold(k + 1);
            lemma_pow2_pos(k);
            k = k + 1;
        }
        p = p * 2;
    }
    proof {
        assert(is_log2_ceil(h as nat, k));
        lemma_next_pow2(h as nat, k);
    }
    p
}

} // verus!
