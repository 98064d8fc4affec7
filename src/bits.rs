//! Bit-level model of codon hashes: set bits, population count, Hamming
//! distance and the repacking of masked bits into a bucket index.
use vstd::arithmetic::power2::{lemma2_to64, lemma2_to64_rest, lemma_pow2_unfold, pow2};
use vstd::bits::{lemma_u64_pow2_no_overflow, lemma_u64_shl_is_mul};
use vstd::prelude::*;

verus! {

/// Whether bit `i` of `x` is set (bit 0 is the least significant).
pub open spec fn bit_set(x: u64, i: nat) -> bool {
    (x >> (i as u64)) & 1u64 == 1u64
}

/// Number of set bits of `x` among its `n` lowest positions.
pub open spec fn ones_below(x: u64, n: nat) -> nat
    decreases n,
{
    if n == 0 {
        0
    } else {
        ones_below(x, (n - 1) as nat) + if bit_set(x, (n - 1) as nat) {
            1nat
        } else {
            0nat
        }
    }
}

/// Number of set bits of `x`.
pub open spec fn popcount(x: u64) -> nat {
    ones_below(x, 64)
}

/// Hamming distance of two codes: the number of positions at which they differ.
pub open spec fn hamming(a: u64, b: u64) -> nat {
    popcount(a ^ b)
}

/// The bits of `num` at the positions set in `mask`, scanning the `n` lowest
/// positions from the least significant upwards, packed contiguously: the
/// lowest selected position becomes bit 0 of the result.
pub open spec fn collapse_below(num: u64, mask: u64, n: nat) -> nat
    decreases n,
{
    if n == 0 {
        0
    } else {
        let prev = collapse_below(num, mask, (n - 1) as nat);
        if bit_set(mask, (n - 1) as nat) && bit_set(num, (n - 1) as nat) {
            prev + pow2(ones_below(mask, (n - 1) as nat))
        } else {
            prev
        }
    }
}

/// The bucket index that `mask` selects out of `num`.
pub open spec fn collapsed(num: u64, mask: u64) -> nat {
    collapse_below(num, mask, 64)
}

/// A code with no bit set at or above position `w`.
pub open spec fn fits_width(x: u64, w: nat) -> bool {
    forall|i: nat| w <= i < 64 ==> !#[trigger] bit_set(x, i)
}

pub proof fn lemma_ones_below_bound(x: u64, n: nat)
    ensures
        ones_below(x, n) <= n,
    decreases n,
{
    if n > 0 {
        lemma_ones_below_bound(x, (n - 1) as nat);
    }
}

pub proof fn lemma_ones_below_zero(n: nat)
    requires
        n <= 64,
    ensures
        ones_below(0, n) == 0,
    decreases n,
{
    if n > 0 {
        let i = (n - 1) as u64;
        assert((0u64 >> i) & 1u64 == 0u64) by (bit_vector);
        lemma_ones_below_zero((n - 1) as nat);
    }
}

/// Setting a clear bit `p` adds one to the count of every range that holds `p`.
pub proof fn lemma_ones_below_set(m: u64, p: u64, n: nat)
    requires
        p < 64,
        n <= 64,
        !bit_set(m, p as nat),
    ensures
        ones_below(m | (1u64 << p), n) == ones_below(m, n) + if (p as nat) < n {
            1nat
        } else {
            0nat
        },
    decreases n,
{
    if n > 0 {
        let i = (n - 1) as u64;
        lemma_ones_below_set(m, p, (n - 1) as nat);
        if i == p {
            assert(((m | (1u64 << p)) >> p) & 1u64 == 1u64) by (bit_vector)
                requires
                    p < 64,
            ;
        } else {
            assert(((m | (1u64 << p)) >> i) & 1u64 == (m >> i) & 1u64) by (bit_vector)
                requires
                    p < 64,
                    i < 64,
                    i != p,
            ;
        }
    }
}

/// Setting bit `p` leaves every other bit as it was.
pub proof fn lemma_set_bit_other(m: u64, p: u64, i: u64)
    requires
        p < 64,
        i < 64,
        i != p,
    ensures
        bit_set(m | (1u64 << p), i as nat) == bit_set(m, i as nat),
{
    assert(((m | (1u64 << p)) >> i) & 1u64 == (m >> i) & 1u64) by (bit_vector)
        requires
            p < 64,
            i < 64,
            i != p,
    ;
}

/// An empty mask selects no bit: every hash falls into bucket zero.
pub proof fn lemma_empty_mask_one_bucket(num: u64, n: nat)
    requires
        n <= 64,
    ensures
        collapse_below(num, 0, n) == 0,
    decreases n,
{
    if n > 0 {
        let i = (n - 1) as u64;
        assert((0u64 >> i) & 1u64 == 0u64) by (bit_vector);
        lemma_empty_mask_one_bucket(num, (n - 1) as nat);
    }
}

/// Whether bit `i` of `x` is set.
pub fn test_bit(x: u64, i: u64) -> (r: bool)
    requires
        i < 64,
    ensures
        r == bit_set(x, i as nat),
{
    (x >> i) & 1 == 1
}

/// Number of set bits of `x`.
pub fn count_ones(x: u64) -> (r: u32)
    ensures
        r == popcount(x),
        r <= 64,
{
    let mut r: u32 = 0;
    let mut i: u64 = 0;
    while i < 64
        invariant
            i <= 64,
            r <= i,
            r == ones_below(x, i as nat),
        decreases 64 - i,
    {
        if test_bit(x, i) {
            r = r + 1;
        }
        i = i + 1;
    }
    r
}

/// Hamming distance of two codon hashes: the set bits of their exclusive or.
pub fn distance(a: u64, b: u64) -> (r: u32)
    ensures
        r == hamming(a, b),
        r <= 64,
{
    count_ones(a ^ b)
}

/// Distance is symmetric, and every code is at distance zero from itself.
pub proof fn lemma_distance_symmetric(a: u64, b: u64)
    ensures
        hamming(a, b) == hamming(b, a),
        hamming(a, a) == 0,
{
    assert(a ^ b == b ^ a) by (bit_vector);
    assert(a ^ a == 0) by (bit_vector);
    lemma_ones_below_zero(64);
}

/// Repacks the bits of `num` that `mask` selects into a contiguous index:
/// the lowest selected position becomes bit 0.
pub fn collapse(num: u64, mask: u64) -> (r: u64)
    ensures
        r == collapsed(num, mask),
        r < pow2(popcount(mask)),
{
    let mut r: u64 = 0;
    let mut idx: u64 = 0;
    let mut i: u64 = 0;
    proof {
        lemma2_to64();
    }
    while i < 64
        invariant
            i <= 64,
            idx <= i,
            idx == ones_below(mask, i as nat),
            r == collapse_below(num, mask, i as nat),
            r < pow2(idx as nat),
        decreases 64 - i,
    {
        proof {
            lemma_pow2_unfold((idx + 1) as nat);
        }
        if test_bit(mask, i) {
            if test_bit(num, i) {
                proof {
                    lemma_u64_pow2_no_overflow(idx as nat);
                    lemma_u64_shl_is_mul(1u64, idx);
                    if idx + 1 < 64 {
                        lemma_u64_pow2_no_overflow((idx + 1) as nat);
                    } else {
                        lemma2_to64_rest();
                    }
                }
                r = r + (1u64 << idx);
            }
            idx = idx + 1;
        }
        i = i + 1;
    }
    r
}

} // verus!
