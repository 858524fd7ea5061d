//! Facts about the single bits of 64-bit words.
//!
//! Every other module reasons about square sets bit by bit; the lemmas here
//! connect the machine operations (`&`, `|`, `^`, `!`, shifts) to that view.

use vstd::prelude::*;

verus! {

/// Whether bit `i` of `x` is set.
pub open spec fn bit(x: u64, i: u64) -> bool {
    (x >> i) & 1 == 1
}

/// A bit of `a | b` is set where it is set in `a` or in `b`.
pub broadcast proof fn lemma_bit_or(a: u64, b: u64, i: u64)
    by (bit_vector)
    requires
        i < 64,
    ensures
        #[trigger] bit(a | b, i) == (bit(a, i) || bit(b, i)),
{
}

/// A bit of `a & b` is set where it is set in `a` and in `b`.
pub broadcast proof fn lemma_bit_and(a: u64, b: u64, i: u64)
    by (bit_vector)
    requires
        i < 64,
    ensures
        #[trigger] bit(a & b, i) == (bit(a, i) && bit(b, i)),
{
}

/// A bit of `a ^ b` is set where it is set in one of `a` and `b` only.
pub broadcast proof fn lemma_bit_xor(a: u64, b: u64, i: u64)
    by (bit_vector)
    requires
        i < 64,
    ensures
        #[trigger] bit(a ^ b, i) == (bit(a, i) != bit(b, i)),
{
}

/// A bit of `!a` is set where it is not set in `a`.
pub broadcast proof fn lemma_bit_not(a: u64, i: u64)
    by (bit_vector)
    requires
        i < 64,
    ensures
        #[trigger] bit(!a, i) == !bit(a, i),
{
}

/// The word `1 << j` has bit `j` and no other.
pub broadcast proof fn lemma_bit_single(j: u64, i: u64)
    by (bit_vector)
    requires
        i < 64,
        j < 64,
    ensures
        #[trigger] bit(1u64 << j, i) == (i == j),
{
}

/// The word 0 has no bit.
pub broadcast proof fn lemma_bit_zero(i: u64)
    by (bit_vector)
    requires
        i < 64,
    ensures
        !#[trigger] bit(0u64, i),
{
}

/// Bit `i` of `x << k` is bit `i - k` of `x`; the lowest `k` bits are clear.
pub broadcast proof fn lemma_bit_shl(x: u64, k: u64, i: u64)
    by (bit_vector)
    requires
        i < 64,
        k < 64,
    ensures
        #[trigger] bit(x << k, i) == (i >= k && bit(x, (i - k) as u64)),
{
}

/// Bit `i` of `x >> k` is bit `i + k` of `x`; the highest `k` bits are clear.
pub broadcast proof fn lemma_bit_shr(x: u64, k: u64, i: u64)
    by (bit_vector)
    requires
        i < 64,
        k < 64,
    ensures
        #[trigger] bit(x >> k, i) == (i + k < 64 && bit(x, (i + k) as u64)),
{
}

/// A byte placed in row `j` of a word shows its bits in that row only.
pub proof fn lemma_bit_row_byte(x: u8, j: u64, i: u64)
    by (bit_vector)
    requires
        j < 8,
        i < 64,
    ensures
        bit((x as u64) << (8 * j), i) == (i / 8 == j && bit(x as u64, i % 8)),
{
}

/// Masking a word with a single bit tests that bit.
pub proof fn lemma_bit_test(x: u64, i: u64)
    by (bit_vector)
    requires
        i < 64,
    ensures
        (x & (1u64 << i) != 0) == bit(x, i),
{
}

/// Stepping through the subsets of a mask in ascending order: from a subset
/// `s` of `m`, filling the bits outside `m`, adding one and masking again
/// gives the least subset of `m` above `s`; only from `m` itself, the last
/// subset, is there nothing to add to.
pub proof fn lemma_next_subset(s: u64, m: u64, t: u64)
    by (bit_vector)
    requires
        s & !m == 0,
    ensures
        ((s | !m) == 0xffff_ffff_ffff_ffffu64) == (s == m),
        s != m ==> ((((s | !m) + 1) as u64) & m) & !m == 0 && (((s | !m) + 1) as u64) & m > s,
        t & !m == 0 && t > s ==> s != m && (((s | !m) + 1) as u64) & m <= t,
        t & !m == 0 ==> t <= m,
{
}

/// What is left of a word shifted right by `shift` fits in `64 - shift` bits.
pub proof fn lemma_shifted_bound(x: u64, shift: u64)
    by (bit_vector)
    requires
        1 <= shift < 64,
    ensures
        (x >> shift) < (1u64 << ((64 - shift) as u64)),
        (1u64 << ((64 - shift) as u64)) > 0,
        shift >= 44 ==> (1u64 << ((64 - shift) as u64)) <= 0x10_0000,
{
}

/// Clearing a bit and flipping it gives the word back where the bit was
/// set; clearing it changes nothing where it was not.
pub proof fn lemma_bit_restore(x: u64, i: u64)
    by (bit_vector)
    requires
        i < 64,
    ensures
        bit(x, i) ==> (x & !(1u64 << i)) ^ (1u64 << i) == x,
        !bit(x, i) ==> x & !(1u64 << i) == x,
{
}

/// Flipping the same bits twice gives the word back, also with other bits
/// flipped in between.
pub proof fn lemma_flip_twice(x: u64, a: u64, b: u64)
    by (bit_vector)
    ensures
        (x ^ a) ^ a == x,
        (((x ^ a) ^ b) ^ a) ^ b == x,
{
}

/// The mask of a row holds exactly the squares of that row.
pub broadcast proof fn lemma_bit_row_mask(s: u64, i: u64)
    by (bit_vector)
    requires
        i < 64,
        s < 64,
        s % 8 == 0,
    ensures
        #[trigger] bit(0xFFu64 << s, i) == (i / 8 == s / 8),
{
}

/// The mask of a column holds exactly the squares of that column.
pub broadcast proof fn lemma_bit_col_mask(c: u64, i: u64)
    by (bit_vector)
    requires
        i < 64,
        c < 8,
    ensures
        #[trigger] bit(0x0101_0101_0101_0101u64 << c, i) == (i % 8 == c),
{
}

pub broadcast group group_bit_ops {
    lemma_bit_or,
    lemma_bit_and,
    lemma_bit_xor,
    lemma_bit_not,
    lemma_bit_single,
    lemma_bit_zero,
    lemma_bit_shl,
    lemma_bit_shr,
    lemma_bit_row_mask,
    lemma_bit_col_mask,
}

/// A word that is not zero has a lowest set bit, and `trailing_zeros` finds it.
pub proof fn lemma_lowest_bit(x: u64)
    requires
        x != 0,
    ensures
        x.trailing_zeros() < 64,
        bit(x, x.trailing_zeros() as u64),
        forall|j: u64| j < x.trailing_zeros() ==> !bit(x, j),
{
    vstd::std_specs::bits::axiom_u64_trailing_zeros(x);
    let tz = x.trailing_zeros();
    assert forall|j: u64| j < tz implies !bit(x, j) by {
        assert((x >> j) & 1u64 == 0u64);
    }
}

/// Two words that agree on every bit are equal.
pub proof fn lemma_bits_equal(a: u64, b: u64)
    requires
        forall|i: u64| i < 64 ==> bit(a, i) == bit(b, i),
    ensures
        a == b,
{
    let d = a ^ b;
    if d != 0 {
        lemma_lowest_bit(d);
        let i = d.trailing_zeros() as u64;
        lemma_bit_xor(a, b, i);
        assert(bit(a, i) == bit(b, i));
    }
    assert(a ^ b == 0 ==> a == b) by (bit_vector);
}

} // verus!
