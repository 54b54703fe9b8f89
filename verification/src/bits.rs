//! Facts about the low bits of directory indices.

use vstd::prelude::*;
use crate::word::low_bits;

verus! {

/// A directory of depth at most 16 has at most 65536 entries, and the low
/// bits of any word index one of them.
pub proof fn lemma_size_bound(depth: u8)
    requires
        depth <= 16,
    ensures
        1 <= (1u64 << (depth as u64)) <= 65536,
        forall|x: u64| #[trigger] low_bits(x, depth) < (1u64 << (depth as u64)),
{
    let d = depth as u64;
    assert(1 <= (1u64 << d) <= 65536) by (bit_vector)
        requires
            d <= 16,
    ;
    assert forall|x: u64| #[trigger] low_bits(x, depth) < (1u64 << (depth as u64)) by {
        assert(x & (((1u64 << d) - 1) as u64) < (1u64 << d)) by (bit_vector)
            requires
                d <= 16,
        ;
    }
}

/// At depth one the directory has two entries, which are their own low
/// bit.
pub proof fn lemma_depth_one()
    ensures
        (1u64 << 1u64) == 2,
        low_bits(0, 1) == 0,
        low_bits(1, 1) == 1,
{
    assert((1u64 << 1u64) == 2 && 0u64 & (((1u64 << 1u64) - 1) as u64) == 0 && 1u64 & (((1u64
        << 1u64) - 1) as u64) == 1) by (bit_vector);
}

/// Taking fewer low bits of the low bits of a word is taking them of the
/// word.
pub proof fn lemma_low_bits_nested(x: u64, d: u8, e: u8)
    requires
        e <= d <= 63,
    ensures
        low_bits(low_bits(x, d), e) == low_bits(x, e),
{
    let dd = d as u64;
    let ee = e as u64;
    assert((x & (((1u64 << dd) - 1) as u64)) & (((1u64 << ee) - 1) as u64) == x & (((1u64 << ee)
        - 1) as u64)) by (bit_vector)
        requires
            ee <= dd <= 63,
    ;
}

/// A word below two to the power `d` is its own low `d` bits.
pub proof fn lemma_low_bits_small(x: u64, d: u8)
    requires
        d <= 63,
        x < (1u64 << (d as u64)),
    ensures
        low_bits(x, d) == x,
{
    let dd = d as u64;
    assert(x & (((1u64 << dd) - 1) as u64) == x) by (bit_vector)
        requires
            dd <= 63,
            x < (1u64 << dd),
    ;
}

/// A deeper directory is no smaller.
pub proof fn lemma_size_monotone(d: u8, e: u8)
    requires
        d <= e <= 16,
    ensures
        (1u64 << (d as u64)) <= (1u64 << (e as u64)),
        d < e ==> 2 * (1u64 << (d as u64)) <= (1u64 << (e as u64)),
{
    let dd = d as u64;
    let ee = e as u64;
    assert((1u64 << dd) <= (1u64 << ee) && (dd < ee ==> 2 * (1u64 << dd) <= (1u64 << ee)))
        by (bit_vector)
        requires
            dd <= ee <= 16,
    ;
}

/// One more bit doubles the size; an index of the upper half is an index
/// of the lower half plus the old size, and has the lower one's low bits.
pub proof fn lemma_double(j: u64, d: u8)
    requires
        d < 16,
        j < (1u64 << ((d + 1) as u64)),
    ensures
        (1u64 << ((d + 1) as u64)) == 2 * (1u64 << (d as u64)),
        j >= (1u64 << (d as u64)) ==> low_bits(j, d) == j - (1u64 << (d as u64)),
        j < (1u64 << (d as u64)) ==> low_bits(j, d) == j,
{
    let dd = d as u64;
    assert((1u64 << ((dd + 1) as u64)) == 2 * (1u64 << dd) && (j >= (1u64 << dd) ==> j & (((1u64
        << dd) - 1) as u64) == j - (1u64 << dd)) && (j < (1u64 << dd) ==> j & (((1u64 << dd)
        - 1) as u64) == j)) by (bit_vector)
        requires
            dd < 16,
            j < (1u64 << ((dd + 1) as u64)),
    ;
}

/// Indices with the same low `d` bits lie two to the power `d` apart.
pub proof fn lemma_stride(i: u64, j: u64, d: u8)
    requires
        d <= 17,
        i < 0x10_0000,
        j < 0x10_0000,
    ensures
        low_bits((i + (1u64 << (d as u64))) as u64, d) == low_bits(i, d),
        low_bits(i, d) == low_bits(j, d) && i < j ==> j >= i + (1u64 << (d as u64)),
        low_bits(i, d) <= i,
        (1u64 << (d as u64)) >= 1,
        (1u64 << (d as u64)) <= 0x2_0000,
{
    let dd = d as u64;
    assert(((i + (1u64 << dd)) as u64) & (((1u64 << dd) - 1) as u64) == i & (((1u64 << dd)
        - 1) as u64) && ((i & (((1u64 << dd) - 1) as u64)) == (j & (((1u64 << dd) - 1) as u64))
        && i < j ==> j >= i + (1u64 << dd)) && (i & (((1u64 << dd) - 1) as u64)) <= i && (1u64
        << dd) >= 1 && (1u64 << dd) <= 0x2_0000) by (bit_vector)
        requires
            dd <= 17,
            i < 0x10_0000,
            j < 0x10_0000,
    ;
}

/// The low `d + 1` bits of a word are its low `d` bits, with or without
/// the next bit.
pub proof fn lemma_next_bit(x: u64, d: u8)
    requires
        d <= 16,
    ensures
        low_bits(x, (d + 1) as u8) == low_bits(x, d) || low_bits(x, (d + 1) as u8) == low_bits(x, d)
            + (1u64 << (d as u64)),
        low_bits(x, d) < (1u64 << (d as u64)),
        low_bits(x, d) | (1u64 << (d as u64)) == low_bits(x, d) + (1u64 << (d as u64)),
        low_bits((low_bits(x, d) | (1u64 << (d as u64))) as u64, (d + 1) as u8)
            == low_bits(x, d) + (
        1u64 << (d as u64)),
{
    let dd = d as u64;
    let m = x & (((1u64 << dd) - 1) as u64);
    let m1 = x & (((1u64 << ((dd + 1) as u64)) - 1) as u64);
    assert((m1 == m || m1 == m + (1u64 << dd)) && m < (1u64 << dd) && (m | (1u64 << dd)) == m + (
    1u64 << dd) && ((m | (1u64 << dd)) & (((1u64 << ((dd + 1) as u64)) - 1) as u64)) == m + (1u64
        << dd)) by (bit_vector)
        requires
            dd <= 16,
            m == x & (((1u64 << dd) - 1) as u64),
            m1 == x & (((1u64 << ((dd + 1) as u64)) - 1) as u64),
    ;
}

} // verus!
