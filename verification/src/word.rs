//! The 64-bit words that the index stores: a byte, a byte and 48 bits, or
//! a byte and 56 bits, most significant first.

use vstd::prelude::*;

verus! {

/// The most significant byte of a word.
pub open spec fn top_byte(w: u64) -> u8 {
    (w >> 56) as u8
}

/// The second most significant byte of a word.
pub open spec fn second_byte(w: u64) -> u8 {
    ((w >> 48) & 0xff) as u8
}

/// The low 48 bits of a word.
pub open spec fn low48(w: u64) -> u64 {
    w & 0x0000_ffff_ffff_ffff
}

/// The low 56 bits of a word.
pub open spec fn low56(w: u64) -> u64 {
    w & 0x00ff_ffff_ffff_ffff
}

/// The word `w` with its most significant byte replaced by `b`.
pub open spec fn with_top_byte(w: u64, b: u8) -> u64 {
    (w & 0x00ff_ffff_ffff_ffff) | ((b as u64) << 56)
}

/// The word `w` with its second most significant byte replaced by `b`.
pub open spec fn with_second_byte(w: u64, b: u8) -> u64 {
    (w & 0xff00_ffff_ffff_ffff) | ((b as u64) << 48)
}

/// The word `w` with its low 48 bits replaced by those of `p`.
pub open spec fn with_low48(w: u64, p: u64) -> u64 {
    (w & 0xffff_0000_0000_0000) | (p & 0x0000_ffff_ffff_ffff)
}

/// The word `w` with its low 56 bits replaced by those of `s`.
pub open spec fn with_low56(w: u64, s: u64) -> u64 {
    (w & 0xff00_0000_0000_0000) | (s & 0x00ff_ffff_ffff_ffff)
}

/// The word made of two bytes and the low 48 bits of `low`.
pub open spec fn pack(top: u8, second: u8, low: u64) -> u64 {
    ((top as u64) << 56) | ((second as u64) << 48) | (low & 0x0000_ffff_ffff_ffff)
}

/// The mask that keeps the low `depth` bits.
pub open spec fn depth_mask(depth: u8) -> u64 {
    ((1u64 << (depth as u64)) - 1) as u64
}

/// The low `depth` bits of `x`.
pub open spec fn low_bits(x: u64, depth: u8) -> u64 {
    x & depth_mask(depth)
}

/// Replacing the top byte changes no other field.
pub proof fn lemma_with_top_byte(w: u64, b: u8)
    ensures
        top_byte(with_top_byte(w, b)) == b,
        second_byte(with_top_byte(w, b)) == second_byte(w),
        low48(with_top_byte(w, b)) == low48(w),
        low56(with_top_byte(w, b)) == low56(w),
{
    assert(top_byte(with_top_byte(w, b)) == b && second_byte(with_top_byte(w, b)) == second_byte(w)
        && low48(with_top_byte(w, b)) == low48(w) && low56(with_top_byte(w, b)) == low56(w))
        by (bit_vector);
}

/// Replacing the second byte changes no other field.
pub proof fn lemma_with_second_byte(w: u64, b: u8)
    ensures
        top_byte(with_second_byte(w, b)) == top_byte(w),
        second_byte(with_second_byte(w, b)) == b,
        low48(with_second_byte(w, b)) == low48(w),
{
    assert(top_byte(with_second_byte(w, b)) == top_byte(w) && second_byte(with_second_byte(w, b))
        == b && low48(with_second_byte(w, b)) == low48(w)) by (bit_vector);
}

/// Replacing the low 48 bits changes no other field.
pub proof fn lemma_with_low48(w: u64, p: u64)
    ensures
        top_byte(with_low48(w, p)) == top_byte(w),
        second_byte(with_low48(w, p)) == second_byte(w),
        low48(with_low48(w, p)) == low48(p),
        low48(p) < 0x1_0000_0000_0000,
        p < 0x1_0000_0000_0000 ==> low48(p) == p,
{
    assert(top_byte(with_low48(w, p)) == top_byte(w) && second_byte(with_low48(w, p))
        == second_byte(w) && low48(with_low48(w, p)) == low48(p) && low48(p) < 0x1_0000_0000_0000
        && (p < 0x1_0000_0000_0000 ==> low48(p) == p)) by (bit_vector);
}

/// Replacing the low 56 bits keeps the top byte.
pub proof fn lemma_with_low56(w: u64, s: u64)
    ensures
        top_byte(with_low56(w, s)) == top_byte(w),
        low56(with_low56(w, s)) == low56(s),
        low56(s) < 0x100_0000_0000_0000,
        s < 0x100_0000_0000_0000 ==> low56(s) == s,
{
    assert(top_byte(with_low56(w, s)) == top_byte(w) && low56(with_low56(w, s)) == low56(s)
        && low56(s) < 0x100_0000_0000_0000 && (s < 0x100_0000_0000_0000 ==> low56(s) == s))
        by (bit_vector);
}

/// The fields of a packed word are what it was packed from.
pub proof fn lemma_pack(top: u8, second: u8, low: u64)
    ensures
        top_byte(pack(top, second, low)) == top,
        second_byte(pack(top, second, low)) == second,
        low48(pack(top, second, low)) == low48(low),
        pack(top, second, low) == with_second_byte(with_top_byte(with_low48(0, low), top), second),
        second != 0 ==> pack(top, second, low) != 0,
{
    assert(top_byte(pack(top, second, low)) == top && second_byte(pack(top, second, low)) == second
        && low48(pack(top, second, low)) == low48(low) && pack(top, second, low)
        == with_second_byte(with_top_byte(with_low48(0, low), top), second) && (second != 0
        ==> pack(top, second, low) != 0)) by (bit_vector);
}

/// A word is determined by its top byte and its low 56 bits.
pub proof fn lemma_word_halves(a: u64, b: u64)
    requires
        top_byte(a) == top_byte(b),
        low56(a) == low56(b),
    ensures
        a == b,
{
    assert(top_byte(a) == top_byte(b) && low56(a) == low56(b) ==> a == b) by (bit_vector);
}

/// Every field of the zero word is zero.
pub proof fn lemma_zero_word()
    ensures
        top_byte(0) == 0,
        second_byte(0) == 0,
        low48(0) == 0,
        low56(0) == 0,
{
    assert(top_byte(0) == 0 && second_byte(0) == 0 && low48(0) == 0 && low56(0) == 0)
        by (bit_vector);
}

/// Reads the most significant byte.
pub fn read_top_byte(w: u64) -> (r: u8)
    ensures
        r == top_byte(w),
{
    assert((w >> 56) < 256) by (bit_vector);
    (w >> 56) as u8
}

/// Reads the second most significant byte.
pub fn read_second_byte(w: u64) -> (r: u8)
    ensures
        r == second_byte(w),
{
    assert(((w >> 48) & 0xff) < 256) by (bit_vector);
    ((w >> 48) & 0xff) as u8
}

/// Reads the low 48 bits.
pub fn read_low48(w: u64) -> (r: u64)
    ensures
        r == low48(w),
        r < 0x1_0000_0000_0000,
{
    assert(w & 0x0000_ffff_ffff_ffff < 0x1_0000_0000_0000) by (bit_vector);
    w & 0x0000_ffff_ffff_ffff
}

/// Reads the low 56 bits.
pub fn read_low56(w: u64) -> (r: u64)
    ensures
        r == low56(w),
        r < 0x100_0000_0000_0000,
{
    assert(w & 0x00ff_ffff_ffff_ffff < 0x100_0000_0000_0000) by (bit_vector);
    w & 0x00ff_ffff_ffff_ffff
}

/// Replaces the most significant byte and leaves the other 56 bits.
pub fn write_top_byte(w: u64, b: u8) -> (r: u64)
    ensures
        r == with_top_byte(w, b),
        top_byte(r) == b,
        second_byte(r) == second_byte(w),
        low48(r) == low48(w),
        low56(r) == low56(w),
{
    proof {
        lemma_with_top_byte(w, b);
    }
    (w & 0x00ff_ffff_ffff_ffff) | ((b as u64) << 56)
}

/// Replaces the second most significant byte and leaves the other 56 bits.
pub fn write_second_byte(w: u64, b: u8) -> (r: u64)
    ensures
        r == with_second_byte(w, b),
        top_byte(r) == top_byte(w),
        second_byte(r) == b,
        low48(r) == low48(w),
{
    proof {
        lemma_with_second_byte(w, b);
    }
    (w & 0xff00_ffff_ffff_ffff) | ((b as u64) << 48)
}

/// Replaces the low 48 bits by those of `p` and leaves the two top bytes.
pub fn write_low48(w: u64, p: u64) -> (r: u64)
    ensures
        r == with_low48(w, p),
        top_byte(r) == top_byte(w),
        second_byte(r) == second_byte(w),
        low48(r) == low48(p),
{
    proof {
        lemma_with_low48(w, p);
    }
    (w & 0xffff_0000_0000_0000) | (p & 0x0000_ffff_ffff_ffff)
}

/// Replaces the low 56 bits by those of `s` and leaves the top byte.
pub fn write_low56(w: u64, s: u64) -> (r: u64)
    ensures
        r == with_low56(w, s),
        top_byte(r) == top_byte(w),
        low56(r) == low56(s),
{
    proof {
        lemma_with_low56(w, s);
    }
    (w & 0xff00_0000_0000_0000) | (s & 0x00ff_ffff_ffff_ffff)
}

/// Builds a word from two bytes and the low 48 bits of `low`.
pub fn pack_word(top: u8, second: u8, low: u64) -> (r: u64)
    ensures
        r == pack(top, second, low),
        top_byte(r) == top,
        second_byte(r) == second,
        low48(r) == low48(low),
{
    proof {
        lemma_pack(top, second, low);
    }
    ((top as u64) << 56) | ((second as u64) << 48) | (low & 0x0000_ffff_ffff_ffff)
}

} // verus!
