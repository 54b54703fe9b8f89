//! Suffix arithmetic on directory indices and the encoding of slot words.

use vstd::prelude::*;
use crate::config::{KV_HEADER_SIZE, MAX_KV_SIZE};
use crate::hash::{dir_hash, fingerprint, HashMethod};
use crate::kvblock::{crc_matches, record_checksum, record_crc, record_len};
use crate::word::{low48, low_bits, pack, pack_word, second_byte, top_byte};

verus! {

/// The directory index of a key at a given depth.
pub open spec fn key_suffix(key: Seq<char>, depth: u8) -> u64 {
    low_bits(dir_hash(key) as u64, depth)
}

/// The slot word that refers to the record of `key` and `val` at `ptr`.
pub open spec fn slot_word(key: Seq<char>, val: Seq<char>, ptr: u64) -> u64 {
    pack(fingerprint(key) as u8, record_len(key, val) as u8, ptr)
}

/// The index that a split at depth `old_local_depth` gives to the new
/// subtable: `old_index` with the next bit set.
pub open spec fn new_suffix(old_index: u64, old_local_depth: u8) -> u64 {
    low_bits(old_index | (1u64 << (old_local_depth as u64)), (old_local_depth + 1) as u8)
}

/// Builds a slot word from its three fields.
pub fn set_data(fp: u8, len: u8, ptr: u64) -> (data: u64)
    ensures
        data == pack(fp, len, ptr),
        top_byte(data) == fp,
        second_byte(data) == len,
        low48(data) == low48(ptr),
{
    pack_word(fp, len, ptr)
}

/// The namespace of the suffix and slot word functions.
pub struct RaceUtils {}

impl RaceUtils {
    /// The low `depth` bits of the key's directory hash.
    pub fn get_suffix(key: &String, depth: u8) -> (r: u64)
        requires
            depth < 64,
        ensures
            r == key_suffix(key@, depth),
    {
        let hash_key = crate::hash::Hash::hash(key, HashMethod::Directory);
        RaceUtils::restrict_suffix_to(hash_key, depth)
    }

    /// The low `local_depth` bits of `key`.
    pub fn restrict_suffix_to(key: u64, local_depth: u8) -> (r: u64)
        requires
            local_depth < 64,
        ensures
            r == low_bits(key, local_depth),
    {
        let d = local_depth as u64;
        assert((1u64 << d) >= 1) by (bit_vector)
            requires
                d < 64,
        ;
        let mask = (1u64 << d) - 1;
        key & mask
    }

    /// `suffix` with bit number `index` set, counting from one.
    pub fn add_bit_to_suffix(suffix: u64, index: u8) -> (r: u64)
        requires
            1 <= index <= 64,
        ensures
            r == suffix | (1u64 << ((index - 1) as u64)),
    {
        suffix | (1u64 << ((index - 1) as u64))
    }

    /// `suffix` plus the value of bit number `index`, counting from one.
    pub fn plus_bit_to_suffix(suffix: u64, index: u8) -> (r: u64)
        requires
            1 <= index <= 64,
            suffix + (1u64 << ((index - 1) as u64)) <= u64::MAX,
        ensures
            r == suffix + (1u64 << ((index - 1) as u64)),
    {
        suffix + (1u64 << ((index - 1) as u64))
    }

    /// Number of directory entries at a given depth.
    pub fn depth_to_size(depth: u8) -> (r: usize)
        requires
            depth < 32,
        ensures
            r == 1u64 << (depth as u64),
            r >= 1,
    {
        let d = depth as u64;
        assert(1 <= (1u64 << d) <= 0x8000_0000) by (bit_vector)
            requires
                d < 32,
        ;
        (1u64 << d) as usize
    }

    /// Tells whether the lock byte of a directory entry word is set.
    pub fn check_is_locked(data: u64) -> (r: bool)
        ensures
            r == (top_byte(data) != 0),
    {
        crate::word::read_top_byte(data) > 0
    }

    /// The index of the subtable that a split of `old_index` at depth
    /// `old_local_depth` creates.
    pub fn get_new_suffix_from_old(old_index: u64, old_local_depth: u8) -> (r: u64)
        requires
            old_local_depth < 63,
        ensures
            r == new_suffix(old_index, old_local_depth),
    {
        RaceUtils::restrict_suffix_to(
            RaceUtils::add_bit_to_suffix(old_index, old_local_depth + 1),
            old_local_depth + 1,
        )
    }

    /// The slot word for the record of `key` and `val` stored at `ptr`: the
    /// key's fingerprint, the record's total length and the pointer.
    pub fn set_data(key: &String, val: &String, ptr: u64) -> (data: u64)
        requires
            record_len(key@, val@) <= MAX_KV_SIZE,
        ensures
            data == slot_word(key@, val@, ptr),
            top_byte(data) == fingerprint(key@),
            second_byte(data) == record_len(key@, val@),
            low48(data) == low48(ptr),
    {
        let fp = crate::hash::Hash::hash(key, HashMethod::FingerPrint) as u8;
        let len = KV_HEADER_SIZE + key.as_str().len() + val.as_str().len();
        set_data(fp, len as u8, ptr)
    }

    /// Tells whether `checksum` is the CRC-64 of `key` followed by `value`.
    pub fn check_crc(key: &String, value: &String, checksum: u64) -> (r: bool)
        ensures
            r == (checksum == record_crc(key@, value@)),
    {
        let computed = record_checksum(key, value);
        crc_matches(checksum, computed)
    }
}

} // verus!
