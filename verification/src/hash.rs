//! The four rolling hashes of a key: two bucket-group indices, the
//! fingerprint and the directory index generator.

use vstd::prelude::*;
use vstd::utf8::encode_utf8;
use crate::config::{BUCKET_GROUP_NUM, FP_CAPACITY, MAX_ENTRY_NUM};

verus! {

/// Which of the four roles a hash plays.
pub enum HashMethod {
    CombinedBucket1,
    CombinedBucket2,
    FingerPrint,
    Directory,
}

/// The namespace of the hash functions.
pub struct Hash {}

/// The Horner accumulator over `bytes`: each step reduces the running value
/// modulo `cap`, multiplies by `mult` and adds the next byte.
pub open spec fn rolling(bytes: Seq<u8>, mult: nat, cap: nat) -> nat
    decreases bytes.len(),
{
    if bytes.len() == 0 {
        0
    } else {
        (rolling(bytes.drop_last(), mult, cap) % cap) * mult + bytes.last() as nat
    }
}

/// The accumulator reduced once more, so that it lies below `cap`.
pub open spec fn rolling_hash(bytes: Seq<u8>, mult: nat, cap: nat) -> nat {
    rolling(bytes, mult, cap) % cap
}

/// The bytes a key is hashed over: its UTF-8 encoding.
pub open spec fn key_bytes(key: Seq<char>) -> Seq<u8> {
    encode_utf8(key)
}

/// First bucket-group index of a key.
pub open spec fn group_hash_1(key: Seq<char>) -> nat {
    rolling_hash(key_bytes(key), 31, BUCKET_GROUP_NUM as nat)
}

/// Second bucket-group index of a key.
pub open spec fn group_hash_2(key: Seq<char>) -> nat {
    rolling_hash(key_bytes(key), 131, BUCKET_GROUP_NUM as nat)
}

/// Fingerprint of a key.
pub open spec fn fingerprint(key: Seq<char>) -> nat {
    rolling_hash(key_bytes(key), 1313, FP_CAPACITY as nat)
}

/// Directory hash of a key; its low bits select the directory entry.
pub open spec fn dir_hash(key: Seq<char>) -> nat {
    rolling_hash(key_bytes(key), 13131, MAX_ENTRY_NUM as nat)
}

/// What `Hash::hash` returns for each role.
pub open spec fn hash_of(key: Seq<char>, method: HashMethod) -> nat {
    match method {
        HashMethod::CombinedBucket1 => group_hash_1(key),
        HashMethod::CombinedBucket2 => group_hash_2(key),
        HashMethod::FingerPrint => fingerprint(key),
        HashMethod::Directory => dir_hash(key),
    }
}

/// The largest value the accumulator can take fits a `u64`.
pub open spec fn hash_fits(mult: nat, capacity: nat) -> bool {
    capacity > 0 && (capacity - 1) * mult + 255 <= u64::MAX
}

/// A hash lies below its capacity.
pub proof fn lemma_hash_below(bytes: Seq<u8>, mult: nat, cap: nat)
    requires
        cap > 0,
    ensures
        rolling_hash(bytes, mult, cap) < cap,
{
}

fn rolling_exec(key: &String, mult: u64, capacity: usize) -> (h: u64)
    requires
        hash_fits(mult as nat, capacity as nat),
    ensures
        h == rolling_hash(key_bytes(key@), mult as nat, capacity as nat),
        h < capacity,
{
    let bytes = key.as_str().as_bytes();
    let n = bytes.len();
    let cap = capacity as u64;
    let mut h: u64 = 0;
    let mut i: usize = 0;
    while i < n
        invariant
            i <= n,
            n == bytes@.len(),
            cap == capacity,
            hash_fits(mult as nat, capacity as nat),
            h == rolling(bytes@.take(i as int), mult as nat, capacity as nat),
        decreases n - i,
    {
        let r = h % cap;
        proof {
            assert(r * mult <= (cap - 1) * mult) by (nonlinear_arith)
                requires
                    r <= cap - 1,
                    mult >= 0,
            ;
            assert(bytes@.take(i + 1).drop_last() =~= bytes@.take(i as int));
            assert(bytes@.take(i + 1).last() == bytes@[i as int]);
        }
        h = r * mult + bytes[i] as u64;
        i += 1;
    }
    proof {
        assert(bytes@.take(n as int) =~= bytes@);
    }
    h % cap
}

impl Hash {
    /// Rolling hash with multiplier 31.
    pub fn hash_1(key: &String, capicity: usize) -> (h: u64)
        requires
            hash_fits(31, capicity as nat),
        ensures
            h == rolling_hash(key_bytes(key@), 31, capicity as nat),
            h < capicity,
    {
        rolling_exec(key, 31, capicity)
    }

    /// Rolling hash with multiplier 131.
    pub fn hash_2(key: &String, capicity: usize) -> (h: u64)
        requires
            hash_fits(131, capicity as nat),
        ensures
            h == rolling_hash(key_bytes(key@), 131, capicity as nat),
            h < capicity,
    {
        rolling_exec(key, 131, capicity)
    }

    /// Rolling hash with multiplier 1313.
    pub fn hash_3(key: &String, capicity: usize) -> (h: u64)
        requires
            hash_fits(1313, capicity as nat),
        ensures
            h == rolling_hash(key_bytes(key@), 1313, capicity as nat),
            h < capicity,
    {
        rolling_exec(key, 1313, capicity)
    }

    /// Rolling hash with multiplier 13131.
    pub fn hash_4(key: &String, capicity: usize) -> (h: u64)
        requires
            hash_fits(13131, capicity as nat),
        ensures
            h == rolling_hash(key_bytes(key@), 13131, capicity as nat),
            h < capicity,
    {
        rolling_exec(key, 13131, capicity)
    }

    /// The hash of `key` in the given role, reduced to the range of that
    /// role: a bucket-group index, a fingerprint or a directory index.
    pub fn hash(key: &String, method: HashMethod) -> (h: u64)
        ensures
            h == hash_of(key@, method),
            method is CombinedBucket1 || method is CombinedBucket2 ==> h < BUCKET_GROUP_NUM,
            method is FingerPrint ==> h < FP_CAPACITY,
            method is Directory ==> h < MAX_ENTRY_NUM,
    {
        match method {
            HashMethod::CombinedBucket1 => Hash::hash_1(key, BUCKET_GROUP_NUM),
            HashMethod::CombinedBucket2 => Hash::hash_2(key, BUCKET_GROUP_NUM),
            HashMethod::FingerPrint => Hash::hash_3(key, FP_CAPACITY),
            HashMethod::Directory => Hash::hash_4(key, MAX_ENTRY_NUM),
        }
    }
}

} // verus!
