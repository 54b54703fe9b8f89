//! Key-value records: a fixed header with the two lengths and a CRC-64
//! checksum, followed by the key and the value.

use vstd::prelude::*;
use vstd::utf8::encode_utf8;
use crate::config::KV_HEADER_SIZE;

verus! {

/// The CRC-64/REDIS checksum of a byte string.
pub uninterp spec fn crc64_redis(bytes: Seq<u8>) -> u64;

/// Calls `crc::Crc::<u64>::checksum` on a `Crc` built by `Crc::<u64>::new`
/// for the catalogue entry `CRC_64_REDIS`. The checksum is a function of the
/// bytes alone; the contract gives that function its name.
#[verifier::external_body]
fn crc64_checksum(bytes: &[u8]) -> (r: u64)
    ensures
        r == crc64_redis(bytes@),
{
    crc::Crc::<u64>::new(&crc::CRC_64_REDIS).checksum(bytes)
}

/// The bytes a record's checksum covers: the key followed by the value.
pub open spec fn record_bytes(key: Seq<char>, value: Seq<char>) -> Seq<u8> {
    encode_utf8(key) + encode_utf8(value)
}

/// The checksum a record of this key and value carries.
pub open spec fn record_crc(key: Seq<char>, value: Seq<char>) -> u64 {
    crc64_redis(record_bytes(key, value))
}

/// Total size of a record in bytes, header included.
pub open spec fn record_len(key: Seq<char>, value: Seq<char>) -> nat {
    KV_HEADER_SIZE as nat + encode_utf8(key).len() + encode_utf8(value).len()
}

/// Computes the checksum of `key` followed by `value`.
pub fn record_checksum(key: &String, value: &String) -> (r: u64)
    ensures
        r == record_crc(key@, value@),
{
    let mut bytes: Vec<u8> = Vec::new();
    bytes.extend_from_slice(key.as_str().as_bytes());
    bytes.extend_from_slice(value.as_str().as_bytes());
    assert(bytes@ =~= record_bytes(key@, value@));
    crc64_checksum(bytes.as_slice())
}

/// Tells whether `stored` is the checksum of `key` followed by `value`,
/// given the checksum `computed` of those bytes.
pub fn crc_matches(stored: u64, computed: u64) -> (r: bool)
    ensures
        r == (stored == computed),
{
    stored == computed
}

/// A record as a reader receives it: a copy of key, value and header.
pub struct KVBlock {
    pub klen: u16,
    pub vlen: u16,
    pub key: String,
    pub value: String,
    pub crc64: u64,
}

impl KVBlock {
    /// The record's checksum is that of its key and value.
    pub open spec fn intact(&self) -> bool {
        self.crc64 == record_crc(self.key@, self.value@)
    }
}

/// A record as the storage side holds it.
pub struct KVBlockMem {
    pub klen: u16,
    pub vlen: u16,
    pub crc64: u64,
    pub key: String,
    pub value: String,
}

impl KVBlockMem {
    /// The header lengths are those of the key and the value.
    pub open spec fn wf(&self) -> bool {
        &&& self.klen == encode_utf8(self.key@).len()
        &&& self.vlen == encode_utf8(self.value@).len()
    }

    /// The stored checksum is that of the stored key and value.
    pub open spec fn intact(&self) -> bool {
        self.crc64 == record_crc(self.key@, self.value@)
    }

    /// Total size in bytes, header included.
    pub open spec fn total_len(&self) -> nat {
        KV_HEADER_SIZE as nat + self.klen as nat + self.vlen as nat
    }

    /// Builds the record of `key` and `value`, with its checksum.
    pub fn new(key: &String, value: &String) -> (b: KVBlockMem)
        requires
            encode_utf8(key@).len() <= u16::MAX,
            encode_utf8(value@).len() <= u16::MAX,
        ensures
            b.key@ == key@,
            b.value@ == value@,
            b.wf(),
            b.intact(),
            b.total_len() == record_len(key@, value@),
    {
        let crc = record_checksum(key, value);
        KVBlockMem {
            klen: key.as_str().len() as u16,
            vlen: value.as_str().len() as u16,
            crc64: crc,
            key: key.clone(),
            value: value.clone(),
        }
    }

    /// Copies the record out.
    pub fn get(&self) -> (b: KVBlock)
        ensures
            b.klen == self.klen,
            b.vlen == self.vlen,
            b.key@ == self.key@,
            b.value@ == self.value@,
            b.crc64 == self.crc64,
    {
        KVBlock {
            klen: self.klen,
            vlen: self.vlen,
            key: self.key.clone(),
            value: self.value.clone(),
            crc64: self.crc64,
        }
    }

    /// Total size in bytes, header included.
    pub fn get_total_length(&self) -> (n: usize)
        ensures
            n == self.total_len(),
    {
        KV_HEADER_SIZE + self.klen as usize + self.vlen as usize
    }
}

} // verus!
