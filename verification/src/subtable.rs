//! Slots, bucket headers, buckets, bucket groups and subtables, and the
//! combined buckets that a reader takes a snapshot of.

use vstd::prelude::*;
use std::collections::HashMap;
use crate::config::{BUCKET_GROUP_NUM, BUCKET_NUM, SLOT_NUM};
use crate::hash::{fingerprint, HashMethod};
use crate::kvblock::{KVBlock, KVBlockMem};
use crate::word::{
    low48, low56, read_low48, read_low56, read_second_byte, read_top_byte, second_byte, top_byte,
    with_low48, with_low56, with_second_byte, with_top_byte, write_low48, write_low56,
    write_second_byte, write_top_byte,
};

verus! {

/// Where a slot lies, and the header that the writer saw when it picked
/// the slot.
#[derive(Clone, Copy)]
pub struct SlotPos {
    pub subtable: u64,
    pub bucket_group: usize,
    pub bucket: usize,
    pub header: u64,
    pub slot: usize,
}

impl SlotPos {
    /// The three indices are in range.
    pub open spec fn in_range(&self) -> bool {
        self.bucket_group < BUCKET_GROUP_NUM && self.bucket < BUCKET_NUM && self.slot < SLOT_NUM
    }
}

/// A slot word: fingerprint, record length, record pointer.
#[derive(Clone, Copy)]
pub struct Slot {
    pub data: u64,
}

/// What a record copied out of the store holds.
pub open spec fn copy_of(b: KVBlock, m: KVBlockMem) -> bool {
    &&& b.klen == m.klen
    &&& b.vlen == m.vlen
    &&& b.key@ == m.key@
    &&& b.value@ == m.value@
    &&& b.crc64 == m.crc64
}

impl Slot {
    /// The fingerprint field.
    pub open spec fn fp(&self) -> u8 {
        top_byte(self.data)
    }

    /// The length field; zero marks an empty slot.
    pub open spec fn len(&self) -> u8 {
        second_byte(self.data)
    }

    /// The pointer field.
    pub open spec fn ptr(&self) -> u64 {
        low48(self.data)
    }

    /// Whether the slot is empty.
    pub open spec fn is_empty(&self) -> bool {
        self.len() == 0
    }

    /// Whether the slot refers to a record of the store whose key is `key`.
    pub open spec fn holds(&self, kvs: Map<u64, KVBlockMem>, key: Seq<char>) -> bool {
        !self.is_empty() && kvs.contains_key(self.ptr()) && kvs[self.ptr()].key@ == key
    }

    /// Whether a reader that looks for `key` with fingerprint `fp` stops at
    /// this slot.
    pub open spec fn matches(&self, kvs: Map<u64, KVBlockMem>, key: Seq<char>, fp: u8) -> bool {
        self.holds(kvs, key) && self.fp() == fp
    }

    /// Replaces the word by `data` if it equals `expected`; tells whether it did.
    pub fn compare_and_swap(&mut self, data: u64, expected: u64) -> (ok: bool)
        ensures
            ok == (old(self).data == expected),
            final(self).data == if ok {
                data
            } else {
                old(self).data
            },
    {
        if self.data == expected {
            self.data = data;
            true
        } else {
            false
        }
    }

    /// The fingerprint field.
    pub fn get_fingerprint(&self) -> (r: u8)
        ensures
            r == self.fp(),
    {
        read_top_byte(self.data)
    }

    /// Sets the fingerprint field and keeps the others.
    pub fn set_fingerprint(&mut self, fp: u8)
        ensures
            final(self).data == with_top_byte(old(self).data, fp),
            final(self).fp() == fp,
            final(self).len() == old(self).len(),
            final(self).ptr() == old(self).ptr(),
    {
        self.data = write_top_byte(self.data, fp);
    }

    /// The length field.
    pub fn get_length(&self) -> (r: u8)
        ensures
            r == self.len(),
    {
        read_second_byte(self.data)
    }

    /// Sets the length field and keeps the others.
    pub fn set_length(&mut self, len: u8)
        ensures
            final(self).data == with_second_byte(old(self).data, len),
            final(self).fp() == old(self).fp(),
            final(self).len() == len,
            final(self).ptr() == old(self).ptr(),
    {
        self.data = write_second_byte(self.data, len);
    }

    /// Whether the slot is empty: its length field is zero.
    pub fn judge_empty(&self) -> (r: bool)
        ensures
            r == self.is_empty(),
    {
        self.get_length() == 0
    }

    /// The pointer field.
    pub fn get_kv_pointer(&self) -> (r: u64)
        ensures
            r == self.ptr(),
    {
        read_low48(self.data)
    }

    /// Stores the low 48 bits of `ptr` as the pointer field.
    pub fn set_kv_pointer(&mut self, ptr: u64)
        ensures
            final(self).data == with_low48(old(self).data, ptr),
            final(self).fp() == old(self).fp(),
            final(self).len() == old(self).len(),
            final(self).ptr() == low48(ptr),
    {
        self.data = write_low48(self.data, ptr);
    }

    /// The whole word.
    pub fn get_data(&self) -> (r: u64)
        ensures
            r == self.data,
    {
        self.data
    }

    /// Loads the word.
    pub fn get_atomic(&self) -> (r: u64)
        ensures
            r == self.data,
    {
        self.data
    }

    /// The record the slot points to, if the store has one there.
    pub fn get_kv(&self, kvs: &HashMap<u64, KVBlockMem>) -> (r: Option<KVBlock>)
        ensures
            r is Some <==> kvs@.contains_key(self.ptr()),
            r matches Some(b) ==> copy_of(b, kvs@[self.ptr()]),
    {
        let p = self.get_kv_pointer();
        match kvs.get(&p) {
            Some(m) => Some(m.get()),
            None => None,
        }
    }

    /// The record of `key`, if the slot is in use, carries fingerprint `fp`
    /// and points to a record with that key.
    pub fn get_by_key(&self, key: &String, fp: u8, kvs: &HashMap<u64, KVBlockMem>) -> (r: Option<
        KVBlock,
    >)
        ensures
            r is Some <==> self.matches(kvs@, key@, fp),
            r matches Some(b) ==> copy_of(b, kvs@[self.ptr()]),
    {
        if self.get_length() == 0 {
            return None;
        }
        if self.get_fingerprint() == fp {
            let p = self.get_kv_pointer();
            match kvs.get(&p) {
                Some(m) => {
                    if m.key == *key {
                        return Some(m.get());
                    }
                },
                None => {},
            }
        }
        None
    }
}

/// A bucket header word: local depth and suffix.
#[derive(Clone, Copy)]
pub struct Header {
    pub data: u64,
}

impl Header {
    /// The local depth field.
    pub open spec fn local_depth(&self) -> u8 {
        top_byte(self.data)
    }

    /// The suffix field.
    pub open spec fn suffix(&self) -> u64 {
        low56(self.data)
    }

    /// The local depth field.
    pub fn get_local_depth(&self) -> (r: u8)
        ensures
            r == self.local_depth(),
    {
        read_top_byte(self.data)
    }

    /// Sets the local depth field and keeps the others.
    pub fn set_local_depth(&mut self, depth: u8)
        ensures
            final(self).data == with_top_byte(old(self).data, depth),
            final(self).local_depth() == depth,
            final(self).suffix() == old(self).suffix(),
    {
        self.data = write_top_byte(self.data, depth);
    }

    /// The suffix field.
    pub fn get_suffix(&self) -> (r: u64)
        ensures
            r == self.suffix(),
    {
        read_low56(self.data)
    }

    /// Stores the low 56 bits of `suffix` as the suffix field.
    pub fn set_suffix(&mut self, suffix: u64)
        ensures
            final(self).data == with_low56(old(self).data, suffix),
            final(self).local_depth() == old(self).local_depth(),
            final(self).suffix() == low56(suffix),
    {
        self.data = write_low56(self.data, suffix);
    }

    /// The whole word.
    pub fn get_data(&self) -> (r: u64)
        ensures
            r == self.data,
    {
        self.data
    }
}

/// The header word for a local depth and a suffix.
pub open spec fn header_word(local_depth: u8, suffix: u64) -> u64 {
    with_low56(with_top_byte(0, local_depth), suffix)
}

/// `n` is the number of slots in use at the front of `slots`: the index of
/// the first empty slot, or the length if none is empty.
pub open spec fn used_count(slots: Seq<Slot>, n: int) -> bool {
    &&& 0 <= n <= slots.len()
    &&& forall|k: int| 0 <= k < n ==> !(#[trigger] slots[k]).is_empty()
    &&& n < slots.len() ==> slots[n].is_empty()
}

/// The index of the first empty slot of `slots` at or after `i`, or the
/// length if there is none.
pub open spec fn used_from(slots: Seq<Slot>, i: int) -> int
    decreases slots.len() - i,
{
    if 0 <= i < slots.len() && !slots[i].is_empty() {
        used_from(slots, i + 1)
    } else {
        i
    }
}

/// Number of slots in use at the front of `slots`.
pub open spec fn used_slots(slots: Seq<Slot>) -> int {
    used_from(slots, 0)
}

/// The scan for the first empty slot from `i` on ends at `n` if the
/// slots from `i` to `n` are in use and slot `n`, if there is one, is not.
pub proof fn lemma_used_from(slots: Seq<Slot>, i: int, n: int)
    requires
        0 <= i <= n <= slots.len(),
        forall|k: int| i <= k < n ==> !(#[trigger] slots[k]).is_empty(),
        n < slots.len() ==> slots[n].is_empty(),
    ensures
        used_from(slots, i) == n,
    decreases n - i,
{
    if i < n {
        lemma_used_from(slots, i + 1, n);
    }
}

/// The count of slots in use is the one number that `used_count` admits.
pub proof fn lemma_used_slots(slots: Seq<Slot>, n: int)
    requires
        used_count(slots, n),
    ensures
        used_slots(slots) == n,
{
    lemma_used_from(slots, 0, n);
}

/// The scan for the first empty slot finds the number of slots in use
/// at the front.
pub proof fn lemma_used_slots_count(slots: Seq<Slot>, i: int)
    requires
        0 <= i <= slots.len(),
        forall|k: int| 0 <= k < i ==> !(#[trigger] slots[k]).is_empty(),
    ensures
        used_count(slots, used_from(slots, i)),
        i <= used_from(slots, i),
    decreases slots.len() - i,
{
    if i < slots.len() && !slots[i].is_empty() {
        lemma_used_slots_count(slots, i + 1);
    }
}

/// `k` is the first slot of `slots` at which a reader of `key` stops.
pub open spec fn first_match(
    slots: Seq<Slot>,
    kvs: Map<u64, KVBlockMem>,
    key: Seq<char>,
    fp: u8,
    k: int,
) -> bool {
    &&& 0 <= k < slots.len()
    &&& slots[k].matches(kvs, key, fp)
    &&& forall|k2: int| 0 <= k2 < k ==> !(#[trigger] slots[k2]).matches(kvs, key, fp)
}

/// No slot of `slots` stops a reader of `key`.
pub open spec fn no_match(slots: Seq<Slot>, kvs: Map<u64, KVBlockMem>, key: Seq<char>,
    fp: u8) -> bool {
    forall|k: int| 0 <= k < slots.len() ==> !(#[trigger] slots[k]).matches(kvs, key, fp)
}

/// One header and its slots.
#[derive(Clone, Copy)]
pub struct Bucket {
    pub header: Header,
    pub slots: [Slot; SLOT_NUM],
}

impl Bucket {
    /// A bucket with the given header word and no slot in use.
    pub fn new(header: u64) -> (b: Bucket)
        ensures
            b.header.data == header,
            forall|k: int| 0 <= k < SLOT_NUM ==> (#[trigger] b.slots@[k]).data == 0,
    {
        Bucket { header: Header { data: header }, slots: [Slot { data: 0 };SLOT_NUM] }
    }

    /// Counts the slots in use up to the first empty one.
    pub fn get_used_slot_num(&self) -> (n: usize)
        ensures
            used_count(self.slots@, n as int),
            n == used_slots(self.slots@),
    {
        let mut n: usize = 0;
        while n < SLOT_NUM && !self.slots[n].judge_empty()
            invariant
                n <= SLOT_NUM,
                forall|k: int| 0 <= k < n ==> !(#[trigger] self.slots@[k]).is_empty(),
            decreases SLOT_NUM - n,
        {
            n += 1;
        }
        proof {
            lemma_used_slots(self.slots@, n as int);
        }
        n
    }

    /// Compare-and-swap on one slot.
    pub fn set(&mut self, slot: usize, data: u64, expected: u64) -> (ok: bool)
        requires
            slot < SLOT_NUM,
        ensures
            ok == (old(self).slots@[slot as int].data == expected),
            final(self).header == old(self).header,
            final(self).slots@ == if ok {
                old(self).slots@.update(slot as int, Slot { data })
            } else {
                old(self).slots@
            },
    {
        let ok = self.slots[slot].compare_and_swap(data, expected);
        assert(self.slots@ =~= if ok {
            old(self).slots@.update(slot as int, Slot { data })
        } else {
            old(self).slots@
        });
        ok
    }

    /// Loads one slot word.
    pub fn get(&self, slot: usize) -> (r: u64)
        requires
            slot < SLOT_NUM,
        ensures
            r == self.slots@[slot as int].data,
    {
        self.slots[slot].get_atomic()
    }

    /// The record one slot points to.
    pub fn get_kv(&self, slot: usize, kvs: &HashMap<u64, KVBlockMem>) -> (r: Option<KVBlock>)
        requires
            slot < SLOT_NUM,
        ensures
            r is Some <==> kvs@.contains_key(self.slots@[slot as int].ptr()),
            r matches Some(b) ==> copy_of(b, kvs@[self.slots@[slot as int].ptr()]),
    {
        self.slots[slot].get_kv(kvs)
    }

    /// The record of the first slot that matches `key` and `fp`.
    pub fn get_by_key(&self, key: &String, fp: u8, kvs: &HashMap<u64, KVBlockMem>) -> (r: Option<
        KVBlock,
    >)
        ensures
            r is None ==> no_match(self.slots@, kvs@, key@, fp),
            r matches Some(b) ==> exists|k: int|
                first_match(self.slots@, kvs@, key@, fp, k) && copy_of(
                    b,
                    kvs@[(#[trigger] self.slots@[k]).ptr()],
                ),
    {
        let mut i: usize = 0;
        while i < SLOT_NUM
            invariant
                i <= SLOT_NUM,
                forall|k: int| 0 <= k < i ==> !(#[trigger] self.slots@[k]).matches(kvs@, key@, fp),
            decreases SLOT_NUM - i,
        {
            if let Some(v) = self.slots[i].get_by_key(key, fp, kvs) {
                assert(first_match(self.slots@, kvs@, key@, fp, i as int));
                return Some(v);
            }
            i += 1;
        }
        None
    }

    /// Index and word of the first slot that matches `key` and `fp`.
    pub fn get_slot_and_data(&self, key: &String, fp: u8, kvs: &HashMap<u64, KVBlockMem>) -> (r:
        Option<(usize, u64)>)
        ensures
            r is None ==> no_match(self.slots@, kvs@, key@, fp),
            r matches Some(sd) ==> first_match(self.slots@, kvs@, key@, fp, sd.0 as int) && sd.1
                == self.slots@[sd.0 as int].data,
    {
        let mut i: usize = 0;
        while i < SLOT_NUM
            invariant
                i <= SLOT_NUM,
                forall|k: int| 0 <= k < i ==> !(#[trigger] self.slots@[k]).matches(kvs@, key@, fp),
            decreases SLOT_NUM - i,
        {
            if let Some(_v) = self.slots[i].get_by_key(key, fp, kvs) {
                return Some((i, self.slots[i].get_data()));
            }
            i += 1;
        }
        None
    }

    /// The header word.
    pub fn get_header(&self) -> (r: u64)
        ensures
            r == self.header.data,
    {
        self.header.get_data()
    }

    /// Loads the header.
    pub fn get_header_atomic(&self) -> (r: Header)
        ensures
            r == self.header,
    {
        self.header
    }

    /// Writes local depth and suffix into the header.
    pub fn set_header(&mut self, local_depth: u8, suffix: u64)
        ensures
            final(self).slots == old(self).slots,
            final(self).header.local_depth() == local_depth,
            final(self).header.suffix() == low56(suffix),
            final(self).header.data == with_low56(
                with_top_byte(old(self).header.data, local_depth),
                suffix,
            ),
    {
        self.header.set_local_depth(local_depth);
        self.header.set_suffix(suffix);
    }
}

/// A reader's snapshot of one side of a key: a main bucket and the
/// overflow bucket of the same group.
#[derive(Clone, Copy)]
pub struct CombinedBucket {
    pub subtable: u64,
    pub bucket_group: usize,
    pub main_bucket: Bucket,
    pub overflow_bucket: Bucket,
}

/// The count of a combined bucket: the main bucket's used slots while it
/// has room, else all of its slots plus the overflow bucket's used slots.
pub open spec fn combined_count(main: Seq<Slot>, overflow: Seq<Slot>) -> int {
    if used_slots(main) < SLOT_NUM {
        used_slots(main)
    } else {
        used_slots(main) + used_slots(overflow)
    }
}

impl CombinedBucket {
    /// The count of this snapshot.
    pub open spec fn spec_count(&self) -> int {
        combined_count(self.main_bucket.slots@, self.overflow_bucket.slots@)
    }

    /// No slot of the snapshot stops a reader of `key`.
    pub open spec fn misses(&self, kvs: Map<u64, KVBlockMem>, key: Seq<char>) -> bool {
        &&& no_match(self.main_bucket.slots@, kvs, key, fingerprint(key) as u8)
        &&& no_match(self.overflow_bucket.slots@, kvs, key, fingerprint(key) as u8)
    }

    /// The slot at which a reader of `key` stops: the first match of the
    /// main bucket, else the first match of the overflow bucket.
    pub open spec fn hit(
        &self,
        kvs: Map<u64, KVBlockMem>,
        key: Seq<char>,
        in_overflow: bool,
        k: int,
    ) -> bool {
        if in_overflow {
            &&& no_match(self.main_bucket.slots@, kvs, key, fingerprint(key) as u8)
            &&& first_match(self.overflow_bucket.slots@, kvs, key, fingerprint(key) as u8, k)
        } else {
            first_match(self.main_bucket.slots@, kvs, key, fingerprint(key) as u8, k)
        }
    }

    /// The slot at `k` of the main or the overflow bucket.
    pub open spec fn slot(&self, in_overflow: bool, k: int) -> Slot {
        if in_overflow {
            self.overflow_bucket.slots@[k]
        } else {
            self.main_bucket.slots@[k]
        }
    }

    /// Number of slots that an insert counts as taken.
    pub fn count(&self) -> (n: usize)
        ensures
            n == self.spec_count(),
            n <= 2 * SLOT_NUM,
    {
        let main_bucket_size = self.main_bucket.get_used_slot_num();
        if main_bucket_size < SLOT_NUM {
            main_bucket_size
        } else {
            main_bucket_size + self.overflow_bucket.get_used_slot_num()
        }
    }

    /// The record of `key`: from the first matching slot of the main
    /// bucket, else of the overflow bucket.
    pub fn get_by_key(&self, key: &String, kvs: &HashMap<u64, KVBlockMem>) -> (r: Option<KVBlock>)
        ensures
            r is None ==> self.misses(kvs@, key@),
            r matches Some(b) ==> exists|in_overflow: bool, k: int|
                self.hit(kvs@, key@, in_overflow, k) && copy_of(
                    b,
                    kvs@[(#[trigger] self.slot(in_overflow, k)).ptr()],
                ),
    {
        let fp = crate::hash::Hash::hash(key, HashMethod::FingerPrint) as u8;
        match self.main_bucket.get_by_key(key, fp, kvs) {
            Some(v) => {
                proof {
                    let k = choose|k: int|
                        first_match(self.main_bucket.slots@, kvs@, key@, fp, k) && copy_of(
                            v,
                            kvs@[(#[trigger] self.main_bucket.slots@[k]).ptr()],
                        );
                    assert(self.hit(kvs@, key@, false, k) && copy_of(
                        v,
                        kvs@[self.slot(false, k).ptr()],
                    ));
                }
                Some(v)
            },
            None => match self.overflow_bucket.get_by_key(key, fp, kvs) {
                Some(v) => {
                    proof {
                        let k = choose|k: int|
                            first_match(self.overflow_bucket.slots@, kvs@, key@, fp, k) && copy_of(
                                v,
                                kvs@[(#[trigger] self.overflow_bucket.slots@[k]).ptr()],
                            );
                        assert(self.hit(kvs@, key@, true, k) && copy_of(
                            v,
                            kvs@[self.slot(true, k).ptr()],
                        ));
                    }
                    Some(v)
                },
                None => None,
            },
        }
    }

    /// Position and word of the slot that holds `key`. `hash_type` tells
    /// which side the snapshot is: 0 for the first hash, whose main bucket
    /// is bucket 0, and 1 for the second, whose main bucket is bucket 2.
    pub fn get_slot_pos_and_data(
        &self,
        key: &String,
        hash_type: usize,
        kvs: &HashMap<u64, KVBlockMem>,
    ) -> (r: Option<(SlotPos, u64)>)
        requires
            hash_type < 2,
        ensures
            r is None ==> self.misses(kvs@, key@),
            r matches Some(spd) ==> {
                let in_overflow = spd.0.bucket == 1;
                &&& self.hit(kvs@, key@, in_overflow, spd.0.slot as int)
                &&& spd.1 == self.slot(in_overflow, spd.0.slot as int).data
                &&& spd.0.subtable == self.subtable
                &&& spd.0.bucket_group == self.bucket_group
                &&& spd.0.bucket == if in_overflow {
                    1
                } else {
                    hash_type * 2
                }
                &&& spd.0.header == if in_overflow {
                    self.overflow_bucket.header.data
                } else {
                    self.main_bucket.header.data
                }
                &&& spd.0.slot < SLOT_NUM
            },
    {
        let fp = crate::hash::Hash::hash(key, HashMethod::FingerPrint) as u8;
        match self.main_bucket.get_slot_and_data(key, fp, kvs) {
            Some(sd) => Some(
                (
                    SlotPos {
                        subtable: self.subtable,
                        bucket_group: self.bucket_group,
                        bucket: hash_type * 2,
                        header: self.main_bucket.get_header(),
                        slot: sd.0,
                    },
                    sd.1,
                ),
            ),
            None => match self.overflow_bucket.get_slot_and_data(key, fp, kvs) {
                Some(sd) => Some(
                    (
                        SlotPos {
                            subtable: self.subtable,
                            bucket_group: self.bucket_group,
                            bucket: 1,
                            header: self.overflow_bucket.get_header(),
                            slot: sd.0,
                        },
                        sd.1,
                    ),
                ),
                None => None,
            },
        }
    }
}

/// Three buckets: the main bucket of the first hash, the overflow bucket
/// that both sides share, and the main bucket of the second hash.
#[derive(Clone, Copy)]
pub struct BucketGroup {
    pub buckets: [Bucket; BUCKET_NUM],
}

impl BucketGroup {
    /// A group whose buckets carry the given header word and are empty.
    pub fn new(header: u64) -> (g: BucketGroup)
        ensures
            forall|b: int|
                0 <= b < BUCKET_NUM ==> {
                    &&& (#[trigger] g.buckets@[b]).header.data == header
                    &&& forall|k: int|
                        0 <= k < SLOT_NUM ==> (#[trigger] g.buckets@[b].slots@[k]).data == 0
                },
    {
        BucketGroup { buckets: [Bucket::new(header);BUCKET_NUM] }
    }

    /// Compare-and-swap on one slot of one bucket.
    pub fn set(&mut self, bucket: usize, slot: usize, data: u64, expected: u64) -> (ok: bool)
        requires
            bucket < BUCKET_NUM,
            slot < SLOT_NUM,
        ensures
            ok == (old(self).buckets@[bucket as int].slots@[slot as int].data == expected),
            forall|b: int|
                0 <= b < BUCKET_NUM && b != bucket ==> final(self).buckets@[b]
                    == old(self).buckets@[b],
            final(self).buckets@[bucket as int].header == old(self).buckets@[bucket as int].header,
            final(self).buckets@[bucket as int].slots@ == if ok {
                old(self).buckets@[bucket as int].slots@.update(slot as int, Slot { data })
            } else {
                old(self).buckets@[bucket as int].slots@
            },
    {
        self.buckets[bucket].set(slot, data, expected)
    }

    /// Loads one slot word.
    pub fn get(&self, bucket: usize, slot: usize) -> (r: u64)
        requires
            bucket < BUCKET_NUM,
            slot < SLOT_NUM,
        ensures
            r == self.buckets@[bucket as int].slots@[slot as int].data,
    {
        self.buckets[bucket].get(slot)
    }

    /// The record one slot points to.
    pub fn get_kv(&self, bucket: usize, slot: usize, kvs: &HashMap<u64, KVBlockMem>) -> (r: Option<
        KVBlock,
    >)
        requires
            bucket < BUCKET_NUM,
            slot < SLOT_NUM,
        ensures
            r is Some
                <==> kvs@.contains_key(self.buckets@[bucket as int].slots@[slot as int].ptr()),
            r matches Some(b) ==> copy_of(
                b,
                kvs@[self.buckets@[bucket as int].slots@[slot as int].ptr()],
            ),
    {
        self.buckets[bucket].get_kv(slot, kvs)
    }

    /// Writes local depth and suffix into the header of every bucket.
    pub fn set_header(&mut self, local_depth: u8, suffix: u64)
        ensures
            forall|b: int|
                0 <= b < BUCKET_NUM ==> {
                    &&& (#[trigger] final(self).buckets@[b]).slots == old(self).buckets@[b].slots
                    &&& final(self).buckets@[b].header.local_depth() == local_depth
                    &&& final(self).buckets@[b].header.suffix() == low56(suffix)
                    &&& final(self).buckets@[b].header.data == with_low56(
                        with_top_byte(old(self).buckets@[b].header.data, local_depth),
                        suffix,
                    )
                },
    {
        let mut b: usize = 0;
        while b < BUCKET_NUM
            invariant
                b <= BUCKET_NUM,
                forall|k: int| b <= k < BUCKET_NUM ==> self.buckets@[k] == old(self).buckets@[k],
                forall|k: int|
                    0 <= k < b ==> {
                        &&& (#[trigger] self.buckets@[k]).slots == old(self).buckets@[k].slots
                        &&& self.buckets@[k].header.local_depth() == local_depth
                        &&& self.buckets@[k].header.suffix() == low56(suffix)
                        &&& self.buckets@[k].header.data == with_low56(
                            with_top_byte(old(self).buckets@[k].header.data, local_depth),
                            suffix,
                        )
                    },
            decreases BUCKET_NUM - b,
        {
            self.buckets[b].set_header(local_depth, suffix);
            b += 1;
        }
    }
}

/// Whether a bucket group, a bucket and a slot index are in range.
pub open spec fn pos_ok(g: int, b: int, s: int) -> bool {
    0 <= g < BUCKET_GROUP_NUM && 0 <= b < BUCKET_NUM && 0 <= s < SLOT_NUM
}

/// A fixed-shape table of bucket groups.
pub struct Subtable {
    pub bucket_groups: Vec<BucketGroup>,
}

impl Subtable {
    /// The table has its full number of bucket groups.
    pub open spec fn wf(&self) -> bool {
        self.bucket_groups@.len() == BUCKET_GROUP_NUM
    }

    /// Bucket `b` of group `g`.
    pub open spec fn bucket_at(&self, g: int, b: int) -> Bucket {
        self.bucket_groups@[g].buckets@[b]
    }

    /// Slot `s` of bucket `b` of group `g`.
    pub open spec fn slot_at(&self, g: int, b: int, s: int) -> Slot {
        self.bucket_groups@[g].buckets@[b].slots@[s]
    }

    /// Every bucket carries the header word `h`.
    pub open spec fn uniform_header(&self, h: u64) -> bool {
        forall|g: int, b: int|
            0 <= g < BUCKET_GROUP_NUM && 0 <= b < BUCKET_NUM ==> (#[trigger] self.bucket_at(
                g,
                b,
            )).header.data == h
    }

    /// Every bucket carries the header of the first.
    pub open spec fn one_header(&self) -> bool {
        forall|g: int, b: int|
            0 <= g < BUCKET_GROUP_NUM && 0 <= b < BUCKET_NUM ==> (#[trigger] self.bucket_at(
                g,
                b,
            )).header == self.bucket_at(0, 0).header
    }

    /// No slot is in use.
    pub open spec fn all_empty(&self) -> bool {
        forall|g: int, b: int, s: int| pos_ok(g, b, s)
            ==> (#[trigger] self.slot_at(g, b, s)).data == 0
    }

    /// The two tables have the same slots.
    pub open spec fn same_slots(&self, other: &Subtable) -> bool {
        forall|g: int, b: int, s: int|
            pos_ok(g, b, s) ==> #[trigger] self.slot_at(g, b, s) == other.slot_at(g, b, s)
    }

    /// The two tables have the same headers.
    pub open spec fn same_headers(&self, other: &Subtable) -> bool {
        forall|g: int, b: int|
            0 <= g < BUCKET_GROUP_NUM && 0 <= b < BUCKET_NUM ==> (#[trigger] self.bucket_at(
                g,
                b,
            )).header == other.bucket_at(g, b).header
    }

    /// A table without records whose buckets carry the header for
    /// `local_depth` and `suffix`.
    pub fn new(local_depth: u8, suffix: u64) -> (t: Subtable)
        ensures
            t.wf(),
            t.all_empty(),
            t.uniform_header(header_word(local_depth, suffix)),
    {
        let mut h = Header { data: 0 };
        h.set_local_depth(local_depth);
        h.set_suffix(suffix);
        let word = h.get_data();
        let mut groups: Vec<BucketGroup> = Vec::new();
        let mut g: usize = 0;
        while g < BUCKET_GROUP_NUM
            invariant
                g <= BUCKET_GROUP_NUM,
                groups@.len() == g,
                forall|g2: int, b: int|
                    0 <= g2 < g && 0 <= b < BUCKET_NUM ==> {
                        &&& (#[trigger] groups@[g2].buckets@[b]).header.data == word
                        &&& forall|k: int|
                            0 <= k < SLOT_NUM
                                ==> (#[trigger] groups@[g2].buckets@[b].slots@[k]).data
                                == 0
                    },
            decreases BUCKET_GROUP_NUM - g,
        {
            groups.push(BucketGroup::new(word));
            g += 1;
        }
        let t = Subtable { bucket_groups: groups };
        assert(t.all_empty()) by {
            assert forall|g: int, b: int, s: int| pos_ok(g, b, s) implies (#[trigger] t.slot_at(
                g,
                b,
                s,
            )).data == 0 by {
                assert(t.bucket_groups@[g].buckets@[b].slots@[s].data == 0);
            }
        }
        assert(t.uniform_header(word)) by {
            assert forall|g: int, b: int|
                0 <= g < BUCKET_GROUP_NUM && 0 <= b < BUCKET_NUM implies (#[trigger] t.bucket_at(
                g,
                b,
            )).header.data == word by {
                assert(t.bucket_groups@[g].buckets@[b].header.data == word);
            }
        }
        t
    }

    /// Compare-and-swap on the slot at `slot_pos`.
    pub fn set(&mut self, slot_pos: &SlotPos, data: u64, expected: u64) -> (ok: bool)
        requires
            old(self).wf(),
            slot_pos.in_range(),
        ensures
            final(self).wf(),
            ok == (old(self).slot_at(
                slot_pos.bucket_group as int,
                slot_pos.bucket as int,
                slot_pos.slot as int,
            ).data == expected),
            final(self).same_headers(old(self)),
            !ok ==> final(self).same_slots(old(self)),
            ok ==> forall|g: int, b: int, s: int|
                pos_ok(g, b, s) ==> #[trigger] final(self).slot_at(g, b, s) == if g
                    == slot_pos.bucket_group && b == slot_pos.bucket && s == slot_pos.slot {
                    Slot { data }
                } else {
                    old(self).slot_at(g, b, s)
                },
    {
        let ok = self.bucket_groups[slot_pos.bucket_group].set(
            slot_pos.bucket,
            slot_pos.slot,
            data,
            expected,
        );
        proof {
            assert forall|g: int, b: int|
                0 <= g < BUCKET_GROUP_NUM && 0 <= b < BUCKET_NUM implies (
            #[trigger] self.bucket_at(g, b)).header == old(self).bucket_at(g, b).header by {
                if g != slot_pos.bucket_group {
                    assert(self.bucket_groups@[g] == old(self).bucket_groups@[g]);
                }
            }
            assert forall|g: int, b: int, s: int| pos_ok(g, b, s) implies #[trigger] self.slot_at(
                g,
                b,
                s,
            ) == if ok && g == slot_pos.bucket_group && b == slot_pos.bucket && s
                == slot_pos.slot {
                Slot { data }
            } else {
                old(self).slot_at(g, b, s)
            } by {
                if g != slot_pos.bucket_group {
                    assert(self.bucket_groups@[g] == old(self).bucket_groups@[g]);
                }
            }
        }
        ok
    }

    /// Loads the slot word at `slot_pos`.
    pub fn get(&self, slot_pos: &SlotPos) -> (r: u64)
        requires
            self.wf(),
            slot_pos.in_range(),
        ensures
            r == self.slot_at(
                slot_pos.bucket_group as int,
                slot_pos.bucket as int,
                slot_pos.slot as int,
            ).data,
    {
        self.bucket_groups[slot_pos.bucket_group].get(slot_pos.bucket, slot_pos.slot)
    }

    /// The record that the slot at `slot_pos` points to.
    pub fn get_kv(&self, slot_pos: &SlotPos, kvs: &HashMap<u64, KVBlockMem>) -> (r: Option<KVBlock>)
        requires
            self.wf(),
            slot_pos.in_range(),
        ensures
            r is Some <==> kvs@.contains_key(
                self.slot_at(
                    slot_pos.bucket_group as int,
                    slot_pos.bucket as int,
                    slot_pos.slot as int,
                ).ptr(),
            ),
            r matches Some(b) ==> copy_of(
                b,
                kvs@[self.slot_at(
                    slot_pos.bucket_group as int,
                    slot_pos.bucket as int,
                    slot_pos.slot as int,
                ).ptr()],
            ),
    {
        self.bucket_groups[slot_pos.bucket_group].get_kv(slot_pos.bucket, slot_pos.slot, kvs)
    }

    /// Snapshots of the two combined buckets of a key: bucket 0 and the
    /// overflow bucket of its first group, bucket 2 and the overflow bucket
    /// of its second. `subtable` is the address the table is stored at.
    pub fn get_by_bucket_group_ids(
        &self,
        subtable: u64,
        bucket_group1: usize,
        bucket_group2: usize,
    ) -> (r: Option<[CombinedBucket; 2]>)
        requires
            self.wf(),
        ensures
            r is Some <==> bucket_group1 < BUCKET_GROUP_NUM && bucket_group2 < BUCKET_GROUP_NUM,
            r matches Some(cbs) ==> self.snapshot(subtable, bucket_group1, bucket_group2, cbs),
    {
        if bucket_group1 >= BUCKET_GROUP_NUM || bucket_group2 >= BUCKET_GROUP_NUM {
            return None;
        }
        let cb1 = CombinedBucket {
            subtable,
            bucket_group: bucket_group1,
            main_bucket: self.bucket_groups[bucket_group1].buckets[0],
            overflow_bucket: self.bucket_groups[bucket_group1].buckets[1],
        };
        let cb2 = CombinedBucket {
            subtable,
            bucket_group: bucket_group2,
            main_bucket: self.bucket_groups[bucket_group2].buckets[2],
            overflow_bucket: self.bucket_groups[bucket_group2].buckets[1],
        };
        Some([cb1, cb2])
    }

    /// `cbs` are the snapshots of groups `g1` and `g2` of this table.
    pub open spec fn snapshot(&self, subtable: u64, g1: usize, g2: usize,
        cbs: [CombinedBucket; 2]) -> bool {
        &&& cbs@[0].subtable == subtable
        &&& cbs@[0].bucket_group == g1
        &&& cbs@[0].main_bucket == self.bucket_at(g1 as int, 0)
        &&& cbs@[0].overflow_bucket == self.bucket_at(g1 as int, 1)
        &&& cbs@[1].subtable == subtable
        &&& cbs@[1].bucket_group == g2
        &&& cbs@[1].main_bucket == self.bucket_at(g2 as int, 2)
        &&& cbs@[1].overflow_bucket == self.bucket_at(g2 as int, 1)
    }

    /// Writes local depth and suffix into the header of every bucket.
    pub fn set_header(&mut self, local_depth: u8, suffix: u64)
        requires
            old(self).wf(),
        ensures
            final(self).wf(),
            final(self).same_slots(old(self)),
            forall|g: int, b: int|
                0 <= g < BUCKET_GROUP_NUM && 0 <= b < BUCKET_NUM ==> {
                    &&& (#[trigger] final(self).bucket_at(g, b)).header.local_depth() == local_depth
                    &&& final(self).bucket_at(g, b).header.suffix() == low56(suffix)
                    &&& final(self).bucket_at(g, b).header.data == with_low56(
                        with_top_byte(old(self).bucket_at(g, b).header.data, local_depth),
                        suffix,
                    )
                },
    {
        let mut g: usize = 0;
        while g < BUCKET_GROUP_NUM
            invariant
                g <= BUCKET_GROUP_NUM,
                self.wf(),
                forall|k: int|
                    g <= k < BUCKET_GROUP_NUM ==> self.bucket_groups@[k]
                        == old(self).bucket_groups@[k],
                forall|k: int, b: int|
                    0 <= k < g && 0 <= b < BUCKET_NUM ==> {
                        &&& (#[trigger] self.bucket_groups@[k].buckets@[b]).slots
                            == old(self).bucket_groups@[k].buckets@[b].slots
                        &&& self.bucket_groups@[k].buckets@[b].header.local_depth() == local_depth
                        &&& self.bucket_groups@[k].buckets@[b].header.suffix() == low56(suffix)
                        &&& self.bucket_groups@[k].buckets@[b].header.data == with_low56(
                            with_top_byte(
                                old(self).bucket_groups@[k].buckets@[b].header.data,
                                local_depth,
                            ),
                            suffix,
                        )
                    },
            decreases BUCKET_GROUP_NUM - g,
        {
            self.bucket_groups[g].set_header(local_depth, suffix);
            g += 1;
        }
        proof {
            assert forall|g: int, b: int, s: int| pos_ok(g, b, s) implies #[trigger] self.slot_at(
                g,
                b,
                s,
            ) == old(self).slot_at(g, b, s) by {
                assert(self.bucket_groups@[g].buckets@[b].slots
                    == old(self).bucket_groups@[g].buckets@[b].slots);
            }
            assert forall|g: int, b: int|
                0 <= g < BUCKET_GROUP_NUM && 0 <= b < BUCKET_NUM implies {
                &&& (#[trigger] self.bucket_at(g, b)).header.local_depth() == local_depth
                &&& self.bucket_at(g, b).header.suffix() == low56(suffix)
                &&& self.bucket_at(g, b).header.data == with_low56(
                    with_top_byte(old(self).bucket_at(g, b).header.data, local_depth),
                    suffix,
                )
            } by {
                assert(self.bucket_groups@[g].buckets@[b].header.local_depth() == local_depth);
            }
        }
    }

    /// Loads the header of one bucket.
    pub fn get_bucket_header_atomic(&self, bucket_group: usize, bucket: usize) -> (r: Header)
        requires
            self.wf(),
            bucket_group < BUCKET_GROUP_NUM,
            bucket < BUCKET_NUM,
        ensures
            r == self.bucket_at(bucket_group as int, bucket as int).header,
    {
        self.bucket_groups[bucket_group].buckets[bucket].get_header_atomic()
    }
}

/// `after` stores the same tables as `before`, except perhaps at `ptr`.
pub open spec fn same_except(
    before: Map<u64, Subtable>,
    after: Map<u64, Subtable>,
    ptr: u64,
) -> bool {
    &&& forall|t: u64| before.contains_key(t) <==> after.contains_key(t)
    &&& forall|t: u64| before.contains_key(t) && t != ptr ==> after[t] == before[t]
}

/// `after` is `before` with the word `data` in slot `(g, b, s)`.
pub open spec fn slot_written(
    before: Subtable,
    after: Subtable,
    g: int,
    b: int,
    s: int,
    data: u64,
) -> bool {
    &&& after.wf()
    &&& after.same_headers(&before)
    &&& forall|g2: int, b2: int, s2: int|
        pos_ok(g2, b2, s2) ==> #[trigger] after.slot_at(g2, b2, s2) == if g2 == g && b2 == b && s2
            == s {
            Slot { data }
        } else {
            before.slot_at(g2, b2, s2)
        }
}

/// `after` is `before` with the header for `local_depth` and `suffix` in
/// every bucket.
pub open spec fn header_written(
    before: Subtable,
    after: Subtable,
    local_depth: u8,
    suffix: u64,
) -> bool {
    &&& after.wf()
    &&& after.same_slots(&before)
    &&& after.uniform_header(header_word(local_depth, suffix))
}

/// Compare-and-swap on the slot at `slot_pos` of the table stored at
/// `slot_pos.subtable`. Fails, and changes nothing, if no table is stored
/// there or the slot does not hold `expected`.
pub fn store_cas(
    subtables: &mut HashMap<u64, Subtable>,
    slot_pos: &SlotPos,
    data: u64,
    expected: u64,
) -> (ok: bool)
    requires
        slot_pos.in_range(),
        old(subtables)@.contains_key(slot_pos.subtable) ==> old(subtables)@[slot_pos.subtable].wf(),
    ensures
        ok == (old(subtables)@.contains_key(slot_pos.subtable)
            && old(subtables)@[slot_pos.subtable].slot_at(
            slot_pos.bucket_group as int,
            slot_pos.bucket as int,
            slot_pos.slot as int,
        ).data == expected),
        !ok ==> final(subtables)@ == old(subtables)@,
        ok ==> same_except(old(subtables)@, final(subtables)@, slot_pos.subtable) && slot_written(
            old(subtables)@[slot_pos.subtable],
            final(subtables)@[slot_pos.subtable],
            slot_pos.bucket_group as int,
            slot_pos.bucket as int,
            slot_pos.slot as int,
            data,
        ),
{
    let current = match subtables.get(&slot_pos.subtable) {
        Some(t) => t.get(slot_pos),
        None => {
            return false;
        },
    };
    if current != expected {
        return false;
    }
    match subtables.remove(&slot_pos.subtable) {
        Some(t) => {
            let mut t = t;
            let ok = t.set(slot_pos, data, expected);
            subtables.insert(slot_pos.subtable, t);
            ok
        },
        None => false,
    }
}

/// Writes the header for `local_depth` and `suffix` into every bucket of
/// the table stored at `ptr`. Fails, and changes nothing, if no table is
/// stored there.
pub fn store_set_header(
    subtables: &mut HashMap<u64, Subtable>,
    ptr: u64,
    local_depth: u8,
    suffix: u64,
) -> (ok: bool)
    requires
        old(subtables)@.contains_key(ptr) ==> old(subtables)@[ptr].wf(),
    ensures
        ok == old(subtables)@.contains_key(ptr),
        !ok ==> final(subtables)@ == old(subtables)@,
        ok ==> same_except(old(subtables)@, final(subtables)@, ptr) && header_written(
            old(subtables)@[ptr],
            final(subtables)@[ptr],
            local_depth,
            suffix,
        ),
{
    match subtables.remove(&ptr) {
        Some(t) => {
            let mut t = t;
            let ghost before = t;
            t.set_header(local_depth, suffix);
            proof {
                assert forall|g: int, b: int|
                    0 <= g < BUCKET_GROUP_NUM && 0 <= b < BUCKET_NUM implies (
                #[trigger] t.bucket_at(g, b)).header.data == header_word(local_depth, suffix) by {
                    let w = before.bucket_at(g, b).header.data;
                    crate::word::lemma_with_top_byte(w, local_depth);
                    crate::word::lemma_with_top_byte(0, local_depth);
                    crate::word::lemma_with_low56(with_top_byte(w, local_depth), suffix);
                    crate::word::lemma_with_low56(with_top_byte(0, local_depth), suffix);
                    crate::word::lemma_word_halves(
                        t.bucket_at(g, b).header.data,
                        header_word(local_depth, suffix),
                    );
                }
            }
            subtables.insert(ptr, t);
            true
        },
        None => false,
    }
}

} // verus!
