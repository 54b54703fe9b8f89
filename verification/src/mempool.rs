//! The storage side: allocator, authoritative directory, subtables and
//! key-value records, with the word-level operations that clients use.

use vstd::prelude::*;
use std::collections::HashMap;
use crate::config::{
    ADDRESS_LIMIT, BUCKET_GROUP_NUM, KV_HEADER_SIZE, MAX_DEPTH, MAX_ENTRY_NUM,
    MAX_KV_SIZE, PAGE_SIZE, SLOT_NUM, SUBTABLE_SIZE,
};
use crate::directory::{
    dir_size, entry_depth, entry_lock, entry_ptr, locked_word, store_new_subtable, unlocked_word,
    ClientDirectory, MemPoolDirectory, MemPoolEntry,
};
use crate::hash::{fingerprint, group_hash_1, group_hash_2};
use crate::kvblock::{record_len, KVBlock, KVBlockMem};
use crate::mm::{round_up, MemoryManager};
use crate::subtable::{
    copy_of, header_word, header_written, pos_ok, same_except, slot_written, store_cas,
    CombinedBucket, Slot, SlotPos, Subtable,
};
use crate::utils::key_suffix;
use crate::word::low_bits;

verus! {

/// Where the record of `key` may lie: bucket 0 of its first group, bucket
/// 2 of its second group, or the overflow bucket of either.
pub open spec fn placed(key: Seq<char>, g: int, b: int) -> bool {
    ||| b == 0 && g == group_hash_1(key)
    ||| b == 2 && g == group_hash_2(key)
    ||| b == 1 && (g == group_hash_1(key) || g == group_hash_2(key))
}

/// The local depth that a table's headers advertise.
pub open spec fn table_depth(t: Subtable) -> u8 {
    t.bucket_at(0, 0).header.local_depth()
}

/// The suffix that a table's headers advertise.
pub open spec fn table_suffix(t: Subtable) -> u64 {
    t.bucket_at(0, 0).header.suffix()
}

/// What holds of a slot. An empty slot is zero. A slot in use points to a
/// record of the store whose checksum is right; its length and
/// fingerprint are those of the record; the record's key belongs to this
/// table and to this bucket.
pub open spec fn slot_ok(t: Subtable, kvs: Map<u64, KVBlockMem>, g: int, b: int, s: int) -> bool {
    let slot = t.slot_at(g, b, s);
    &&& slot.is_empty() ==> slot.data == 0
    &&& !slot.is_empty() ==> {
        &&& kvs.contains_key(slot.ptr())
        &&& kvs[slot.ptr()].intact()
        &&& slot.len() == kvs[slot.ptr()].total_len()
        &&& slot.fp() == fingerprint(kvs[slot.ptr()].key@)
        &&& key_suffix(kvs[slot.ptr()].key@, table_depth(t)) == table_suffix(t)
        &&& placed(kvs[slot.ptr()].key@, g, b)
    }
}

/// Two different slots in use hold different keys.
pub open spec fn slots_differ(
    t: Subtable,
    kvs: Map<u64, KVBlockMem>,
    g1: int,
    b1: int,
    s1: int,
    g2: int,
    b2: int,
    s2: int,
) -> bool {
    let x = t.slot_at(g1, b1, s1);
    let y = t.slot_at(g2, b2, s2);
    !x.is_empty() && !y.is_empty() && !(g1 == g2 && b1 == b2 && s1 == s2) ==> kvs[x.ptr()].key@
        != kvs[y.ptr()].key@
}

/// The invariant of one table: every slot in use is in order, and no key
/// is held twice.
pub open spec fn table_ok(t: Subtable, kvs: Map<u64, KVBlockMem>) -> bool {
    &&& forall|g: int, b: int, s: int| pos_ok(g, b, s) ==> #[trigger] slot_ok(t, kvs, g, b, s)
    &&& forall|g1: int, b1: int, s1: int, g2: int, b2: int, s2: int|
        pos_ok(g1, b1, s1) && pos_ok(g2, b2, s2) ==> #[trigger] slots_differ(
            t,
            kvs,
            g1,
            b1,
            s1,
            g2,
            b2,
            s2,
        )
}

/// The slot at `(g, b, s)` of `t` holds `key`.
pub open spec fn stored_at(
    t: Subtable,
    kvs: Map<u64, KVBlockMem>,
    key: Seq<char>,
    g: int,
    b: int,
    s: int,
) -> bool {
    pos_ok(g, b, s) && t.slot_at(g, b, s).holds(kvs, key)
}

/// Some slot of `t` holds `key`.
pub open spec fn table_has(t: Subtable, kvs: Map<u64, KVBlockMem>, key: Seq<char>) -> bool {
    exists|g: int, b: int, s: int| #[trigger] stored_at(t, kvs, key, g, b, s)
}

/// The value that `t` holds for `key`.
pub open spec fn table_value(t: Subtable, kvs: Map<u64, KVBlockMem>, key: Seq<char>) -> Seq<char> {
    let (g, b, s) = choose|g: int, b: int, s: int| #[trigger] stored_at(t, kvs, key, g, b, s);
    kvs[t.slot_at(g, b, s).ptr()].value@
}

/// The storage side of an index.
pub struct MemPool {
    pub memory_manager: MemoryManager,
    pub dir: MemPoolDirectory,
    pub subtables: HashMap<u64, Subtable>,
    pub kvs: HashMap<u64, KVBlockMem>,
}

impl MemPool {
    /// The global depth.
    pub open spec fn depth(&self) -> u8 {
        self.dir.global_depth as u8
    }

    /// Number of live directory entries.
    pub open spec fn size(&self) -> int {
        dir_size(self.dir.global_depth as int)
    }

    /// The word of directory entry `i`.
    pub open spec fn word(&self, i: int) -> u64 {
        self.dir.entries@[i].data
    }

    /// The subtable pointer of directory entry `i`.
    pub open spec fn ptr_at(&self, i: int) -> u64 {
        entry_ptr(self.word(i))
    }

    /// The local depth of directory entry `i`.
    pub open spec fn depth_at(&self, i: int) -> u8 {
        entry_depth(self.word(i))
    }

    /// The subtable that directory entry `i` points to.
    pub open spec fn table_at(&self, i: int) -> Subtable {
        self.subtables@[self.ptr_at(i)]
    }

    /// Whether some live directory entry points to `t`.
    pub open spec fn is_live(&self, t: u64) -> bool {
        exists|i: int| 0 <= i < self.size() && #[trigger] self.ptr_at(i) == t
    }

    /// Slot `(g, b, s)` of the subtable of live entry `i` is in use and
    /// points to `p`.
    pub open spec fn refers(&self, i: int, g: int, b: int, s: int, p: u64) -> bool {
        &&& 0 <= i < self.size()
        &&& pos_ok(g, b, s)
        &&& !self.table_at(i).slot_at(g, b, s).is_empty()
        &&& self.table_at(i).slot_at(g, b, s).ptr() == p
    }

    /// Some slot of a live subtable points to `p`.
    pub open spec fn referenced(&self, p: u64) -> bool {
        exists|i: int, g: int, b: int, s: int| #[trigger] self.refers(i, g, b, s, p)
    }

    /// The directory is at least as deep as in `before`, and every
    /// subtable that `before` had live is live here.
    pub open spec fn extends(&self, before: &MemPool) -> bool {
        &&& before.dir.global_depth <= self.dir.global_depth
        &&& forall|t: u64| before.is_live(t) ==> self.is_live(t)
    }

    /// The parts are well formed each by itself.
    pub open spec fn shape_ok(&self) -> bool {
        &&& self.dir.wf()
        &&& self.memory_manager.wf()
        &&& forall|t: u64| #[trigger]
            self.subtables@.contains_key(t) ==> self.subtables@[t].wf()
    }

    /// Every record and every subtable sits in a range of its size that
    /// the allocator has handed out.
    pub open spec fn store_ok(&self) -> bool {
        &&& forall|p: u64| #[trigger]
            self.kvs@.contains_key(p) ==> {
                &&& p < ADDRESS_LIMIT
                &&& self.kvs@[p].wf()
                &&& self.kvs@[p].total_len() <= MAX_KV_SIZE
                &&& self.memory_manager.allocated().contains_key(p as int)
                &&& self.memory_manager.allocated()[p as int] == round_up(self.kvs@[p].total_len())
            }
        &&& forall|t: u64| #[trigger]
            self.subtables@.contains_key(t) ==> {
                &&& t < ADDRESS_LIMIT
                &&& self.memory_manager.allocated().contains_key(t as int)
                &&& self.memory_manager.allocated()[t as int] == SUBTABLE_SIZE
            }
    }

    /// What holds of a live directory entry apart from its lock byte: its
    /// local depth is at most the global depth, and the subtable it points
    /// to advertises that depth and the entry's own low bits as suffix.
    pub open spec fn entry_ok(&self, i: int) -> bool {
        &&& 1 <= self.depth_at(i) <= self.depth()
        &&& self.subtables@.contains_key(self.ptr_at(i))
        &&& self.table_at(i).uniform_header(
            header_word(self.depth_at(i), low_bits(i as u64, self.depth_at(i))),
        )
    }

    /// Entries `i` and `j` point to the same subtable if `j` has the low
    /// bits of `i` at the local depth of `i`.
    pub open spec fn entries_agree(&self, i: int, j: int) -> bool {
        low_bits(j as u64, self.depth_at(i)) == low_bits(i as u64, self.depth_at(i))
            ==> self.ptr_at(j) == self.ptr_at(i)
    }

    /// The invariant of the directory.
    pub open spec fn dir_ok(&self) -> bool {
        &&& forall|i: int| 0 <= i < self.size() ==> #[trigger] self.entry_ok(i)
        &&& forall|i: int, j: int|
            0 <= i < self.size() && 0 <= j < self.size() ==> #[trigger] self.entries_agree(i, j)
        &&& forall|i: int|
            self.size() <= i < MAX_ENTRY_NUM ==> (#[trigger] self.dir.entries@[i]).data == 0
    }

    /// No live directory entry is locked.
    pub open spec fn unlocked(&self) -> bool {
        forall|i: int| 0 <= i < self.size()
            ==> entry_lock((#[trigger] self.dir.entries@[i]).data) == 0
    }

    /// The invariant of the subtables that the directory points to.
    pub open spec fn tables_ok(&self) -> bool {
        forall|i: int| 0 <= i < self.size() ==> table_ok(#[trigger] self.table_at(i), self.kvs@)
    }

    /// The invariant of the storage side, whatever the lock bytes are.
    pub open spec fn wf_core(&self) -> bool {
        &&& self.shape_ok()
        &&& self.store_ok()
        &&& self.dir_ok()
        &&& self.tables_ok()
    }

    /// The invariant of the storage side between operations.
    pub open spec fn wf(&self) -> bool {
        self.wf_core() && self.unlocked()
    }

    /// The directory entry that a key selects.
    pub open spec fn index_of(&self, key: Seq<char>) -> int {
        key_suffix(key, self.depth()) as int
    }

    /// The subtable that a key belongs to.
    pub open spec fn table_of(&self, key: Seq<char>) -> Subtable {
        self.table_at(self.index_of(key))
    }

    /// Whether the index holds `key`.
    pub open spec fn contains(&self, key: Seq<char>) -> bool {
        table_has(self.table_of(key), self.kvs@, key)
    }

    /// The value the index holds for `key`.
    pub open spec fn value(&self, key: Seq<char>) -> Seq<char> {
        table_value(self.table_of(key), self.kvs@, key)
    }

    /// The index as a map from keys to values.
    pub open spec fn view(&self) -> Map<Seq<char>, Seq<char>> {
        Map::new(|k: Seq<char>| self.contains(k), |k: Seq<char>| self.value(k))
    }

    /// The client's cached directory leads `key` to the subtable that the
    /// key belongs to.
    pub open spec fn ptr_of_key_known(&self, client: &crate::client::Client,
        key: Seq<char>) -> bool {
        client.ptr_of(key) == self.ptr_at(self.index_of(key))
    }

    /// Whether both combined buckets of `key` in the key's subtable are
    /// full, so that an insert of the key finds no slot.
    pub open spec fn full_for(&self, key: Seq<char>) -> bool {
        let t = self.table_of(key);
        let g1 = group_hash_1(key) as int;
        let g2 = group_hash_2(key) as int;
        &&& crate::subtable::combined_count(t.bucket_at(g1, 0).slots@, t.bucket_at(g1, 1).slots@)
            == 2 * SLOT_NUM
        &&& crate::subtable::combined_count(t.bucket_at(g2, 2).slots@, t.bucket_at(g2, 1).slots@)
            == 2 * SLOT_NUM
    }

    /// Everything but the records and the allocator is as in `before`.
    pub open spec fn same_index(&self, before: &MemPool) -> bool {
        &&& self.dir == before.dir
        &&& self.subtables@ == before.subtables@
    }

    /// An empty index: two subtables of local depth one under a
    /// directory of global depth one.
    pub fn new() -> (pool: MemPool)
        ensures
            pool.wf(),
            pool@ == Map::<Seq<char>, Seq<char>>::empty(),
            pool.depth() == 1,
            pool.depth_at(0) == 1,
            pool.depth_at(1) == 1,
            pool.kvs@ == Map::<u64, KVBlockMem>::empty(),
            pool.memory_manager.next_page <= PAGE_SIZE + 2 * SUBTABLE_SIZE,
            forall|k: Seq<char>| !#[trigger] pool.full_for(k),
    {
        let mut memory_manager = MemoryManager::new();
        let mut subtables: HashMap<u64, Subtable> = HashMap::new();
        let dir = match MemPoolDirectory::new(&mut memory_manager, &mut subtables) {
            Some(d) => d,
            None => vstd::pervasive::unreached(),
        };
        let pool = MemPool { memory_manager, dir, subtables, kvs: HashMap::new() };
        proof {
            crate::bits::lemma_depth_one();
            crate::word::lemma_zero_word();
            let q0 = pool.ptr_at(0);
            let q1 = pool.ptr_at(1);
            assert(pool.size() == 2);
            assert(pool.subtables@.contains_key(q0) && pool.subtables@.contains_key(q1));
            assert(pool.shape_ok());
            assert(pool.store_ok());
            assert(pool.entry_ok(0));
            assert(pool.entry_ok(1));
            assert(pool.dir_ok());
            assert forall|i: int| 0 <= i < pool.size() implies table_ok(
                #[trigger] pool.table_at(i),
                pool.kvs@,
            ) by {
                let t = pool.table_at(i);
                assert(t.all_empty());
                assert forall|g: int, b: int, s: int| pos_ok(g, b, s) implies #[trigger] slot_ok(
                    t,
                    pool.kvs@,
                    g,
                    b,
                    s,
                ) by {
                    assert(t.slot_at(g, b, s).data == 0);
                }
                assert forall|g1: int, b1: int, s1: int, g2: int, b2: int, s2: int|
                    pos_ok(g1, b1, s1) && pos_ok(g2, b2, s2) implies #[trigger] slots_differ(
                    t,
                    pool.kvs@,
                    g1,
                    b1,
                    s1,
                    g2,
                    b2,
                    s2,
                ) by {
                    assert(t.slot_at(g1, b1, s1).data == 0);
                }
            }
            assert forall|k: Seq<char>| !pool.contains(k) by {
                let i = pool.index_of(k);
                crate::bits::lemma_size_bound(1);
                assert(0 <= i < 2);
                let t = pool.table_of(k);
                assert(t.all_empty());
                assert forall|g: int, b: int, s: int| !#[trigger] stored_at(
                    t,
                    pool.kvs@,
                    k,
                    g,
                    b,
                    s,
                ) by {
                    if pos_ok(g, b, s) {
                        assert(t.slot_at(g, b, s).data == 0);
                    }
                }
            }
            assert(pool@ =~= Map::<Seq<char>, Seq<char>>::empty());
            assert forall|k: Seq<char>| !#[trigger] pool.full_for(k) by {
                let i = pool.index_of(k);
                crate::bits::lemma_size_bound(1);
                let t = pool.table_of(k);
                assert(t.all_empty());
                crate::hash::lemma_hash_below(crate::hash::key_bytes(k), 31,
                    BUCKET_GROUP_NUM as nat);
                let g1 = group_hash_1(k) as int;
                let main = t.bucket_at(g1, 0).slots@;
                assert(t.slot_at(g1, 0, 0).data == 0);
                assert(main[0].is_empty());
                assert(crate::subtable::used_slots(main) == 0);
            }
        }
        pool
    }

    /// Snapshots of the two combined buckets for groups `bucket1` and
    /// `bucket2` of the subtable of directory entry `index`.
    pub fn read(&self, index: usize, bucket1: usize, bucket2: usize) -> (r: Option<
        [CombinedBucket; 2],
    >)
        requires
            self.shape_ok(),
            index < MAX_ENTRY_NUM,
        ensures
            r is Some <==> bucket1 < BUCKET_GROUP_NUM && bucket2 < BUCKET_GROUP_NUM
                && self.subtables@.contains_key(self.ptr_at(index as int)),
            r matches Some(cbs) ==> self.table_at(index as int).snapshot(
                self.ptr_at(index as int),
                bucket1,
                bucket2,
                cbs,
            ),
    {
        self.dir.get(&self.subtables, index, bucket1, bucket2)
    }

    /// Stores the record of `key` and `value` and returns its address.
    /// `None`, with nothing changed, when the record is larger than a slot
    /// can describe or the allocator has no room.
    pub fn write_kv(&mut self, key: String, value: String) -> (r: Option<u64>)
        requires
            old(self).shape_ok(),
            old(self).store_ok(),
        ensures
            final(self).shape_ok(),
            final(self).store_ok(),
            final(self).same_index(old(self)),
            r is Some <==> record_len(key@, value@) <= MAX_KV_SIZE
                && old(self).memory_manager.can_allocate(record_len(key@, value@)),
            r is None ==> final(self).kvs@ == old(self).kvs@
                && final(self).memory_manager.allocated() == old(self).memory_manager.allocated(),
            r matches Some(p) ==> {
                &&& !old(self).kvs@.contains_key(p)
                &&& !old(self).subtables@.contains_key(p)
                &&& PAGE_SIZE <= p < ADDRESS_LIMIT
                &&& final(self).kvs@ == old(self).kvs@.insert(p, final(self).kvs@[p])
                &&& final(self).kvs@[p].key@ == key@
                &&& final(self).kvs@[p].value@ == value@
                &&& final(self).kvs@[p].wf()
                &&& final(self).kvs@[p].intact()
                &&& final(self).kvs@[p].total_len() == record_len(key@, value@)
            },
    {
        let klen = key.as_str().as_bytes().len();
        let vlen = value.as_str().as_bytes().len();
        if klen > MAX_KV_SIZE || vlen > MAX_KV_SIZE || KV_HEADER_SIZE + klen + vlen > MAX_KV_SIZE {
            return None;
        }
        let size = KV_HEADER_SIZE + klen + vlen;
        match self.memory_manager.malloc(size) {
            Some(p) => {
                let block = KVBlockMem::new(&key, &value);
                self.kvs.insert(p, block);
                assert(self.kvs@ =~= old(self).kvs@.insert(p, self.kvs@[p]));
                Some(p)
            },
            None => None,
        }
    }

    /// Removes the record at `kv_block`, whose total size is `size`, and
    /// gives its range back to the allocator.
    pub fn free_kv(&mut self, kv_block: u64, size: usize)
        requires
            old(self).shape_ok(),
            old(self).store_ok(),
            old(self).kvs@.contains_key(kv_block),
            size == old(self).kvs@[kv_block].total_len(),
        ensures
            final(self).shape_ok(),
            final(self).store_ok(),
            final(self).same_index(old(self)),
            final(self).kvs@ == old(self).kvs@.remove(kv_block),
    {
        self.kvs.remove(&kv_block);
        self.memory_manager.free(kv_block, size);
    }

    /// Loads the slot word at `slot_pos`.
    pub fn read_slot(&self, slot_pos: &SlotPos) -> (r: u64)
        requires
            self.shape_ok(),
            slot_pos.in_range(),
            self.subtables@.contains_key(slot_pos.subtable),
        ensures
            r == self.subtables@[slot_pos.subtable].slot_at(
                slot_pos.bucket_group as int,
                slot_pos.bucket as int,
                slot_pos.slot as int,
            ).data,
    {
        match self.subtables.get(&slot_pos.subtable) {
            Some(t) => t.get(slot_pos),
            None => 0,
        }
    }

    /// The record that the slot at `slot_pos` points to.
    pub fn read_slot_kv(&self, slot_pos: &SlotPos) -> (r: Option<KVBlock>)
        requires
            self.shape_ok(),
            slot_pos.in_range(),
            self.subtables@.contains_key(slot_pos.subtable),
        ensures
            r is Some <==> self.kvs@.contains_key(
                self.subtables@[slot_pos.subtable].slot_at(
                    slot_pos.bucket_group as int,
                    slot_pos.bucket as int,
                    slot_pos.slot as int,
                ).ptr(),
            ),
            r matches Some(b) ==> copy_of(
                b,
                self.kvs@[self.subtables@[slot_pos.subtable].slot_at(
                    slot_pos.bucket_group as int,
                    slot_pos.bucket as int,
                    slot_pos.slot as int,
                ).ptr()],
            ),
    {
        match self.subtables.get(&slot_pos.subtable) {
            Some(t) => t.get_kv(slot_pos, &self.kvs),
            None => None,
        }
    }

    /// Compare-and-swap on the slot at `slot_pos`: writes `data` if the
    /// slot holds `expected`.
    pub fn write_slot(&mut self, slot_pos: &SlotPos, data: u64, expected: u64) -> (ok: bool)
        requires
            old(self).shape_ok(),
            slot_pos.in_range(),
        ensures
            final(self).shape_ok(),
            final(self).dir == old(self).dir,
            final(self).kvs@ == old(self).kvs@,
            final(self).memory_manager == old(self).memory_manager,
            ok == (old(self).subtables@.contains_key(slot_pos.subtable)
                && old(self).subtables@[slot_pos.subtable].slot_at(
                slot_pos.bucket_group as int,
                slot_pos.bucket as int,
                slot_pos.slot as int,
            ).data == expected),
            !ok ==> final(self).subtables@ == old(self).subtables@,
            ok ==> same_except(old(self).subtables@, final(self).subtables@, slot_pos.subtable)
                && slot_written(
                old(self).subtables@[slot_pos.subtable],
                final(self).subtables@[slot_pos.subtable],
                slot_pos.bucket_group as int,
                slot_pos.bucket as int,
                slot_pos.slot as int,
                data,
            ),
    {
        store_cas(&mut self.subtables, slot_pos, data, expected)
    }

    /// Writes `data` into directory entry `index` if the entry is zero.
    pub fn write_new_entry(&mut self, index: usize, data: u64) -> (ok: bool)
        requires
            index < old(self).dir.entries@.len(),
        ensures
            ok == (old(self).word(index as int) == 0),
            final(self).dir.wrote(
                &old(self).dir,
                index as int,
                if ok {
                    data
                } else {
                    old(self).word(index as int)
                },
            ),
            final(self).subtables == old(self).subtables,
            final(self).kvs == old(self).kvs,
            final(self).memory_manager == old(self).memory_manager,
    {
        self.dir.write_new_entry(index, data)
    }

    /// Writes `new_data` into directory entry `index` if the entry holds
    /// `old_data`.
    pub fn update_entry(&mut self, index: usize, old_data: u64, new_data: u64) -> (ok: bool)
        requires
            index < old(self).dir.entries@.len(),
        ensures
            ok == (old(self).word(index as int) == old_data),
            final(self).dir.wrote(
                &old(self).dir,
                index as int,
                if ok {
                    new_data
                } else {
                    old(self).word(index as int)
                },
            ),
            final(self).subtables == old(self).subtables,
            final(self).kvs == old(self).kvs,
            final(self).memory_manager == old(self).memory_manager,
    {
        self.dir.update_entry(index, old_data, new_data)
    }

    /// Allocates an empty subtable with the header for `local_depth` and
    /// `suffix` and returns its address. `None`, with nothing changed, when
    /// the allocator has no room.
    pub fn new_subtable(&mut self, local_depth: u8, suffix: u64) -> (r: Option<u64>)
        requires
            old(self).shape_ok(),
            old(self).store_ok(),
        ensures
            final(self).shape_ok(),
            final(self).store_ok(),
            final(self).dir == old(self).dir,
            final(self).kvs == old(self).kvs,
            r is Some <==> old(self).memory_manager.can_allocate(SUBTABLE_SIZE as nat),
            r is None ==> final(self).subtables@ == old(self).subtables@
                && final(self).memory_manager == old(self).memory_manager,
            r matches Some(p) ==> {
                &&& !old(self).subtables@.contains_key(p)
                &&& !old(self).kvs@.contains_key(p)
                &&& PAGE_SIZE <= p < ADDRESS_LIMIT
                &&& final(self).subtables@ == old(self).subtables@.insert(
                    p,
                    final(self).subtables@[p],
                )
                &&& final(self).subtables@[p].all_empty()
                &&& final(self).subtables@[p].uniform_header(header_word(local_depth, suffix))
            },
    {
        store_new_subtable(&mut self.memory_manager, &mut self.subtables, local_depth, suffix)
    }

    /// Writes the header for `local_depth` and `suffix` into the subtable
    /// of directory entry `index`.
    pub fn set_subtable_header(&mut self, index: usize, local_depth: u8, suffix: u64) -> (ok: bool)
        requires
            old(self).shape_ok(),
            index < MAX_ENTRY_NUM,
        ensures
            final(self).shape_ok(),
            final(self).dir == old(self).dir,
            final(self).kvs == old(self).kvs,
            final(self).memory_manager == old(self).memory_manager,
            ok == old(self).subtables@.contains_key(old(self).ptr_at(index as int)),
            !ok ==> final(self).subtables@ == old(self).subtables@,
            ok ==> same_except(
                old(self).subtables@,
                final(self).subtables@,
                old(self).ptr_at(index as int),
            ) && header_written(
                old(self).table_at(index as int),
                final(self).table_at(index as int),
                local_depth,
                suffix,
            ),
    {
        self.dir.set_subtable_header(&mut self.subtables, index, local_depth, suffix)
    }

    /// Loads the global depth.
    pub fn get_global_length(&self) -> (r: u8)
        requires
            self.dir.wf(),
        ensures
            r == self.depth(),
            r == self.dir.global_depth,
    {
        self.dir.get_global_depth() as u8
    }

    /// Adds one to the global depth; fails, with nothing changed, at the
    /// largest depth.
    pub fn increase_global_depth(&mut self) -> (ok: bool)
        requires
            old(self).dir.wf(),
        ensures
            ok == (old(self).dir.global_depth < MAX_DEPTH),
            final(self).dir.entries == old(self).dir.entries,
            final(self).dir.global_depth == if ok {
                old(self).dir.global_depth + 1
            } else {
                old(self).dir.global_depth as int
            },
            final(self).subtables == old(self).subtables,
            final(self).kvs == old(self).kvs,
            final(self).memory_manager == old(self).memory_manager,
    {
        self.dir.atomic_add_global_depth(1)
    }

    /// Tries to take the lock of directory entry `index`, expecting the
    /// entry to hold `old_data`. `Err` carries the word found instead.
    pub fn try_lock_entry(&mut self, index: usize, old_data: u64) -> (r: Result<u64, u64>)
        requires
            index < old(self).dir.entries@.len(),
        ensures
            r is Ok <==> old(self).word(index as int) == old_data,
            r matches Ok(v) ==> v == old_data && final(self).dir.wrote(
                &old(self).dir,
                index as int,
                locked_word(old_data),
            ),
            r matches Err(v) ==> v == old(self).word(index as int) && final(self).dir.wrote(
                &old(self).dir,
                index as int,
                v,
            ),
            final(self).subtables == old(self).subtables,
            final(self).kvs == old(self).kvs,
            final(self).memory_manager == old(self).memory_manager,
    {
        self.dir.try_lock_entry(index, old_data, 1)
    }

    /// Sets the lock byte of directory entry `index` to `lock`, expecting
    /// the entry to hold `old_data`; tells whether it did.
    pub fn lock_entry(&mut self, index: usize, old_data: u64, lock: u8) -> (ok: bool)
        requires
            index < old(self).dir.entries@.len(),
        ensures
            ok == (old(self).word(index as int) == old_data),
            final(self).dir.wrote(
                &old(self).dir,
                index as int,
                if ok {
                    crate::word::with_top_byte(old_data, lock)
                } else {
                    old(self).word(index as int)
                },
            ),
            final(self).subtables == old(self).subtables,
            final(self).kvs == old(self).kvs,
            final(self).memory_manager == old(self).memory_manager,
    {
        match self.dir.try_lock_entry(index, old_data, lock) {
            Ok(_) => true,
            Err(_) => false,
        }
    }

    /// Releases the lock of directory entry `index`, expecting the entry
    /// to hold `old_data`. `Err` carries the word found instead.
    pub fn unlock_entry(&mut self, index: usize, old_data: u64) -> (r: Result<u64, u64>)
        requires
            index < old(self).dir.entries@.len(),
        ensures
            r is Ok <==> old(self).word(index as int) == old_data,
            r matches Ok(v) ==> v == old_data && final(self).dir.wrote(
                &old(self).dir,
                index as int,
                unlocked_word(old_data),
            ),
            r matches Err(v) ==> v == old(self).word(index as int) && final(self).dir.wrote(
                &old(self).dir,
                index as int,
                v,
            ),
            final(self).subtables == old(self).subtables,
            final(self).kvs == old(self).kvs,
            final(self).memory_manager == old(self).memory_manager,
    {
        self.dir.try_unlock_entry(index, old_data)
    }

    /// A copy of the directory for a client.
    pub fn get_directory(&self) -> (d: ClientDirectory)
        requires
            self.dir.wf(),
        ensures
            d.wf(),
            d.global_depth == self.dir.global_depth,
            forall|i: int|
                0 <= i < MAX_ENTRY_NUM ==> (#[trigger] d.entries@[i]).data == if i < self.size() {
                    self.dir.entries@[i].data
                } else {
                    0
                },
    {
        self.dir.get_directory()
    }

    /// Directory entry `index`.
    pub fn get_entry(&self, index: usize) -> (r: &MemPoolEntry)
        requires
            index < self.dir.entries@.len(),
        ensures
            r.data == self.word(index as int),
    {
        self.dir.get_entry_const(index)
    }
}

} // verus!
