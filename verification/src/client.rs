//! The client side: search, insert, update and delete against a cached
//! copy of the directory, and the split of a subtable when an insert
//! finds no free slot.

use vstd::prelude::*;
use crate::config::{BUCKET_GROUP_NUM, KV_HEADER_SIZE, MAX_ENTRY_NUM, MAX_KV_SIZE, SLOT_NUM};
use crate::directory::{dir_size, entry_lock, entry_ptr, unlocked_word, ClientDirectory};
use crate::facts::{
    lemma_authoritative,
    lemma_blocks_frame,
    lemma_client_extends,
    lemma_entry,
    lemma_hit,
    lemma_live_table,
    lemma_miss,
    lemma_own_table,
    lemma_referenced_stored,
    lemma_slot_cleared,
    lemma_slot_filled,
    lemma_slot_replaced,
    shown_bucket,
    slot_changed,
    snapshots_of,
    word_for,
};
use crate::hash::{group_hash_1, group_hash_2, HashMethod};
use crate::kvblock::record_len;
use crate::split::split_directory;
use crate::mempool::{placed, table_depth, table_ok, table_suffix, MemPool};
use crate::model::{delete_of, insert_of, search_of, update_of};
use crate::subtable::{
    copy_of, same_except, CombinedBucket, Slot, SlotPos,
};
use crate::utils::{key_suffix, slot_word, RaceUtils};

verus! {


/// Why an operation could not be carried out.
#[derive(Clone, Copy, PartialEq, Eq, Debug)]
pub enum RaceError {
    /// Key and value, with the record header, are larger than a slot can
    /// describe.
    InvalidSize,
    /// The allocator has no room left.
    AllocatorOom,
    /// A subtable had to be split at the largest depth of the directory.
    CapacityExceeded,
}

/// The slot an insert targets in a combined bucket whose count is `c`:
/// in the main bucket while it has room, else in the overflow bucket.
/// `main_index` is the main bucket's number in its group.
pub open spec fn target_in(cb: CombinedBucket, c: int, main_index: int) -> SlotPos {
    SlotPos {
        subtable: cb.subtable,
        bucket_group: cb.bucket_group,
        bucket: if c < SLOT_NUM {
            main_index as usize
        } else {
            1
        },
        header: if c < SLOT_NUM {
            cb.main_bucket.header.data
        } else {
            cb.overflow_bucket.header.data
        },
        slot: (c % (SLOT_NUM as int)) as usize,
    }
}

/// The slot selection policy of an insert: no slot if both combined
/// buckets are full; else the first free slot of the combined bucket with
/// the smaller count, the first one on a tie.
pub open spec fn choose_slot(cb0: CombinedBucket, cb1: CombinedBucket) -> Option<SlotPos> {
    let c0 = cb0.spec_count();
    let c1 = cb1.spec_count();
    if c0 == 2 * SLOT_NUM && c1 == 2 * SLOT_NUM {
        None
    } else if c0 <= c1 {
        Some(target_in(cb0, c0, 0))
    } else {
        Some(target_in(cb1, c1, 2))
    }
}

/// The slot that the policy selects is an empty slot of one of the key's
/// buckets.
pub proof fn lemma_chosen(t: crate::subtable::Subtable, key: Seq<char>, cbs: [CombinedBucket; 2])
    requires
        t.wf(),
        snapshots_of(t, key, cbs),
        choose_slot(cbs@[0], cbs@[1]) is Some,
    ensures
        choose_slot(cbs@[0], cbs@[1])->0.in_range(),
        placed(
            key,
            choose_slot(cbs@[0], cbs@[1])->0.bucket_group as int,
            choose_slot(cbs@[0], cbs@[1])->0.bucket as int,
        ),
        t.slot_at(
            choose_slot(cbs@[0], cbs@[1])->0.bucket_group as int,
            choose_slot(cbs@[0], cbs@[1])->0.bucket as int,
            choose_slot(cbs@[0], cbs@[1])->0.slot as int,
        ).is_empty(),
{
    crate::hash::lemma_hash_below(crate::hash::key_bytes(key), 31, BUCKET_GROUP_NUM as nat);
    crate::hash::lemma_hash_below(crate::hash::key_bytes(key), 131, BUCKET_GROUP_NUM as nat);
    let m0 = cbs@[0].main_bucket.slots@;
    let o0 = cbs@[0].overflow_bucket.slots@;
    let m1 = cbs@[1].main_bucket.slots@;
    let o1 = cbs@[1].overflow_bucket.slots@;
    crate::subtable::lemma_used_slots_count(m0, 0);
    crate::subtable::lemma_used_slots_count(o0, 0);
    crate::subtable::lemma_used_slots_count(m1, 0);
    crate::subtable::lemma_used_slots_count(o1, 0);
    let sp = choose_slot(cbs@[0], cbs@[1])->0;
    assert(t.slot_at(sp.bucket_group as int, sp.bucket as int, sp.slot as int) == t.bucket_at(
        sp.bucket_group as int,
        sp.bucket as int,
    ).slots@[sp.slot as int]);
}

/// Whether a bucket header advertises a depth and a suffix that `key`
/// has.
pub open spec fn header_fits(key: Seq<char>, h: crate::subtable::Header) -> bool {
    h.local_depth() <= crate::config::MAX_DEPTH && key_suffix(key, h.local_depth()) == h.suffix()
}

/// Tells whether the headers of both snapshots fit `key`: if one does
/// not, the subtable was split since the directory was copied, and the
/// key belongs elsewhere.
pub fn header_matches(key: &String, cbs: &[CombinedBucket; 2]) -> (r: bool)
    ensures
        r == (header_fits(key@, cbs@[0].main_bucket.header) && header_fits(
            key@,
            cbs@[1].main_bucket.header,
        )),
{
    let remote_local_depth1 = cbs[0].main_bucket.header.get_local_depth();
    let remote_suffix1 = cbs[0].main_bucket.header.get_suffix();
    let remote_local_depth2 = cbs[1].main_bucket.header.get_local_depth();
    let remote_suffix2 = cbs[1].main_bucket.header.get_suffix();
    if remote_local_depth1 > crate::config::MAX_DEPTH || remote_local_depth2
        > crate::config::MAX_DEPTH {
        return false;
    }
    let suffix1 = RaceUtils::get_suffix(key, remote_local_depth1);
    let suffix2 = RaceUtils::get_suffix(key, remote_local_depth2);
    remote_suffix1 == suffix1 && remote_suffix2 == suffix2
}

/// The records of `after` are those of `before` without one record of
/// `key`.
pub open spec fn record_removed(
    before: Map<u64, crate::kvblock::KVBlockMem>,
    after: Map<u64, crate::kvblock::KVBlockMem>,
    key: Seq<char>,
) -> bool {
    exists|p: u64| #[trigger]
        before.contains_key(p) && before[p].key@ == key && after == before.remove(p)
}

/// The records of `after` are those of `before` and one new record of
/// `key` and `val`.
pub open spec fn record_added(
    before: Map<u64, crate::kvblock::KVBlockMem>,
    after: Map<u64, crate::kvblock::KVBlockMem>,
    key: Seq<char>,
    val: Seq<char>,
) -> bool {
    exists|p: u64| #[trigger]
        after.contains_key(p) && !before.contains_key(p) && after == before.insert(p, after[p])
            && after[p].key@ == key && after[p].value@ == val
}

/// The record at `ptr` is a record of `key` and `val` that no slot points
/// to yet.
pub open spec fn new_block(pool: &MemPool, ptr: u64, key: Seq<char>, val: Seq<char>) -> bool {
    &&& pool.kvs@.contains_key(ptr)
    &&& pool.kvs@[ptr].key@ == key
    &&& pool.kvs@[ptr].value@ == val
    &&& pool.kvs@[ptr].intact()
    &&& pool.kvs@[ptr].total_len() == record_len(key, val)
    &&& record_len(key, val) <= MAX_KV_SIZE
    &&& !pool.referenced(ptr)
}

/// What a client knows of the subtable that its cached directory gives
/// for a key, and of snapshots taken from it.
pub proof fn lemma_snapshot(c: &Client, pool: &MemPool, key: Seq<char>, cbs: [CombinedBucket; 2])
    requires
        pool.shape_ok(),
        pool.dir_ok(),
        pool.tables_ok(),
        c.wf(pool),
        snapshots_of(pool.subtables@[c.ptr_of(key)], key, cbs),
    ensures
        pool.is_live(c.ptr_of(key)),
        pool.subtables@.contains_key(c.ptr_of(key)),
        pool.subtables@[c.ptr_of(key)].wf(),
        crate::mempool::table_ok(pool.subtables@[c.ptr_of(key)], pool.kvs@),
        cbs@[0].main_bucket.header == pool.subtables@[c.ptr_of(key)].bucket_at(0, 0).header,
        cbs@[1].main_bucket.header == pool.subtables@[c.ptr_of(key)].bucket_at(0, 0).header,
        cbs@[0].bucket_group < BUCKET_GROUP_NUM,
        cbs@[1].bucket_group < BUCKET_GROUP_NUM,
        table_depth(pool.subtables@[c.ptr_of(key)]) <= crate::config::MAX_DEPTH,
        header_fits(key, cbs@[0].main_bucket.header) ==> pool.ptr_at(pool.index_of(key))
            == c.ptr_of(key),
        c.fresh(pool) ==> header_fits(key, cbs@[0].main_bucket.header),
{
    let tptr = c.ptr_of(key);
    let t = pool.subtables@[tptr];
    crate::bits::lemma_size_bound(c.directory.global_depth);
    assert(entry_lock(c.directory.entries@[c.index_of(key)].data) == 0);
    lemma_live_table(pool, tptr);
    crate::hash::lemma_hash_below(crate::hash::key_bytes(key), 31, BUCKET_GROUP_NUM as nat);
    crate::hash::lemma_hash_below(crate::hash::key_bytes(key), 131, BUCKET_GROUP_NUM as nat);
    assert(t.bucket_at(group_hash_1(key) as int, 0).header == t.bucket_at(0, 0).header);
    assert(t.bucket_at(group_hash_2(key) as int, 2).header == t.bucket_at(0, 0).header);
    if header_fits(key, cbs@[0].main_bucket.header) {
        lemma_authoritative(pool, tptr, key);
    }
    if c.fresh(pool) {
        lemma_own_table(pool, key);
        assert(c.directory.entries@[c.index_of(key)].data == pool.word(pool.index_of(key)));
    }
}

/// A client of an index: it keeps a copy of the directory, which may lag
/// behind the storage side.
pub struct Client {
    pub directory: ClientDirectory,
}

impl Client {
    /// The cached word of directory entry `i`.
    pub open spec fn word(&self, i: int) -> u64 {
        self.directory.entries@[i].data
    }

    /// Number of live entries of the cached directory.
    pub open spec fn size(&self) -> int {
        dir_size(self.directory.global_depth as int)
    }

    /// The cached directory entry that a key selects.
    pub open spec fn index_of(&self, key: Seq<char>) -> int {
        key_suffix(key, self.directory.global_depth) as int
    }

    /// The subtable that the cached directory gives for a key.
    pub open spec fn ptr_of(&self, key: Seq<char>) -> u64 {
        entry_ptr(self.word(self.index_of(key)))
    }

    /// The cached directory can be used against `pool`: it is no deeper
    /// than the pool's directory; its entries beyond the live ones are
    /// zero; no live entry is locked, and each points to a subtable that the
    /// pool's directory still points to.
    pub open spec fn wf(&self, pool: &MemPool) -> bool {
        &&& self.directory.wf()
        &&& self.directory.global_depth <= pool.dir.global_depth
        &&& forall|i: int|
            self.size() <= i < MAX_ENTRY_NUM ==> (#[trigger] self.directory.entries@[i]).data == 0
        &&& forall|i: int|
            0 <= i < self.size() ==> entry_lock((#[trigger] self.directory.entries@[i]).data) == 0
                && pool.is_live(entry_ptr(self.word(i)))
    }

    /// The cached directory is the pool's directory.
    pub open spec fn fresh(&self, pool: &MemPool) -> bool {
        &&& self.directory.global_depth == pool.dir.global_depth
        &&& forall|i: int|
            0 <= i < self.size() ==> (#[trigger] self.directory.entries@[i]).data == pool.word(i)
    }

    /// No entry of the cached directory carries a lock byte.
    pub open spec fn cache_unlocked(&self) -> bool {
        forall|i: int|
            0 <= i < MAX_ENTRY_NUM ==> entry_lock((#[trigger] self.directory.entries@[i]).data) == 0
    }

    /// The cached directory is a copy of the pool's directory with the
    /// lock bytes cleared.
    pub open spec fn copied_from(&self, pool: &MemPool) -> bool {
        &&& self.directory.global_depth == pool.dir.global_depth
        &&& forall|i: int|
            0 <= i < MAX_ENTRY_NUM ==> (#[trigger] self.directory.entries@[i]).data == if i
                < pool.size() {
                unlocked_word(pool.word(i))
            } else {
                0
            }
    }

    /// One if the cached directory lags behind, zero if it does not.
    pub open spec fn staleness(&self, pool: &MemPool) -> nat {
        if self.fresh(pool) {
            0
        } else {
            1
        }
    }

    /// A client with a fresh copy of the directory.
    pub fn new(pool: &MemPool) -> (c: Client)
        requires
            pool.wf(),
        ensures
            c.wf(pool),
            c.fresh(pool),
    {
        let mut c = Client { directory: ClientDirectory::new() };
        c.refresh_directory(pool);
        c
    }

    /// Number of live entries of the cached directory.
    pub fn get_size(&self) -> (r: usize)
        requires
            self.directory.wf(),
        ensures
            r == self.size(),
            1 <= r <= MAX_ENTRY_NUM,
    {
        proof {
            crate::bits::lemma_size_bound(self.directory.global_depth);
        }
        RaceUtils::depth_to_size(self.directory.global_depth)
    }

    /// Snapshots of the two combined buckets of `key`, read from the
    /// subtable that the cached directory gives for it. `None` if the pool
    /// stores no subtable there.
    pub fn get_combined_buckets(&self, pool: &MemPool, key: &String) -> (r: Option<
        [CombinedBucket; 2],
    >)
        requires
            pool.shape_ok(),
            self.directory.wf(),
        ensures
            r is Some <==> pool.subtables@.contains_key(self.ptr_of(key@)),
            r matches Some(cbs) ==> {
                &&& snapshots_of(pool.subtables@[self.ptr_of(key@)], key@, cbs)
                &&& cbs@[0].subtable == self.ptr_of(key@)
                &&& cbs@[1].subtable == self.ptr_of(key@)
            },
    {
        proof {
            crate::bits::lemma_size_bound(self.directory.global_depth);
        }
        let index = RaceUtils::get_suffix(key, self.directory.global_depth) as usize;
        let hash_1 = crate::hash::Hash::hash(key, HashMethod::CombinedBucket1) as usize;
        let hash_2 = crate::hash::Hash::hash(key, HashMethod::CombinedBucket2) as usize;
        self.directory.get_entry_const(index).get_combined_buckets(&pool.subtables, hash_1, hash_2)
    }

    /// Clears the lock byte of every live entry of the cached directory.
    pub fn clear_all_lock_status(&mut self)
        requires
            old(self).directory.wf(),
        ensures
            final(self).directory.wf(),
            final(self).directory.global_depth == old(self).directory.global_depth,
            forall|i: int|
                0 <= i < MAX_ENTRY_NUM ==> (#[trigger] final(self).directory.entries@[i]).data
                    == if i < old(self).size() {
                    unlocked_word(old(self).word(i))
                } else {
                    old(self).word(i)
                },
    {
        let n = self.get_size();
        let mut index: usize = 0;
        while index < n
            invariant
                index <= n,
                n == old(self).size(),
                n <= MAX_ENTRY_NUM,
                self.directory.wf(),
                self.directory.global_depth == old(self).directory.global_depth,
                forall|i: int|
                    0 <= i < MAX_ENTRY_NUM ==> (#[trigger] self.directory.entries@[i]).data == if i
                        < index {
                        unlocked_word(old(self).word(i))
                    } else {
                        old(self).word(i)
                    },
            decreases n - index,
        {
            let ghost prev = self.directory.entries@;
            self.directory.entries[index].clear_lock_status();
            assert(self.directory.entries@
                == prev.update(index as int, self.directory.entries@[index as int]));
            index += 1;
        }
    }

    /// Takes a new copy of the pool's directory, whatever its lock bytes
    /// are, and clears the lock bytes of the copy.
    pub fn refresh_directory_without_wait(&mut self, pool: &MemPool)
        requires
            pool.dir.wf(),
        ensures
            final(self).directory.wf(),
            final(self).directory.global_depth == pool.dir.global_depth,
            forall|i: int|
                0 <= i < MAX_ENTRY_NUM ==> (#[trigger] final(self).directory.entries@[i]).data
                    == if i < pool.size() {
                    unlocked_word(pool.word(i))
                } else {
                    0
                },
    {
        proof {
            crate::bits::lemma_size_bound(pool.depth());
        }
        self.directory = pool.get_directory();
        let ghost mid = *self;
        self.clear_all_lock_status();
        proof {
            assert forall|i: int| 0 <= i < MAX_ENTRY_NUM implies (
            #[trigger] self.directory.entries@[i]).data == if i < pool.size() {
                unlocked_word(pool.word(i))
            } else {
                0
            } by {
                assert(mid.directory.entries@[i].data == if i < pool.size() {
                    pool.word(i)
                } else {
                    0
                });
            }
        }
    }

    /// Takes a new copy of the pool's directory once no live entry of it
    /// is locked.
    pub fn refresh_directory(&mut self, pool: &MemPool)
        requires
            pool.dir.wf(),
            pool.unlocked(),
        ensures
            final(self).directory.wf(),
            final(self).fresh(pool),
            pool.shape_ok() && pool.dir_ok() ==> final(self).wf(pool),
    {
        proof {
            crate::bits::lemma_size_bound(pool.depth());
        }
        let mut done = false;
        while !done
            invariant
                pool.dir.wf(),
                pool.unlocked(),
                pool.size() <= MAX_ENTRY_NUM,
                done ==> self.directory.wf() && self.directory.global_depth
                    == pool.dir.global_depth && forall|i: int|
                    0 <= i < MAX_ENTRY_NUM ==> (#[trigger] self.directory.entries@[i]).data == if i
                        < pool.size() {
                        pool.word(i)
                    } else {
                        0
                    },
            decreases
                    (if done {
                        0nat
                    } else {
                        1nat
                    }),
        {
            self.directory = pool.get_directory();
            let n = self.get_size();
            let mut all_free = true;
            let mut index: usize = 0;
            while index < n
                invariant
                    index <= n,
                    n == pool.size(),
                    n <= MAX_ENTRY_NUM,
                    all_free,
                    pool.unlocked(),
                    self.directory.wf(),
                    forall|i: int|
                        0 <= i < MAX_ENTRY_NUM ==> (#[trigger] self.directory.entries@[i]).data
                            == if i < pool.size() {
                            pool.word(i)
                        } else {
                            0
                        },
                decreases n - index,
            {
                assert(self.word(index as int) == pool.word(index as int));
                assert(entry_lock(pool.word(index as int)) == 0);
                if self.directory.get_entry_const(index).check_is_locked() {
                    all_free = false;
                }
                index += 1;
            }
            done = all_free;
        }
        proof {
            assert forall|i: int| 0 <= i < pool.size() implies unlocked_word(
                (#[trigger] self.directory.entries@[i]).data,
            ) == self.word(i) by {
                assert(entry_lock(pool.word(i)) == 0);
                crate::directory::lemma_lock_words(self.word(i));
            }
        }
        let ghost mid = *self;
        self.clear_all_lock_status();
        proof {
            assert forall|i: int| 0 <= i < self.size() implies (
            #[trigger] self.directory.entries@[i]).data == pool.word(i) by {
                assert(mid.directory.entries@[i].data == pool.word(i));
                assert(unlocked_word(mid.word(i)) == mid.word(i));
            }
            assert forall|i: int| self.size() <= i < MAX_ENTRY_NUM implies (
            #[trigger] self.directory.entries@[i]).data == 0 by {
                assert(mid.directory.entries@[i].data == 0);
            }
            if pool.shape_ok() && pool.dir_ok() {
                assert forall|i: int| 0 <= i < self.size() implies entry_lock(
                    (#[trigger] self.directory.entries@[i]).data,
                ) == 0 && pool.is_live(entry_ptr(self.word(i))) by {
                    assert(entry_lock(pool.word(i)) == 0);
                    lemma_entry(pool, i);
                }
            }
        }
    }

    /// The search proper, on snapshots taken through the cached directory.
    /// A record found is returned once its checksum is verified. If the
    /// snapshots' header does not match the key, the subtable was split
    /// since the directory was copied: the copy is renewed and the search
    /// starts again.
    pub fn _search(&mut self, pool: &MemPool, key: &String, cbs: &[CombinedBucket; 2]) -> (r:
        Option<String>)
        requires
            pool.wf(),
            old(self).wf(pool),
            snapshots_of(pool.subtables@[old(self).ptr_of(key@)], key@, *cbs),
        ensures
            final(self).wf(pool),
            r is Some <==> pool@.contains_key(key@),
            r matches Some(v) ==> v@ == pool@[key@],
            match r {
                Some(v) => search_of(pool@, key@) == Some(v@),
                None => search_of(pool@, key@) is None,
            },
            r is None ==> pool.ptr_of_key_known(final(self), key@),
        decreases old(self).staleness(pool), 0nat,
    {
        let ghost tptr = self.ptr_of(key@);
        let ghost t = pool.subtables@[tptr];
        proof {
            crate::bits::lemma_size_bound(self.directory.global_depth);
            assert(entry_lock(self.directory.entries@[self.index_of(key@)].data) == 0);
            assert(pool.is_live(entry_ptr(self.word(self.index_of(key@)))));
            lemma_live_table(pool, tptr);
            assert(t.bucket_at(group_hash_1(key@) as int, 0).header == t.bucket_at(0, 0).header)
                by {
                crate::hash::lemma_hash_below(
                    crate::hash::key_bytes(key@),
                    31,
                    BUCKET_GROUP_NUM as nat,
                );
            }
            assert(t.bucket_at(group_hash_2(key@) as int, 2).header == t.bucket_at(0, 0).header)
                by {
                crate::hash::lemma_hash_below(
                    crate::hash::key_bytes(key@),
                    131,
                    BUCKET_GROUP_NUM as nat,
                );
            }
        }
        let remote_local_depth1 = cbs[0].main_bucket.header.get_local_depth();
        let remote_suffix1 = cbs[0].main_bucket.header.get_suffix();
        let suffix1 = RaceUtils::get_suffix(key, remote_local_depth1);
        let remote_local_depth2 = cbs[1].main_bucket.header.get_local_depth();
        let remote_suffix2 = cbs[1].main_bucket.header.get_suffix();
        let suffix2 = RaceUtils::get_suffix(key, remote_local_depth2);
        let matches = remote_suffix1 == suffix1 && remote_suffix2 == suffix2;
        assert(matches == (key_suffix(key@, table_depth(t)) == table_suffix(t)));

        let mut result: Option<String> = None;
        let mut i: usize = 0;
        while i < 2 && result.is_none()
            invariant
                i <= 2,
                pool.wf(),
                self.wf(pool),
                *self == *old(self),
                t == pool.subtables@[tptr],
                pool.is_live(tptr),
                snapshots_of(t, key@, *cbs),
                forall|w: int| 0 <= w < i && result is None ==> (#[trigger] cbs@[w]).misses(
                    pool.kvs@,
                    key@,
                ),
                result matches Some(v) ==> crate::mempool::table_has(t, pool.kvs@, key@) && v@
                    == crate::mempool::table_value(t, pool.kvs@, key@) && key_suffix(
                    key@,
                    table_depth(t),
                ) == table_suffix(t),
            decreases 2 - i + (if result is None { 1int } else { 0int }),
        {
            if let Some(v) = cbs[i].get_by_key(key, &pool.kvs) {
                proof {
                    lemma_live_table(pool, tptr);
                    let (in_overflow, k) = choose|in_overflow: bool, k: int|
                        cbs@[i as int].hit(pool.kvs@, key@, in_overflow, k) && copy_of(
                            v,
                            pool.kvs@[(#[trigger] cbs@[i as int].slot(in_overflow, k)).ptr()],
                        );
                    lemma_hit(t, pool.kvs@, key@, *cbs, i as int, in_overflow, k);
                    let slot = cbs@[i as int].slot(in_overflow, k);
                    assert(crate::mempool::slot_ok(
                        t,
                        pool.kvs@,
                        cbs@[i as int].bucket_group as int,
                        crate::facts::shown_bucket(i as int, in_overflow),
                        k,
                    ));
                    assert(pool.kvs@[slot.ptr()].intact());
                }
                if RaceUtils::check_crc(&v.key, &v.value, v.crc64) {
                    result = Some(v.value);
                } else {
                    return self.search(pool, key);
                }
            } else {
                i += 1;
            }
        }
        proof {
            lemma_live_table(pool, tptr);
            if matches {
                lemma_authoritative(pool, tptr, key@);
                if result is None {
                    assert(cbs@[0].misses(pool.kvs@, key@));
                    assert(cbs@[1].misses(pool.kvs@, key@));
                    lemma_miss(t, pool.kvs@, key@, *cbs);
                }
            } else {
                if self.fresh(pool) {
                    lemma_own_table(pool, key@);
                    assert(self.directory.entries@[self.index_of(key@)].data == pool.word(
                        pool.index_of(key@),
                    ));
                    assert(false);
                }
            }
        }
        if matches {
            result
        } else {
            self.refresh_directory(pool);
            if result.is_some() {
                result
            } else {
                self.search(pool, key)
            }
        }
    }

    /// Looks `key` up. Returns its value, or `None` if the index does not
    /// hold the key.
    pub fn search(&mut self, pool: &MemPool, key: &String) -> (r: Option<String>)
        requires
            pool.wf(),
            old(self).wf(pool),
        ensures
            final(self).wf(pool),
            r is Some <==> pool@.contains_key(key@),
            r matches Some(v) ==> v@ == pool@[key@],
            match r {
                Some(v) => search_of(pool@, key@) == Some(v@),
                None => search_of(pool@, key@) is None,
            },
            r is None ==> pool.ptr_of_key_known(final(self), key@),
        decreases old(self).staleness(pool), 1nat,
    {
        proof {
            crate::bits::lemma_size_bound(self.directory.global_depth);
            assert(entry_lock(self.directory.entries@[self.index_of(key@)].data) == 0);
            assert(pool.is_live(entry_ptr(self.word(self.index_of(key@)))));
            lemma_live_table(pool, self.ptr_of(key@));
        }
        match self.get_combined_buckets(pool, key) {
            Some(cbs) => self._search(pool, key, &cbs),
            None => None,
        }
    }

    /// The slot for a new key, by the counts of its two combined buckets:
    /// `None` if both are full; else the first free slot of the one with
    /// the smaller count, the first on a tie. The slot lies in the main
    /// bucket while that has room, else in the overflow bucket.
    pub fn get_slot(cbs: &[CombinedBucket; 2]) -> (r: Option<SlotPos>)
        ensures
            r == choose_slot(cbs@[0], cbs@[1]),
    {
        let cb1_count = cbs[0].count();
        let cb2_count = cbs[1].count();
        if cb1_count < cb2_count {
            Some(
                SlotPos {
                    subtable: cbs[0].subtable,
                    bucket_group: cbs[0].bucket_group,
                    bucket: if cb1_count < SLOT_NUM {
                        0
                    } else {
                        1
                    },
                    header: if cb1_count < SLOT_NUM {
                        cbs[0].main_bucket.get_header()
                    } else {
                        cbs[0].overflow_bucket.get_header()
                    },
                    slot: cb1_count % SLOT_NUM,
                },
            )
        } else if cb1_count > cb2_count {
            Some(
                SlotPos {
                    subtable: cbs[1].subtable,
                    bucket_group: cbs[1].bucket_group,
                    bucket: if cb2_count < SLOT_NUM {
                        2
                    } else {
                        1
                    },
                    header: if cb2_count < SLOT_NUM {
                        cbs[1].main_bucket.get_header()
                    } else {
                        cbs[1].overflow_bucket.get_header()
                    },
                    slot: cb2_count % SLOT_NUM,
                },
            )
        } else {
            if cb1_count == 2 * SLOT_NUM {
                None
            } else {
                Some(
                    SlotPos {
                        subtable: cbs[0].subtable,
                        bucket_group: cbs[0].bucket_group,
                        bucket: if cb1_count < SLOT_NUM {
                            0
                        } else {
                            1
                        },
                        header: if cb1_count < SLOT_NUM {
                            cbs[0].main_bucket.get_header()
                        } else {
                            cbs[0].overflow_bucket.get_header()
                        },
                        slot: cb1_count % SLOT_NUM,
                    },
                )
            }
        }
    }

    /// Writes the slot word of the record at `kv_block` into the slot at
    /// `slot_pos` by compare-and-swap from the old word `expected`.
    pub fn update_slot(
        pool: &mut MemPool,
        slot_pos: &SlotPos,
        key: &String,
        val: &String,
        kv_block: u64,
        expected: u64,
    ) -> (ok: bool)
        requires
            old(pool).shape_ok(),
            slot_pos.in_range(),
            record_len(key@, val@) <= MAX_KV_SIZE,
        ensures
            final(pool).shape_ok(),
            final(pool).dir == old(pool).dir,
            final(pool).kvs@ == old(pool).kvs@,
            final(pool).memory_manager == old(pool).memory_manager,
            ok == (old(pool).subtables@.contains_key(slot_pos.subtable)
                && old(pool).subtables@[slot_pos.subtable].slot_at(
                slot_pos.bucket_group as int,
                slot_pos.bucket as int,
                slot_pos.slot as int,
            ).data == expected),
            !ok ==> final(pool).subtables@ == old(pool).subtables@,
            ok ==> slot_changed(
                old(pool),
                final(pool),
                slot_pos.subtable,
                slot_pos.bucket_group as int,
                slot_pos.bucket as int,
                slot_pos.slot as int,
                slot_word(key@, val@, kv_block),
            ),
    {
        let data = RaceUtils::set_data(key, val, kv_block);
        pool.write_slot(slot_pos, data, expected)
    }

    /// The delete proper, on snapshots taken through the cached
    /// directory. If their header does not fit the key, the copy of the
    /// directory is renewed and the delete starts again. Else the slot that
    /// holds the key is cleared by compare-and-swap and its record freed.
    pub fn _delete(&mut self, pool: &mut MemPool, key: &String, cbs: &[CombinedBucket; 2]) -> (r:
        bool)
        requires
            old(pool).wf(),
            old(self).wf(old(pool)),
            snapshots_of(old(pool).subtables@[old(self).ptr_of(key@)], key@, *cbs),
            cbs@[0].subtable == old(self).ptr_of(key@),
            cbs@[1].subtable == old(self).ptr_of(key@),
        ensures
            final(pool).wf(),
            final(self).wf(final(pool)),
            final(pool).extends(old(pool)),
            r == old(pool)@.contains_key(key@),
            final(pool)@ == old(pool)@.remove(key@),
            if r {
                record_removed(old(pool).kvs@, final(pool).kvs@, key@)
            } else {
                final(pool).kvs@ == old(pool).kvs@
            },
        decreases old(self).staleness(old(pool)), 0nat,
    {
        let ghost q0 = *pool;
        let ghost tptr = self.ptr_of(key@);
        let ghost t = pool.subtables@[tptr];
        proof {
            lemma_snapshot(self, &q0, key@, *cbs);
        }
        // the header does not fit the key: read the directory again and redo
        if !header_matches(key, cbs) {
            self.refresh_directory(pool);
            return self.delete(pool, key);
        }
        let mut which: usize = 0;
        let mut op_spd = cbs[0].get_slot_pos_and_data(key, 0, &pool.kvs);
        if op_spd.is_none() {
            which = 1;
            op_spd = cbs[1].get_slot_pos_and_data(key, 1, &pool.kvs);
        }
        if let Some(spd) = op_spd {
            let ghost in_overflow = spd.0.bucket == 1;
            let ghost g = spd.0.bucket_group as int;
            let ghost b = spd.0.bucket as int;
            let ghost k = spd.0.slot as int;
            proof {
                lemma_hit(t, q0.kvs@, key@, *cbs, which as int, in_overflow, k);
                assert(b == shown_bucket(which as int, in_overflow));
                assert(crate::mempool::slot_ok(t, q0.kvs@, g, b, k));
            }
            if pool.write_slot(&spd.0, 0, spd.1) {
                let ghost pa = *pool;
                proof {
                    lemma_slot_cleared(&q0, &pa, g, b, k, key@);
                }
                let slot = Slot { data: spd.1 };
                pool.free_kv(slot.get_kv_pointer(), slot.get_length() as usize);
                proof {
                    let pb = *pool;
                    assert forall|p: u64| pa.referenced(p) implies #[trigger] pb.kvs@.contains_key(
                        p,
                    ) && pb.kvs@[p] == pa.kvs@[p] by {
                        lemma_referenced_stored(&pa, p);
                    }
                    lemma_blocks_frame(&pa, &pb);
                    lemma_client_extends(self, &q0, &pa);
                    lemma_client_extends(self, &pa, &pb);
                }
                true
            } else {
                // the slot changed since it was read: read the directory again and redo
                self.refresh_directory(pool);
                self.delete(pool, key)
            }
        } else {
            // the header fits the key, so the key is not in the index
            proof {
                lemma_miss(t, q0.kvs@, key@, *cbs);
                assert(pool@.remove(key@) =~= pool@);
            }
            false
        }
    }

    /// Removes `key`. Tells whether the index held it.
    pub fn delete(&mut self, pool: &mut MemPool, key: &String) -> (r: bool)
        requires
            old(pool).wf(),
            old(self).wf(old(pool)),
        ensures
            final(pool).wf(),
            final(self).wf(final(pool)),
            final(pool).extends(old(pool)),
            r == old(pool)@.contains_key(key@),
            final(pool)@ == old(pool)@.remove(key@),
            if r {
                record_removed(old(pool).kvs@, final(pool).kvs@, key@)
            } else {
                final(pool).kvs@ == old(pool).kvs@
            },
            (final(pool)@, r) == delete_of(old(pool)@, key@),
        decreases old(self).staleness(old(pool)), 1nat,
    {
        proof {
            crate::bits::lemma_size_bound(self.directory.global_depth);
            assert(entry_lock(self.directory.entries@[self.index_of(key@)].data) == 0);
            lemma_live_table(pool, self.ptr_of(key@));
        }
        match self.get_combined_buckets(pool, key) {
            Some(cbs) => self._delete(pool, key, &cbs),
            None => vstd::pervasive::unreached(),
        }
    }

    /// The update proper: finds the slot that holds `key` and replaces
    /// its word by the word of the new record at `kv_block`, by
    /// compare-and-swap; then frees the old record. Tells whether the index
    /// held the key; if it did not, the new record is left in the store.
    pub fn _update(&mut self, pool: &mut MemPool, key: &String, val: &String, kv_block: u64) -> (r:
        bool)
        requires
            old(pool).wf(),
            old(self).wf(old(pool)),
            new_block(old(pool), kv_block, key@, val@),
        ensures
            final(pool).wf(),
            final(self).wf(final(pool)),
            final(pool).extends(old(pool)),
            r == old(pool)@.contains_key(key@),
            r ==> final(pool)@ == old(pool)@.insert(key@, val@),
            if r {
                record_removed(old(pool).kvs@, final(pool).kvs@, key@)
            } else {
                final(pool).kvs@ == old(pool).kvs@
            },
            !r ==> final(pool)@ == old(pool)@ && new_block(final(pool), kv_block, key@, val@),
        decreases old(self).staleness(old(pool)),
    {
        let ghost q0 = *pool;
        proof {
            crate::bits::lemma_size_bound(self.directory.global_depth);
            assert(entry_lock(self.directory.entries@[self.index_of(key@)].data) == 0);
            lemma_live_table(pool, self.ptr_of(key@));
        }
        let cbs = match self.get_combined_buckets(pool, key) {
            Some(cbs) => cbs,
            None => vstd::pervasive::unreached(),
        };
        let ghost tptr = self.ptr_of(key@);
        let ghost t = pool.subtables@[tptr];
        proof {
            lemma_snapshot(self, &q0, key@, cbs);
        }
        // the header does not fit the key: read the directory again and redo
        if !header_matches(key, &cbs) {
            self.refresh_directory(pool);
            return self._update(pool, key, val, kv_block);
        }
        let mut which: usize = 0;
        let mut op_spd = cbs[0].get_slot_pos_and_data(key, 0, &pool.kvs);
        if op_spd.is_none() {
            which = 1;
            op_spd = cbs[1].get_slot_pos_and_data(key, 1, &pool.kvs);
        }
        if let Some(spd) = op_spd {
            let ghost in_overflow = spd.0.bucket == 1;
            let ghost g = spd.0.bucket_group as int;
            let ghost b = spd.0.bucket as int;
            let ghost k = spd.0.slot as int;
            proof {
                lemma_hit(t, q0.kvs@, key@, cbs, which as int, in_overflow, k);
                assert(b == shown_bucket(which as int, in_overflow));
                assert(crate::mempool::slot_ok(t, q0.kvs@, g, b, k));
                assert(q0.kvs@[kv_block].total_len() >= KV_HEADER_SIZE);
                crate::word::lemma_with_low48(0, kv_block);
                crate::word::lemma_pack(
                    crate::hash::fingerprint(key@) as u8,
                    record_len(key@, val@) as u8,
                    kv_block,
                );
                assert(word_for(q0.kvs@, slot_word(key@, val@, kv_block), key@, val@, kv_block));
            }
            if Client::update_slot(pool, &spd.0, key, val, kv_block, spd.1) {
                let ghost pa = *pool;
                proof {
                    lemma_slot_replaced(
                        &q0,
                        &pa,
                        g,
                        b,
                        k,
                        slot_word(key@, val@, kv_block),
                        key@,
                        val@,
                        kv_block,
                    );
                }
                let slot = Slot { data: spd.1 };
                pool.free_kv(slot.get_kv_pointer(), slot.get_length() as usize);
                proof {
                    let pb = *pool;
                    assert forall|p: u64| pa.referenced(p) implies #[trigger] pb.kvs@.contains_key(
                        p,
                    ) && pb.kvs@[p] == pa.kvs@[p] by {
                        lemma_referenced_stored(&pa, p);
                    }
                    lemma_blocks_frame(&pa, &pb);
                    lemma_client_extends(self, &q0, &pa);
                    lemma_client_extends(self, &pa, &pb);
                }
                true
            } else {
                // the slot changed since it was read: read the directory again and redo
                self.refresh_directory(pool);
                self._update(pool, key, val, kv_block)
            }
        } else {
            // the header fits the key, so the key is not in the index
            proof {
                lemma_miss(t, q0.kvs@, key@, cbs);
            }
            false
        }
    }

    /// Gives `key` the value `val` if the index holds the key. `Ok(true)`
    /// if it did, `Ok(false)` if the key is not in the index. Fails, with
    /// the index unchanged, if key and value are too large for one record
    /// or the allocator has no room for the new record.
    pub fn update(&mut self, pool: &mut MemPool, key: &String, val: &String) -> (r: Result<
        bool,
        RaceError,
    >)
        requires
            old(pool).wf(),
            old(self).wf(old(pool)),
        ensures
            final(pool).wf(),
            final(self).wf(final(pool)),
            final(pool).extends(old(pool)),
            r == Err::<bool, RaceError>(RaceError::InvalidSize) <==> record_len(key@, val@)
                > MAX_KV_SIZE,
            r == Err::<bool, RaceError>(RaceError::AllocatorOom) <==> record_len(key@, val@)
                <= MAX_KV_SIZE && !old(pool).memory_manager.can_allocate(record_len(key@, val@)),
            r != Err::<bool, RaceError>(RaceError::CapacityExceeded),
            r matches Ok(found) ==> found == old(pool)@.contains_key(key@),
            r matches Ok(found) ==> (final(pool)@, found) == update_of(old(pool)@, key@, val@),
            if r == Ok::<bool, RaceError>(true) {
                exists|mid: Map<u64, crate::kvblock::KVBlockMem>|
                    #![trigger record_added(old(pool).kvs@, mid, key@, val@)]
                    record_added(old(pool).kvs@, mid, key@, val@) && record_removed(
                        mid,
                        final(pool).kvs@,
                        key@,
                    )
            } else {
                final(pool).kvs@ == old(pool).kvs@
            },
            final(pool)@ == if r == Ok::<bool, RaceError>(true) {
                old(pool)@.insert(key@, val@)
            } else {
                old(pool)@
            },
    {
        let ghost q0 = *pool;
        let klen = key.as_str().as_bytes().len();
        let vlen = val.as_str().as_bytes().len();
        if klen > MAX_KV_SIZE || vlen > MAX_KV_SIZE || KV_HEADER_SIZE + klen + vlen > MAX_KV_SIZE {
            proof {
                assert forall|t: u64| q0.is_live(t) implies pool.is_live(t) by {}
            }
            return Err(RaceError::InvalidSize);
        }
        let kv_block = match pool.write_kv(key.clone(), val.clone()) {
            Some(p) => p,
            None => {
                proof {
                    let pa = *pool;
                    assert forall|p: u64| q0.referenced(p) implies #[trigger] pa.kvs@.contains_key(
                        p,
                    ) && pa.kvs@[p] == q0.kvs@[p] by {
                        lemma_referenced_stored(&q0, p);
                    }
                    lemma_blocks_frame(&q0, &pa);
                    lemma_client_extends(self, &q0, &pa);
                }
                return Err(RaceError::AllocatorOom);
            },
        };
        let ghost pa = *pool;
        proof {
            assert forall|p: u64| q0.referenced(p) implies #[trigger] pa.kvs@.contains_key(p)
                && pa.kvs@[p] == q0.kvs@[p] by {
                lemma_referenced_stored(&q0, p);
            }
            lemma_blocks_frame(&q0, &pa);
            lemma_client_extends(self, &q0, &pa);
            if q0.referenced(kv_block) {
                lemma_referenced_stored(&q0, kv_block);
            }
        }
        proof {
            assert(record_added(q0.kvs@, pa.kvs@, key@, val@)) by {
                assert(pa.kvs@.contains_key(kv_block) && !q0.kvs@.contains_key(kv_block));
            }
        }
        if self._update(pool, key, val, kv_block) {
            Ok(true)
        } else {
            let ghost pb = *pool;
            pool.free_kv(kv_block, KV_HEADER_SIZE + klen + vlen);
            proof {
                let pc = *pool;
                assert(pc.kvs@ =~= q0.kvs@);
                assert forall|p: u64| pb.referenced(p) implies #[trigger] pc.kvs@.contains_key(p)
                    && pc.kvs@[p] == pb.kvs@[p] by {
                    lemma_referenced_stored(&pb, p);
                }
                lemma_blocks_frame(&pb, &pc);
                lemma_client_extends(self, &pb, &pc);
            }
            Ok(false)
        }
    }

    /// Writes the slot word of the record at `kv_block` into the empty
    /// slot at `slot_pos` by compare-and-swap from zero, then reads the
    /// bucket header again: if it is no longer the header that was seen
    /// when the slot was picked, and does not fit the key, the subtable was
    /// split meanwhile, and the write is taken back. Tells whether the
    /// record is in place.
    pub fn write_slot(
        pool: &mut MemPool,
        slot_pos: &SlotPos,
        key: &String,
        val: &String,
        kv_block: u64,
    ) -> (ok: bool)
        requires
            old(pool).shape_ok(),
            slot_pos.in_range(),
            record_len(key@, val@) <= MAX_KV_SIZE,
            old(pool).subtables@.contains_key(slot_pos.subtable),
        ensures
            final(pool).shape_ok(),
            final(pool).dir == old(pool).dir,
            final(pool).kvs@ == old(pool).kvs@,
            final(pool).memory_manager == old(pool).memory_manager,
            ok == (old(pool).subtables@[slot_pos.subtable].slot_at(
                slot_pos.bucket_group as int,
                slot_pos.bucket as int,
                slot_pos.slot as int,
            ).data == 0 && (old(pool).subtables@[slot_pos.subtable].bucket_at(
                slot_pos.bucket_group as int,
                slot_pos.bucket as int,
            ).header.data == slot_pos.header || header_fits(
                key@,
                old(pool).subtables@[slot_pos.subtable].bucket_at(
                    slot_pos.bucket_group as int,
                    slot_pos.bucket as int,
                ).header,
            ))),
            ok ==> slot_changed(
                old(pool),
                final(pool),
                slot_pos.subtable,
                slot_pos.bucket_group as int,
                slot_pos.bucket as int,
                slot_pos.slot as int,
                slot_word(key@, val@, kv_block),
            ),
            !ok ==> same_except(old(pool).subtables@, final(pool).subtables@, slot_pos.subtable)
                && final(pool).subtables@[slot_pos.subtable].same_slots(
                &old(pool).subtables@[slot_pos.subtable],
            ) && final(pool).subtables@[slot_pos.subtable].same_headers(
                &old(pool).subtables@[slot_pos.subtable],
            ),
    {
        let data = RaceUtils::set_data(key, val, kv_block);
        if pool.write_slot(slot_pos, data, 0) {
            // read the header again: has the subtable been split meanwhile?
            let current_header = match pool.subtables.get(&slot_pos.subtable) {
                Some(t) => t.get_bucket_header_atomic(slot_pos.bucket_group, slot_pos.bucket),
                None => vstd::pervasive::unreached(),
            };
            let fits = if current_header.get_local_depth() > crate::config::MAX_DEPTH {
                false
            } else {
                RaceUtils::get_suffix(key, current_header.get_local_depth())
                    == current_header.get_suffix()
            };
            if current_header.get_data() == slot_pos.header || fits {
                true
            } else {
                // the key belongs elsewhere now: take the write back
                let ghost pa = *pool;
                let _ = pool.write_slot(slot_pos, 0, data);
                proof {
                    let t0 = old(pool).subtables@[slot_pos.subtable];
                    let ta = pa.subtables@[slot_pos.subtable];
                    let tb = pool.subtables@[slot_pos.subtable];
                    assert forall|g: int, b: int, s: int|
                        crate::subtable::pos_ok(g, b, s) implies #[trigger] tb.slot_at(g, b, s)
                        == t0.slot_at(g, b, s) by {
                        assert(ta.slot_at(g, b, s) == if g == slot_pos.bucket_group && b
                            == slot_pos.bucket && s == slot_pos.slot {
                            Slot { data }
                        } else {
                            t0.slot_at(g, b, s)
                        });
                    }
                    assert forall|g: int, b: int|
                        0 <= g < BUCKET_GROUP_NUM && 0 <= b < crate::config::BUCKET_NUM implies (
                    #[trigger] tb.bucket_at(g, b)).header == t0.bucket_at(g, b).header by {
                        assert(ta.bucket_at(g, b).header == t0.bucket_at(g, b).header);
                    }
                }
                false
            }
        } else {
            false
        }
    }

    /// The insert proper, for a record that is already stored at
    /// `kv_block`. Searches the key; if the index holds it, returns
    /// `Ok(false)`. Else picks a slot by the counts of the key's combined
    /// buckets and writes the slot word. If both combined buckets are full,
    /// the key's subtable is split and the insert starts again.
    pub fn _insert(&mut self, pool: &mut MemPool, key: &String, val: &String, kv_block: u64) -> (r:
        Result<bool, RaceError>)
        requires
            old(pool).wf(),
            old(self).wf(old(pool)),
            new_block(old(pool), kv_block, key@, val@),
            kv_block < crate::config::ADDRESS_LIMIT,
        ensures
            final(pool).wf(),
            final(self).wf(final(pool)),
            final(pool).extends(old(pool)),
            r == Ok::<bool, RaceError>(false) <==> old(pool)@.contains_key(key@),
            r == Ok::<bool, RaceError>(true) ==> final(pool)@ == old(pool)@.insert(key@, val@),
            final(pool).kvs@ == old(pool).kvs@,
            r != Ok::<bool, RaceError>(true) ==> final(pool)@ == old(pool)@ && new_block(
                final(pool),
                kv_block,
                key@,
                val@,
            ),
            r != Err::<bool, RaceError>(RaceError::InvalidSize),
            r == Err::<bool, RaceError>(RaceError::CapacityExceeded) ==> table_depth(
                final(pool).table_of(key@),
            ) >= crate::config::MAX_DEPTH && final(pool).full_for(key@),
            !old(pool)@.contains_key(key@) && !old(pool).full_for(key@) ==> r == Ok::<
                bool,
                RaceError,
            >(true),
            r == Err::<bool, RaceError>(RaceError::AllocatorOom) ==> final(pool).full_for(key@)
                && !final(pool).memory_manager.can_allocate(crate::config::SUBTABLE_SIZE as nat),
        decreases crate::config::MAX_DEPTH - table_depth(old(pool).table_of(key@)),
    {
        let ghost q0 = *pool;
        proof {
            crate::bits::lemma_size_bound(self.directory.global_depth);
            assert(entry_lock(self.directory.entries@[self.index_of(key@)].data) == 0);
            lemma_live_table(pool, self.ptr_of(key@));
            lemma_own_table(&q0, key@);
            lemma_entry(&q0, q0.index_of(key@));
        }
        let cbs = match self.get_combined_buckets(pool, key) {
            Some(cbs) => cbs,
            None => vstd::pervasive::unreached(),
        };
        match self._search(pool, key, &cbs) {
            Some(_) => Ok(false),
            None => {
                proof {
                    crate::bits::lemma_size_bound(self.directory.global_depth);
                    assert(entry_lock(self.directory.entries@[self.index_of(key@)].data) == 0);
                    lemma_live_table(pool, self.ptr_of(key@));
                }
                let cbs = match self.get_combined_buckets(pool, key) {
                    Some(cbs) => cbs,
                    None => vstd::pervasive::unreached(),
                };
                let ghost t = q0.table_of(key@);
                proof {
                    lemma_snapshot(self, &q0, key@, cbs);
                    assert(snapshots_of(t, key@, cbs));
                }
                match Client::get_slot(&cbs) {
                    Some(sp) => {
                        let ghost g = sp.bucket_group as int;
                        let ghost b = sp.bucket as int;
                        let ghost k = sp.slot as int;
                        proof {
                            lemma_chosen(t, key@, cbs);
                            assert(crate::mempool::slot_ok(t, q0.kvs@, g, b, k));
                            assert(q0.kvs@[kv_block].total_len() >= KV_HEADER_SIZE);
                            crate::word::lemma_with_low48(0, kv_block);
                            crate::word::lemma_pack(
                                crate::hash::fingerprint(key@) as u8,
                                record_len(key@, val@) as u8,
                                kv_block,
                            );
                            assert(word_for(
                                q0.kvs@,
                                slot_word(key@, val@, kv_block),
                                key@,
                                val@,
                                kv_block,
                            ));
                            assert(t.bucket_at(g, b).header.data == sp.header);
                        }
                        if Client::write_slot(pool, &sp, key, val, kv_block) {
                            proof {
                                let q1 = *pool;
                                lemma_slot_filled(
                                    &q0,
                                    &q1,
                                    g,
                                    b,
                                    k,
                                    slot_word(key@, val@, kv_block),
                                    key@,
                                    val@,
                                    kv_block,
                                );
                                lemma_client_extends(self, &q0, &q1);
                            }
                            Ok(true)
                        } else {
                            self._insert(pool, key, val, kv_block)
                        }
                    },
                    None => {
                        self.refresh_directory(pool);
                        proof {
                            crate::bits::lemma_size_bound(pool.depth());
                        }
                        let index = RaceUtils::get_suffix(key,
                            self.directory.global_depth) as usize;
                        match self.rehash(pool, index) {
                            Ok(()) => {
                                proof {
                                    let q1 = *pool;
                                    if q1.referenced(kv_block) {
                                        assert(q0.referenced(kv_block));
                                    }
                                    lemma_own_table(&q1, key@);
                                    lemma_entry(&q1, q1.index_of(key@));
                                }
                                self._insert(pool, key, val, kv_block)
                            },
                            Err(e) => {
                                proof {
                                    let q1 = *pool;
                                    if q1.referenced(kv_block) {
                                        assert(q0.referenced(kv_block));
                                    }
                                    assert(q1.ptr_at(q1.index_of(key@)) == q0.ptr_at(
                                        q0.index_of(key@),
                                    ));
                                    assert(q1.table_of(key@) == q0.table_of(key@));
                                }
                                Err(e)
                            },
                        }
                    },
                }
            },
        }
    }

    /// Adds `key` with the value `val`. `Ok(true)` if the key was added,
    /// `Ok(false)` if the index held the key already, which keeps its value.
    /// Fails, with what the index holds unchanged, if key and value are too
    /// large for one record, if the allocator has no room, or if the key's
    /// subtable is full at the largest depth of the directory.
    pub fn insert(&mut self, pool: &mut MemPool, key: &String, val: &String) -> (r: Result<
        bool,
        RaceError,
    >)
        requires
            old(pool).wf(),
            old(self).wf(old(pool)),
        ensures
            final(pool).wf(),
            final(self).wf(final(pool)),
            final(pool).extends(old(pool)),
            r == Err::<bool, RaceError>(RaceError::InvalidSize) <==> record_len(key@, val@)
                > MAX_KV_SIZE,
            record_len(key@, val@) <= MAX_KV_SIZE && !old(pool).memory_manager.can_allocate(
                record_len(key@, val@),
            ) ==> r == Err::<bool, RaceError>(RaceError::AllocatorOom),
            record_len(key@, val@) <= MAX_KV_SIZE && old(pool).memory_manager.can_allocate(
                record_len(key@, val@),
            ) ==> (r == Ok::<bool, RaceError>(false) <==> old(pool)@.contains_key(key@)),
            record_len(key@, val@) <= MAX_KV_SIZE && old(pool).memory_manager.can_allocate(
                record_len(key@, val@),
            ) && !old(pool)@.contains_key(key@) && !old(pool).full_for(key@) ==> r == Ok::<
                bool,
                RaceError,
            >(true),
            r == Ok::<bool, RaceError>(false) ==> old(pool)@.contains_key(key@),
            r == Ok::<bool, RaceError>(true) ==> !old(pool)@.contains_key(key@),
            r matches Ok(added) ==> (final(pool)@, added) == insert_of(old(pool)@, key@, val@),
            r == Err::<bool, RaceError>(RaceError::CapacityExceeded) ==> !old(pool)@.contains_key(
                key@,
            ) && table_depth(final(pool).table_of(key@)) >= crate::config::MAX_DEPTH
                && final(pool).full_for(key@),
            r == Err::<bool, RaceError>(RaceError::AllocatorOom)
                && old(pool).memory_manager.can_allocate(
                record_len(key@, val@),
            ) ==> !old(pool)@.contains_key(key@) && final(pool).full_for(key@),
            if r == Ok::<bool, RaceError>(true) {
                record_added(old(pool).kvs@, final(pool).kvs@, key@, val@)
            } else {
                final(pool).kvs@ == old(pool).kvs@
            },
            final(pool)@ == if r == Ok::<bool, RaceError>(true) {
                old(pool)@.insert(key@, val@)
            } else {
                old(pool)@
            },
    {
        let ghost q0 = *pool;
        let klen = key.as_str().as_bytes().len();
        let vlen = val.as_str().as_bytes().len();
        if klen > MAX_KV_SIZE || vlen > MAX_KV_SIZE || KV_HEADER_SIZE + klen + vlen > MAX_KV_SIZE {
            proof {
                assert forall|t: u64| q0.is_live(t) implies pool.is_live(t) by {}
            }
            return Err(RaceError::InvalidSize);
        }
        let kv_block = match pool.write_kv(key.clone(), val.clone()) {
            Some(p) => p,
            None => {
                proof {
                    let pa = *pool;
                    assert forall|p: u64| q0.referenced(p) implies #[trigger] pa.kvs@.contains_key(
                        p,
                    ) && pa.kvs@[p] == q0.kvs@[p] by {
                        lemma_referenced_stored(&q0, p);
                    }
                    lemma_blocks_frame(&q0, &pa);
                    lemma_client_extends(self, &q0, &pa);
                }
                return Err(RaceError::AllocatorOom);
            },
        };
        let ghost pa = *pool;
        proof {
            assert forall|p: u64| q0.referenced(p) implies #[trigger] pa.kvs@.contains_key(p)
                && pa.kvs@[p] == q0.kvs@[p] by {
                lemma_referenced_stored(&q0, p);
            }
            lemma_blocks_frame(&q0, &pa);
            lemma_client_extends(self, &q0, &pa);
            if q0.referenced(kv_block) {
                lemma_referenced_stored(&q0, kv_block);
            }
            lemma_own_table(&q0, key@);
            assert(pa.table_of(key@) == q0.table_of(key@));
        }
        proof {
            assert(record_added(q0.kvs@, pa.kvs@, key@, val@)) by {
                assert(pa.kvs@.contains_key(kv_block) && !q0.kvs@.contains_key(kv_block));
            }
        }
        let r = self._insert(pool, key, val, kv_block);
        match r {
            Ok(true) => {},
            _ => {
                let ghost pb = *pool;
                pool.free_kv(kv_block, KV_HEADER_SIZE + klen + vlen);
                proof {
                    let pc = *pool;
                    assert(pc.kvs@ =~= q0.kvs@);
                    assert forall|p: u64| pb.referenced(p) implies #[trigger] pc.kvs@.contains_key(
                        p,
                    ) && pc.kvs@[p] == pb.kvs@[p] by {
                        lemma_referenced_stored(&pb, p);
                    }
                    lemma_blocks_frame(&pb, &pc);
                    lemma_client_extends(self, &pb, &pc);
                    lemma_own_table(&pb, key@);
                    assert(pc.table_of(key@) == pb.table_of(key@));
                }
            },
        }
        r
    }

    /// The copy of the directory that the client keeps.
    pub fn get_directory(&self) -> (d: &ClientDirectory)
        ensures
            *d == self.directory,
    {
        &self.directory
    }

    /// Splits the subtable of directory entry `rehash_index`.
    pub fn pub_rehash(&mut self, pool: &mut MemPool, rehash_index: usize) -> (r: Result<
        (),
        RaceError,
    >)
        requires
            old(pool).wf(),
            rehash_index < old(pool).size(),
        ensures
            final(pool).wf(),
            final(self).wf(final(pool)),
            final(self).fresh(final(pool)),
            final(pool)@ == old(pool)@,
            final(pool).extends(old(pool)),
            r == Err::<(), RaceError>(RaceError::CapacityExceeded) <==> old(pool).depth_at(
                rehash_index as int,
            ) >= crate::config::MAX_DEPTH,
            r == Err::<(), RaceError>(RaceError::AllocatorOom) <==> old(pool).depth_at(
                rehash_index as int,
            ) < crate::config::MAX_DEPTH && !old(pool).memory_manager.can_allocate(
                crate::config::SUBTABLE_SIZE as nat,
            ),
            r != Err::<(), RaceError>(RaceError::InvalidSize),
            r is Ok ==> split_directory(old(pool), final(pool), rehash_index as int),
            forall|k: Seq<char>|
                table_depth(#[trigger] final(pool).table_of(k)) == if r is Ok && old(pool).ptr_at(
                    old(pool).index_of(k),
                ) == old(pool).ptr_at(rehash_index as int) {
                    table_depth(old(pool).table_of(k)) + 1
                } else {
                    table_depth(old(pool).table_of(k)) as int
                },
    {
        self.rehash(pool, rehash_index)
    }

    /// Number of live entries of the cached directory.
    pub fn pub_get_size(&self) -> (r: usize)
        requires
            self.directory.wf(),
        ensures
            r == self.size(),
            1 <= r <= MAX_ENTRY_NUM,
    {
        self.get_size()
    }
}

} // verus!
