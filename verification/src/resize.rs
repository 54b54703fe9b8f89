//! Growing the index: the doubling of the directory and the split of a
//! subtable, with the migration of its records.

use vstd::prelude::*;
use crate::config::{BUCKET_GROUP_NUM, MAX_ENTRY_NUM, SLOT_NUM};
use crate::directory::{entry_depth, entry_lock, entry_ptr, locked_word, unlocked_word};
use crate::facts::{doubled, lemma_doubled, lemma_relocked, relocked, lemma_entry, lemma_own_table};
use crate::kvblock::KVBlock;
use crate::split::{
    has_suffix, lemma_split_bits, lemma_split_directory, lemma_split_done, split_directory,
    split_done, split_suffix,
    lemma_migrate_next, lemma_migrate_readable, lemma_migrate_start, lemma_migrate_step, migrated,
    moves, readable, slots_changed,
};
use crate::mempool::{table_depth, table_ok, MemPool};
use crate::subtable::{copy_of, Slot, SlotPos};
use crate::utils::RaceUtils;
use crate::client::{RaceError, Client};
use crate::locking::{same_but_words, word_changed, in_suffix, lemma_copied_unlocked};

verus! {

/// The low `depth` bits of an index, as an index.
pub open spec fn low_bits_of(j: int, depth: u8) -> int {
    crate::word::low_bits(j as u64, depth) as int
}

/// The fields of an entry word that was pointed at `pointer` with local
/// depth `local_depth`.
pub proof fn lemma_repointed(w: u64, pointer: u64, local_depth: u8)
    ensures
        entry_lock(Client::repointed(w, pointer, local_depth)) == entry_lock(w),
        entry_depth(Client::repointed(w, pointer, local_depth)) == local_depth,
        entry_ptr(Client::repointed(w, pointer, local_depth)) == crate::word::low48(pointer),
        pointer < crate::config::ADDRESS_LIMIT ==> entry_ptr(
            Client::repointed(w, pointer, local_depth),
        ) == pointer,
        entry_ptr(w) < crate::config::ADDRESS_LIMIT,
        crate::word::low48(entry_ptr(w)) == entry_ptr(w),
{
    crate::word::lemma_with_low48(w, pointer);
    crate::word::lemma_with_low48(w, w);
    crate::word::lemma_with_low48(w, entry_ptr(w));
    crate::word::lemma_with_second_byte(crate::word::with_low48(w, pointer), local_depth);
}

/// A pool is its own copy up to lock bytes.
pub proof fn lemma_relocked_self(p: &MemPool)
    requires
        p.wf_core(),
    ensures
        relocked(p, p),
        p.extends(p),
{
    assert forall|j: int| p.size() <= j < MAX_ENTRY_NUM implies (#[trigger] p.dir.entries@[j]).data
        == 0 by {}
}

/// Two pools with the same store and the same directory words are
/// copies of each other up to lock bytes.
pub proof fn lemma_words_same(q0: &MemPool, q1: &MemPool)
    requires
        q0.wf_core(),
        q1.subtables@ == q0.subtables@,
        q1.kvs@ == q0.kvs@,
        q1.memory_manager == q0.memory_manager,
        q1.dir.global_depth == q0.dir.global_depth,
        q1.dir.entries@.len() == q0.dir.entries@.len(),
        forall|i: int|
            0 <= i < MAX_ENTRY_NUM ==> (#[trigger] q1.dir.entries@[i]).data
                == q0.dir.entries@[i].data,
    ensures
        relocked(q0, q1),
        q1.unlocked() == q0.unlocked(),
{
    assert forall|j: int| 0 <= j < q0.size() implies #[trigger] q1.ptr_at(j) == q0.ptr_at(j)
        && q1.depth_at(j) == q0.depth_at(j) by {
        crate::bits::lemma_size_bound(q0.depth());
        assert(q1.dir.entries@[j].data == q0.dir.entries@[j].data);
    }
    assert forall|j: int| q0.size()
        <= j < MAX_ENTRY_NUM implies (#[trigger] q1.dir.entries@[j]).data
        == 0 by {
        assert(q0.dir.entries@[j].data == 0);
    }
    crate::bits::lemma_size_bound(q0.depth());
    if q0.unlocked() {
        assert forall|i: int| 0 <= i < q1.size() implies entry_lock(
            (#[trigger] q1.dir.entries@[i]).data,
        ) == 0 by {
            assert(entry_lock(q0.dir.entries@[i].data) == 0);
        }
    }
    if q1.unlocked() {
        assert forall|i: int| 0 <= i < q0.size() implies entry_lock(
            (#[trigger] q0.dir.entries@[i]).data,
        ) == 0 by {
            assert(entry_lock(q1.dir.entries@[i].data) == 0);
        }
    }
}

/// A client that is fresh against a pool is fresh against a pool with
/// the same directory words.
pub proof fn lemma_fresh_client(c: &Client, q0: &MemPool, q1: &MemPool)
    requires
        q0.wf(),
        q1.wf_core(),
        c.directory.wf(),
        c.copied_from(q0),
        q1.dir.global_depth == q0.dir.global_depth,
        forall|i: int|
            0 <= i < MAX_ENTRY_NUM ==> (#[trigger] q1.dir.entries@[i]).data
                == q0.dir.entries@[i].data,
    ensures
        c.fresh(q1),
        c.wf(q1),
{
    crate::bits::lemma_size_bound(q0.depth());
    assert forall|i: int| 0 <= i < c.size() implies (#[trigger] c.directory.entries@[i]).data
        == q1.word(i) && entry_lock(c.directory.entries@[i].data) == 0 && q1.is_live(
        entry_ptr(c.word(i)),
    ) by {
        assert(entry_lock(q0.dir.entries@[i].data) == 0);
        crate::directory::lemma_lock_words(q0.word(i));
        assert(q1.dir.entries@[i].data == q0.dir.entries@[i].data);
        lemma_entry(q1, i);
    }
    assert forall|i: int| c.size() <= i < MAX_ENTRY_NUM implies (
    #[trigger] c.directory.entries@[i]).data == 0 by {}
}

/// Pools with the same subtables and the same directory pointers give
/// every key a subtable of the same depth.
pub proof fn lemma_depth_same(q0: &MemPool, q1: &MemPool)
    requires
        q0.wf_core(),
        relocked(q0, q1),
    ensures
        forall|k: Seq<char>|
            table_depth(#[trigger] q1.table_of(k)) == table_depth(q0.table_of(k)),
{
    assert forall|k: Seq<char>|
        table_depth(#[trigger] q1.table_of(k)) == table_depth(q0.table_of(k)) by {
        lemma_own_table(q0, k);
        assert(q1.ptr_at(q0.index_of(k)) == q0.ptr_at(q0.index_of(k)));
    }
}

/// A key's subtable after the directory was doubled, or left as it
/// was, is the key's subtable before.
pub proof fn lemma_key_table_same(q0: &MemPool, q1: &MemPool, k: Seq<char>)
    requires
        q0.wf_core(),
        q1.wf_core(),
        q1.subtables@ == q0.subtables@,
        q0.depth() <= q1.depth(),
        forall|i: int|
            0 <= i < q0.size() ==> #[trigger] q1.dir.entries@[i].data == q0.dir.entries@[i].data,
    ensures
        q1.ptr_at(q1.index_of(k)) == q0.ptr_at(q0.index_of(k)),
        q1.table_of(k) == q0.table_of(k),
{
    lemma_own_table(q0, k);
    lemma_own_table(q1, k);
    let i0 = q0.index_of(k);
    let i1 = q1.index_of(k);
    crate::bits::lemma_size_bound(q0.depth());
    crate::bits::lemma_size_bound(q1.depth());
    crate::bits::lemma_size_monotone(q0.depth(), q1.depth());
    assert(q1.dir.entries@[i0].data == q0.dir.entries@[i0].data);
    lemma_entry(q1, i0);
    lemma_entry(q0, i0);
    assert(q1.entries_agree(i0, i1)) ;
    crate::bits::lemma_low_bits_nested(crate::hash::dir_hash(k) as u64, q1.depth(), q0.depth());
    crate::bits::lemma_low_bits_nested(
        crate::hash::dir_hash(k) as u64,
        q1.depth(),
        q1.depth_at(i0),
    );
    crate::bits::lemma_low_bits_nested(
        crate::hash::dir_hash(k) as u64,
        q0.depth(),
        q0.depth_at(i0),
    );
}

impl Client {
    /// The entry word for a pointer and a local depth, with no lock byte.
    pub open spec fn plain_word(pointer: u64, local_depth: u8) -> u64 {
        crate::word::with_second_byte(crate::word::with_low48(0, pointer), local_depth)
    }

    /// Sets pointer and local depth of cached entry `index`, which lies
    /// beyond the live entries, and writes the entry, locked, into the
    /// pool's directory if the pool's entry is still zero.
    pub fn init_local_entry_and_push(
        &mut self,
        pool: &mut MemPool,
        index: usize,
        pointer: u64,
        local_depth: u8,
    )
        requires
            old(self).directory.wf(),
            old(pool).dir.wf(),
            index < MAX_ENTRY_NUM,
        ensures
            final(self).directory.global_depth == old(self).directory.global_depth,
            final(self).directory.entries@.len() == old(self).directory.entries@.len(),
            forall|i: int|
                0 <= i < MAX_ENTRY_NUM ==> (#[trigger] final(self).directory.entries@[i]).data
                    == if i == index {
                    crate::word::with_second_byte(
                        crate::word::with_low48(old(self).word(i), pointer),
                        local_depth,
                    )
                } else {
                    old(self).word(i)
                },
            word_changed(
                old(pool),
                final(pool),
                index as int,
                if old(pool).word(index as int) == 0 {
                    locked_word(final(self).word(index as int))
                } else {
                    old(pool).word(index as int)
                },
            ),
    {
        self.directory.entries[index].set_subtable_and_localdepth(pointer, local_depth);
        let locked_data = self.directory.get_entry_const(index).get_locked_data();
        let _ = pool.write_new_entry(index, locked_data);
    }

    /// Sets pointer and local depth of cached entry `index` and writes
    /// the entry, locked, into the pool's directory if the pool's entry
    /// holds the old cached word, locked.
    pub fn set_local_entry_and_push(
        &mut self,
        pool: &mut MemPool,
        index: usize,
        pointer: u64,
        local_depth: u8,
    )
        requires
            old(self).directory.wf(),
            old(pool).dir.wf(),
            index < MAX_ENTRY_NUM,
        ensures
            final(self).directory.global_depth == old(self).directory.global_depth,
            final(self).directory.entries@.len() == old(self).directory.entries@.len(),
            forall|i: int|
                0 <= i < MAX_ENTRY_NUM ==> (#[trigger] final(self).directory.entries@[i]).data
                    == if i == index {
                    crate::word::with_second_byte(
                        crate::word::with_low48(old(self).word(i), pointer),
                        local_depth,
                    )
                } else {
                    old(self).word(i)
                },
            word_changed(
                old(pool),
                final(pool),
                index as int,
                if old(pool).word(index as int) == locked_word(old(self).word(index as int)) {
                    locked_word(final(self).word(index as int))
                } else {
                    old(pool).word(index as int)
                },
            ),
    {
        let old_locked_data = self.directory.get_entry_const(index).get_locked_data();
        self.directory.entries[index].set_subtable_and_localdepth(pointer, local_depth);
        let new_locked_data = self.directory.get_entry_const(index).get_locked_data();
        let _ = pool.update_entry(index, old_locked_data, new_locked_data);
    }

    /// Doubles the directory: locks every live entry; if the cached
    /// directory proved stale or the pool's directory is deeper than the
    /// cached one, renews the copy, releases the locks and leaves the
    /// directory as it was; else writes a copy of each live entry into the
    /// upper half, adds one to the global depth and releases the locks.
    pub fn double_size(&mut self, pool: &mut MemPool)
        requires
            old(pool).wf(),
            old(self).wf(old(pool)),
            old(self).directory.global_depth < crate::config::MAX_DEPTH,
        ensures
            final(pool).wf(),
            final(pool)@ == old(pool)@,
            final(pool).extends(old(pool)),
            final(self).wf(final(pool)),
            final(self).fresh(final(pool)),
            final(pool).kvs@ == old(pool).kvs@,
            final(pool).subtables@ == old(pool).subtables@,
            final(pool).memory_manager == old(pool).memory_manager,
            forall|p: u64| final(pool).referenced(p) == old(pool).referenced(p),
            final(pool).dir.global_depth == if old(self).directory.global_depth
                == old(pool).dir.global_depth {
                old(pool).dir.global_depth + 1
            } else {
                old(pool).dir.global_depth as int
            },
            forall|i: int|
                0 <= i < old(pool).size() ==> #[trigger] final(pool).dir.entries@[i].data
                    == old(pool).dir.entries@[i].data,
            if old(self).directory.global_depth == old(pool).dir.global_depth {
                doubled(old(pool), final(pool))
            } else {
                relocked(old(pool), final(pool))
            },
    {
        let ghost q0 = *pool;
        proof {
            crate::bits::lemma_size_bound(pool.depth());
            crate::bits::lemma_size_bound(self.directory.global_depth);
            crate::word::lemma_zero_word();
            assert forall|i: int| 0 <= i < MAX_ENTRY_NUM implies entry_lock(
                (#[trigger] self.directory.entries@[i]).data,
            ) == 0 by {}
        }
        let old_size = self.get_size();
        self.lock_all(pool);
        let new_size = self.get_size();
        let ghost pa = *pool;
        let ghost ca = *self;
        if old_size != new_size || pool.get_global_length() != self.directory.global_depth {
            // the directory is not what it was when the size was read
            self.refresh_directory_without_wait(pool);
            self.unlock_all(pool);
            proof {
                let pc = *pool;
                crate::bits::lemma_size_monotone(ca.directory.global_depth, q0.depth());
                assert forall|i: int| 0 <= i < MAX_ENTRY_NUM implies (
                #[trigger] pc.dir.entries@[i]).data == q0.dir.entries@[i].data by {
                    assert(pa.dir.entries@[i].data == if i < ca.size() {
                        locked_word(q0.word(i))
                    } else {
                        q0.word(i)
                    });
                    crate::directory::lemma_lock_words(q0.word(i));
                    crate::directory::lemma_lock_words(self.word(i));
                    if i < q0.size() {
                        assert(entry_lock(q0.dir.entries@[i].data) == 0);
                        assert(self.directory.entries@[i].data == unlocked_word(pa.word(i)));
                    }
                }
                assert(relocked(&q0, &pc)) by {
                    assert forall|j: int| 0 <= j < q0.size() implies #[trigger] pc.ptr_at(j)
                        == q0.ptr_at(j) && pc.depth_at(j) == q0.depth_at(j) by {
                        assert(pc.dir.entries@[j].data == q0.dir.entries@[j].data);
                    }
                    assert forall|j: int| q0.size() <= j < MAX_ENTRY_NUM implies (
                    #[trigger] pc.dir.entries@[j]).data == 0 by {
                        assert(q0.dir.entries@[j].data == 0);
                    }
                }
                lemma_relocked(&q0, &pc);
                assert forall|i: int| 0 <= i < pc.size() implies entry_lock(
                    (#[trigger] pc.dir.entries@[i]).data,
                ) == 0 by {
                    assert(entry_lock(q0.dir.entries@[i].data) == 0);
                }
                assert forall|i: int| 0 <= i < self.size() implies (
                #[trigger] self.directory.entries@[i]).data == pc.word(i) by {
                    assert(pa.dir.entries@[i].data == if i < ca.size() {
                        locked_word(q0.word(i))
                    } else {
                        q0.word(i)
                    });
                    assert(entry_lock(q0.dir.entries@[i].data) == 0);
                    crate::directory::lemma_lock_words(q0.word(i));
                }
                assert forall|i: int| 0 <= i < self.size() implies entry_lock(
                    (#[trigger] self.directory.entries@[i]).data,
                ) == 0 && pc.is_live(entry_ptr(self.word(i))) by {
                    assert(entry_lock(pc.dir.entries@[i].data) == 0);
                    lemma_entry(&pc, i);
                }
            }
            return ;
        }
        proof {
            let d0 = old(self).directory.global_depth;
            let d1 = self.directory.global_depth;
            if d0 < d1 {
                crate::bits::lemma_size_monotone(d0, d1);
            }
            if d1 < d0 {
                crate::bits::lemma_size_monotone(d1, d0);
            }
            assert(d0 == d1);
            crate::bits::lemma_size_monotone(d1, 16);
            crate::bits::lemma_size_bound(16);
            assert((1u64 << 16u64) == 65536) by (bit_vector);
        }
        // copy the lower half into the upper half
        let mut index: usize = old_size;
        while index < old_size * 2
            invariant
                old_size <= index <= old_size * 2,
                old_size == q0.size(),
                old_size * 2 <= MAX_ENTRY_NUM,
                self.directory.wf(),
                self.directory.global_depth == q0.dir.global_depth,
                pool.dir.wf(),
                same_but_words(&q0, pool),
                forall|i: int|
                    0 <= i < MAX_ENTRY_NUM ==> (#[trigger] self.directory.entries@[i]).data == if i
                        < old_size {
                        q0.word(i)
                    } else if i < index {
                        Client::plain_word(
                            entry_ptr(q0.word(i - old_size)),
                            entry_depth(q0.word(i - old_size)),
                        )
                    } else {
                        0
                    },
                forall|i: int|
                    0 <= i < MAX_ENTRY_NUM ==> (#[trigger] pool.dir.entries@[i]).data == if i
                        < index {
                        locked_word(self.word(i))
                    } else {
                        0
                    },
            decreases old_size * 2 - index,
        {
            let pointer = self.directory.get_entry_const(index - old_size).get_subtable_pointer();
            let local_depth = self.directory.get_entry_const(index - old_size).get_local_depth();
            let ghost cb = *self;
            let ghost pb = *pool;
            self.init_local_entry_and_push(pool, index, pointer, local_depth);
            proof {
                assert(cb.directory.entries@[index as int].data == 0);
                assert(pb.dir.entries@[index as int].data == 0);
                assert(cb.directory.entries@[index - old_size].data == q0.word(index - old_size));
                assert forall|i: int| 0 <= i < MAX_ENTRY_NUM implies (
                #[trigger] pool.dir.entries@[i]).data == if i < index + 1 {
                    locked_word(self.word(i))
                } else {
                    0
                } by {
                    assert(pb.dir.entries@[i].data == if i < index {
                        locked_word(cb.word(i))
                    } else {
                        0
                    });
                    assert(self.directory.entries@[i].data == if i == index {
                        Client::plain_word(pointer, local_depth)
                    } else {
                        cb.word(i)
                    });
                }
            }
            index += 1;
        }
        // one more bit
        self.directory.global_depth += 1;
        let _ = pool.increase_global_depth();
        let ghost pd = *pool;
        self.unlock_all(pool);
        proof {
            let pf = *pool;
            let d = q0.depth();
            crate::bits::lemma_size_bound((d + 1) as u8);
            crate::bits::lemma_double(0, d);
            assert(pf.size() == 2 * old_size);
            assert forall|i: int| 0 <= i < MAX_ENTRY_NUM implies entry_lock(
                (#[trigger] self.directory.entries@[i]).data,
            ) == 0 && (old_size <= i < 2 * old_size ==> entry_ptr(self.word(i)) == entry_ptr(
                q0.word(i - old_size),
            ) && entry_depth(self.word(i)) == entry_depth(q0.word(i - old_size))) by {
                if i < old_size {
                    assert(entry_lock(q0.dir.entries@[i].data) == 0);
                } else if i < 2 * old_size {
                    let w = q0.word(i - old_size);
                    crate::word::lemma_with_low48(0, entry_ptr(w));
                    crate::word::lemma_with_low48(w, w);
                    crate::word::lemma_with_second_byte(
                        crate::word::with_low48(0, entry_ptr(w)),
                        entry_depth(w),
                    );
                }
            }
            assert forall|i: int| 0 <= i < MAX_ENTRY_NUM implies (
            #[trigger] pf.dir.entries@[i]).data == if i < 2 * old_size {
                self.word(i)
            } else {
                0
            } by {
                assert(pd.dir.entries@[i].data == if i < 2 * old_size {
                    locked_word(self.word(i))
                } else {
                    0
                });
                assert(entry_lock(self.directory.entries@[i].data) == 0);
                crate::directory::lemma_lock_words(self.word(i));
            }
            assert(doubled(&q0, &pf)) by {
                assert forall|j: int| 0 <= j < pf.size() implies #[trigger] pf.ptr_at(j)
                    == q0.ptr_at(low_bits_of(j, d)) && pf.depth_at(j) == q0.depth_at(
                    low_bits_of(j, d),
                ) by {
                    crate::bits::lemma_double(j as u64, d);
                    assert(pf.dir.entries@[j].data == self.word(j));
                    assert(entry_lock(self.directory.entries@[j].data) == 0);
                }
                assert forall|j: int| pf.size() <= j < MAX_ENTRY_NUM implies (
                #[trigger] pf.dir.entries@[j]).data == 0 by {}
            }
            lemma_doubled(&q0, &pf);
            assert forall|i: int| 0 <= i < pf.size() implies entry_lock(
                (#[trigger] pf.dir.entries@[i]).data,
            ) == 0 by {
                assert(entry_lock(self.directory.entries@[i].data) == 0);
            }
            assert forall|i: int| 0 <= i < self.size() implies entry_lock(
                (#[trigger] self.directory.entries@[i]).data,
            ) == 0 && pf.is_live(entry_ptr(self.word(i))) by {
                assert(pf.dir.entries@[i].data == self.word(i));
                lemma_entry(&pf, i);
            }
            assert forall|i: int| 0 <= i < q0.size() implies #[trigger] pf.dir.entries@[i].data
                == q0.dir.entries@[i].data by {
                assert(self.directory.entries@[i].data == q0.word(i));
            }
        }
    }

    /// The cached word of an entry after it was pointed at `pointer` with
    /// local depth `local_depth`.
    pub open spec fn repointed(w: u64, pointer: u64, local_depth: u8) -> u64 {
        crate::word::with_second_byte(crate::word::with_low48(w, pointer), local_depth)
    }

    /// Points every live entry from `suffix` on whose index has the low
    /// `local_depth` bits `suffix` at `pointer`, with that local depth, in
    /// the cached directory and, where the pool's entry holds the old
    /// cached word locked, in the pool's directory.
    pub fn set_local_entries_and_push(
        &mut self,
        pool: &mut MemPool,
        suffix: u64,
        pointer: u64,
        local_depth: u8,
    )
        requires
            old(pool).dir.wf(),
            old(self).directory.wf(),
            local_depth <= crate::config::MAX_DEPTH,
            suffix < old(self).size(),
            in_suffix(suffix as int, suffix, local_depth),
        ensures
            final(self).directory.wf(),
            final(self).directory.global_depth == old(self).directory.global_depth,
            same_but_words(old(pool), final(pool)),
            forall|i: int|
                0 <= i < MAX_ENTRY_NUM ==> (#[trigger] final(self).directory.entries@[i]).data
                    == if suffix <= i < old(self).size() && in_suffix(i, suffix, local_depth) {
                    Client::repointed(old(self).word(i), pointer, local_depth)
                } else {
                    old(self).word(i)
                },
            forall|i: int|
                0 <= i < MAX_ENTRY_NUM ==> (#[trigger] final(pool).dir.entries@[i]).data
                    == if suffix <= i < old(self).size() && in_suffix(i, suffix, local_depth)
                    && old(pool).word(i) == locked_word(old(self).word(i)) {
                    locked_word(Client::repointed(old(self).word(i), pointer, local_depth))
                } else {
                    old(pool).word(i)
                },
    {
        proof {
            crate::bits::lemma_size_bound(self.directory.global_depth);
        }
        let mut index = suffix as usize;
        let old_size = self.get_size();
        while index < old_size
            invariant
                pool.dir.wf(),
                self.directory.wf(),
                self.directory.global_depth == old(self).directory.global_depth,
                old_size == old(self).size(),
                old_size <= MAX_ENTRY_NUM,
                local_depth <= crate::config::MAX_DEPTH,
                suffix <= index < 0x4_0000,
                in_suffix(index as int, suffix, local_depth),
                same_but_words(old(pool), pool),
                forall|i: int|
                    0 <= i < MAX_ENTRY_NUM ==> (#[trigger] self.directory.entries@[i]).data
                        == if suffix <= i < index && i < old_size && in_suffix(
                        i,
                        suffix,
                        local_depth,
                    ) {
                        Client::repointed(old(self).word(i), pointer, local_depth)
                    } else {
                        old(self).word(i)
                    },
                forall|i: int|
                    0 <= i < MAX_ENTRY_NUM ==> (#[trigger] pool.dir.entries@[i]).data == if suffix
                        <= i < index && i < old_size && in_suffix(i, suffix, local_depth)
                            && old(pool).word(i) == locked_word(old(self).word(i)) {
                        locked_word(Client::repointed(old(self).word(i), pointer, local_depth))
                    } else {
                        old(pool).word(i)
                    },
            decreases 0x4_0000 - index,
        {
            let ghost before = *pool;
            let ghost cache = *self;
            self.set_local_entry_and_push(pool, index, pointer, local_depth);
            proof {
                crate::bits::lemma_stride(index as u64, index as u64, local_depth);
            }
            let next = RaceUtils::plus_bit_to_suffix(index as u64, local_depth + 1) as usize;
            proof {
                assert forall|i: int| 0 <= i < MAX_ENTRY_NUM implies (
                #[trigger] self.directory.entries@[i]).data == if suffix <= i < next && i
                    < old_size && in_suffix(i, suffix, local_depth) {
                    Client::repointed(old(self).word(i), pointer, local_depth)
                } else {
                    old(self).word(i)
                } by {
                    assert(cache.directory.entries@[i].data == if suffix <= i < index && i
                        < old_size && in_suffix(i, suffix, local_depth) {
                        Client::repointed(old(self).word(i), pointer, local_depth)
                    } else {
                        old(self).word(i)
                    });
                    if index < i < next {
                        crate::bits::lemma_stride(index as u64, i as u64, local_depth);
                    }
                }
                assert forall|i: int| 0 <= i < MAX_ENTRY_NUM implies (
                #[trigger] pool.dir.entries@[i]).data == if suffix <= i < next && i < old_size
                    && in_suffix(i, suffix, local_depth) && old(pool).word(i) == locked_word(
                    old(self).word(i),
                ) {
                    locked_word(Client::repointed(old(self).word(i), pointer, local_depth))
                } else {
                    old(pool).word(i)
                } by {
                    assert(before.dir.entries@[i].data == if suffix <= i < index && i < old_size
                        && in_suffix(i, suffix, local_depth) && old(pool).word(i) == locked_word(
                        old(self).word(i),
                    ) {
                        locked_word(Client::repointed(old(self).word(i), pointer, local_depth))
                    } else {
                        old(pool).word(i)
                    });
                    assert(cache.directory.entries@[i].data == if suffix <= i < index && i
                        < old_size && in_suffix(i, suffix, local_depth) {
                        Client::repointed(old(self).word(i), pointer, local_depth)
                    } else {
                        old(self).word(i)
                    });
                    if index < i < next {
                        crate::bits::lemma_stride(index as u64, i as u64, local_depth);
                    }
                }
            }
            index = next;
        }
    }

    /// Loads the slot word at `slot_pos` and, if the slot is in use, the
    /// record it points to, again and again until the record's checksum is
    /// right. The record must not be one whose checksum stays wrong.
    pub fn read_from_slot_pos_with_crc_check(pool: &MemPool, slot_pos: &SlotPos) -> (r: (
        u64,
        Option<KVBlock>,
    ))
        requires
            pool.shape_ok(),
            slot_pos.in_range(),
            pool.subtables@.contains_key(slot_pos.subtable),
            !pool.subtables@[slot_pos.subtable].slot_at(
                slot_pos.bucket_group as int,
                slot_pos.bucket as int,
                slot_pos.slot as int,
            ).is_empty() && pool.kvs@.contains_key(
                pool.subtables@[slot_pos.subtable].slot_at(
                    slot_pos.bucket_group as int,
                    slot_pos.bucket as int,
                    slot_pos.slot as int,
                ).ptr(),
            ) ==> pool.kvs@[pool.subtables@[slot_pos.subtable].slot_at(
                slot_pos.bucket_group as int,
                slot_pos.bucket as int,
                slot_pos.slot as int,
            ).ptr()].intact(),
        ensures
            r.0 == pool.subtables@[slot_pos.subtable].slot_at(
                slot_pos.bucket_group as int,
                slot_pos.bucket as int,
                slot_pos.slot as int,
            ).data,
            r.1 is Some <==> !(Slot { data: r.0 }).is_empty() && pool.kvs@.contains_key(
                Slot { data: r.0 }.ptr(),
            ),
            r.1 matches Some(b) ==> copy_of(b, pool.kvs@[Slot { data: r.0 }.ptr()]),
    {
        let mut data = pool.read_slot(slot_pos);
        if (Slot { data }).judge_empty() {
            // an empty slot has no record
            return (data, None);
        }
        let mut kv_data_op = Slot { data }.get_kv(&pool.kvs);
        let mut done = false;
        while !done
            invariant
                pool.shape_ok(),
                slot_pos.in_range(),
                pool.subtables@.contains_key(slot_pos.subtable),
                data == pool.subtables@[slot_pos.subtable].slot_at(
                    slot_pos.bucket_group as int,
                    slot_pos.bucket as int,
                    slot_pos.slot as int,
                ).data,
                !(Slot { data }).is_empty(),
                pool.kvs@.contains_key(Slot { data }.ptr()) ==> pool.kvs@[Slot {
                    data,
                }.ptr()].intact(),
                kv_data_op is Some <==> pool.kvs@.contains_key(Slot { data }.ptr()),
                kv_data_op matches Some(b) ==> copy_of(b, pool.kvs@[Slot { data }.ptr()]),
            decreases
                    (if done {
                        0nat
                    } else {
                        1nat
                    }),
        {
            match &kv_data_op {
                Some(kv_data) => {
                    if RaceUtils::check_crc(&kv_data.key, &kv_data.value, kv_data.crc64) {
                        done = true;
                    }
                },
                None => {
                    done = true;
                },
            }
            if !done {
                data = pool.read_slot(slot_pos);
                kv_data_op = Slot { data }.get_kv(&pool.kvs);
            }
        }
        (data, kv_data_op)
    }

    /// Migrates one slot of a subtable that is being split. If the slot
    /// is in use and its key has the low `local_depth` bits `new_index`,
    /// its word is written into the same slot of the new subtable, which
    /// must be empty, and the slot is cleared.
    pub fn move_item(
        pool: &mut MemPool,
        old_pointer: u64,
        new_pointer: u64,
        bucket_group: usize,
        bucket: usize,
        slot: usize,
        local_depth: u8,
        new_index: u64,
    )
        requires
            old(pool).shape_ok(),
            bucket_group < BUCKET_GROUP_NUM,
            bucket < crate::config::BUCKET_NUM,
            slot < SLOT_NUM,
            local_depth <= crate::config::MAX_DEPTH,
            old_pointer != new_pointer,
            old(pool).subtables@.contains_key(old_pointer),
            old(pool).subtables@.contains_key(new_pointer),
            old(pool).subtables@[new_pointer].slot_at(
                bucket_group as int,
                bucket as int,
                slot as int,
            ).data == 0,
            readable(old(pool).subtables@[old_pointer], old(pool).kvs@),
        ensures
            slots_changed(old(pool), final(pool), old_pointer, new_pointer),
            forall|g2: int, b2: int, s2: int|
                crate::subtable::pos_ok(g2, b2, s2)
                    ==> #[trigger] final(pool).subtables@[old_pointer].slot_at(g2, b2, s2)
                    == if g2 == bucket_group && b2
                    == bucket && s2 == slot && moves(
                    old(pool).subtables@[old_pointer],
                    old(pool).kvs@,
                    g2,
                    b2,
                    s2,
                    local_depth,
                    new_index as int,
                ) {
                    Slot { data: 0 }
                } else {
                    old(pool).subtables@[old_pointer].slot_at(g2, b2, s2)
                },
            forall|g2: int, b2: int, s2: int|
                crate::subtable::pos_ok(g2, b2, s2)
                    ==> #[trigger] final(pool).subtables@[new_pointer].slot_at(g2, b2, s2)
                    == if g2 == bucket_group && b2
                    == bucket && s2 == slot && moves(
                    old(pool).subtables@[old_pointer],
                    old(pool).kvs@,
                    g2,
                    b2,
                    s2,
                    local_depth,
                    new_index as int,
                ) {
                    old(pool).subtables@[old_pointer].slot_at(g2, b2, s2)
                } else {
                    old(pool).subtables@[new_pointer].slot_at(g2, b2, s2)
                },
    {
        let slot_pos = SlotPos { subtable: old_pointer, bucket_group, bucket, header: 0, slot };
        let ghost t0 = pool.subtables@[old_pointer];
        let ghost n0 = pool.subtables@[new_pointer];
        proof {
            assert(t0.slot_at(bucket_group as int, bucket as int, slot as int).is_empty() || (
            pool.kvs@.contains_key(
                t0.slot_at(bucket_group as int, bucket as int, slot as int).ptr(),
            ) && pool.kvs@[t0.slot_at(
                bucket_group as int,
                bucket as int,
                slot as int,
            ).ptr()].intact()));
            if t0.slot_at(bucket_group as int, bucket as int, slot as int).is_empty() {
                crate::word::lemma_zero_word();
            }
        }
        // read the slot and its record
        let (data, kv_data_op) = Client::read_from_slot_pos_with_crc_check(pool, &slot_pos);
        if !(Slot { data }).judge_empty() {
            if let Some(kv_data) = kv_data_op {
                if RaceUtils::get_suffix(&kv_data.key, local_depth) == new_index {
                    // into the same slot of the new subtable
                    let new_slot_pos = SlotPos {
                        subtable: new_pointer,
                        bucket_group,
                        bucket,
                        header: 0,
                        slot,
                    };
                    let ghost pa = *pool;
                    let _ = pool.write_slot(&new_slot_pos, data, 0);
                    let ghost pb = *pool;
                    proof {
                        assert(pb.subtables@[old_pointer] == t0);
                    }
                    // clear the old slot
                    let _ = pool.write_slot(&slot_pos, 0, data);
                    proof {
                        assert(pool.subtables@[new_pointer] == pb.subtables@[new_pointer]);
                    }
                }
            }
        }
    }

    /// Migrates the records of a subtable that is being split: goes
    /// through every slot of the subtable that the cached entry `old_index`
    /// points to, and moves each record whose key has the low `local_depth`
    /// bits `new_index` to the same slot of the subtable that the cached
    /// entry `new_index` points to, which must be empty.
    pub fn move_items(&self, pool: &mut MemPool, old_index: usize, new_index: usize,
        local_depth: u8)
        requires
            self.directory.wf(),
            old_index < MAX_ENTRY_NUM,
            new_index < MAX_ENTRY_NUM,
            local_depth <= crate::config::MAX_DEPTH,
            old(pool).shape_ok(),
            entry_ptr(self.word(old_index as int)) != entry_ptr(self.word(new_index as int)),
            old(pool).subtables@.contains_key(entry_ptr(self.word(old_index as int))),
            old(pool).subtables@.contains_key(entry_ptr(self.word(new_index as int))),
            readable(old(pool).subtables@[entry_ptr(self.word(old_index as int))], old(pool).kvs@),
            old(pool).subtables@[entry_ptr(self.word(new_index as int))].all_empty(),
        ensures
            slots_changed(
                old(pool),
                final(pool),
                entry_ptr(self.word(old_index as int)),
                entry_ptr(self.word(new_index as int)),
            ),
            migrated(
                old(pool).subtables@[entry_ptr(self.word(old_index as int))],
                final(pool).subtables@[entry_ptr(self.word(old_index as int))],
                final(pool).subtables@[entry_ptr(self.word(new_index as int))],
                old(pool).kvs@,
                local_depth,
                new_index as int,
                BUCKET_GROUP_NUM as int,
                0,
                0,
            ),
    {
        let old_pointer = self.directory.get_entry_const(old_index).get_subtable_pointer();
        let new_pointer = self.directory.get_entry_const(new_index).get_subtable_pointer();
        let ghost t0 = pool.subtables@[old_pointer];
        let ghost kvs = pool.kvs@;
        proof {
            lemma_migrate_start(t0, pool.subtables@[new_pointer], kvs, local_depth,
                new_index as int);
        }
        let mut bucket_group_index: usize = 0;
        while bucket_group_index < BUCKET_GROUP_NUM
            invariant
                bucket_group_index <= BUCKET_GROUP_NUM,
                local_depth <= crate::config::MAX_DEPTH,
                old_pointer != new_pointer,
                new_index < MAX_ENTRY_NUM,
                t0 == old(pool).subtables@[old_pointer],
                kvs == old(pool).kvs@,
                readable(t0, kvs),
                pool.subtables@.contains_key(old_pointer),
                pool.subtables@.contains_key(new_pointer),
                slots_changed(old(pool), pool, old_pointer, new_pointer),
                migrated(
                    t0,
                    pool.subtables@[old_pointer],
                    pool.subtables@[new_pointer],
                    kvs,
                    local_depth,
                    new_index as int,
                    bucket_group_index as int,
                    0,
                    0,
                ),
            decreases BUCKET_GROUP_NUM - bucket_group_index,
        {
            let mut bucket_index: usize = 0;
            while bucket_index < crate::config::BUCKET_NUM
                invariant
                    bucket_group_index < BUCKET_GROUP_NUM,
                    bucket_index <= crate::config::BUCKET_NUM,
                    local_depth <= crate::config::MAX_DEPTH,
                    old_pointer != new_pointer,
                    new_index < MAX_ENTRY_NUM,
                    t0 == old(pool).subtables@[old_pointer],
                    kvs == old(pool).kvs@,
                    readable(t0, kvs),
                    pool.subtables@.contains_key(old_pointer),
                    pool.subtables@.contains_key(new_pointer),
                    slots_changed(old(pool), pool, old_pointer, new_pointer),
                    migrated(
                        t0,
                        pool.subtables@[old_pointer],
                        pool.subtables@[new_pointer],
                        kvs,
                        local_depth,
                        new_index as int,
                        bucket_group_index as int,
                        bucket_index as int,
                        0,
                    ),
                decreases crate::config::BUCKET_NUM - bucket_index,
            {
                let mut slot_index: usize = 0;
                while slot_index < SLOT_NUM
                    invariant
                        bucket_group_index < BUCKET_GROUP_NUM,
                        bucket_index < crate::config::BUCKET_NUM,
                        slot_index <= SLOT_NUM,
                        local_depth <= crate::config::MAX_DEPTH,
                        old_pointer != new_pointer,
                        new_index < MAX_ENTRY_NUM,
                        t0 == old(pool).subtables@[old_pointer],
                        kvs == old(pool).kvs@,
                        readable(t0, kvs),
                        pool.subtables@.contains_key(old_pointer),
                        pool.subtables@.contains_key(new_pointer),
                        slots_changed(old(pool), pool, old_pointer, new_pointer),
                        migrated(
                            t0,
                            pool.subtables@[old_pointer],
                            pool.subtables@[new_pointer],
                            kvs,
                            local_depth,
                            new_index as int,
                            bucket_group_index as int,
                            bucket_index as int,
                            slot_index as int,
                        ),
                    decreases SLOT_NUM - slot_index,
                {
                    let ghost pa = *pool;
                    proof {
                        lemma_migrate_readable(
                            t0,
                            pa.subtables@[old_pointer],
                            pa.subtables@[new_pointer],
                            kvs,
                            local_depth,
                            new_index as int,
                            bucket_group_index as int,
                            bucket_index as int,
                            slot_index as int,
                        );
                    }
                    Client::move_item(
                        pool,
                        old_pointer,
                        new_pointer,
                        bucket_group_index,
                        bucket_index,
                        slot_index,
                        local_depth,
                        new_index as u64,
                    );
                    proof {
                        lemma_migrate_step(
                            t0,
                            pa.subtables@[old_pointer],
                            pa.subtables@[new_pointer],
                            pool.subtables@[old_pointer],
                            pool.subtables@[new_pointer],
                            kvs,
                            local_depth,
                            new_index as int,
                            bucket_group_index as int,
                            bucket_index as int,
                            slot_index as int,
                        );
                        assert(slots_changed(old(pool), pool, old_pointer, new_pointer)) by {
                            let a = old(pool).subtables@[old_pointer];
                            let b = pa.subtables@[old_pointer];
                            let c = pool.subtables@[old_pointer];
                            assert(c.same_headers(&a)) by {
                                assert forall|g: int, k: int|
                                    0 <= g < BUCKET_GROUP_NUM && 0 <= k
                                        < crate::config::BUCKET_NUM implies (#[trigger] c.bucket_at(
                                    g,
                                    k,
                                )).header == a.bucket_at(g, k).header by {
                                    assert(b.bucket_at(g, k).header == a.bucket_at(g, k).header);
                                }
                            }
                            let a2 = old(pool).subtables@[new_pointer];
                            let b2 = pa.subtables@[new_pointer];
                            let c2 = pool.subtables@[new_pointer];
                            assert(c2.same_headers(&a2)) by {
                                assert forall|g: int, k: int|
                                    0 <= g < BUCKET_GROUP_NUM && 0 <= k
                                        < crate::config::BUCKET_NUM implies (
                                #[trigger] c2.bucket_at(g, k)).header == a2.bucket_at(
                                    g,
                                    k,
                                ).header by {
                                    assert(b2.bucket_at(g, k).header == a2.bucket_at(g, k).header);
                                }
                            }
                        }
                    }
                    slot_index += 1;
                }
                proof {
                    lemma_migrate_next(
                        t0,
                        pool.subtables@[old_pointer],
                        pool.subtables@[new_pointer],
                        kvs,
                        local_depth,
                        new_index as int,
                        bucket_group_index as int,
                        bucket_index as int,
                    );
                }
                bucket_index += 1;
            }
            proof {
                lemma_migrate_next(
                    t0,
                    pool.subtables@[old_pointer],
                    pool.subtables@[new_pointer],
                    kvs,
                    local_depth,
                    new_index as int,
                    bucket_group_index as int,
                    crate::config::BUCKET_NUM as int,
                );
            }
            bucket_group_index += 1;
        }
    }

    /// The directory part of a split, by a client that holds the locks of
    /// every entry that points to the subtable of entry `old_index`:
    /// allocates the new subtable, with the header of the new suffix at
    /// one more bit of depth; points the entries of the new suffix at it;
    /// raises the local depth of the entries of the old suffix; and writes
    /// the new depth into the header of the old subtable. Fails, with
    /// nothing changed, when the allocator has no room.
    pub fn split_entry(&mut self, pool: &mut MemPool, old_index: usize) -> (ok: bool)
        requires
            old(self).directory.wf(),
            old(pool).shape_ok(),
            old(pool).store_ok(),
            old(self).directory.global_depth == old(pool).dir.global_depth,
            old_index < old(self).size(),
            entry_depth(old(self).word(old_index as int)) < old(self).directory.global_depth,
            has_suffix(
                old_index as int,
                old_index as int,
                entry_depth(old(self).word(old_index as int)),
            ),
            old(pool).subtables@.contains_key(entry_ptr(old(self).word(old_index as int))),
            forall|i: int|
                0 <= i < old(self).size() && has_suffix(
                    i,
                    old_index as int,
                    entry_depth(old(self).word(old_index as int)),
                ) ==> (#[trigger] old(pool).dir.entries@[i]).data == locked_word(
                    old(self).word(i),
                ),
        ensures
            ok == old(pool).memory_manager.can_allocate(crate::config::SUBTABLE_SIZE as nat),
            final(self).directory.wf(),
            final(self).directory.global_depth == old(self).directory.global_depth,
            final(pool).shape_ok(),
            final(pool).store_ok(),
            final(pool).kvs == old(pool).kvs,
            final(pool).dir.global_depth == old(pool).dir.global_depth,
            final(pool).dir.entries@.len() == old(pool).dir.entries@.len(),
            !ok ==> final(pool).memory_manager == old(pool).memory_manager,
            !ok ==> final(pool).subtables@ == old(pool).subtables@ && (forall|i: int|
                0 <= i < MAX_ENTRY_NUM ==> (#[trigger] final(pool).dir.entries@[i]).data
                    == old(pool).word(i)) && (forall|i: int|
                0 <= i < MAX_ENTRY_NUM ==> (#[trigger] final(self).directory.entries@[i]).data
                    == old(self).word(i)),
            ok ==> {
                let ld = entry_depth(old(self).word(old_index as int));
                let depth = (ld + 1) as u8;
                let new = old_index + (1u64 << (ld as u64));
                let tptr = entry_ptr(old(self).word(old_index as int));
                let nptr = entry_ptr(final(self).word(new));
                &&& new < old(self).size()
                &&& !old(pool).subtables@.contains_key(nptr)
                &&& nptr != tptr
                &&& forall|i: int|
                    0 <= i < MAX_ENTRY_NUM ==> (#[trigger] final(self).directory.entries@[i]).data
                        == if i < old(self).size() && has_suffix(i, old_index as int, ld) {
                        Client::repointed(
                            old(self).word(i),
                            if has_suffix(i, new, depth) {
                                nptr
                            } else {
                                tptr
                            },
                            depth,
                        )
                    } else {
                        old(self).word(i)
                    }
                &&& forall|i: int|
                    0 <= i < MAX_ENTRY_NUM ==> (#[trigger] final(pool).dir.entries@[i]).data
                        == if i < old(self).size() && has_suffix(i, old_index as int, ld) {
                        locked_word(final(self).word(i))
                    } else {
                        old(pool).word(i)
                    }
                &&& forall|t: u64| #[trigger]
                    final(pool).subtables@.contains_key(t) <==> (old(pool).subtables@.contains_key(
                        t,
                    ) || t == nptr)
                &&& forall|t: u64|
                    old(pool).subtables@.contains_key(t) && t != tptr
                        ==> #[trigger] final(pool).subtables@[t] == old(pool).subtables@[t]
                &&& final(pool).subtables@[nptr].all_empty()
                &&& final(pool).subtables@[nptr].uniform_header(
                    crate::subtable::header_word(depth, new as u64),
                )
                &&& crate::subtable::header_written(
                    old(pool).subtables@[tptr],
                    final(pool).subtables@[tptr],
                    depth,
                    old_index as u64,
                )
            },
    {
        proof {
            crate::bits::lemma_size_bound(self.directory.global_depth);
        }
        // the depth and the index that the new subtable gets
        let old_depth = self.directory.get_entry_const(old_index).get_local_depth();
        proof {
            lemma_split_bits(old_index as u64, old_index as int, old_depth);
            crate::bits::lemma_size_monotone((old_depth + 1) as u8, self.directory.global_depth);
            crate::bits::lemma_size_monotone(old_depth, (old_depth + 1) as u8);
            crate::bits::lemma_next_bit(old_index as u64, old_depth);
            assert(crate::word::low_bits(old_index as u64, old_depth) == old_index);
            assert(crate::utils::new_suffix(old_index as u64, old_depth) == old_index + (1u64 << (
            old_depth as u64)));
        }
        let new_index = RaceUtils::get_new_suffix_from_old(old_index as u64, old_depth) as usize;
        // the new subtable
        let ghost q0 = *pool;
        let ghost c0 = *self;
        let new_pointer = match pool.new_subtable(old_depth + 1, new_index as u64) {
            Some(p) => p,
            None => {
                return false;
            },
        };
        let ghost pa = *pool;
        // the old subtable
        let old_pointer = self.directory.get_entry_const(old_index).get_subtable_pointer();
        // new suffix first, then old suffix
        self.set_local_entries_and_push(pool, new_index as u64, new_pointer, old_depth + 1);
        let ghost pb = *pool;
        let ghost cb = *self;
        self.set_local_entries_and_push(pool, old_index as u64, old_pointer, old_depth + 1);
        let ghost pc = *pool;
        // the old subtable advertises the new depth last
        proof {
            crate::word::lemma_with_low48(c0.word(old_index as int), old_pointer);
            crate::word::lemma_with_low48(c0.word(old_index as int), c0.word(old_index as int));
            crate::word::lemma_with_second_byte(
                crate::word::with_low48(c0.word(old_index as int), old_pointer),
                (old_depth + 1) as u8,
            );
            crate::directory::lemma_lock_words(self.word(old_index as int));
            assert(pc.dir.entries@[old_index as int].data
                == locked_word(self.word(old_index as int)));
            assert(pc.ptr_at(old_index as int) == old_pointer);
        }
        let _ = pool.set_subtable_header(old_index, old_depth + 1, old_index as u64);
        proof {
            let ld = old_depth;
            let depth = (ld + 1) as u8;
            let nptr = new_pointer;
            let tptr = old_pointer;
            crate::word::lemma_with_low48(c0.word(new_index as int), nptr);
            crate::word::lemma_with_second_byte(
                crate::word::with_low48(c0.word(new_index as int), nptr),
                depth,
            );
            assert(entry_ptr(self.word(new_index as int)) == nptr) by {
                lemma_split_bits(new_index as u64, old_index as int, ld);
                assert(self.directory.entries@[new_index as int].data == cb.word(new_index as int));
                assert(cb.directory.entries@[new_index as int].data == Client::repointed(
                    c0.word(new_index as int),
                    nptr,
                    depth,
                ));
            }
            assert forall|i: int| 0 <= i < MAX_ENTRY_NUM implies (
            #[trigger] self.directory.entries@[i]).data == if i < c0.size() && has_suffix(
                i,
                old_index as int,
                ld,
            ) {
                Client::repointed(
                    c0.word(i),
                    if has_suffix(i, new_index as int, depth) {
                        nptr
                    } else {
                        tptr
                    },
                    depth,
                )
            } else {
                c0.word(i)
            } by {
                lemma_split_bits(i as u64, old_index as int, ld);
                crate::bits::lemma_stride(i as u64, old_index as u64, depth);
                crate::bits::lemma_stride(i as u64, new_index as u64, depth);
                assert(cb.directory.entries@[i].data == if new_index <= i < c0.size()
                    && in_suffix(i, new_index as u64, depth) {
                    Client::repointed(c0.word(i), nptr, depth)
                } else {
                    c0.word(i)
                });
            }
            assert forall|i: int| 0 <= i < MAX_ENTRY_NUM implies (
            #[trigger] pool.dir.entries@[i]).data == if i < c0.size() && has_suffix(
                i,
                old_index as int,
                ld,
            ) {
                locked_word(self.word(i))
            } else {
                q0.word(i)
            } by {
                lemma_split_bits(i as u64, old_index as int, ld);
                crate::bits::lemma_stride(i as u64, old_index as u64, depth);
                crate::bits::lemma_stride(i as u64, new_index as u64, depth);
                assert(pa.dir.entries@[i].data == q0.dir.entries@[i].data);
                assert(pb.dir.entries@[i].data == if new_index <= i < c0.size() && in_suffix(
                    i,
                    new_index as u64,
                    depth,
                ) && pa.word(i) == locked_word(c0.word(i)) {
                    locked_word(Client::repointed(c0.word(i), nptr, depth))
                } else {
                    pa.word(i)
                });
                assert(cb.directory.entries@[i].data == if new_index <= i < c0.size()
                    && in_suffix(i, new_index as u64, depth) {
                    Client::repointed(c0.word(i), nptr, depth)
                } else {
                    c0.word(i)
                });
                assert(pc.dir.entries@[i].data == if old_index <= i < c0.size() && in_suffix(
                    i,
                    old_index as u64,
                    depth,
                ) && pb.word(i) == locked_word(cb.word(i)) {
                    locked_word(Client::repointed(cb.word(i), tptr, depth))
                } else {
                    pb.word(i)
                });
                assert(pool.dir.entries@[i].data == pc.dir.entries@[i].data);
                if i < c0.size() && has_suffix(i, old_index as int, ld) {
                    assert(q0.dir.entries@[i].data == locked_word(c0.word(i)));
                }
            }
            assert(pa.subtables@.contains_key(tptr));
            assert(pa.subtables@[tptr] == q0.subtables@[tptr]);
            assert forall|t: u64| #[trigger]
                pool.subtables@.contains_key(t) <==> (q0.subtables@.contains_key(t) || t
                    == nptr) by {
                assert(pa.subtables@.contains_key(t) <==> (q0.subtables@.contains_key(t) || t
                    == nptr));
            }
            assert(pool.store_ok()) by {
                assert forall|t: u64| #[trigger] pool.subtables@.contains_key(t) implies {
                    &&& t < crate::config::ADDRESS_LIMIT
                    &&& pool.memory_manager.allocated().contains_key(t as int)
                    &&& pool.memory_manager.allocated()[t as int] == crate::config::SUBTABLE_SIZE
                } by {
                    assert(pa.subtables@.contains_key(t));
                }
            }
        }
        true
    }

    /// Splits the subtable that directory entry `rehash_index` points to.
    /// The cached directory is renewed first. If the subtable is as deep as
    /// the directory, the directory is doubled before; at the largest depth
    /// that fails. Then the client locks the entries that point to the
    /// subtable, allocates the new subtable, redirects the entries of the
    /// new suffix, moves the records of the new suffix, and unlocks.
    /// Whatever the outcome, the index holds what it held.
    #[verifier::rlimit(100)]
    pub fn rehash(&mut self, pool: &mut MemPool, rehash_index: usize) -> (r: Result<(), RaceError>)
        requires
            old(pool).wf(),
            rehash_index < old(pool).size(),
        ensures
            final(pool).wf(),
            final(self).wf(final(pool)),
            final(self).fresh(final(pool)),
            final(pool)@ == old(pool)@,
            final(pool).extends(old(pool)),
            final(pool).kvs@ == old(pool).kvs@,
            forall|p: u64| final(pool).referenced(p) ==> old(pool).referenced(p),
            r == Err::<(), RaceError>(RaceError::CapacityExceeded) <==> old(pool).depth_at(
                rehash_index as int,
            ) >= crate::config::MAX_DEPTH,
            r == Err::<(), RaceError>(RaceError::AllocatorOom) <==> old(pool).depth_at(
                rehash_index as int,
            ) < crate::config::MAX_DEPTH && !old(pool).memory_manager.can_allocate(
                crate::config::SUBTABLE_SIZE as nat,
            ),
            r != Err::<(), RaceError>(RaceError::InvalidSize),
            r == Err::<(), RaceError>(RaceError::CapacityExceeded) ==> *final(pool) == *old(pool),
            r is Err ==> final(pool).memory_manager == old(pool).memory_manager
                && final(pool).subtables@ == old(pool).subtables@,
            r is Err ==> forall|k: Seq<char>|
                final(pool).ptr_at(#[trigger] final(pool).index_of(k)) == old(pool).ptr_at(
                    old(pool).index_of(k),
                ),
            r is Ok ==> split_directory(old(pool), final(pool), rehash_index as int),
            forall|k: Seq<char>|
                table_depth(#[trigger] final(pool).table_of(k)) == if r is Ok && old(pool).ptr_at(
                    old(pool).index_of(k),
                ) == old(pool).ptr_at(rehash_index as int) {
                    table_depth(old(pool).table_of(k)) + 1
                } else {
                    table_depth(old(pool).table_of(k)) as int
                },
    {
        let ghost q0 = *pool;
        self.refresh_directory(pool);
        proof {
            crate::bits::lemma_size_bound(pool.depth());
            lemma_entry(&q0, rehash_index as int);
        }
        // the index of the subtable: the hint reduced to its local depth
        let hint_depth = self.directory.get_entry_const(rehash_index).get_local_depth();
        let old_index = RaceUtils::restrict_suffix_to(rehash_index as u64, hint_depth) as usize;
        proof {
            crate::bits::lemma_stride(rehash_index as u64, rehash_index as u64, hint_depth);
            crate::bits::lemma_low_bits_nested(rehash_index as u64, hint_depth, hint_depth);
            assert(q0.entries_agree(rehash_index as int, old_index as int));
            lemma_entry(&q0, old_index as int);
            crate::split::lemma_old_set(&q0, old_index as int, rehash_index as int);
            assert(self.directory.entries@[old_index as int].data == q0.word(old_index as int));
        }
        let ld = self.directory.get_entry_const(old_index).get_local_depth();
        proof {
            crate::bits::lemma_next_bit(old_index as u64, ld);
            crate::bits::lemma_size_monotone(ld, 16);
            assert((1u64 << 16u64) == 65536) by (bit_vector);
            assert(crate::utils::new_suffix(old_index as u64, ld) == old_index + (1u64 << (
            ld as u64)));
        }
        let new_index = RaceUtils::get_new_suffix_from_old(old_index as u64, ld) as usize;
        let old_size = self.get_size();
        if old_size <= new_index {
            proof {
                if ld < q0.depth() {
                    crate::bits::lemma_size_monotone((ld + 1) as u8, q0.depth());
                    crate::bits::lemma_size_monotone(ld, (ld + 1) as u8);
                    lemma_split_bits(0, old_index as int, ld);
                }
                assert(ld == q0.depth());
            }
            if old_size >= MAX_ENTRY_NUM {
                proof {
                    if q0.depth() < 16 {
                        crate::bits::lemma_size_monotone(q0.depth(), 16);
                    }
                    lemma_relocked_self(&q0);
                    assert forall|k: Seq<char>|
                        table_depth(#[trigger] pool.table_of(k)) == table_depth(
                            q0.table_of(k),
                        ) by {}
                }
                return Err(RaceError::CapacityExceeded);
            }
            proof {
                crate::bits::lemma_size_bound(16);
            }
            self.double_size(pool);
        } else {
            proof {
                lemma_split_bits(0, old_index as int, ld);
                if ld >= q0.depth() {
                    crate::bits::lemma_size_monotone(q0.depth(), ld);
                }
            }
        }
        let ghost pb = *pool;
        proof {
            crate::bits::lemma_size_bound(pb.depth());
            crate::bits::lemma_size_monotone(q0.depth(), pb.depth());
            assert(pb.dir.entries@[old_index as int].data
                == q0.dir.entries@[old_index as int].data);
            assert(pb.dir.entries@[rehash_index as int].data
                == q0.dir.entries@[rehash_index as int].data);
            lemma_split_bits(0, old_index as int, ld);
            lemma_entry(&pb, old_index as int);
            crate::bits::lemma_size_monotone((ld + 1) as u8, pb.depth());
            crate::bits::lemma_size_monotone(ld, (ld + 1) as u8);
            assert(self.directory.entries@[old_index as int].data == pb.word(old_index as int));
            // the cached directory is a copy of the pool's
            assert forall|i: int| 0 <= i < MAX_ENTRY_NUM implies (
            #[trigger] self.directory.entries@[i]).data == if i < pb.size() {
                unlocked_word(pb.word(i))
            } else {
                0
            } by {
                if i < pb.size() {
                    assert(entry_lock(pb.dir.entries@[i].data) == 0);
                    crate::directory::lemma_lock_words(pb.word(i));
                }
            }
        }
        // the local depth before the locks are taken
        let old_depth = self.directory.get_entry_const(old_index).get_local_depth();
        // lock both suffixes; the directory is read again in between
        self.lock_suffix_and_flush(pool, old_index, new_index, old_depth + 1);
        let ghost pl = *pool;
        proof {
            assert forall|i: int| 0 <= i < pb.size() implies (
            #[trigger] self.directory.entries@[i]).data == pb.word(i) by {
                assert(pl.dir.entries@[i].data == if (in_suffix(
                    i,
                    old_index as u64,
                    (ld + 1) as u8,
                ) || in_suffix(i, new_index as u64, (ld + 1) as u8)) {
                    locked_word(pb.word(i))
                } else {
                    pb.word(i)
                });
                assert(entry_lock(pb.dir.entries@[i].data) == 0);
                crate::directory::lemma_lock_words(pb.word(i));
            }
        }
        proof {
            assert(self.directory.entries@[old_index as int].data == pb.word(old_index as int));
        }
        // the local depth with the locks held
        let new_depth = self.directory.get_entry_const(old_index).get_local_depth();
        if old_depth != new_depth {
            // another splitter has run: release the locks, the caller tries again
            self.unlock_suffix(pool, new_index as u64);
            self.unlock_suffix(pool, old_index as u64);
            return Ok(());
        }
        proof {
            assert forall|i: int|
                0 <= i < self.size() && has_suffix(i, old_index as int, ld) implies (
            #[trigger] pl.dir.entries@[i]).data == locked_word(self.word(i)) by {
                lemma_split_bits(i as u64, old_index as int, ld);
                assert(self.directory.entries@[i].data == pb.word(i));
            }
        }
        let ghost cl = *self;
        // split
        if !self.split_entry(pool, old_index) {
            let ghost pf = *pool;
            proof {
                assert(self.directory.entries@[new_index as int].data == cl.word(new_index as int));
                assert(cl.directory.entries@[new_index as int].data == pb.word(new_index as int));
                assert(self.directory.entries@[old_index as int].data == cl.word(old_index as int));
                lemma_entry(&pb, new_index as int);
            }
            self.unlock_suffix(pool, new_index as u64);
            let ghost pg = *pool;
            self.unlock_suffix(pool, old_index as u64);
            proof {
                let ph = *pool;
                assert forall|i: int| 0 <= i < MAX_ENTRY_NUM implies (
                #[trigger] ph.dir.entries@[i]).data == pb.dir.entries@[i].data by {
                    lemma_split_bits(i as u64, old_index as int, ld);
                    crate::bits::lemma_stride(i as u64, old_index as u64, ld);
                    crate::bits::lemma_stride(i as u64, new_index as u64, ld);
                    crate::bits::lemma_low_bits_nested(new_index as u64, (ld + 1) as u8, ld);
                    assert(pf.dir.entries@[i].data == pl.dir.entries@[i].data);
                    assert(self.directory.entries@[i].data == cl.word(i));
                    assert(pl.dir.entries@[i].data == if i < pb.size() && (in_suffix(
                        i,
                        old_index as u64,
                        (ld + 1) as u8,
                    ) || in_suffix(i, new_index as u64, (ld + 1) as u8)) {
                        locked_word(pb.word(i))
                    } else {
                        pb.word(i)
                    });
                    assert(self.directory.entries@[new_index as int].data == pb.word(
                        new_index as int,
                    ));
                    lemma_split_bits(new_index as u64, old_index as int, ld);
                    crate::split::lemma_old_set(&pb, old_index as int, new_index as int);
                    assert(entry_depth(self.word(new_index as int)) == ld);
                    assert(entry_depth(self.word(old_index as int)) == ld);
                    if i < pb.size() {
                        assert(cl.directory.entries@[i].data == pb.word(i));
                        assert(entry_lock(pb.dir.entries@[i].data) == 0);
                        crate::directory::lemma_lock_words(pb.word(i));
                    }
                    assert(pg.dir.entries@[i].data == if new_index <= i < self.size()
                        && in_suffix(i, crate::word::low_bits(new_index as u64, ld), ld)
                        && pf.word(i) == locked_word(self.word(i)) {
                        unlocked_word(self.word(i))
                    } else {
                        pf.word(i)
                    });
                }
                lemma_words_same(&pb, &ph);
                crate::facts::lemma_relocked(&pb, &ph);
                assert forall|i: int| 0 <= i < MAX_ENTRY_NUM implies (
                #[trigger] self.directory.entries@[i]).data == if i < pb.size() {
                    unlocked_word(pb.word(i))
                } else {
                    0
                } by {
                    assert(self.directory.entries@[i].data == cl.word(i));
                    if i < pb.size() {
                        assert(cl.directory.entries@[i].data == pb.word(i));
                        assert(entry_lock(pb.dir.entries@[i].data) == 0);
                        crate::directory::lemma_lock_words(pb.word(i));
                    } else {
                        assert(cl.directory.entries@[i].data == 0);
                    }
                }
                lemma_fresh_client(self, &pb, &ph);
                lemma_depth_same(&pb, &ph);
                assert forall|k: Seq<char>|
                    table_depth(#[trigger] ph.table_of(k)) == table_depth(q0.table_of(k)) by {
                    lemma_key_table_same(&q0, &pb, k);
                }
                assert forall|k: Seq<char>|
                    ph.ptr_at(#[trigger] ph.index_of(k)) == q0.ptr_at(q0.index_of(k)) by {
                    lemma_key_table_same(&q0, &pb, k);
                    lemma_own_table(&pb, k);
                    assert(ph.ptr_at(pb.index_of(k)) == pb.ptr_at(pb.index_of(k)));
                }
            }
            return Err(RaceError::AllocatorOom);
        }
        let ghost ps = *pool;
        let ghost tptr = entry_ptr(cl.word(old_index as int));
        let ghost nptr = entry_ptr(self.word(new_index as int));
        proof {
            lemma_repointed(cl.word(old_index as int), tptr, (ld + 1) as u8);
            lemma_repointed(cl.word(new_index as int), nptr, (ld + 1) as u8);
            lemma_split_bits(old_index as u64, old_index as int, ld);
            lemma_split_bits(new_index as u64, old_index as int, ld);
            assert(self.directory.entries@[old_index as int].data == Client::repointed(
                cl.word(old_index as int),
                tptr,
                (ld + 1) as u8,
            ));
            assert(tptr == pb.ptr_at(old_index as int));
            assert(table_ok(pb.table_at(old_index as int), pb.kvs@));
            let t0 = pb.subtables@[tptr];
            let ts = ps.subtables@[tptr];
            assert(ps.subtables@.contains_key(tptr));
            assert(ps.subtables@.contains_key(nptr));
            assert(readable(ts, ps.kvs@)) by {
                assert forall|g: int, b: int, s: int|
                    crate::subtable::pos_ok(g, b, s) implies if (#[trigger] ts.slot_at(
                    g,
                    b,
                    s,
                )).is_empty() {
                    ts.slot_at(g, b, s).data == 0
                } else {
                    ps.kvs@.contains_key(ts.slot_at(g, b, s).ptr()) && ps.kvs@[ts.slot_at(
                        g,
                        b,
                        s,
                    ).ptr()].intact()
                } by {
                    assert(ts.slot_at(g, b, s) == t0.slot_at(g, b, s));
                    assert(crate::mempool::slot_ok(t0, pb.kvs@, g, b, s));
                }
            }
        }
        // move the records of the new suffix; the locks keep the directory still
        self.move_items(pool, old_index, new_index, old_depth + 1);
        let ghost pm = *pool;
        // unlock suffix, the one locked last first
        self.unlock_suffix(pool, new_index as u64);
        let ghost pu = *pool;
        self.unlock_suffix(pool, old_index as u64);
        proof {
            let q1 = *pool;
            let depth = (ld + 1) as u8;
            let t0 = pb.subtables@[tptr];
            let ts = ps.subtables@[tptr];
            // the directory words after the split
            assert forall|i: int| 0 <= i < MAX_ENTRY_NUM implies (
            #[trigger] q1.dir.entries@[i]).data == self.word(i) && entry_lock(self.word(i))
                == 0 by {
                lemma_split_bits(i as u64, old_index as int, ld);
                crate::bits::lemma_stride(i as u64, old_index as u64, depth);
                crate::bits::lemma_stride(i as u64, new_index as u64, depth);
                lemma_repointed(cl.word(i), tptr, depth);
                lemma_repointed(cl.word(i), nptr, depth);
                crate::directory::lemma_lock_words(self.word(i));
                lemma_copied_unlocked(&cl, &pl);
                assert(entry_lock(cl.directory.entries@[i].data) == 0);
                assert(pm.dir.entries@[i].data == ps.dir.entries@[i].data);
                assert(self.directory.entries@[i].data == if i < cl.size() && has_suffix(
                    i,
                    old_index as int,
                    ld,
                ) {
                    Client::repointed(
                        cl.word(i),
                        if has_suffix(i, new_index as int, depth) {
                            nptr
                        } else {
                            tptr
                        },
                        depth,
                    )
                } else {
                    cl.word(i)
                });
                assert(ps.dir.entries@[i].data == if i < cl.size() && has_suffix(
                    i,
                    old_index as int,
                    ld,
                ) {
                    locked_word(self.word(i))
                } else {
                    pl.word(i)
                });
                assert(pl.dir.entries@[i].data == if i < pb.size() && (in_suffix(
                    i,
                    old_index as u64,
                    depth,
                ) || in_suffix(i, new_index as u64, depth)) {
                    locked_word(pb.word(i))
                } else {
                    pb.word(i)
                });
                if i < pb.size() {
                    assert(cl.directory.entries@[i].data == pb.word(i));
                } else {
                    assert(cl.directory.entries@[i].data == 0);
                    assert(pb.dir.entries@[i].data == 0);
                }
                assert(pu.dir.entries@[i].data == if new_index <= i < self.size() && in_suffix(
                    i,
                    crate::word::low_bits(new_index as u64, depth),
                    depth,
                ) && pm.word(i) == locked_word(self.word(i)) {
                    unlocked_word(self.word(i))
                } else {
                    pm.word(i)
                });
            }
            assert(split_done(&pb, &q1, old_index as int, nptr)) by {
                assert(split_suffix(&pb, old_index as int) == new_index);
                assert forall|j: int| 0 <= j < pb.size() implies #[trigger] q1.ptr_at(j) == (
                if has_suffix(j, old_index as int, ld) {
                    if has_suffix(j, new_index as int, depth) {
                        nptr
                    } else {
                        tptr
                    }
                } else {
                    pb.ptr_at(j)
                }) && q1.depth_at(j) == (if has_suffix(j, old_index as int, ld) {
                    depth
                } else {
                    pb.depth_at(j)
                }) by {
                    assert(q1.dir.entries@[j].data == self.word(j));
                    assert(cl.directory.entries@[j].data == pb.word(j));
                    lemma_repointed(cl.word(j), tptr, depth);
                    lemma_repointed(cl.word(j), nptr, depth);
                }
                assert forall|j: int| pb.size() <= j < MAX_ENTRY_NUM implies (
                #[trigger] q1.dir.entries@[j]).data == 0 by {
                    assert(cl.directory.entries@[j].data == 0);
                }
                let t1 = q1.subtables@[tptr];
                let n1 = q1.subtables@[nptr];
                let ns = ps.subtables@[nptr];
                assert(t1.uniform_header(crate::subtable::header_word(depth,
                    old_index as u64))) by {
                    assert forall|g: int, b: int|
                        0 <= g < BUCKET_GROUP_NUM && 0 <= b < crate::config::BUCKET_NUM implies (
                    #[trigger] t1.bucket_at(g, b)).header.data == crate::subtable::header_word(
                        depth,
                        old_index as u64,
                    ) by {
                        assert(t1.bucket_at(g, b).header == ts.bucket_at(g, b).header);
                    }
                }
                assert(n1.uniform_header(crate::subtable::header_word(depth,
                    new_index as u64))) by {
                    assert forall|g: int, b: int|
                        0 <= g < BUCKET_GROUP_NUM && 0 <= b < crate::config::BUCKET_NUM implies (
                    #[trigger] n1.bucket_at(g, b)).header.data == crate::subtable::header_word(
                        depth,
                        new_index as u64,
                    ) by {
                        assert(n1.bucket_at(g, b).header == ns.bucket_at(g, b).header);
                    }
                }
                assert(migrated(
                    t0,
                    t1,
                    n1,
                    pb.kvs@,
                    depth,
                    new_index as int,
                    BUCKET_GROUP_NUM as int,
                    0,
                    0,
                )) by {
                    assert forall|g: int, b: int, s: int|
                        crate::subtable::pos_ok(g, b, s) implies moves(
                        ts,
                        pb.kvs@,
                        g,
                        b,
                        s,
                        depth,
                        new_index as int,
                    ) == moves(t0, pb.kvs@, g, b, s, depth, new_index as int) && ts.slot_at(
                        g,
                        b,
                        s,
                    ) == t0.slot_at(g, b, s) by {
                        assert(ts.slot_at(g, b, s) == t0.slot_at(g, b, s));
                    }
                }
                assert forall|t: u64| #[trigger]
                    q1.subtables@.contains_key(t) <==> (pb.subtables@.contains_key(t) || t
                        == nptr) by {
                    assert(ps.subtables@.contains_key(t) <==> (pb.subtables@.contains_key(t) || t
                        == nptr));
                    assert(pm.subtables@.contains_key(t) <==> ps.subtables@.contains_key(t));
                }
                assert forall|t: u64|
                    pb.subtables@.contains_key(t) && t != tptr implies #[trigger] q1.subtables@[t]
                    == pb.subtables@[t] by {
                    assert(ps.subtables@[t] == pl.subtables@[t]);
                    assert(ps.subtables@.contains_key(t));
                    assert(pm.subtables@[t] == ps.subtables@[t]);
                }
                assert(q1.store_ok()) by {
                    assert forall|t: u64| #[trigger] q1.subtables@.contains_key(t) implies {
                        &&& t < crate::config::ADDRESS_LIMIT
                        &&& q1.memory_manager.allocated().contains_key(t as int)
                        &&& q1.memory_manager.allocated()[t as int]
                            == crate::config::SUBTABLE_SIZE
                    } by {
                        assert(ps.subtables@.contains_key(t));
                    }
                }
            }
            lemma_split_done(&pb, &q1, old_index as int, nptr);
            lemma_split_directory(&q0, &pb, &q1, rehash_index as int, nptr);
            assert forall|i: int| 0 <= i < q1.size() implies entry_lock(
                (#[trigger] q1.dir.entries@[i]).data,
            ) == 0 by {}
            assert forall|i: int| 0 <= i < self.size() implies (
            #[trigger] self.directory.entries@[i]).data == q1.word(i) by {
                assert(q1.dir.entries@[i].data == self.word(i));
            }
            assert forall|i: int| 0 <= i < self.size() implies entry_lock(
                (#[trigger] self.directory.entries@[i]).data,
            ) == 0 && q1.is_live(entry_ptr(self.word(i))) by {
                assert(q1.dir.entries@[i].data == self.word(i));
                lemma_entry(&q1, i);
            }
            assert forall|i: int| self.size() <= i < MAX_ENTRY_NUM implies (
            #[trigger] self.directory.entries@[i]).data == 0 by {
                assert(cl.directory.entries@[i].data == 0);
            }
            assert forall|k: Seq<char>|
                table_depth(#[trigger] q1.table_of(k)) == if q0.ptr_at(q0.index_of(k)) == q0.ptr_at(
                    rehash_index as int,
                ) {
                    table_depth(q0.table_of(k)) + 1
                } else {
                    table_depth(q0.table_of(k)) as int
                } by {
                lemma_key_table_same(&q0, &pb, k);
                lemma_own_table(&q0, k);
                lemma_own_table(&pb, k);
            }
        }
        Ok(())
    }
}

} // verus!
