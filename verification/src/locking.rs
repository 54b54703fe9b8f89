//! The spin locks in the directory entries: how a client takes and
//! releases the lock of one entry, of all entries, and of the entries of
//! a suffix.

use vstd::prelude::*;
use crate::config::MAX_ENTRY_NUM;
use crate::directory::{entry_depth, entry_lock, locked_word, unlocked_word};
use crate::mempool::MemPool;
use crate::utils::RaceUtils;
use crate::client::Client;

verus! {

/// The pool `q1` differs from `q0` in directory entry words at most.
pub open spec fn same_but_words(q0: &MemPool, q1: &MemPool) -> bool {
    &&& q1.subtables == q0.subtables
    &&& q1.kvs == q0.kvs
    &&& q1.memory_manager == q0.memory_manager
    &&& q1.dir.global_depth == q0.dir.global_depth
    &&& q1.dir.entries@.len() == q0.dir.entries@.len()
}

/// The pool `q1` is `q0` with the word `w` in directory entry `index`.
pub open spec fn word_changed(q0: &MemPool, q1: &MemPool, index: int, w: u64) -> bool {
    &&& same_but_words(q0, q1)
    &&& forall|i: int|
        0 <= i < q0.dir.entries@.len() ==> (#[trigger] q1.dir.entries@[i]).data == if i == index {
            w
        } else {
            q0.dir.entries@[i].data
        }
}

/// Whether index `i` has the low `depth` bits `suffix`.
pub open spec fn in_suffix(i: int, suffix: u64, depth: u8) -> bool {
    crate::word::low_bits(i as u64, depth) == suffix
}

/// The pool `q1` is `q0` with the lock byte set in every live directory
/// entry whose index has the low `depth` bits `suffix`, from index `from`
/// on.
pub open spec fn suffix_locked(q0: &MemPool, q1: &MemPool, suffix: u64, depth: u8,
    from: int) -> bool {
    &&& same_but_words(q0, q1)
    &&& forall|i: int|
        0 <= i < q0.dir.entries@.len() ==> (#[trigger] q1.dir.entries@[i]).data == if from <= i
            < q0.size() && in_suffix(i, suffix, depth) {
            locked_word(q0.word(i))
        } else {
            q0.word(i)
        }
}

/// A cached directory that was copied from a pool is a copy of the pool
/// after any change of lock bytes.
pub proof fn lemma_copied_relock(c: &Client, q0: &MemPool, q1: &MemPool)
    requires
        c.copied_from(q0),
        same_but_words(q0, q1),
        forall|i: int|
            0 <= i < q0.size() ==> unlocked_word((#[trigger] q1.dir.entries@[i]).data)
                == unlocked_word(q0.word(i)),
    ensures
        c.copied_from(q1),
{
    assert forall|i: int| 0 <= i < MAX_ENTRY_NUM implies (#[trigger] c.directory.entries@[i]).data
        == if i < q1.size() {
        unlocked_word(q1.word(i))
    } else {
        0
    } by {
        if i < q0.size() {
            assert(unlocked_word(q1.dir.entries@[i].data) == unlocked_word(q0.word(i)));
        }
    }
}

/// The pool `q1` is `q0` with the lock byte set in the live directory
/// entries of two suffixes: with `first`, in the entries `a` and `b`
/// themselves; without, in all others that have the low `depth` bits of
/// `a` or of `b`.
pub open spec fn pair_locked(
    q0: &MemPool,
    q1: &MemPool,
    a: u64,
    b: u64,
    depth: u8,
    first: bool,
) -> bool {
    &&& same_but_words(q0, q1)
    &&& forall|i: int|
        0 <= i < q0.dir.entries@.len() ==> (#[trigger] q1.dir.entries@[i]).data == if i
            < q0.size() && (if first {
            i == a || i == b
        } else {
            (i > a && in_suffix(i, a, depth)) || (i > b && in_suffix(i, b, depth))
        }) {
            locked_word(q0.word(i))
        } else {
            q0.word(i)
        }
}

/// A copy of a directory carries no lock byte.
pub proof fn lemma_copied_unlocked(c: &Client, p: &MemPool)
    requires
        c.copied_from(p),
    ensures
        c.cache_unlocked(),
{
    assert forall|i: int| 0 <= i < MAX_ENTRY_NUM implies entry_lock(
        (#[trigger] c.directory.entries@[i]).data,
    ) == 0 by {
        if i < p.size() {
            crate::directory::lemma_lock_words(p.word(i));
        } else {
            crate::word::lemma_zero_word();
        }
    }
}

impl Client {
    /// Takes the lock of directory entry `index` by compare-and-swap from
    /// the cached word. When the swap fails the cached directory is renewed
    /// and the swap tried again. With `is_try` the function gives up, and
    /// returns `false`, when it finds the entry locked; without, the entry
    /// must be free.
    pub fn lock_base(&mut self, pool: &mut MemPool, index: usize, is_try: bool) -> (r: bool)
        requires
            old(pool).dir.wf(),
            old(self).directory.wf(),
            old(self).cache_unlocked(),
            index < old(pool).size(),
            !is_try ==> entry_lock(old(pool).word(index as int)) == 0,
        ensures
            final(self).directory.wf(),
            final(self).cache_unlocked(),
            r == (entry_lock(old(pool).word(index as int)) == 0),
            word_changed(
                old(pool),
                final(pool),
                index as int,
                if r {
                    locked_word(old(pool).word(index as int))
                } else {
                    old(pool).word(index as int)
                },
            ),
            r ==> final(self).word(index as int) == old(pool).word(index as int),
            *final(self) == *old(self) || final(self).copied_from(old(pool)),
    {
        proof {
            crate::bits::lemma_size_bound(pool.depth());
        }
        let mut try_times: usize = 0;
        loop
            invariant
                pool.dir.wf(),
                index < pool.size() <= MAX_ENTRY_NUM,
                word_changed(old(pool), pool, index as int, old(pool).word(index as int)),
                !is_try ==> entry_lock(pool.word(index as int)) == 0,
                self.directory.wf(),
                self.cache_unlocked(),
                try_times <= 1,
                try_times == 0 ==> *self == *old(self),
                try_times == 1 ==> self.copied_from(old(pool)),
            decreases 1 - try_times,
        {
            let old_data = self.directory.get_entry_const(index).get_data();
            let ghost before = *pool;
            proof {
                crate::directory::lemma_lock_words(pool.word(index as int));
                assert(entry_lock(self.directory.entries@[index as int].data) == 0);
            }
            match pool.try_lock_entry(index, old_data) {
                Ok(_) => {
                    return true;
                },
                Err(new_data) => {
                    if is_try && RaceUtils::check_is_locked(new_data) {
                        return false;
                    }
                },
            }
            assert(try_times == 0);
            self.refresh_directory_without_wait(pool);
            proof {
                assert forall|i: int| 0 <= i < MAX_ENTRY_NUM implies entry_lock(
                    (#[trigger] self.directory.entries@[i]).data,
                ) == 0 by {
                    if i < pool.size() {
                        crate::directory::lemma_lock_words(pool.word(i));
                    } else {
                        crate::word::lemma_zero_word();
                    }
                }
            }
            try_times += 1;
            if is_try && try_times >= crate::config::MAX_TRY_LOCK_TIMES {
                return false;
            }
        }
    }

    /// Tries to take the lock of directory entry `index`; `false` if
    /// another holds it.
    pub fn try_lock(&mut self, pool: &mut MemPool, index: usize) -> (r: bool)
        requires
            old(pool).dir.wf(),
            old(self).directory.wf(),
            old(self).cache_unlocked(),
            index < old(pool).size(),
        ensures
            final(self).directory.wf(),
            final(self).cache_unlocked(),
            r == (entry_lock(old(pool).word(index as int)) == 0),
            word_changed(
                old(pool),
                final(pool),
                index as int,
                if r {
                    locked_word(old(pool).word(index as int))
                } else {
                    old(pool).word(index as int)
                },
            ),
            r ==> final(self).word(index as int) == old(pool).word(index as int),
            *final(self) == *old(self) || final(self).copied_from(old(pool)),
    {
        self.lock_base(pool, index, true)
    }

    /// Takes the lock of directory entry `index`, which must be free.
    pub fn lock(&mut self, pool: &mut MemPool, index: usize)
        requires
            old(pool).dir.wf(),
            old(self).directory.wf(),
            old(self).cache_unlocked(),
            index < old(pool).size(),
            entry_lock(old(pool).word(index as int)) == 0,
        ensures
            final(self).directory.wf(),
            final(self).cache_unlocked(),
            word_changed(
                old(pool),
                final(pool),
                index as int,
                locked_word(old(pool).word(index as int)),
            ),
            final(self).word(index as int) == old(pool).word(index as int),
            *final(self) == *old(self) || final(self).copied_from(old(pool)),
    {
        self.lock_base(pool, index, false);
    }

    /// Releases the lock of directory entry `index` by compare-and-swap
    /// from the cached word with the lock byte set. Nothing changes if the
    /// entry does not hold that word.
    pub fn unlock(&self, pool: &mut MemPool, index: usize)
        requires
            index < old(pool).dir.entries@.len(),
            index < self.directory.entries@.len(),
        ensures
            word_changed(
                old(pool),
                final(pool),
                index as int,
                if old(pool).word(index as int) == locked_word(self.word(index as int)) {
                    unlocked_word(self.word(index as int))
                } else {
                    old(pool).word(index as int)
                },
            ),
    {
        let locked_data = self.directory.get_entry_const(index).get_locked_data();
        proof {
            crate::directory::lemma_lock_words(self.word(index as int));
        }
        let _ = pool.unlock_entry(index, locked_data);
    }

    /// Takes the lock of every live entry of the cached directory, in
    /// order. All of them must be free.
    pub fn lock_all(&mut self, pool: &mut MemPool)
        requires
            old(pool).dir.wf(),
            old(pool).unlocked(),
            old(self).directory.wf(),
            old(self).cache_unlocked(),
            old(self).directory.global_depth <= old(pool).dir.global_depth,
        ensures
            same_but_words(old(pool), final(pool)),
            final(self).directory.wf(),
            final(self).cache_unlocked(),
            final(self).directory.global_depth <= final(pool).dir.global_depth,
            forall|i: int|
                0 <= i < MAX_ENTRY_NUM ==> (#[trigger] final(pool).dir.entries@[i]).data == if i
                    < final(self).size() {
                    locked_word(old(pool).word(i))
                } else {
                    old(pool).word(i)
                },
            forall|i: int|
                0 <= i < final(self).size() ==> (#[trigger] final(self).directory.entries@[i]).data
                    == old(pool).word(i),
            *final(self) == *old(self) || final(self).copied_from(old(pool)),
    {
        proof {
            crate::bits::lemma_size_bound(pool.depth());
            crate::bits::lemma_size_bound(self.directory.global_depth);
            crate::bits::lemma_size_monotone(self.directory.global_depth, pool.depth());
        }
        let mut now_index: usize = 0;
        while now_index < self.get_size()
            invariant
                same_but_words(old(pool), pool),
                pool.dir.wf(),
                old(pool).unlocked(),
                self.directory.wf(),
                self.cache_unlocked(),
                self.directory.global_depth <= pool.dir.global_depth,
                self.size() <= pool.size() <= MAX_ENTRY_NUM,
                now_index <= self.size(),
                forall|i: int|
                    0 <= i < MAX_ENTRY_NUM ==> (#[trigger] pool.dir.entries@[i]).data == if i
                        < now_index {
                        locked_word(old(pool).word(i))
                    } else {
                        old(pool).word(i)
                    },
                forall|i: int|
                    0 <= i < now_index ==> (#[trigger] self.directory.entries@[i]).data
                        == old(pool).word(i),
                *self == *old(self) || self.copied_from(old(pool)),
            decreases MAX_ENTRY_NUM - now_index,
        {
            let ghost before = *pool;
            let ghost cache = *self;
            proof {
                assert(pool.dir.entries@[now_index as int].data
                    == old(pool).word(now_index as int));
                assert(entry_lock(old(pool).dir.entries@[now_index as int].data) == 0);
            }
            self.lock(pool, now_index);
            proof {
                crate::bits::lemma_size_bound(self.directory.global_depth);
                crate::bits::lemma_size_monotone(self.directory.global_depth, pool.depth());
                if *self != cache {
                    assert forall|i: int| 0 <= i < MAX_ENTRY_NUM implies (
                    #[trigger] self.directory.entries@[i]).data == if i < old(pool).size() {
                        unlocked_word(old(pool).word(i))
                    } else {
                        0
                    } by {
                        if i < before.size() {
                            assert(before.dir.entries@[i].data == if i < now_index {
                                locked_word(old(pool).word(i))
                            } else {
                                old(pool).word(i)
                            });
                            crate::directory::lemma_lock_words(old(pool).word(i));
                        }
                    }
                    assert forall|i: int| 0 <= i < now_index + 1 implies (
                    #[trigger] self.directory.entries@[i]).data == old(pool).word(i) by {
                        assert(entry_lock(old(pool).dir.entries@[i].data) == 0);
                        crate::directory::lemma_lock_words(old(pool).word(i));
                    }
                } else {
                    assert forall|i: int| 0 <= i < now_index + 1 implies (
                    #[trigger] self.directory.entries@[i]).data == old(pool).word(i) by {
                        if i < now_index {
                            assert(cache.directory.entries@[i].data == old(pool).word(i));
                        }
                    }
                }
                assert forall|i: int| 0 <= i < MAX_ENTRY_NUM implies (
                #[trigger] pool.dir.entries@[i]).data == if i < now_index + 1 {
                    locked_word(old(pool).word(i))
                } else {
                    old(pool).word(i)
                } by {
                    assert(before.dir.entries@[i].data == if i < now_index {
                        locked_word(old(pool).word(i))
                    } else {
                        old(pool).word(i)
                    });
                }
            }
            now_index += 1;
        }
    }

    /// Releases the lock of every live entry of the cached directory that
    /// holds the cached word with the lock byte set.
    pub fn unlock_all(&self, pool: &mut MemPool)
        requires
            old(pool).dir.wf(),
            self.directory.wf(),
        ensures
            same_but_words(old(pool), final(pool)),
            forall|i: int|
                0 <= i < MAX_ENTRY_NUM ==> (#[trigger] final(pool).dir.entries@[i]).data == if i
                    < self.size() && old(pool).word(i) == locked_word(self.word(i)) {
                    unlocked_word(self.word(i))
                } else {
                    old(pool).word(i)
                },
    {
        let n = self.get_size();
        let mut now_index: usize = 0;
        while now_index < n
            invariant
                same_but_words(old(pool), pool),
                pool.dir.wf(),
                self.directory.wf(),
                n == self.size(),
                n <= MAX_ENTRY_NUM,
                now_index <= n,
                forall|i: int|
                    0 <= i < MAX_ENTRY_NUM ==> (#[trigger] pool.dir.entries@[i]).data == if i
                        < now_index && old(pool).word(i) == locked_word(self.word(i)) {
                        unlocked_word(self.word(i))
                    } else {
                        old(pool).word(i)
                    },
            decreases n - now_index,
        {
            let ghost before = *pool;
            self.unlock(pool, now_index);
            proof {
                assert forall|i: int| 0 <= i < MAX_ENTRY_NUM implies (
                #[trigger] pool.dir.entries@[i]).data == if i < now_index + 1 && old(pool).word(i)
                    == locked_word(self.word(i)) {
                    unlocked_word(self.word(i))
                } else {
                    old(pool).word(i)
                } by {
                    assert(before.dir.entries@[i].data == if i < now_index && old(pool).word(i)
                        == locked_word(self.word(i)) {
                        unlocked_word(self.word(i))
                    } else {
                        old(pool).word(i)
                    });
                }
            }
            now_index += 1;
        }
    }

    /// Takes the lock of every live directory entry whose index has the
    /// low `local_depth` bits `suffix`, in ascending order. All of them
    /// must be free.
    pub fn lock_suffix(&mut self, pool: &mut MemPool, suffix: u64, local_depth: u8)
        requires
            old(pool).dir.wf(),
            old(self).directory.wf(),
            old(self).copied_from(old(pool)),
            local_depth <= crate::config::MAX_DEPTH,
            suffix < old(pool).size(),
            in_suffix(suffix as int, suffix, local_depth),
            forall|i: int|
                0 <= i < old(pool).size() && in_suffix(i, suffix, local_depth) ==> entry_lock(
                    (#[trigger] old(pool).dir.entries@[i]).data,
                ) == 0,
        ensures
            final(pool).dir.wf(),
            final(self).directory.wf(),
            final(self).copied_from(final(pool)),
            suffix_locked(old(pool), final(pool), suffix, local_depth, 0),
    {
        proof {
            crate::bits::lemma_size_bound(pool.depth());
        }
        self.lock_suffix_from(pool, suffix, local_depth, suffix as usize);
        proof {
            assert forall|i: int| 0 <= i < suffix && i < pool.size() implies !in_suffix(
                i,
                suffix,
                local_depth,
            ) by {
                crate::bits::lemma_stride(i as u64, suffix, local_depth);
            }
        }
    }

    /// Takes the lock of every live directory entry whose index has the
    /// low `local_depth` bits `suffix`, but for entry `suffix` itself.
    pub fn lock_suffix_without_self(&mut self, pool: &mut MemPool, suffix: u64, local_depth: u8)
        requires
            old(pool).dir.wf(),
            old(self).directory.wf(),
            old(self).copied_from(old(pool)),
            local_depth <= crate::config::MAX_DEPTH,
            suffix < old(pool).size(),
            in_suffix(suffix as int, suffix, local_depth),
            forall|i: int|
                suffix < i < old(pool).size() && in_suffix(i, suffix, local_depth) ==> entry_lock(
                    (#[trigger] old(pool).dir.entries@[i]).data,
                ) == 0,
        ensures
            final(pool).dir.wf(),
            final(self).directory.wf(),
            final(self).copied_from(final(pool)),
            suffix_locked(old(pool), final(pool), suffix, local_depth, suffix + 1),
    {
        proof {
            crate::bits::lemma_size_bound(pool.depth());
            crate::bits::lemma_stride(suffix, suffix, local_depth);
        }
        let mut index = suffix as usize;
        index = RaceUtils::plus_bit_to_suffix(index as u64, local_depth + 1) as usize;
        proof {
            assert forall|i: int| suffix < i < index implies !in_suffix(i, suffix, local_depth) by {
                crate::bits::lemma_stride(suffix, i as u64, local_depth);
            }
        }
        if index < self.get_size() {
            self.lock_suffix_from(pool, suffix, local_depth, index);
        }
    }

    /// Takes the lock of every live directory entry whose index has the
    /// low `local_depth` bits `suffix`, from index `start` on, which has
    /// those bits itself.
    pub fn lock_suffix_from(
        &mut self,
        pool: &mut MemPool,
        suffix: u64,
        local_depth: u8,
        start: usize,
    )
        requires
            old(pool).dir.wf(),
            old(self).directory.wf(),
            old(self).copied_from(old(pool)),
            local_depth <= crate::config::MAX_DEPTH,
            start < old(pool).size(),
            in_suffix(start as int, suffix, local_depth),
            forall|i: int|
                start <= i < old(pool).size() && in_suffix(i, suffix, local_depth) ==> entry_lock(
                    (#[trigger] old(pool).dir.entries@[i]).data,
                ) == 0,
        ensures
            final(pool).dir.wf(),
            final(self).directory.wf(),
            final(self).copied_from(final(pool)),
            suffix_locked(old(pool), final(pool), suffix, local_depth, start as int),
    {
        proof {
            crate::bits::lemma_size_bound(pool.depth());
        }
        let mut index = start;
        while index < self.get_size()
            invariant
                pool.dir.wf(),
                self.directory.wf(),
                self.copied_from(pool),
                local_depth <= crate::config::MAX_DEPTH,
                pool.size() == old(pool).size(),
                pool.size() <= MAX_ENTRY_NUM,
                start <= index < 0x4_0000,
                index < pool.size() ==> in_suffix(index as int, suffix, local_depth),
                same_but_words(old(pool), pool),
                forall|i: int|
                    start <= i < old(pool).size() && in_suffix(i, suffix, local_depth)
                        ==> entry_lock((#[trigger] old(pool).dir.entries@[i]).data) == 0,
                forall|i: int|
                    0 <= i < MAX_ENTRY_NUM ==> (#[trigger] pool.dir.entries@[i]).data == if start
                        <= i < index && i < pool.size() && in_suffix(i, suffix, local_depth) {
                        locked_word(old(pool).word(i))
                    } else {
                        old(pool).word(i)
                    },
            decreases 0x4_0000 - index,
        {
            let ghost before = *pool;
            let ghost cache = *self;
            proof {
                assert(pool.dir.entries@[index as int].data == old(pool).word(index as int));
                assert(entry_lock(old(pool).dir.entries@[index as int].data) == 0);
                crate::bits::lemma_stride(index as u64, index as u64, local_depth);
                lemma_copied_unlocked(self, pool);
            }
            self.lock(pool, index);
            proof {
                let pa = *pool;
                assert forall|i: int| 0 <= i < before.size() implies unlocked_word(
                    (#[trigger] pa.dir.entries@[i]).data,
                ) == unlocked_word(before.word(i)) by {
                    crate::directory::lemma_lock_words(before.word(i));
                }
                lemma_copied_relock(&cache, &before, &pa);
                if *self != cache {
                    lemma_copied_relock(self, &before, &pa);
                }
            }
            let next = RaceUtils::plus_bit_to_suffix(index as u64, local_depth + 1) as usize;
            proof {
                assert forall|i: int| index < i < next implies !in_suffix(
                    i,
                    suffix,
                    local_depth,
                ) by {
                    crate::bits::lemma_stride(index as u64, i as u64, local_depth);
                }
                assert forall|i: int| 0 <= i < MAX_ENTRY_NUM implies (
                #[trigger] pool.dir.entries@[i]).data == if start <= i < next && i < pool.size()
                    && in_suffix(i, suffix, local_depth) {
                    locked_word(old(pool).word(i))
                } else {
                    old(pool).word(i)
                } by {
                    assert(before.dir.entries@[i].data == if start <= i < index && i
                        < pool.size() && in_suffix(i, suffix, local_depth) {
                        locked_word(old(pool).word(i))
                    } else {
                        old(pool).word(i)
                    });
                }
            }
            index = next;
        }
    }

    /// One of the two rounds in which a splitter takes its locks. The
    /// first round takes the locks of entries `old_index` and `new_index`;
    /// the second takes those of all other live entries that have the low
    /// `local_depth` bits of either.
    pub fn lock_suffix_helper(
        &mut self,
        pool: &mut MemPool,
        old_index: usize,
        new_index: usize,
        local_depth: u8,
        is_first: bool,
    )
        requires
            old(pool).dir.wf(),
            old(self).directory.wf(),
            old(self).copied_from(old(pool)),
            local_depth <= crate::config::MAX_DEPTH,
            old_index < old(pool).size(),
            new_index < old(pool).size(),
            old_index != new_index,
            in_suffix(old_index as int, old_index as u64, local_depth),
            in_suffix(new_index as int, new_index as u64, local_depth),
            forall|i: int|
                0 <= i < old(pool).size() && (if is_first {
                    i == old_index || i == new_index
                } else {
                    (i > old_index && in_suffix(i, old_index as u64, local_depth)) || (i
                        > new_index && in_suffix(i, new_index as u64, local_depth))
                }) ==> entry_lock((#[trigger] old(pool).dir.entries@[i]).data) == 0,
        ensures
            final(pool).dir.wf(),
            final(self).directory.wf(),
            final(self).copied_from(final(pool)),
            pair_locked(
                old(pool),
                final(pool),
                old_index as u64,
                new_index as u64,
                local_depth,
                is_first,
            ),
    {
        proof {
            crate::bits::lemma_size_bound(pool.depth());
        }
        if is_first {
            proof {
                lemma_copied_unlocked(self, pool);
                assert(entry_lock(pool.dir.entries@[old_index as int].data) == 0);
                assert(entry_lock(pool.dir.entries@[new_index as int].data) == 0);
            }
            let ghost q0 = *pool;
            let ghost c0 = *self;
            self.lock(pool, old_index);
            let ghost pa = *pool;
            proof {
                assert forall|i: int| 0 <= i < q0.size() implies unlocked_word(
                    (#[trigger] pa.dir.entries@[i]).data,
                ) == unlocked_word(q0.word(i)) by {
                    crate::directory::lemma_lock_words(q0.word(i));
                }
                lemma_copied_relock(&c0, &q0, &pa);
                if *self != c0 {
                    lemma_copied_relock(self, &q0, &pa);
                }
                lemma_copied_unlocked(self, &pa);
                assert(pa.dir.entries@[new_index as int].data
                    == q0.dir.entries@[new_index as int].data);
            }
            let ghost ca = *self;
            self.lock(pool, new_index);
            proof {
                let pb = *pool;
                assert forall|i: int| 0 <= i < pa.size() implies unlocked_word(
                    (#[trigger] pb.dir.entries@[i]).data,
                ) == unlocked_word(pa.word(i)) by {
                    crate::directory::lemma_lock_words(pa.word(i));
                }
                lemma_copied_relock(&ca, &pa, &pb);
                if *self != ca {
                    lemma_copied_relock(self, &pa, &pb);
                }
                assert forall|i: int| 0 <= i < q0.dir.entries@.len() implies (
                #[trigger] pb.dir.entries@[i]).data == if i < q0.size() && (i == old_index || i
                    == new_index) {
                    locked_word(q0.word(i))
                } else {
                    q0.word(i)
                } by {
                    assert(pa.dir.entries@[i].data == if i == old_index {
                        locked_word(q0.word(i))
                    } else {
                        q0.word(i)
                    });
                }
            }
        } else {
            let ghost q0 = *pool;
            proof {
                assert forall|i: int|
                    old_index < i < q0.size() && in_suffix(
                        i,
                        old_index as u64,
                        local_depth,
                    ) implies entry_lock((#[trigger] q0.dir.entries@[i]).data) == 0 by {}
            }
            self.lock_suffix_without_self(pool, old_index as u64, local_depth);
            let ghost pa = *pool;
            proof {
                assert forall|i: int|
                    new_index < i < pa.size() && in_suffix(
                        i,
                        new_index as u64,
                        local_depth,
                    ) implies entry_lock((#[trigger] pa.dir.entries@[i]).data) == 0 by {
                    assert(entry_lock(q0.dir.entries@[i].data) == 0);
                }
            }
            self.lock_suffix_without_self(pool, new_index as u64, local_depth);
            proof {
                let pb = *pool;
                assert forall|i: int| 0 <= i < q0.dir.entries@.len() implies (
                #[trigger] pb.dir.entries@[i]).data == if i < q0.size() && ((i > old_index
                    && in_suffix(i, old_index as u64, local_depth)) || (i > new_index
                    && in_suffix(i, new_index as u64, local_depth))) {
                    locked_word(q0.word(i))
                } else {
                    q0.word(i)
                } by {
                    assert(pa.dir.entries@[i].data == if old_index + 1 <= i < q0.size()
                        && in_suffix(i, old_index as u64, local_depth) {
                        locked_word(q0.word(i))
                    } else {
                        q0.word(i)
                    });
                }
            }
        }
    }

    /// Takes the locks a split needs: first those of entries `old_index`
    /// and `new_index`; then the directory is read again; then those of all
    /// other live entries that have the low `local_depth` bits of either.
    pub fn lock_suffix_and_flush(
        &mut self,
        pool: &mut MemPool,
        old_index: usize,
        new_index: usize,
        local_depth: u8,
    )
        requires
            old(pool).dir.wf(),
            old(pool).unlocked(),
            old(self).directory.wf(),
            old(self).copied_from(old(pool)),
            local_depth <= crate::config::MAX_DEPTH,
            old_index < old(pool).size(),
            new_index < old(pool).size(),
            old_index != new_index,
            in_suffix(old_index as int, old_index as u64, local_depth),
            in_suffix(new_index as int, new_index as u64, local_depth),
        ensures
            final(pool).dir.wf(),
            final(self).directory.wf(),
            final(self).copied_from(final(pool)),
            same_but_words(old(pool), final(pool)),
            forall|i: int|
                0 <= i < MAX_ENTRY_NUM ==> (#[trigger] final(pool).dir.entries@[i]).data == if i
                    < old(pool).size() && (in_suffix(i, old_index as u64, local_depth)
                    || in_suffix(i, new_index as u64, local_depth)) {
                    locked_word(old(pool).word(i))
                } else {
                    old(pool).word(i)
                },
    {
        let ghost q0 = *pool;
        proof {
            crate::bits::lemma_size_bound(pool.depth());
        }
        self.lock_suffix_helper(pool, old_index, new_index, local_depth, true);
        let ghost pa = *pool;
        self.refresh_directory_without_wait(pool);
        proof {
            assert forall|i: int|
                0 <= i < pa.size() && ((i > old_index && in_suffix(
                    i,
                    old_index as u64,
                    local_depth,
                )) || (i > new_index && in_suffix(i, new_index as u64, local_depth)))
                implies entry_lock((#[trigger] pa.dir.entries@[i]).data) == 0 by {
                crate::bits::lemma_stride(old_index as u64, new_index as u64, local_depth);
                crate::bits::lemma_stride(new_index as u64, old_index as u64, local_depth);
                assert(i != old_index && i != new_index);
                assert(entry_lock(q0.dir.entries@[i].data) == 0);
            }
        }
        self.lock_suffix_helper(pool, old_index, new_index, local_depth, false);
        proof {
            let pb = *pool;
            assert forall|i: int| 0 <= i < MAX_ENTRY_NUM implies (
            #[trigger] pb.dir.entries@[i]).data == if i < q0.size() && (in_suffix(
                i,
                old_index as u64,
                local_depth,
            ) || in_suffix(i, new_index as u64, local_depth)) {
                locked_word(q0.word(i))
            } else {
                q0.word(i)
            } by {
                assert(pa.dir.entries@[i].data == if i < q0.size() && (i == old_index || i
                    == new_index) {
                    locked_word(q0.word(i))
                } else {
                    q0.word(i)
                });
                crate::bits::lemma_stride(i as u64, old_index as u64, local_depth);
                crate::bits::lemma_stride(i as u64, new_index as u64, local_depth);
                crate::bits::lemma_stride(old_index as u64, new_index as u64, local_depth);
                crate::bits::lemma_stride(new_index as u64, old_index as u64, local_depth);
            }
        }
    }

    /// Releases the locks of the live directory entries from `suffix` on
    /// whose index has the low bits of `suffix` at the local depth that the
    /// cached entry `suffix` carries.
    pub fn unlock_suffix(&self, pool: &mut MemPool, suffix: u64)
        requires
            old(pool).dir.wf(),
            self.directory.wf(),
            suffix < self.size(),
            entry_depth(self.word(suffix as int)) <= crate::config::MAX_DEPTH,
        ensures
            same_but_words(old(pool), final(pool)),
            forall|i: int|
                0 <= i < MAX_ENTRY_NUM ==> (#[trigger] final(pool).dir.entries@[i]).data
                    == if suffix
                    <= i < self.size() && in_suffix(
                    i,
                    crate::word::low_bits(suffix, entry_depth(self.word(suffix as int))),
                    entry_depth(self.word(suffix as int)),
                ) && old(pool).word(i) == locked_word(self.word(i)) {
                    unlocked_word(self.word(i))
                } else {
                    old(pool).word(i)
                },
    {
        proof {
            crate::bits::lemma_size_bound(self.directory.global_depth);
        }
        let local_depth = self.directory.get_entry_const(suffix as usize).get_local_depth();
        let n = self.get_size();
        let mut index = suffix as usize;
        let ghost sfx = crate::word::low_bits(suffix, local_depth);
        while index < n
            invariant
                pool.dir.wf(),
                self.directory.wf(),
                n == self.size(),
                n <= MAX_ENTRY_NUM,
                local_depth <= crate::config::MAX_DEPTH,
                local_depth == entry_depth(self.word(suffix as int)),
                suffix <= index < 0x4_0000,
                same_but_words(old(pool), pool),
                forall|i: int|
                    0 <= i < MAX_ENTRY_NUM ==> (#[trigger] pool.dir.entries@[i]).data == if suffix
                        <= i < index && i < n && in_suffix(i, sfx, local_depth)
                            && old(pool).word(i) == locked_word(self.word(i)) {
                        unlocked_word(self.word(i))
                    } else {
                        old(pool).word(i)
                    },
                in_suffix(index as int, sfx, local_depth),
                sfx == crate::word::low_bits(suffix, local_depth),
            decreases 0x4_0000 - index,
        {
            let ghost before = *pool;
            self.unlock(pool, index);
            proof {
                crate::bits::lemma_stride(index as u64, index as u64, local_depth);
            }
            let next = RaceUtils::plus_bit_to_suffix(index as u64, local_depth + 1) as usize;
            proof {
                assert forall|i: int| 0 <= i < MAX_ENTRY_NUM implies (
                #[trigger] pool.dir.entries@[i]).data == if suffix <= i < next && i < n
                    && in_suffix(i, sfx, local_depth) && old(pool).word(i) == locked_word(
                    self.word(i),
                ) {
                    unlocked_word(self.word(i))
                } else {
                    old(pool).word(i)
                } by {
                    assert(before.dir.entries@[i].data == if suffix <= i < index && i < n
                        && in_suffix(i, sfx, local_depth) && old(pool).word(i) == locked_word(
                        self.word(i),
                    ) {
                        unlocked_word(self.word(i))
                    } else {
                        old(pool).word(i)
                    });
                    if index < i < next {
                        crate::bits::lemma_stride(index as u64, i as u64, local_depth);
                    }
                }
            }
            index = next;
        }
    }
}

} // verus!
