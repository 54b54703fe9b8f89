//! An index in one value: the storage side together with one client of
//! it.

use vstd::prelude::*;
use crate::client::{Client, RaceError};
use crate::config::{MAX_DEPTH, MAX_ENTRY_NUM, MAX_KV_SIZE, SUBTABLE_SIZE};
use crate::directory::ClientDirectory;
use crate::kvblock::record_len;
use crate::mempool::{table_depth, MemPool};
use crate::model::{delete_of, insert_of, search_of, update_of, Model};

verus! {

/// An index that owns its storage.
pub struct ComputePool {
    mempool: MemPool,
    client: Client,
}

impl ComputePool {
    /// The invariant of the index: that of its storage side, and the
    /// client's copy of the directory can be used against it. `new`
    /// establishes it and every operation keeps it.
    pub closed spec fn wf(&self) -> bool {
        self.mempool.wf() && self.client.wf(&self.mempool)
    }

    /// What the index holds.
    pub closed spec fn view(&self) -> Model {
        self.mempool@
    }

    /// Whether the allocator can hand out `n` more bytes.
    pub closed spec fn has_room(&self, n: nat) -> bool {
        self.mempool.memory_manager.can_allocate(n)
    }

    /// Whether both combined buckets of `key` are full in a subtable that
    /// is as deep as the directory can get.
    pub closed spec fn at_capacity(&self, key: Seq<char>) -> bool {
        table_depth(self.mempool.table_of(key)) >= MAX_DEPTH && self.mempool.full_for(key)
    }

    /// Whether both combined buckets of `key` are full.
    pub closed spec fn crowded(&self, key: Seq<char>) -> bool {
        self.mempool.full_for(key)
    }

    /// The global depth of the directory.
    pub closed spec fn depth(&self) -> int {
        self.mempool.dir.global_depth as int
    }

    /// The local depth of directory entry `i`.
    pub closed spec fn local_depth(&self, i: int) -> u8 {
        self.mempool.depth_at(i)
    }

    /// Number of live directory entries.
    pub closed spec fn size(&self) -> int {
        self.mempool.size()
    }

    /// Number of live directory entries in the client's copy of the
    /// directory, which may lag behind.
    pub closed spec fn known_size(&self) -> int {
        self.client.size()
    }

    /// The storage side.
    pub closed spec fn storage(&self) -> MemPool {
        self.mempool
    }

    /// The client's copy of the directory.
    pub closed spec fn directory(&self) -> ClientDirectory {
        self.client.directory
    }

    /// An empty index.
    pub fn new() -> (pool: ComputePool)
        ensures
            pool.wf(),
            pool@ == Map::<Seq<char>, Seq<char>>::empty(),
            pool.depth() == 1,
            forall|n: nat| 0 < n <= MAX_KV_SIZE ==> #[trigger] pool.has_room(n),
            forall|k: Seq<char>| !#[trigger] pool.crowded(k),
    {
        let mempool = MemPool::new();
        let client = Client::new(&mempool);
        ComputePool { mempool, client }
    }

    /// Looks `key` up.
    pub fn search(&mut self, key: &String) -> (r: Option<String>)
        requires
            old(self).wf(),
        ensures
            final(self).wf(),
            final(self)@ == old(self)@,
            match r {
                Some(v) => search_of(old(self)@, key@) == Some(v@),
                None => search_of(old(self)@, key@) is None,
            },
    {
        self.client.search(&self.mempool, key)
    }

    /// Adds `key` with the value `val`: `Ok(true)` if it was added,
    /// `Ok(false)` if the index held the key already. An error leaves what
    /// the index holds unchanged.
    pub fn insert(&mut self, key: &String, val: &String) -> (r: Result<bool, RaceError>)
        requires
            old(self).wf(),
        ensures
            final(self).wf(),
            r matches Ok(added) ==> (final(self)@, added) == insert_of(old(self)@, key@, val@),
            r is Err ==> final(self)@ == old(self)@,
            r == Err::<bool, RaceError>(RaceError::InvalidSize) <==> record_len(key@, val@)
                > MAX_KV_SIZE,
            record_len(key@, val@) <= MAX_KV_SIZE && !old(self).has_room(record_len(key@, val@))
                ==> r == Err::<bool, RaceError>(RaceError::AllocatorOom),
            r == Err::<bool, RaceError>(RaceError::CapacityExceeded) ==> !old(self)@.contains_key(
                key@,
            ) && final(self).at_capacity(key@),
            record_len(key@, val@) <= MAX_KV_SIZE && old(self).has_room(record_len(key@, val@))
                && (old(self)@.contains_key(key@) || !old(self).crowded(key@)) ==> r is Ok,
    {
        self.client.insert(&mut self.mempool, key, val)
    }

    /// Gives `key` the value `val` if the index holds the key: `Ok(true)`
    /// if it did, `Ok(false)` if the key is not in the index. An error
    /// leaves what the index holds unchanged.
    pub fn update(&mut self, key: &String, val: &String) -> (r: Result<bool, RaceError>)
        requires
            old(self).wf(),
        ensures
            final(self).wf(),
            r matches Ok(found) ==> (final(self)@, found) == update_of(old(self)@, key@, val@),
            r is Err ==> final(self)@ == old(self)@,
            r == Err::<bool, RaceError>(RaceError::InvalidSize) <==> record_len(key@, val@)
                > MAX_KV_SIZE,
            r == Err::<bool, RaceError>(RaceError::AllocatorOom) <==> record_len(key@, val@)
                <= MAX_KV_SIZE && !old(self).has_room(record_len(key@, val@)),
            r != Err::<bool, RaceError>(RaceError::CapacityExceeded),
    {
        self.client.update(&mut self.mempool, key, val)
    }

    /// Removes `key`; tells whether the index held it.
    pub fn delete(&mut self, key: &String) -> (r: bool)
        requires
            old(self).wf(),
        ensures
            final(self).wf(),
            (final(self)@, r) == delete_of(old(self)@, key@),
    {
        self.client.delete(&mut self.mempool, key)
    }

    /// Splits the subtable of directory entry `rehash_index`, if there is
    /// such an entry. What the index holds stays.
    pub fn pub_rehash(&mut self, rehash_index: usize) -> (r: Result<(), RaceError>)
        requires
            old(self).wf(),
        ensures
            final(self).wf(),
            final(self)@ == old(self)@,
            rehash_index >= old(self).size() ==> r is Ok && final(self).depth()
                == old(self).depth(),
            rehash_index < old(self).size() ==> {
                &&& r == Err::<(), RaceError>(RaceError::CapacityExceeded)
                    <==> old(self).local_depth(rehash_index as int) >= MAX_DEPTH
                &&& r == Err::<(), RaceError>(RaceError::AllocatorOom) <==> old(self).local_depth(
                    rehash_index as int,
                ) < MAX_DEPTH && !old(self).has_room(SUBTABLE_SIZE as nat)
            },
            r != Err::<(), RaceError>(RaceError::InvalidSize),
            final(self).depth() >= old(self).depth(),
            r is Ok && rehash_index < old(self).size() ==> {
                &&& final(self).local_depth(rehash_index as int) == old(self).local_depth(
                    rehash_index as int,
                ) + 1
                &&& final(self).depth() == if old(self).local_depth(rehash_index as int)
                    == old(self).depth() {
                    old(self).depth() + 1
                } else {
                    old(self).depth()
                }
            },
    {
        proof {
            crate::bits::lemma_size_bound(self.mempool.depth());
        }
        if rehash_index
            >= crate::utils::RaceUtils::depth_to_size(self.mempool.get_global_length()) {
            return Ok(());
        }
        let ghost before = self.mempool;
        let r = self.client.rehash(&mut self.mempool, rehash_index);
        proof {
            if r is Ok {
                let after = self.mempool;
                let ld = before.depth_at(rehash_index as int);
                crate::bits::lemma_size_bound(after.depth());
                crate::bits::lemma_size_monotone(before.depth(), after.depth());
                crate::bits::lemma_low_bits_nested(rehash_index as u64, ld, ld);
                assert(crate::split::split_directory(&before, &after, rehash_index as int));
                assert(after.depth_at(rehash_index as int) == ld + 1);
            }
        }
        r
    }

    /// Number of live entries of the directory as the client knows it.
    pub fn pub_get_size(&self) -> (r: usize)
        requires
            self.wf(),
        ensures
            r == self.known_size(),
            1 <= r <= MAX_ENTRY_NUM,
    {
        self.client.pub_get_size()
    }

    /// The storage side.
    pub fn get_mempool(&self) -> (m: &MemPool)
        requires
            self.wf(),
        ensures
            *m == self.storage(),
            m@ == self@,
            m.wf(),
    {
        &self.mempool
    }

    /// The client's copy of the directory.
    pub fn get_directory(&self) -> (d: &ClientDirectory)
        requires
            self.wf(),
        ensures
            *d == self.directory(),
            d.wf(),
    {
        self.client.get_directory()
    }
}

} // verus!
