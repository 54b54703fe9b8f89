//! Directory entries and directories: the authoritative one on the storage
//! side and the copies that clients keep.

use vstd::prelude::*;
use std::collections::HashMap;
use crate::config::{BUCKET_GROUP_NUM, MAX_DEPTH, MAX_ENTRY_NUM, SUBTABLE_SIZE};
use crate::mm::MemoryManager;
use crate::subtable::{
    header_written, same_except, slot_written, store_cas, store_set_header, CombinedBucket, SlotPos,
    Subtable,
};
use crate::utils::RaceUtils;
use crate::word::{
    low48, read_low48, read_second_byte, read_top_byte, second_byte, top_byte, with_low48,
    with_second_byte, with_top_byte, write_low48, write_second_byte, write_top_byte,
};

verus! {

/// The lock byte of an entry word.
pub open spec fn entry_lock(w: u64) -> u8 {
    top_byte(w)
}

/// The local depth of an entry word.
pub open spec fn entry_depth(w: u64) -> u8 {
    second_byte(w)
}

/// The subtable pointer of an entry word.
pub open spec fn entry_ptr(w: u64) -> u64 {
    low48(w)
}

/// The entry word with its lock byte set to one.
pub open spec fn locked_word(w: u64) -> u64 {
    with_top_byte(w, 1)
}

/// The entry word with its lock byte cleared.
pub open spec fn unlocked_word(w: u64) -> u64 {
    with_top_byte(w, 0)
}

/// Number of live entries at a global depth.
pub open spec fn dir_size(depth: int) -> int {
    (1u64 << (depth as u64)) as int
}

/// What setting and clearing the lock byte does to the fields of an
/// entry word.
pub proof fn lemma_lock_words(w: u64)
    ensures
        entry_lock(locked_word(w)) == 1,
        entry_depth(locked_word(w)) == entry_depth(w),
        entry_ptr(locked_word(w)) == entry_ptr(w),
        entry_lock(unlocked_word(w)) == 0,
        entry_depth(unlocked_word(w)) == entry_depth(w),
        entry_ptr(unlocked_word(w)) == entry_ptr(w),
        unlocked_word(locked_word(w)) == unlocked_word(w),
        locked_word(unlocked_word(w)) == locked_word(w),
        entry_lock(w) == 0 ==> unlocked_word(w) == w,
        entry_lock(w) == 1 ==> locked_word(w) == w,
        locked_word(w) != 0,
{
    crate::word::lemma_with_top_byte(w, 1);
    crate::word::lemma_with_top_byte(w, 0);
    crate::word::lemma_with_top_byte(locked_word(w), 0);
    crate::word::lemma_with_top_byte(unlocked_word(w), 1);
    crate::word::lemma_word_halves(unlocked_word(locked_word(w)), unlocked_word(w));
    crate::word::lemma_word_halves(locked_word(unlocked_word(w)), locked_word(w));
    if entry_lock(w) == 0 {
        crate::word::lemma_word_halves(unlocked_word(w), w);
    }
    if entry_lock(w) == 1 {
        crate::word::lemma_word_halves(locked_word(w), w);
    }
    crate::word::lemma_zero_word();
}

/// An entry of a client's copy of the directory.
#[derive(Clone, Copy)]
pub struct ClientEntry {
    pub data: u64,
}

impl ClientEntry {
    /// The lock byte.
    pub open spec fn lock(&self) -> u8 {
        entry_lock(self.data)
    }

    /// The local depth field.
    pub open spec fn local_depth(&self) -> u8 {
        entry_depth(self.data)
    }

    /// The subtable pointer field.
    pub open spec fn ptr(&self) -> u64 {
        entry_ptr(self.data)
    }

    /// The whole word.
    pub fn get_data(&self) -> (r: u64)
        ensures
            r == self.data,
    {
        self.data
    }

    /// Replaces the whole word.
    pub fn set_data(&mut self, data: u64)
        ensures
            final(self).data == data,
    {
        self.data = data;
    }

    /// Sets pointer and local depth and keeps the lock byte.
    pub fn set_subtable_and_localdepth(&mut self, subtable: u64, local_depth: u8)
        ensures
            final(self).data == with_second_byte(with_low48(old(self).data, subtable), local_depth),
            final(self).lock() == old(self).lock(),
            final(self).local_depth() == local_depth,
            final(self).ptr() == low48(subtable),
    {
        self.set_subtable_pointer(subtable);
        self.set_local_depth(local_depth);
    }

    /// Clears the lock byte.
    pub fn clear_lock_status(&mut self)
        ensures
            final(self).data == unlocked_word(old(self).data),
            final(self).lock() == 0,
            final(self).local_depth() == old(self).local_depth(),
            final(self).ptr() == old(self).ptr(),
    {
        self.data = write_top_byte(self.data, 0);
    }

    /// The word of this entry with the lock byte set to one.
    pub fn get_locked_data(&self) -> (r: u64)
        ensures
            r == locked_word(self.data),
            entry_lock(r) == 1,
            entry_depth(r) == self.local_depth(),
            entry_ptr(r) == self.ptr(),
    {
        write_top_byte(self.data, 1)
    }

    /// The local depth field.
    pub fn get_local_depth(&self) -> (r: u8)
        ensures
            r == self.local_depth(),
    {
        read_second_byte(self.data)
    }

    /// The subtable pointer field.
    pub fn get_subtable_pointer(&self) -> (r: u64)
        ensures
            r == self.ptr(),
    {
        read_low48(self.data)
    }

    /// Sets the local depth field and keeps the others.
    pub fn set_local_depth(&mut self, depth: u8)
        ensures
            final(self).data == with_second_byte(old(self).data, depth),
            final(self).lock() == old(self).lock(),
            final(self).local_depth() == depth,
            final(self).ptr() == old(self).ptr(),
    {
        self.data = write_second_byte(self.data, depth);
    }

    /// Stores the low 48 bits of `subtable` as the pointer.
    pub fn set_subtable_pointer(&mut self, subtable: u64)
        ensures
            final(self).data == with_low48(old(self).data, subtable),
            final(self).lock() == old(self).lock(),
            final(self).local_depth() == old(self).local_depth(),
            final(self).ptr() == low48(subtable),
    {
        self.data = write_low48(self.data, subtable);
    }

    /// Whether the lock byte is set.
    pub fn check_is_locked(&self) -> (r: bool)
        ensures
            r == (self.lock() != 0),
    {
        RaceUtils::check_is_locked(self.data)
    }

    /// Snapshots of the two combined buckets for bucket groups
    /// `bucket_group1` and `bucket_group2` of the subtable this entry
    /// points to, read from `subtables`. `None` if a group index is out of
    /// range or no subtable is stored at the pointer.
    pub fn get_combined_buckets(
        &self,
        subtables: &HashMap<u64, Subtable>,
        bucket_group1: usize,
        bucket_group2: usize,
    ) -> (r: Option<[CombinedBucket; 2]>)
        requires
            subtables@.contains_key(self.ptr()) ==> subtables@[self.ptr()].wf(),
        ensures
            r is Some <==> bucket_group1 < BUCKET_GROUP_NUM && bucket_group2 < BUCKET_GROUP_NUM
                && subtables@.contains_key(self.ptr()),
            r matches Some(cbs) ==> subtables@[self.ptr()].snapshot(
                self.ptr(),
                bucket_group1,
                bucket_group2,
                cbs,
            ),
    {
        let p = self.get_subtable_pointer();
        match subtables.get(&p) {
            Some(t) => t.get_by_bucket_group_ids(p, bucket_group1, bucket_group2),
            None => None,
        }
    }
}

/// A client's copy of the directory.
pub struct ClientDirectory {
    pub global_depth: u8,
    pub entries: Vec<ClientEntry>,
}

impl ClientDirectory {
    /// The copy has the directory's capacity and a depth within it.
    pub open spec fn wf(&self) -> bool {
        &&& self.entries@.len() == MAX_ENTRY_NUM
        &&& self.global_depth <= MAX_DEPTH
    }

    /// Number of live entries.
    pub open spec fn size(&self) -> int {
        dir_size(self.global_depth as int)
    }

    /// A directory of depth zero whose entries are all zero.
    pub fn new() -> (d: ClientDirectory)
        ensures
            d.wf(),
            d.global_depth == 0,
            forall|i: int| 0 <= i < MAX_ENTRY_NUM ==> (#[trigger] d.entries@[i]).data == 0,
    {
        let mut entries: Vec<ClientEntry> = Vec::new();
        let mut i: usize = 0;
        while i < MAX_ENTRY_NUM
            invariant
                i <= MAX_ENTRY_NUM,
                entries@.len() == i,
                forall|k: int| 0 <= k < i ==> (#[trigger] entries@[k]).data == 0,
            decreases MAX_ENTRY_NUM - i,
        {
            entries.push(ClientEntry { data: 0 });
            i += 1;
        }
        ClientDirectory { global_depth: 0, entries }
    }

    /// Entry `index`, to be changed in place.
    pub fn get_entry(&mut self, index: usize) -> (r: &mut ClientEntry)
        requires
            index < old(self).entries@.len(),
        ensures
            *r == old(self).entries@[index as int],
            final(self).entries@ == old(self).entries@.update(index as int, *final(r)),
            final(self).global_depth == old(self).global_depth,
    {
        &mut self.entries[index]
    }

    /// Entry `index`.
    pub fn get_entry_const(&self, index: usize) -> (r: &ClientEntry)
        requires
            index < self.entries@.len(),
        ensures
            *r == self.entries@[index as int],
    {
        &self.entries[index]
    }
}

/// Allocates a subtable, stores an empty table with the header for
/// `local_depth` and `suffix` at its address, and returns the address.
/// `None`, with nothing changed, when the allocator has no room.
pub fn store_new_subtable(
    memory_manager: &mut MemoryManager,
    subtables: &mut HashMap<u64, Subtable>,
    local_depth: u8,
    suffix: u64,
) -> (r: Option<u64>)
    requires
        old(memory_manager).wf(),
    ensures
        final(memory_manager).wf(),
        r is Some <==> old(memory_manager).can_allocate(SUBTABLE_SIZE as nat),
        old(memory_manager).next_page <= final(memory_manager).next_page
            <= old(memory_manager).next_page + SUBTABLE_SIZE,
        r is None ==> final(subtables)@ == old(subtables)@ && *final(memory_manager)
            == *old(memory_manager),
        r matches Some(p) ==> {
            &&& final(memory_manager).allocated_from(old(memory_manager), p, SUBTABLE_SIZE as nat)
            &&& final(subtables)@ == old(subtables)@.insert(p, final(subtables)@[p])
            &&& final(subtables)@[p].wf()
            &&& final(subtables)@[p].all_empty()
            &&& final(subtables)@[p].uniform_header(crate::subtable::header_word(local_depth,
                suffix))
        },
{
    assert(crate::mm::pages_for(SUBTABLE_SIZE as nat) * crate::config::PAGE_SIZE == SUBTABLE_SIZE);
    match memory_manager.malloc(SUBTABLE_SIZE) {
        Some(p) => {
            let t = Subtable::new(local_depth, suffix);
            subtables.insert(p, t);
            assert(final(subtables)@ =~= old(subtables)@.insert(p, final(subtables)@[p]));
            Some(p)
        },
        None => None,
    }
}

/// An entry of the authoritative directory.
#[derive(Clone, Copy)]
pub struct MemPoolEntry {
    pub data: u64,
}

impl MemPoolEntry {
    /// The lock byte.
    pub open spec fn lock(&self) -> u8 {
        entry_lock(self.data)
    }

    /// The local depth field.
    pub open spec fn local_depth(&self) -> u8 {
        entry_depth(self.data)
    }

    /// The subtable pointer field.
    pub open spec fn ptr(&self) -> u64 {
        entry_ptr(self.data)
    }

    /// Points the entry at a new, empty subtable with the header for
    /// `local_depth` and `suffix`, and sets its local depth. Fails, with
    /// nothing changed, when the allocator has no room.
    pub fn init(
        &mut self,
        memory_manager: &mut MemoryManager,
        subtables: &mut HashMap<u64, Subtable>,
        local_depth: u8,
        suffix: u64,
    ) -> (ok: bool)
        requires
            old(memory_manager).wf(),
        ensures
            final(memory_manager).wf(),
            ok == old(memory_manager).can_allocate(SUBTABLE_SIZE as nat),
            old(memory_manager).next_page <= final(memory_manager).next_page
                <= old(memory_manager).next_page + SUBTABLE_SIZE,
            !ok ==> *final(self) == *old(self) && final(subtables)@ == old(subtables)@
                && final(memory_manager).allocated() == old(memory_manager).allocated()
                && final(memory_manager).next_page
                == old(memory_manager).next_page,
            ok ==> {
                let p = final(self).ptr();
                &&& final(self).lock() == old(self).lock()
                &&& final(self).local_depth() == local_depth
                &&& final(memory_manager).allocated_from(old(memory_manager), p,
                    SUBTABLE_SIZE as nat)
                &&& final(subtables)@ == old(subtables)@.insert(p, final(subtables)@[p])
                &&& final(subtables)@[p].wf()
                &&& final(subtables)@[p].all_empty()
                &&& final(subtables)@[p].uniform_header(
                    crate::subtable::header_word(local_depth, suffix),
                )
            },
    {
        if self.new_subtable(memory_manager, subtables, local_depth, suffix) {
            self.set_local_depth(local_depth);
            true
        } else {
            false
        }
    }

    /// Points the entry at a new, empty subtable with the header for
    /// `local_depth` and `suffix`. Fails, with nothing changed, when the
    /// allocator has no room.
    pub fn new_subtable(
        &mut self,
        memory_manager: &mut MemoryManager,
        subtables: &mut HashMap<u64, Subtable>,
        local_depth: u8,
        suffix: u64,
    ) -> (ok: bool)
        requires
            old(memory_manager).wf(),
        ensures
            final(memory_manager).wf(),
            ok == old(memory_manager).can_allocate(SUBTABLE_SIZE as nat),
            old(memory_manager).next_page <= final(memory_manager).next_page
                <= old(memory_manager).next_page + SUBTABLE_SIZE,
            !ok ==> *final(self) == *old(self) && final(subtables)@ == old(subtables)@
                && final(memory_manager).allocated() == old(memory_manager).allocated()
                && final(memory_manager).next_page
                == old(memory_manager).next_page,
            ok ==> {
                let p = final(self).ptr();
                &&& final(self).lock() == old(self).lock()
                &&& final(self).local_depth() == old(self).local_depth()
                &&& final(memory_manager).allocated_from(old(memory_manager), p,
                    SUBTABLE_SIZE as nat)
                &&& final(subtables)@ == old(subtables)@.insert(p, final(subtables)@[p])
                &&& final(subtables)@[p].wf()
                &&& final(subtables)@[p].all_empty()
                &&& final(subtables)@[p].uniform_header(
                    crate::subtable::header_word(local_depth, suffix),
                )
            },
    {
        match store_new_subtable(memory_manager, subtables, local_depth, suffix) {
            Some(p) => {
                self.set_subtable_pointer(p);
                proof {
                    crate::word::lemma_with_low48(old(self).data, p);
                }
                true
            },
            None => false,
        }
    }

    /// Takes pointer and local depth from `entry` and keeps the lock byte.
    pub fn copy_from(&mut self, entry: &MemPoolEntry)
        ensures
            final(self).lock() == old(self).lock(),
            final(self).local_depth() == entry.local_depth(),
            final(self).ptr() == entry.ptr(),
    {
        self.set_subtable_and_localdepth(entry.get_subtable_pointer(), entry.get_local_depth());
        proof {
            crate::word::lemma_with_low48(old(self).data, entry.ptr());
            crate::word::lemma_with_low48(entry.data, entry.data);
        }
    }

    /// Compare-and-swap on a slot of the subtable this entry points to.
    pub fn set(
        &self,
        subtables: &mut HashMap<u64, Subtable>,
        bucket_group: usize,
        bucket: usize,
        slot: usize,
        data: u64,
        expected: u64,
    ) -> (ok: bool)
        requires
            bucket_group < BUCKET_GROUP_NUM,
            bucket < crate::config::BUCKET_NUM,
            slot < crate::config::SLOT_NUM,
            old(subtables)@.contains_key(self.ptr()) ==> old(subtables)@[self.ptr()].wf(),
        ensures
            ok == (old(subtables)@.contains_key(self.ptr()) && old(subtables)@[self.ptr()].slot_at(
                bucket_group as int,
                bucket as int,
                slot as int,
            ).data == expected),
            !ok ==> final(subtables)@ == old(subtables)@,
            ok ==> same_except(old(subtables)@, final(subtables)@, self.ptr()) && slot_written(
                old(subtables)@[self.ptr()],
                final(subtables)@[self.ptr()],
                bucket_group as int,
                bucket as int,
                slot as int,
                data,
            ),
    {
        let pos = SlotPos {
            subtable: self.get_subtable_pointer(),
            bucket_group,
            bucket,
            header: 0,
            slot,
        };
        store_cas(subtables, &pos, data, expected)
    }

    /// Snapshots of the two combined buckets for groups `bucket1` and
    /// `bucket2` of the subtable this entry points to.
    pub fn get_by_bucket_ids(
        &self,
        subtables: &HashMap<u64, Subtable>,
        bucket1: usize,
        bucket2: usize,
    ) -> (r: Option<[CombinedBucket; 2]>)
        requires
            subtables@.contains_key(self.ptr()) ==> subtables@[self.ptr()].wf(),
        ensures
            r is Some <==> bucket1 < BUCKET_GROUP_NUM && bucket2 < BUCKET_GROUP_NUM
                && subtables@.contains_key(self.ptr()),
            r matches Some(cbs) ==> subtables@[self.ptr()].snapshot(
                self.ptr(),
                bucket1,
                bucket2,
                cbs,
            ),
    {
        let p = self.get_subtable_pointer();
        match subtables.get(&p) {
            Some(t) => t.get_by_bucket_group_ids(p, bucket1, bucket2),
            None => None,
        }
    }

    /// Sets pointer and local depth and keeps the lock byte.
    pub fn set_subtable_and_localdepth(&mut self, subtable: u64, local_depth: u8)
        ensures
            final(self).data == with_second_byte(with_low48(old(self).data, subtable), local_depth),
            final(self).lock() == old(self).lock(),
            final(self).local_depth() == local_depth,
            final(self).ptr() == low48(subtable),
    {
        self.set_subtable_pointer(subtable);
        self.set_local_depth(local_depth);
    }

    /// Points the entry at `subtable`, writes the header for `local_depth`
    /// and `suffix` into that subtable, and sets the entry's local depth.
    /// Tells whether a table is stored at `subtable`; if none is, only the
    /// entry changes.
    pub fn set_subtable_and_header_and_depth(
        &mut self,
        subtables: &mut HashMap<u64, Subtable>,
        subtable: u64,
        local_depth: u8,
        suffix: u64,
    ) -> (ok: bool)
        requires
            old(subtables)@.contains_key(low48(subtable)) ==> old(subtables)@[low48(subtable)].wf(),
        ensures
            final(self).lock() == old(self).lock(),
            final(self).local_depth() == local_depth,
            final(self).ptr() == low48(subtable),
            ok == old(subtables)@.contains_key(low48(subtable)),
            !ok ==> final(subtables)@ == old(subtables)@,
            ok ==> same_except(old(subtables)@, final(subtables)@, low48(subtable))
                && header_written(
                old(subtables)@[low48(subtable)],
                final(subtables)@[low48(subtable)],
                local_depth,
                suffix,
            ),
    {
        self.set_subtable_pointer(subtable);
        self.set_header_and_localdepth(subtables, local_depth, suffix)
    }

    /// Writes the header for `local_depth` and `suffix` into the subtable
    /// this entry points to, and sets the entry's local depth.
    pub fn set_header_and_localdepth(
        &mut self,
        subtables: &mut HashMap<u64, Subtable>,
        local_depth: u8,
        suffix: u64,
    ) -> (ok: bool)
        requires
            old(subtables)@.contains_key(old(self).ptr()) ==> old(subtables)@[old(self).ptr()].wf(),
        ensures
            final(self).lock() == old(self).lock(),
            final(self).local_depth() == local_depth,
            final(self).ptr() == old(self).ptr(),
            ok == old(subtables)@.contains_key(old(self).ptr()),
            !ok ==> final(subtables)@ == old(subtables)@,
            ok ==> same_except(old(subtables)@, final(subtables)@, old(self).ptr())
                && header_written(
                old(subtables)@[old(self).ptr()],
                final(subtables)@[old(self).ptr()],
                local_depth,
                suffix,
            ),
    {
        let ok = self.set_header(subtables, local_depth, suffix);
        self.set_local_depth(local_depth);
        ok
    }

    /// Writes the header for `local_depth` and `suffix` into the subtable
    /// this entry points to.
    pub fn set_header(
        &self,
        subtables: &mut HashMap<u64, Subtable>,
        local_depth: u8,
        suffix: u64,
    ) -> (ok: bool)
        requires
            old(subtables)@.contains_key(self.ptr()) ==> old(subtables)@[self.ptr()].wf(),
        ensures
            ok == old(subtables)@.contains_key(self.ptr()),
            !ok ==> final(subtables)@ == old(subtables)@,
            ok ==> same_except(old(subtables)@, final(subtables)@, self.ptr()) && header_written(
                old(subtables)@[self.ptr()],
                final(subtables)@[self.ptr()],
                local_depth,
                suffix,
            ),
    {
        store_set_header(subtables, self.get_subtable_pointer(), local_depth, suffix)
    }

    /// The lock byte.
    pub fn get_lock(&self) -> (r: u8)
        ensures
            r == self.lock(),
    {
        read_top_byte(self.data)
    }

    /// The word `data` with its lock byte replaced by `lock`.
    pub fn set_lock_data(data: u64, lock: u8) -> (r: u64)
        ensures
            r == with_top_byte(data, lock),
            entry_lock(r) == lock,
            entry_depth(r) == entry_depth(data),
            entry_ptr(r) == entry_ptr(data),
    {
        write_top_byte(data, lock)
    }

    /// The local depth field.
    pub fn get_local_depth(&self) -> (r: u8)
        ensures
            r == self.local_depth(),
    {
        read_second_byte(self.data)
    }

    /// Sets the local depth field and keeps the others.
    pub fn set_local_depth(&mut self, depth: u8)
        ensures
            final(self).data == with_second_byte(old(self).data, depth),
            final(self).lock() == old(self).lock(),
            final(self).local_depth() == depth,
            final(self).ptr() == old(self).ptr(),
    {
        self.data = write_second_byte(self.data, depth);
    }

    /// The subtable pointer field.
    pub fn get_subtable_pointer(&self) -> (r: u64)
        ensures
            r == self.ptr(),
    {
        read_low48(self.data)
    }

    /// Stores the low 48 bits of `subtable` as the pointer.
    pub fn set_subtable_pointer(&mut self, subtable: u64)
        ensures
            final(self).data == with_low48(old(self).data, subtable),
            final(self).lock() == old(self).lock(),
            final(self).local_depth() == old(self).local_depth(),
            final(self).ptr() == low48(subtable),
    {
        self.data = write_low48(self.data, subtable);
    }

    /// Compare-and-swap from `old_data` to `old_data` with lock byte
    /// `lock`. `Ok` carries the word found when the swap was made, `Err`
    /// the word found when it was not.
    pub fn try_lock(&mut self, old_data: u64, lock: u8) -> (r: Result<u64, u64>)
        ensures
            r is Ok <==> old(self).data == old_data,
            r matches Ok(v) ==> v == old_data && final(self).data == with_top_byte(old_data, lock),
            r matches Err(v) ==> v == old(self).data && final(self).data == old(self).data,
    {
        let new_data = MemPoolEntry::set_lock_data(old_data, lock);
        if self.data == old_data {
            self.data = new_data;
            Ok(old_data)
        } else {
            Err(self.data)
        }
    }

    /// Compare-and-swap from `old_data` to `old_data` with the lock byte
    /// cleared.
    pub fn try_unlock(&mut self, old_data: u64) -> (r: Result<u64, u64>)
        ensures
            r is Ok <==> old(self).data == old_data,
            r matches Ok(v) ==> v == old_data && final(self).data == unlocked_word(old_data),
            r matches Err(v) ==> v == old(self).data && final(self).data == old(self).data,
    {
        self.try_lock(old_data, 0)
    }

    /// Compare-and-swap from zero to `data`.
    pub fn initial(&mut self, data: u64) -> (ok: bool)
        ensures
            ok == (old(self).data == 0),
            final(self).data == if ok {
                data
            } else {
                old(self).data
            },
    {
        self.update(0, data)
    }

    /// Compare-and-swap from `old_data` to `new_data`.
    pub fn update(&mut self, old_data: u64, new_data: u64) -> (ok: bool)
        ensures
            ok == (old(self).data == old_data),
            final(self).data == if ok {
                new_data
            } else {
                old(self).data
            },
    {
        if self.data == old_data {
            self.data = new_data;
            true
        } else {
            false
        }
    }
}

/// The authoritative directory: the global depth and the entry words.
pub struct MemPoolDirectory {
    pub global_depth: usize,
    pub entries: Vec<MemPoolEntry>,
}

impl MemPoolDirectory {
    /// The directory has its full capacity and a depth within it.
    pub open spec fn wf(&self) -> bool {
        &&& self.entries@.len() == MAX_ENTRY_NUM
        &&& 1 <= self.global_depth <= MAX_DEPTH
    }

    /// Number of live entries.
    pub open spec fn size(&self) -> int {
        dir_size(self.global_depth as int)
    }

    /// The word of entry `i`.
    pub open spec fn word(&self, i: int) -> u64 {
        self.entries@[i].data
    }

    /// `after` has the entry words of `before`, except that entry `index`
    /// holds `data`.
    pub open spec fn wrote(&self, before: &MemPoolDirectory, index: int, data: u64) -> bool {
        &&& self.global_depth == before.global_depth
        &&& self.entries@.len() == before.entries@.len()
        &&& forall|i: int|
            0 <= i < before.entries@.len() ==> (#[trigger] self.entries@[i]).data == if i == index {
                data
            } else {
                before.entries@[i].data
            }
    }

    /// A directory of depth one over two new subtables, for suffixes 0
    /// and 1. `None`, with nothing allocated, when the allocator has no
    /// room for them.
    pub fn new(memory_manager: &mut MemoryManager, subtables: &mut HashMap<u64, Subtable>) -> (r:
        Option<MemPoolDirectory>)
        requires
            old(memory_manager).wf(),
        ensures
            final(memory_manager).wf(),
            old(memory_manager).next_page + 2 * SUBTABLE_SIZE <= crate::config::ADDRESS_LIMIT
                ==> r is Some,
            old(memory_manager).next_page <= final(memory_manager).next_page
                <= old(memory_manager).next_page + 2 * SUBTABLE_SIZE,
            r is None ==> final(memory_manager).allocated() == old(memory_manager).allocated(),
            r matches Some(d) ==> {
                let q0 = d.entries@[0].ptr();
                let q1 = d.entries@[1].ptr();
                &&& d.wf()
                &&& d.global_depth == 1
                &&& forall|i: int| 2 <= i < MAX_ENTRY_NUM ==> (#[trigger] d.entries@[i]).data == 0
                &&& d.entries@[0].lock() == 0 && d.entries@[0].local_depth() == 1
                &&& d.entries@[1].lock() == 0 && d.entries@[1].local_depth() == 1
                &&& q0 != q1
                &&& !old(memory_manager).allocated().contains_key(q0 as int)
                &&& !old(memory_manager).allocated().contains_key(q1 as int)
                &&& q0 >= crate::config::PAGE_SIZE && q1 >= crate::config::PAGE_SIZE
                &&& q0 + SUBTABLE_SIZE <= crate::config::ADDRESS_LIMIT
                &&& q1 + SUBTABLE_SIZE <= crate::config::ADDRESS_LIMIT
                &&& final(memory_manager).allocated() == old(memory_manager).allocated().insert(
                    q0 as int,
                    SUBTABLE_SIZE as nat,
                ).insert(q1 as int, SUBTABLE_SIZE as nat)
                &&& final(subtables)@ == old(subtables)@.insert(q0, final(subtables)@[q0]).insert(
                    q1,
                    final(subtables)@[q1],
                )
                &&& final(subtables)@[q0].wf() && final(subtables)@[q0].all_empty()
                &&& final(subtables)@[q0].uniform_header(crate::subtable::header_word(1, 0))
                &&& final(subtables)@[q1].wf() && final(subtables)@[q1].all_empty()
                &&& final(subtables)@[q1].uniform_header(crate::subtable::header_word(1, 1))
            },
    {
        let mut entries: Vec<MemPoolEntry> = Vec::new();
        let mut i: usize = 0;
        while i < MAX_ENTRY_NUM
            invariant
                i <= MAX_ENTRY_NUM,
                entries@.len() == i,
                forall|k: int| 0 <= k < i ==> (#[trigger] entries@[k]).data == 0,
            decreases MAX_ENTRY_NUM - i,
        {
            entries.push(MemPoolEntry { data: 0 });
            i += 1;
        }
        proof {
            crate::word::lemma_zero_word();
        }
        let mut e0 = MemPoolEntry { data: 0 };
        if !e0.init(memory_manager, subtables, 1, 0) {
            return None;
        }
        let ghost mid_alloc = memory_manager.allocated();
        let ghost mid_tables = subtables@;
        let mut e1 = MemPoolEntry { data: 0 };
        if !e1.init(memory_manager, subtables, 1, 1) {
            let q0 = e0.get_subtable_pointer();
            proof {
                crate::word::lemma_with_low48(0, q0);
            }
            memory_manager.free(q0, SUBTABLE_SIZE);
            subtables.remove(&q0);
            assert(memory_manager.allocated() =~= old(memory_manager).allocated());
            return None;
        }
        entries[0] = e0;
        entries[1] = e1;
        let d = MemPoolDirectory { global_depth: 1, entries };
        proof {
            let q0 = e0.ptr();
            let q1 = e1.ptr();
            assert(mid_alloc.contains_key(q0 as int));
            assert(subtables@ =~= old(subtables)@.insert(q0, subtables@[q0]).insert(
                q1,
                subtables@[q1],
            ));
            assert(subtables@[q0] == mid_tables[q0]);
        }
        Some(d)
    }

    /// Writes the header for `local_depth` and `suffix` into the subtable
    /// of entry `index`.
    pub fn set_subtable_header(
        &self,
        subtables: &mut HashMap<u64, Subtable>,
        index: usize,
        local_depth: u8,
        suffix: u64,
    ) -> (ok: bool)
        requires
            index < self.entries@.len(),
            old(subtables)@.contains_key(self.entries@[index as int].ptr())
                ==> old(subtables)@[self.entries@[index as int].ptr()].wf(),
        ensures
            ok == old(subtables)@.contains_key(self.entries@[index as int].ptr()),
            !ok ==> final(subtables)@ == old(subtables)@,
            ok ==> same_except(
                old(subtables)@,
                final(subtables)@,
                self.entries@[index as int].ptr(),
            ) && header_written(
                old(subtables)@[self.entries@[index as int].ptr()],
                final(subtables)@[self.entries@[index as int].ptr()],
                local_depth,
                suffix,
            ),
    {
        self.entries[index].set_header(subtables, local_depth, suffix)
    }

    /// Compare-and-swap on a slot of the subtable of entry `index`.
    pub fn set(
        &self,
        subtables: &mut HashMap<u64, Subtable>,
        index: usize,
        bucket_group: usize,
        bucket: usize,
        slot: usize,
        data: u64,
        expected: u64,
    ) -> (ok: bool)
        requires
            index < self.entries@.len(),
            bucket_group < BUCKET_GROUP_NUM,
            bucket < crate::config::BUCKET_NUM,
            slot < crate::config::SLOT_NUM,
            old(subtables)@.contains_key(self.entries@[index as int].ptr())
                ==> old(subtables)@[self.entries@[index as int].ptr()].wf(),
        ensures
            ok == (old(subtables)@.contains_key(self.entries@[index as int].ptr())
                && old(subtables)@[self.entries@[index as int].ptr()].slot_at(
                bucket_group as int,
                bucket as int,
                slot as int,
            ).data == expected),
            !ok ==> final(subtables)@ == old(subtables)@,
            ok ==> same_except(
                old(subtables)@,
                final(subtables)@,
                self.entries@[index as int].ptr(),
            ) && slot_written(
                old(subtables)@[self.entries@[index as int].ptr()],
                final(subtables)@[self.entries@[index as int].ptr()],
                bucket_group as int,
                bucket as int,
                slot as int,
                data,
            ),
    {
        self.entries[index].set(subtables, bucket_group, bucket, slot, data, expected)
    }

    /// Snapshots of the two combined buckets for groups `bucket1` and
    /// `bucket2` of the subtable of entry `index`.
    pub fn get(
        &self,
        subtables: &HashMap<u64, Subtable>,
        index: usize,
        bucket1: usize,
        bucket2: usize,
    ) -> (r: Option<[CombinedBucket; 2]>)
        requires
            index < self.entries@.len(),
            subtables@.contains_key(self.entries@[index as int].ptr())
                ==> subtables@[self.entries@[index as int].ptr()].wf(),
        ensures
            r is Some <==> bucket1 < BUCKET_GROUP_NUM && bucket2 < BUCKET_GROUP_NUM
                && subtables@.contains_key(self.entries@[index as int].ptr()),
            r matches Some(cbs) ==> subtables@[self.entries@[index as int].ptr()].snapshot(
                self.entries@[index as int].ptr(),
                bucket1,
                bucket2,
                cbs,
            ),
    {
        self.entries[index].get_by_bucket_ids(subtables, bucket1, bucket2)
    }

    /// A copy of the directory for a client: the global depth and the
    /// words of the live entries; the other entries of the copy are zero.
    pub fn get_directory(&self) -> (d: ClientDirectory)
        requires
            self.wf(),
        ensures
            d.wf(),
            d.global_depth == self.global_depth,
            forall|i: int|
                0 <= i < MAX_ENTRY_NUM ==> (#[trigger] d.entries@[i]).data == if i < self.size() {
                    self.entries@[i].data
                } else {
                    0
                },
    {
        let mut d = ClientDirectory::new();
        let new_global_depth = self.get_global_depth();
        let new_size = RaceUtils::depth_to_size(new_global_depth as u8);
        proof {
            crate::bits::lemma_size_bound(new_global_depth as u8);
        }
        let mut index: usize = 0;
        while index < new_size
            invariant
                index <= new_size,
                new_size <= MAX_ENTRY_NUM,
                new_size == self.size(),
                self.entries@.len() == MAX_ENTRY_NUM,
                d.entries@.len() == MAX_ENTRY_NUM,
                d.global_depth == 0,
                forall|i: int|
                    0 <= i < MAX_ENTRY_NUM ==> (#[trigger] d.entries@[i]).data == if i < index {
                        self.entries@[i].data
                    } else {
                        0
                    },
            decreases new_size - index,
        {
            d.entries[index] = ClientEntry { data: self.entries[index].data };
            index += 1;
        }
        d.global_depth = new_global_depth as u8;
        d
    }

    /// Entry `index`, to be changed in place.
    pub fn get_entry(&mut self, index: usize) -> (r: &mut MemPoolEntry)
        requires
            index < old(self).entries@.len(),
        ensures
            *r == old(self).entries@[index as int],
            final(self).entries@ == old(self).entries@.update(index as int, *final(r)),
            final(self).global_depth == old(self).global_depth,
    {
        &mut self.entries[index]
    }

    /// Entry `index`.
    pub fn get_entry_const(&self, index: usize) -> (r: &MemPoolEntry)
        requires
            index < self.entries@.len(),
        ensures
            *r == self.entries@[index as int],
    {
        &self.entries[index]
    }

    /// Loads the global depth.
    pub fn get_global_depth(&self) -> (r: usize)
        ensures
            r == self.global_depth,
    {
        self.global_depth
    }

    /// Adds `add` to the global depth; fails, with nothing changed, when
    /// the sum would pass the largest depth.
    pub fn atomic_add_global_depth(&mut self, add: usize) -> (ok: bool)
        requires
            old(self).global_depth <= MAX_DEPTH,
        ensures
            ok == (old(self).global_depth + add <= MAX_DEPTH),
            final(self).entries == old(self).entries,
            final(self).global_depth == if ok {
                old(self).global_depth + add
            } else {
                old(self).global_depth as int
            },
    {
        if add > MAX_DEPTH as usize - self.global_depth {
            return false;
        }
        self.global_depth = self.global_depth + add;
        true
    }

    /// Tries to set the lock byte of entry `index` to `lock`, expecting the
    /// entry to hold `old_data`.
    pub fn try_lock_entry(&mut self, index: usize, old_data: u64, lock: u8) -> (r: Result<u64, u64>)
        requires
            index < old(self).entries@.len(),
        ensures
            r is Ok <==> old(self).word(index as int) == old_data,
            r matches Ok(v) ==> v == old_data && final(self).wrote(
                old(self),
                index as int,
                with_top_byte(old_data, lock),
            ),
            r matches Err(v) ==> v == old(self).word(index as int) && final(self).wrote(
                old(self),
                index as int,
                v,
            ),
    {
        self.entries[index].try_lock(old_data, lock)
    }

    /// Tries to clear the lock byte of entry `index`, expecting the entry
    /// to hold `old_data`.
    pub fn try_unlock_entry(&mut self, index: usize, old_data: u64) -> (r: Result<u64, u64>)
        requires
            index < old(self).entries@.len(),
        ensures
            r is Ok <==> old(self).word(index as int) == old_data,
            r matches Ok(v) ==> v == old_data && final(self).wrote(
                old(self),
                index as int,
                unlocked_word(old_data),
            ),
            r matches Err(v) ==> v == old(self).word(index as int) && final(self).wrote(
                old(self),
                index as int,
                v,
            ),
    {
        self.entries[index].try_unlock(old_data)
    }

    /// Writes `data` into entry `index` if the entry is zero.
    pub fn write_new_entry(&mut self, index: usize, data: u64) -> (ok: bool)
        requires
            index < old(self).entries@.len(),
        ensures
            ok == (old(self).word(index as int) == 0),
            final(self).wrote(
                old(self),
                index as int,
                if ok {
                    data
                } else {
                    old(self).word(index as int)
                },
            ),
    {
        self.entries[index].initial(data)
    }

    /// Writes `new_data` into entry `index` if the entry holds `old_data`.
    pub fn update_entry(&mut self, index: usize, old_data: u64, new_data: u64) -> (ok: bool)
        requires
            index < old(self).entries@.len(),
        ensures
            ok == (old(self).word(index as int) == old_data),
            final(self).wrote(
                old(self),
                index as int,
                if ok {
                    new_data
                } else {
                    old(self).word(index as int)
                },
            ),
    {
        self.entries[index].update(old_data, new_data)
    }
}

} // verus!
