use vstd::prelude::*;

verus! {

/// Number of bits in a byte.
pub const BITS_OF_BYTE: usize = 8;

/// Size of one allocator page in bytes.
pub const PAGE_SIZE: usize = 4096;

/// Every allocation is rounded up to a multiple of this many bytes.
pub const ALIGN_BYTES: usize = 8;

/// Bucket groups per subtable.
pub const BUCKET_GROUP_NUM: usize = 1024;

/// Buckets per bucket group: two mains and the overflow they share.
pub const BUCKET_NUM: usize = 3;

/// Slots per bucket.
pub const SLOT_NUM: usize = 7;

/// Bytes of one atomic word.
pub const PTR_SIZE: usize = 8;

/// Bytes of a fingerprint.
pub const FP_SIZE: usize = 1;

/// Number of distinct fingerprints.
pub const FP_CAPACITY: usize = 256;

/// Capacity of the directory.
pub const MAX_ENTRY_NUM: usize = 65536;

/// Largest global depth: the directory capacity is two to this power.
pub const MAX_DEPTH: u8 = 16;

/// Bytes reserved per directory entry.
pub const ENTRY_SIZE: usize = 64;

/// Attempts a non-blocking lock makes before it gives up.
pub const MAX_TRY_LOCK_TIMES: usize = 5;

/// Bytes of the fixed header in front of a key-value record.
pub const KV_HEADER_SIZE: usize = 16;

/// Largest total size of a key-value record, header included.
pub const MAX_KV_SIZE: usize = 255;

/// Bytes one subtable occupies in the storage address space.
pub const SUBTABLE_SIZE: usize = 196608;

/// Addresses handed out by the allocator stay below this bound, so that
/// they fit the 48-bit pointer field of a slot or directory entry.
pub const ADDRESS_LIMIT: u64 = 0x1_0000_0000_0000;

/// The tunable parameters of an index, gathered in one value.
pub struct RaceConfig {
    pub enable_mm_debug: bool,
    pub bits_of_byte: usize,
    pub page_size: usize,
    pub align_bytes: usize,
    pub bucket_group_num: usize,
    pub bucket_num: usize,
    pub slot_num: usize,
    pub ptr_size: usize,
    pub fp_size: usize,
    pub slot_fp_offset: usize,
    pub slot_len_offset: usize,
    pub header_local_depth_offset: usize,
    pub header_suffix_offset: usize,
    pub directory_lock_offset: usize,
    pub directory_localdepth_offset: usize,
    pub max_entry_num: usize,
    pub entry_size: usize,
    pub max_try_lock_times: usize,
}

impl RaceConfig {
    /// The parameters this library is built with.
    pub fn new() -> (c: RaceConfig)
        ensures
            c.enable_mm_debug == false,
            c.bits_of_byte == BITS_OF_BYTE,
            c.page_size == PAGE_SIZE,
            c.align_bytes == ALIGN_BYTES,
            c.bucket_group_num == BUCKET_GROUP_NUM,
            c.bucket_num == BUCKET_NUM,
            c.slot_num == SLOT_NUM,
            c.ptr_size == PTR_SIZE,
            c.fp_size == FP_SIZE,
            c.slot_fp_offset == 0,
            c.slot_len_offset == 1,
            c.header_local_depth_offset == 0,
            c.header_suffix_offset == 1,
            c.directory_lock_offset == 0,
            c.directory_localdepth_offset == 1,
            c.max_entry_num == MAX_ENTRY_NUM,
            c.entry_size == ENTRY_SIZE,
            c.max_try_lock_times == MAX_TRY_LOCK_TIMES,
    {
        RaceConfig {
            enable_mm_debug: false,
            bits_of_byte: BITS_OF_BYTE,
            page_size: PAGE_SIZE,
            align_bytes: ALIGN_BYTES,
            bucket_group_num: BUCKET_GROUP_NUM,
            bucket_num: BUCKET_NUM,
            slot_num: SLOT_NUM,
            ptr_size: PTR_SIZE,
            fp_size: FP_SIZE,
            slot_fp_offset: 0,
            slot_len_offset: 1,
            header_local_depth_offset: 0,
            header_suffix_offset: 1,
            directory_lock_offset: 0,
            directory_localdepth_offset: 1,
            max_entry_num: MAX_ENTRY_NUM,
            entry_size: ENTRY_SIZE,
            max_try_lock_times: MAX_TRY_LOCK_TIMES,
        }
    }
}

} // verus!
