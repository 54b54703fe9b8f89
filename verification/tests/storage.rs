use race_hash::directory::{store_new_subtable, ClientDirectory, MemPoolDirectory, MemPoolEntry};
use race_hash::mempool::MemPool;
use race_hash::mm::MemoryManager;
use race_hash::subtable::{SlotPos, Subtable};
use race_hash::utils::RaceUtils;
use std::collections::HashMap;

fn s(x: &str) -> String {
    String::from(x)
}

#[test]
fn new_subtable_is_allocated_and_stored() {
    let mut mm = MemoryManager::new();
    let mut tables: HashMap<u64, Subtable> = HashMap::new();
    let p = store_new_subtable(&mut mm, &mut tables, 2, 3).unwrap();
    assert_eq!(p, 4096);
    assert_eq!(mm.pages[0].tot_size, 196608);
    assert_eq!(mm.pages[0].used_size, 196608);
    let t = tables.get(&p).unwrap();
    assert_eq!(t.get_bucket_header_atomic(0, 0).data, 0x0200_0000_0000_0003);
    assert_eq!(t.get_bucket_header_atomic(1023, 2).data, 0x0200_0000_0000_0003);
    let q = store_new_subtable(&mut mm, &mut tables, 2, 1).unwrap();
    assert_eq!(q, 4096 + 196608);
    assert_eq!(tables.len(), 2);
}

#[test]
fn new_subtable_fails_without_room() {
    let mut mm = MemoryManager::new();
    let mut tables: HashMap<u64, Subtable> = HashMap::new();
    assert!(mm.malloc((1usize << 48) - 4096 - 8192).is_some());
    assert!(store_new_subtable(&mut mm, &mut tables, 1, 0).is_none());
    assert_eq!(tables.len(), 0);
    let mut e = MemPoolEntry { data: 0x0105_0000_0000_0000 };
    assert!(!e.init(&mut mm, &mut tables, 1, 0));
    assert!(!e.new_subtable(&mut mm, &mut tables, 1, 0));
    assert_eq!(e.data, 0x0105_0000_0000_0000);
    assert!(MemPoolDirectory::new(&mut mm, &mut tables).is_none());
    assert_eq!(tables.len(), 0);
}

#[test]
fn directory_new_gives_room_back_when_the_second_subtable_fails() {
    let mut mm = MemoryManager::new();
    let mut tables: HashMap<u64, Subtable> = HashMap::new();
    // room for one subtable only
    assert!(mm.malloc((1usize << 48) - 4096 - 196608 - 4096).is_some());
    let used: u64 = mm.pages.iter().map(|p| p.used_size).sum();
    assert!(MemPoolDirectory::new(&mut mm, &mut tables).is_none());
    assert_eq!(tables.len(), 0);
    assert_eq!(mm.pages.iter().map(|p| p.used_size).sum::<u64>(), used);
}

#[test]
fn entry_reaches_its_subtable() {
    let mut mm = MemoryManager::new();
    let mut tables: HashMap<u64, Subtable> = HashMap::new();
    let mut e = MemPoolEntry { data: 0x0100_0000_0000_0000 };
    assert!(e.init(&mut mm, &mut tables, 3, 5));
    // the lock byte is kept
    assert_eq!(e.data, 0x0103_0000_0000_1000);
    assert!(e.set(&mut tables, 9, 1, 2, 77, 0));
    assert!(!e.set(&mut tables, 9, 1, 2, 78, 0));
    let cbs = e.get_by_bucket_ids(&tables, 9, 9).unwrap();
    assert_eq!(cbs[0].overflow_bucket.slots[2].data, 77);
    assert_eq!(cbs[0].main_bucket.header.data, 0x0300_0000_0000_0005);
    assert!(e.get_by_bucket_ids(&tables, 1024, 0).is_none());
    assert!(e.set_header(&mut tables, 4, 5));
    assert_eq!(tables.get(&0x1000).unwrap().get_bucket_header_atomic(3, 0).data,
        0x0400_0000_0000_0005);
    assert!(e.set_header_and_localdepth(&mut tables, 5, 21));
    assert_eq!(e.data, 0x0105_0000_0000_1000);
    assert_eq!(tables.get(&0x1000).unwrap().get_bucket_header_atomic(3, 0).data,
        0x0500_0000_0000_0015);
    // an entry that points nowhere
    let mut f = MemPoolEntry { data: 0 };
    assert!(!f.set_subtable_and_header_and_depth(&mut tables, 0x9000, 2, 1));
    assert_eq!(f.data, 0x0002_0000_0000_9000);
    assert!(!f.set(&mut tables, 0, 0, 0, 1, 0));
    assert!(f.get_by_bucket_ids(&tables, 0, 0).is_none());
    assert!(f.set_subtable_and_header_and_depth(&mut tables, 0x1000, 6, 2));
    assert_eq!(f.data, 0x0006_0000_0000_1000);
    assert_eq!(tables.get(&0x1000).unwrap().get_bucket_header_atomic(0, 1).data,
        0x0600_0000_0000_0002);
    assert_eq!(tables.get(&0x1000).unwrap().get(&SlotPos { subtable: 0x1000, bucket_group: 9,
        bucket: 1, header: 0, slot: 2 }), 77);
}

#[test]
fn directory_words_and_depth() {
    let mut mm = MemoryManager::new();
    let mut tables: HashMap<u64, Subtable> = HashMap::new();
    let mut d = MemPoolDirectory::new(&mut mm, &mut tables).unwrap();
    assert_eq!(d.get_global_depth(), 1);
    assert_eq!(d.entries.len(), 65536);
    assert_eq!(d.get_entry_const(0).data, 0x0001_0000_0000_1000);
    assert_eq!(d.get_entry_const(1).data, 0x0001_0000_0003_1000);
    assert_eq!(d.get_entry_const(2).data, 0);
    assert!(d.write_new_entry(2, 0x0101_0000_0000_1000));
    assert!(!d.write_new_entry(2, 5));
    assert!(!d.update_entry(2, 7, 8));
    assert!(d.update_entry(2, 0x0101_0000_0000_1000, 0x0102_0000_0000_1000));
    assert_eq!(d.try_unlock_entry(2, 0x0102_0000_0000_1000), Ok(0x0102_0000_0000_1000));
    assert_eq!(d.get_entry_const(2).data, 0x0002_0000_0000_1000);
    assert_eq!(d.try_lock_entry(2, 0x0002_0000_0000_1000, 1), Ok(0x0002_0000_0000_1000));
    assert_eq!(d.try_lock_entry(2, 0x0002_0000_0000_1000, 1), Err(0x0102_0000_0000_1000));
    d.get_entry(3).data = 9;
    assert_eq!(d.get_entry_const(3).data, 9);
    assert!(d.atomic_add_global_depth(1));
    assert_eq!(d.get_global_depth(), 2);
    // the copy has the live entries only
    let c = d.get_directory();
    assert_eq!(c.global_depth, 2);
    assert_eq!(c.entries[0].get_data(), 0x0001_0000_0000_1000);
    assert_eq!(c.entries[2].get_data(), 0x0102_0000_0000_1000);
    assert_eq!(c.entries[3].get_data(), 9);
    assert_eq!(c.entries[4].get_data(), 0);
    assert!(!d.atomic_add_global_depth(15));
    assert!(d.atomic_add_global_depth(14));
    assert_eq!(d.get_global_depth(), 16);
    assert!(!d.atomic_add_global_depth(1));
    assert!(d.set_subtable_header(&mut tables, 0, 2, 0));
    assert!(d.set(&mut tables, 0, 1, 0, 0, 5, 0));
    assert_eq!(d.get(&tables, 0, 1, 1).unwrap()[0].main_bucket.slots[0].data, 5);
    assert_eq!(d.get(&tables, 0, 1, 1).unwrap()[0].main_bucket.header.data, 0x0200_0000_0000_0000);
}

#[test]
fn client_directory_starts_empty() {
    let mut d = ClientDirectory::new();
    assert_eq!(d.global_depth, 0);
    assert_eq!(d.entries.len(), 65536);
    assert_eq!(d.get_entry_const(65535).get_data(), 0);
    d.get_entry(7).set_data(3);
    assert_eq!(d.get_entry_const(7).get_data(), 3);
}

#[test]
fn pool_primitives() {
    let mut pool = MemPool::new();
    let block = pool.write_kv(s("k"), s("v")).unwrap();
    assert_eq!(pool.kvs.get(&block).unwrap().get_total_length(), 18);
    assert!(pool.write_kv("k".repeat(200), "v".repeat(40)).is_none());
    let ptr = pool.get_entry(1).get_subtable_pointer();
    let pos = SlotPos { subtable: ptr, bucket_group: 4, bucket: 2, header: 0, slot: 6 };
    let word = RaceUtils::set_data(&s("k"), &s("v"), block);
    assert!(pool.write_slot(&pos, word, 0));
    assert!(!pool.write_slot(&pos, word, 0));
    assert_eq!(pool.read_slot(&pos), word);
    assert_eq!(pool.read_slot_kv(&pos).unwrap().value, "v");
    let cbs = pool.read(1, 3, 4).unwrap();
    assert_eq!(cbs[1].main_bucket.slots[6].data, word);
    assert_eq!(cbs[0].main_bucket.slots[6].data, 0);
    assert!(pool.read(1, 1024, 4).is_none());
    assert!(pool.write_slot(&pos, 0, word));
    pool.free_kv(block, 18);
    assert_eq!(pool.kvs.len(), 0);
    // the freed range is handed out again
    assert_eq!(pool.write_kv(s("a"), s("b")), Some(block));

    let sub = pool.new_subtable(2, 3).unwrap();
    assert_eq!(pool.subtables.get(&sub).unwrap().get_bucket_header_atomic(0, 0).data,
        0x0200_0000_0000_0003);
    assert!(pool.set_subtable_header(0, 2, 0));
    assert_eq!(pool.read(0, 0, 0).unwrap()[0].main_bucket.header.data, 0x0200_0000_0000_0000);

    let w0 = pool.get_entry(0).data;
    assert_eq!(pool.try_lock_entry(0, w0), Ok(w0));
    assert_eq!(pool.try_lock_entry(0, w0), Err(w0 | (1 << 56)));
    assert!(!pool.update_entry(0, w0, 5));
    assert!(pool.update_entry(0, w0 | (1 << 56), w0 | (1 << 56) | (1 << 48)));
    assert_eq!(pool.unlock_entry(0, w0), Err(w0 | (1 << 56) | (1 << 48)));
    assert_eq!(pool.unlock_entry(0, w0 | (1 << 56) | (1 << 48)), Ok(w0 | (1 << 56) | (1 << 48)));
    assert_eq!(pool.get_entry(0).data, w0 | (1 << 48));
    assert!(pool.write_new_entry(2, 9));
    assert!(!pool.write_new_entry(2, 10));
    assert!(pool.increase_global_depth());
    assert_eq!(pool.get_global_length(), 2);
    let d = pool.get_directory();
    assert_eq!(d.global_depth, 2);
    assert_eq!(d.entries[2].get_data(), 9);
    assert_eq!(d.entries[3].get_data(), 0);
}
