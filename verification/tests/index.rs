use race_hash::client::{Client, RaceError};
use race_hash::hash::HashMethod;
use race_hash::mempool::MemPool;
use race_hash::subtable::{Slot, SlotPos};
use race_hash::utils::RaceUtils;

fn s(x: &str) -> String {
    String::from(x)
}

fn key(i: usize) -> String {
    format!("key{}", i)
}

fn val(i: usize) -> String {
    format!("val{}", i)
}

fn dir_hash(k: &String) -> u64 {
    race_hash::hash::Hash::hash(k, HashMethod::Directory)
}

/// Suffix in the header of the subtable that directory entry `i` points to.
fn header_of(pool: &MemPool, i: usize) -> (u8, u64) {
    let ptr = pool.get_entry(i).get_subtable_pointer();
    let h = pool.subtables.get(&ptr).unwrap().get_bucket_header_atomic(0, 0);
    (h.get_local_depth(), h.get_suffix())
}

/// Walks the live directory and checks what holds of every entry and of
/// every slot in use.
fn check_pool(pool: &MemPool) {
    let d = pool.get_global_length();
    let size = 1usize << d;
    for i in 0..size {
        let e = pool.get_entry(i);
        assert_eq!(e.get_lock(), 0);
        let (ld, suffix) = header_of(pool, i);
        assert_eq!(ld, e.get_local_depth());
        assert!(ld <= d);
        assert_eq!(suffix, (i as u64) & ((1u64 << ld) - 1));
        for j in 0..size {
            if (j as u64) & ((1u64 << ld) - 1) == suffix {
                assert_eq!(pool.get_entry(j).get_subtable_pointer(), e.get_subtable_pointer());
            }
        }
    }
    let mut seen = std::collections::HashSet::new();
    for (ptr, table) in pool.subtables.iter() {
        let h = table.get_bucket_header_atomic(0, 0);
        for g in 0..1024 {
            for b in 0..3 {
                for k in 0..7 {
                    let pos = SlotPos { subtable: *ptr, bucket_group: g, bucket: b, header: 0,
                        slot: k };
                    let slot = Slot { data: table.get(&pos) };
                    if slot.judge_empty() {
                        assert_eq!(slot.data, 0);
                        continue;
                    }
                    assert!(seen.insert(slot.get_kv_pointer()));
                    let kv = slot.get_kv(&pool.kvs).unwrap();
                    assert!(RaceUtils::check_crc(&kv.key, &kv.value, kv.crc64));
                    assert_eq!(slot.get_length() as usize, 16 + kv.key.len() + kv.value.len());
                    assert_eq!(
                        slot.get_fingerprint() as u64,
                        race_hash::hash::Hash::hash(&kv.key, HashMethod::FingerPrint)
                    );
                    assert_eq!(RaceUtils::get_suffix(&kv.key, h.get_local_depth()), h.get_suffix());
                    let h1 = race_hash::hash::Hash::hash(&kv.key,
                        HashMethod::CombinedBucket1) as usize;
                    let h2 = race_hash::hash::Hash::hash(&kv.key,
                        HashMethod::CombinedBucket2) as usize;
                    match b {
                        0 => assert_eq!(g, h1),
                        2 => assert_eq!(g, h2),
                        _ => assert!(g == h1 || g == h2),
                    }
                }
            }
        }
    }
    assert_eq!(seen.len(), pool.kvs.len());
}

#[test]
fn new_pool_has_two_subtables_of_depth_one() {
    let pool = MemPool::new();
    assert_eq!(pool.get_global_length(), 1);
    assert_eq!(header_of(&pool, 0), (1, 0));
    assert_eq!(header_of(&pool, 1), (1, 1));
    assert_ne!(
        pool.get_entry(0).get_subtable_pointer(),
        pool.get_entry(1).get_subtable_pointer()
    );
    assert_eq!(pool.get_entry(2).data, 0);
    let d = pool.get_directory();
    assert_eq!(d.global_depth, 1);
    assert_eq!(d.entries.len(), 65536);
    assert_eq!(d.entries[1].get_data(), pool.get_entry(1).data);
    check_pool(&pool);
}

#[test]
fn basic_insert_then_search() {
    let mut pool = MemPool::new();
    let mut client = Client::new(&pool);
    assert_eq!(client.insert(&mut pool, &s("key42"), &s("val42")), Ok(true));
    assert_eq!(client.search(&pool, &s("key42")), Some(s("val42")));
    assert_eq!(client.search(&pool, &s("key43")), None);
    check_pool(&pool);
}

#[test]
fn insert_of_a_held_key_reports_exists_and_keeps_the_value() {
    let mut pool = MemPool::new();
    let mut client = Client::new(&pool);
    assert_eq!(client.insert(&mut pool, &s("k"), &s("one")), Ok(true));
    assert_eq!(client.insert(&mut pool, &s("k"), &s("two")), Ok(false));
    assert_eq!(client.search(&pool, &s("k")), Some(s("one")));
    // the record of the refused insert was freed again
    assert_eq!(pool.kvs.len(), 1);
    check_pool(&pool);
}

#[test]
fn delete_twice() {
    let mut pool = MemPool::new();
    let mut client = Client::new(&pool);
    assert_eq!(client.insert(&mut pool, &s("k"), &s("v")), Ok(true));
    assert!(client.delete(&mut pool, &s("k")));
    assert!(!client.delete(&mut pool, &s("k")));
    assert_eq!(client.search(&pool, &s("k")), None);
    assert_eq!(pool.kvs.len(), 0);
    // the key can be inserted again
    assert_eq!(client.insert(&mut pool, &s("k"), &s("w")), Ok(true));
    assert_eq!(client.search(&pool, &s("k")), Some(s("w")));
    check_pool(&pool);
}

#[test]
fn update_overrides() {
    let mut pool = MemPool::new();
    let mut client = Client::new(&pool);
    assert_eq!(client.update(&mut pool, &s("k"), &s("v0")), Ok(false));
    assert_eq!(pool.kvs.len(), 0);
    assert_eq!(client.insert(&mut pool, &s("k"), &s("v1")), Ok(true));
    assert_eq!(client.update(&mut pool, &s("k"), &s("v2-longer")), Ok(true));
    assert_eq!(client.search(&pool, &s("k")), Some(s("v2-longer")));
    assert_eq!(pool.kvs.len(), 1);
    check_pool(&pool);
}

#[test]
fn empty_key_and_empty_value() {
    let mut pool = MemPool::new();
    let mut client = Client::new(&pool);
    assert_eq!(client.insert(&mut pool, &s(""), &s("")), Ok(true));
    assert_eq!(client.search(&pool, &s("")), Some(s("")));
    assert_eq!(client.update(&mut pool, &s(""), &s("x")), Ok(true));
    assert_eq!(client.search(&pool, &s("")), Some(s("x")));
    assert!(client.delete(&mut pool, &s("")));
    assert_eq!(client.search(&pool, &s("")), None);
    check_pool(&pool);
}

#[test]
fn largest_record_is_255_bytes() {
    let mut pool = MemPool::new();
    let mut client = Client::new(&pool);
    let k = "k".repeat(100);
    let fits = "v".repeat(139);
    let too_long = "v".repeat(140);
    assert_eq!(client.insert(&mut pool, &k, &too_long), Err(RaceError::InvalidSize));
    assert_eq!(client.search(&pool, &k), None);
    assert_eq!(pool.kvs.len(), 0);
    assert_eq!(client.insert(&mut pool, &k, &fits), Ok(true));
    assert_eq!(client.search(&pool, &k), Some(fits.clone()));
    assert_eq!(client.update(&mut pool, &k, &too_long), Err(RaceError::InvalidSize));
    assert_eq!(client.search(&pool, &k), Some(fits));
    assert_eq!(client.insert(&mut pool, &"k".repeat(300), &s("")), Err(RaceError::InvalidSize));
    check_pool(&pool);
}

#[test]
fn many_keys_are_all_found() {
    let mut pool = MemPool::new();
    let mut client = Client::new(&pool);
    for i in 0..3000 {
        assert_eq!(client.insert(&mut pool, &key(i), &val(i)), Ok(true));
    }
    for i in 0..3000 {
        assert_eq!(client.search(&pool, &key(i)), Some(val(i)));
    }
    for i in (0..3000).step_by(2) {
        assert!(client.delete(&mut pool, &key(i)));
    }
    for i in (1..3000).step_by(3) {
        assert_eq!(client.update(&mut pool, &key(i), &val(i + 7)), Ok(i % 2 == 1));
    }
    for i in 0..3000 {
        let expected = if i % 2 == 0 {
            None
        } else if i % 3 == 1 {
            Some(val(i + 7))
        } else {
            Some(val(i))
        };
        assert_eq!(client.search(&pool, &key(i)), expected);
    }
    assert_eq!(pool.kvs.len(), 1500);
    check_pool(&pool);
}

#[test]
fn rehash_of_subtable_zero() {
    let mut pool = MemPool::new();
    let mut client = Client::new(&pool);
    for i in 0..500 {
        assert_eq!(client.insert(&mut pool, &key(i), &val(i)), Ok(true));
    }
    let old0 = pool.get_entry(0).get_subtable_pointer();
    let old1 = pool.get_entry(1).get_subtable_pointer();
    assert_eq!(client.pub_rehash(&mut pool, 0), Ok(()));
    assert_eq!(pool.get_global_length(), 2);
    assert_eq!(client.pub_get_size(), 4);
    assert_eq!(pool.get_entry(0).get_local_depth(), 2);
    assert_eq!(pool.get_entry(2).get_local_depth(), 2);
    assert_eq!(pool.get_entry(1).get_local_depth(), 1);
    assert_eq!(pool.get_entry(3).get_local_depth(), 1);
    // the subtable of suffix 0 is the one it was; one of suffix 2 is new
    assert_eq!(pool.get_entry(0).get_subtable_pointer(), old0);
    assert_eq!(pool.get_entry(1).get_subtable_pointer(), old1);
    assert_eq!(pool.get_entry(3).get_subtable_pointer(), old1);
    let new2 = pool.get_entry(2).get_subtable_pointer();
    assert!(new2 != old0 && new2 != old1);
    assert_eq!(header_of(&pool, 0), (2, 0));
    assert_eq!(header_of(&pool, 2), (2, 2));
    // every key of the old subtable whose directory hash has bit 1 set is
    // in the new subtable now, and nowhere else
    let mut moved = 0;
    for i in 0..500 {
        let k = key(i);
        let h = dir_hash(&k);
        let g1 = race_hash::hash::Hash::hash(&k, HashMethod::CombinedBucket1) as usize;
        let g2 = race_hash::hash::Hash::hash(&k, HashMethod::CombinedBucket2) as usize;
        let in_table = |ptr: u64| {
            let cbs = pool.subtables.get(&ptr).unwrap().get_by_bucket_group_ids(ptr, g1,
                g2).unwrap();
            cbs[0].get_by_key(&k, &pool.kvs).is_some() || cbs[1].get_by_key(&k, &pool.kvs).is_some()
        };
        if h & 1 == 0 {
            if h & 2 != 0 {
                moved += 1;
            }
            assert_eq!(in_table(new2), h & 2 != 0);
            assert_eq!(in_table(old0), h & 2 == 0);
        } else {
            assert!(in_table(old1));
        }
        assert_eq!(client.search(&pool, &k), Some(val(i)));
    }
    assert!(moved > 0);
    check_pool(&pool);
}

#[test]
fn sequence_of_rehashes() {
    let mut pool = MemPool::new();
    let mut client = Client::new(&pool);
    for i in 0..200 {
        assert_eq!(client.insert(&mut pool, &key(i), &val(i)), Ok(true));
    }
    for index in [0, 1, 2, 2, 0] {
        assert_eq!(client.pub_rehash(&mut pool, index), Ok(()));
        check_pool(&pool);
    }
    assert_eq!(pool.get_global_length(), 4);
    let suffixes: Vec<u64> = (0..16).map(|i| header_of(&pool, i).1).collect();
    assert_eq!(suffixes, vec![0, 1, 2, 3, 4, 1, 6, 3, 0, 1, 10, 3, 4, 1, 6, 3]);
    let depths: Vec<u8> = (0..16).map(|i| pool.get_entry(i).get_local_depth()).collect();
    assert_eq!(depths, vec![3, 2, 4, 2, 3, 2, 3, 2, 3, 2, 4, 2, 3, 2, 3, 2]);
    for i in 0..200 {
        assert_eq!(client.search(&pool, &key(i)), Some(val(i)));
    }
}

#[test]
fn reader_with_a_stale_directory_finds_migrated_keys() {
    let mut pool = MemPool::new();
    let mut writer = Client::new(&pool);
    for i in 0..300 {
        assert_eq!(writer.insert(&mut pool, &key(i), &val(i)), Ok(true));
    }
    let mut reader = Client::new(&pool);
    assert_eq!(reader.get_directory().global_depth, 1);
    assert_eq!(writer.pub_rehash(&mut pool, 0), Ok(()));
    assert_eq!(writer.pub_rehash(&mut pool, 1), Ok(()));
    // a key that migrated out of subtable 0
    let migrated = (0..300).map(key).find(|k| dir_hash(k) & 3 == 2).unwrap();
    let stayed = (0..300).map(key).find(|k| dir_hash(k) & 3 == 0).unwrap();
    let i = migrated[3..].parse::<usize>().unwrap();
    // the reader's directory is the old one: the header does not fit the
    // key, the directory is read again, and the key is found
    assert_eq!(reader.search(&pool, &migrated), Some(val(i)));
    assert_eq!(reader.get_directory().global_depth, 2);
    let mut reader2 = Client { directory: race_hash::directory::ClientDirectory::new() };
    reader2.refresh_directory(&pool);
    assert!(reader2.search(&pool, &stayed).is_some());
    // stale writers work too
    let mut late = Client::new(&pool);
    assert_eq!(writer.pub_rehash(&mut pool, 2), Ok(()));
    assert_eq!(writer.pub_rehash(&mut pool, 6), Ok(()));
    for i in 300..600 {
        assert_eq!(late.insert(&mut pool, &key(i), &val(i)), Ok(true));
    }
    for i in 0..600 {
        assert_eq!(late.update(&mut pool, &key(i), &val(i + 1)), Ok(true));
    }
    let mut late2 = Client::new(&pool);
    assert_eq!(writer.pub_rehash(&mut pool, 0), Ok(()));
    for i in 0..600 {
        assert_eq!(reader.search(&pool, &key(i)), Some(val(i + 1)));
        assert!(late2.delete(&mut pool, &key(i)));
    }
    assert_eq!(pool.kvs.len(), 0);
    check_pool(&pool);
}

#[test]
fn two_clients_share_one_pool() {
    let mut pool = MemPool::new();
    let mut a = Client::new(&pool);
    let mut b = Client::new(&pool);
    // a pseudo-random walk over a key space of 1000
    let mut x: u64 = 12345;
    let mut last: std::collections::HashMap<usize, usize> = std::collections::HashMap::new();
    for step in 0..4000 {
        x = x.wrapping_mul(6364136223846793005).wrapping_add(1442695040888963407);
        let k = ((x >> 33) % 1000) as usize;
        let c = if step % 2 == 0 { &mut a } else { &mut b };
        let inserted = c.insert(&mut pool, &key(k), &val(step)).unwrap();
        assert_eq!(inserted, !last.contains_key(&k));
        if !inserted {
            assert_eq!(c.update(&mut pool, &key(k), &val(step)), Ok(true));
        }
        last.insert(k, step);
        if step % 500 == 499 {
            assert_eq!(b.pub_rehash(&mut pool, step % 2), Ok(()));
        }
    }
    for k in 0..1000 {
        let expected = last.get(&k).map(|v| val(*v));
        assert_eq!(a.search(&pool, &key(k)), expected);
        assert_eq!(b.search(&pool, &key(k)), expected);
    }
    check_pool(&pool);
}

#[test]
fn lost_compare_and_swap_changes_nothing() {
    let mut pool = MemPool::new();
    let mut a = Client::new(&pool);
    let mut b = Client::new(&pool);
    assert_eq!(a.insert(&mut pool, &s("k"), &s("v0")), Ok(true));
    // A reads the slot
    let cbs = a.get_combined_buckets(&pool, &s("k")).unwrap();
    let (pos, seen) = match cbs[0].get_slot_pos_and_data(&s("k"), 0, &pool.kvs) {
        Some(x) => x,
        None => cbs[1].get_slot_pos_and_data(&s("k"), 1, &pool.kvs).unwrap(),
    };
    assert_eq!(pool.read_slot(&pos), seen);
    assert_eq!(pool.read_slot_kv(&pos).unwrap().value, "v0");
    // B updates it
    assert_eq!(b.update(&mut pool, &s("k"), &s("vB")), Ok(true));
    // A's swap from the word it saw fails
    let block = pool.write_kv(s("k"), s("vA")).unwrap();
    assert!(!Client::update_slot(&mut pool, &pos, &s("k"), &s("vA"), block, seen));
    assert_eq!(a.search(&pool, &s("k")), Some(s("vB")));
    pool.free_kv(block, 16 + 1 + 2);
    // A reads again and writes on top
    assert_eq!(a.update(&mut pool, &s("k"), &s("vA")), Ok(true));
    assert_eq!(b.search(&pool, &s("k")), Some(s("vA")));
    check_pool(&pool);
}

#[test]
fn write_slot_takes_back_a_write_into_a_split_subtable() {
    let mut pool = MemPool::new();
    let k = s("key42");
    // key42 has directory hash 9337, odd: it belongs to subtable 1
    let ptr = pool.get_entry(0).get_subtable_pointer();
    let block = pool.write_kv(k.clone(), s("v")).unwrap();
    let pos = SlotPos { subtable: ptr, bucket_group: 285, bucket: 0, header: 0, slot: 0 };
    assert!(!Client::write_slot(&mut pool, &pos, &k, &s("v"), block));
    assert_eq!(pool.read_slot(&pos), 0);
    // with the header that the writer saw, the write stands
    let seen = SlotPos { header: 0x0100_0000_0000_0000, ..pos };
    assert!(Client::write_slot(&mut pool, &seen, &k, &s("v"), block));
    assert_eq!(pool.read_slot(&pos), RaceUtils::set_data(&k, &s("v"), block));
    // the slot is taken now
    assert!(!Client::write_slot(&mut pool, &seen, &k, &s("v"), block));
    // in the subtable the key belongs to, the header fits
    let ptr1 = pool.get_entry(1).get_subtable_pointer();
    let pos1 = SlotPos { subtable: ptr1, bucket_group: 285, bucket: 0, header: 0, slot: 0 };
    assert!(Client::write_slot(&mut pool, &pos1, &k, &s("v"), block));
}

#[test]
fn locks_are_taken_and_released() {
    let mut pool = MemPool::new();
    let mut a = Client::new(&pool);
    let mut b = Client::new(&pool);
    assert!(a.try_lock(&mut pool, 0));
    assert_eq!(pool.get_entry(0).get_lock(), 1);
    assert!(!b.try_lock(&mut pool, 0));
    assert!(b.try_lock(&mut pool, 1));
    a.unlock(&mut pool, 0);
    assert_eq!(pool.get_entry(0).get_lock(), 0);
    // releasing a lock that is not held changes nothing
    a.unlock(&mut pool, 0);
    assert_eq!(pool.get_entry(0).get_lock(), 0);
    b.unlock(&mut pool, 1);
    a.lock_all(&mut pool);
    assert_eq!(pool.get_entry(0).get_lock(), 1);
    assert_eq!(pool.get_entry(1).get_lock(), 1);
    a.unlock_all(&mut pool);
    check_pool(&pool);
    a.lock_suffix(&mut pool, 1, 1);
    assert_eq!(pool.get_entry(0).get_lock(), 0);
    assert_eq!(pool.get_entry(1).get_lock(), 1);
    a.unlock_suffix(&mut pool, 1);
    check_pool(&pool);
    assert!(pool.lock_entry(0, pool.get_entry(0).data, 1));
    assert!(!pool.lock_entry(0, 0, 1));
    assert!(pool.unlock_entry(0, pool.get_entry(0).data).is_ok());
    check_pool(&pool);
}

#[test]
fn stale_client_locks_after_reading_the_directory_again() {
    let mut pool = MemPool::new();
    let mut a = Client::new(&pool);
    let mut b = Client::new(&pool);
    assert_eq!(b.pub_rehash(&mut pool, 0), Ok(()));
    // a's copy of entry 0 still has local depth 1
    assert_eq!(a.get_directory().entries[0].get_local_depth(), 1);
    a.lock(&mut pool, 0);
    assert_eq!(pool.get_entry(0).get_lock(), 1);
    assert_eq!(a.get_directory().entries[0].get_local_depth(), 2);
    assert_eq!(a.get_directory().global_depth, 2);
    a.unlock(&mut pool, 0);
    check_pool(&pool);
}

#[test]
fn double_size_copies_the_lower_half() {
    let mut pool = MemPool::new();
    let mut a = Client::new(&pool);
    assert_eq!(a.insert(&mut pool, &s("k"), &s("v")), Ok(true));
    a.double_size(&mut pool);
    assert_eq!(pool.get_global_length(), 2);
    assert_eq!(pool.get_entry(2).data, pool.get_entry(0).data);
    assert_eq!(pool.get_entry(3).data, pool.get_entry(1).data);
    assert_eq!(pool.get_entry(4).data, 0);
    assert_eq!(a.search(&pool, &s("k")), Some(s("v")));
    check_pool(&pool);
    // a client that lags behind does not double again
    let mut b = Client::new(&pool);
    a.double_size(&mut pool);
    assert_eq!(pool.get_global_length(), 3);
    b.double_size(&mut pool);
    assert_eq!(pool.get_global_length(), 3);
    assert_eq!(b.get_directory().global_depth, 3);
    check_pool(&pool);
}

#[test]
fn split_at_the_largest_depth_fails() {
    let mut pool = MemPool::new();
    let mut client = Client::new(&pool);
    assert_eq!(client.insert(&mut pool, &s("key42"), &s("val42")), Ok(true));
    for depth in 1..16 {
        assert_eq!(pool.get_entry(0).get_local_depth(), depth);
        assert_eq!(client.pub_rehash(&mut pool, 0), Ok(()));
    }
    assert_eq!(pool.get_global_length(), 16);
    assert_eq!(pool.get_entry(0).get_local_depth(), 16);
    assert_eq!(client.pub_rehash(&mut pool, 0), Err(RaceError::CapacityExceeded));
    assert_eq!(pool.get_global_length(), 16);
    // other subtables can still be split
    assert_eq!(pool.get_entry(1).get_local_depth(), 1);
    assert_eq!(client.pub_rehash(&mut pool, 1), Ok(()));
    assert_eq!(pool.get_entry(1).get_local_depth(), 2);
    assert_eq!(client.search(&pool, &s("key42")), Some(s("val42")));
}

#[test]
fn exhausted_allocator_fails_the_insert() {
    let mut pool = MemPool::new();
    let mut client = Client::new(&pool);
    assert_eq!(client.insert(&mut pool, &s("a"), &s("1")), Ok(true));
    // take what is left of the address space
    let left = (1u64 << 48) - pool.memory_manager.next_page;
    assert!(pool.memory_manager.malloc(left as usize).is_some());
    // the first page still has room for small records
    assert_eq!(client.insert(&mut pool, &s("b"), &s("2")), Ok(true));
    while pool.memory_manager.malloc(8).is_some() {}
    assert_eq!(client.insert(&mut pool, &s("c"), &s("3")), Err(RaceError::AllocatorOom));
    assert_eq!(client.update(&mut pool, &s("a"), &s("9")), Err(RaceError::AllocatorOom));
    assert_eq!(client.pub_rehash(&mut pool, 0), Err(RaceError::AllocatorOom));
    assert_eq!(client.search(&pool, &s("a")), Some(s("1")));
    assert_eq!(client.search(&pool, &s("c")), None);
    // a delete frees room for one record
    assert!(client.delete(&mut pool, &s("b")));
    assert_eq!(client.insert(&mut pool, &s("c"), &s("3")), Ok(true));
    // the failed split had doubled the directory before it asked for room
    assert_eq!(pool.get_global_length(), 2);
    check_pool(&pool);
}

/// Keys of subtable 0 with the given first or second bucket group.
fn keys_of_group(first: bool, group: u64, n: usize, tag: &str) -> Vec<String> {
    let mut keys = Vec::new();
    let mut i = 0usize;
    while keys.len() < n {
        let k = format!("{}{}", tag, i);
        i += 1;
        let h1 = race_hash::hash::Hash::hash_1(&k, 1024);
        let h2 = race_hash::hash::Hash::hash_2(&k, 1024);
        let own = if first { h1 } else { h2 };
        let other = if first { h2 } else { h1 };
        if own == group && other != group && dir_hash(&k) & 1 == 0 {
            keys.push(k);
        }
    }
    keys
}

#[test]
fn full_buckets_trigger_a_split() {
    let mut pool = MemPool::new();
    let mut client = Client::new(&pool);
    // key0 has an even directory hash: it belongs to subtable 0
    let target = (0..).map(key).find(|k| dir_hash(k) & 1 == 0).unwrap();
    let g1 = race_hash::hash::Hash::hash_1(&target, 1024);
    let g2 = race_hash::hash::Hash::hash_2(&target, 1024);
    assert_ne!(g1, g2);
    let ptr = pool.get_entry(0).get_subtable_pointer();
    let header = 0x0100_0000_0000_0000;
    // fill both combined buckets of the target with records of other keys
    let side_a = keys_of_group(true, g1, 14, "a");
    let side_b = keys_of_group(false, g2, 14, "b");
    for (n, k) in side_a.iter().enumerate() {
        // the count of the combined bucket tells where the next record goes
        let cbs = pool.read(0, g1 as usize, g2 as usize).unwrap();
        assert_eq!(cbs[0].count(), n);
        let block = pool.write_kv(k.clone(), val(n)).unwrap();
        let pos = SlotPos {
            subtable: ptr,
            bucket_group: g1 as usize,
            bucket: if n < 7 { 0 } else { 1 },
            header,
            slot: n % 7,
        };
        assert!(Client::write_slot(&mut pool, &pos, k, &val(n), block));
    }
    for (n, k) in side_b.iter().enumerate() {
        let cbs = pool.read(0, g1 as usize, g2 as usize).unwrap();
        assert_eq!(cbs[1].count(), n);
        let block = pool.write_kv(k.clone(), val(n)).unwrap();
        let pos = SlotPos {
            subtable: ptr,
            bucket_group: g2 as usize,
            bucket: if n < 7 { 2 } else { 1 },
            header,
            slot: n % 7,
        };
        assert!(Client::write_slot(&mut pool, &pos, k, &val(n), block));
    }
    check_pool(&pool);
    let cbs = client.get_combined_buckets(&pool, &target).unwrap();
    assert_eq!(cbs[0].count(), 14);
    assert_eq!(cbs[1].count(), 14);
    assert!(Client::get_slot(&cbs).is_none());
    // the records in the overflow buckets are found
    for (n, k) in side_a.iter().enumerate() {
        assert_eq!(client.search(&pool, k), Some(val(n)));
    }
    // the insert finds no slot and splits the subtable until it does
    let depth_before = pool.get_entry(0).get_local_depth();
    assert_eq!(client.insert(&mut pool, &target, &s("here")), Ok(true));
    let index = (dir_hash(&target) & ((1u64 << pool.get_global_length()) - 1)) as usize;
    assert!(pool.get_entry(index).get_local_depth() > depth_before);
    assert_eq!(client.search(&pool, &target), Some(s("here")));
    for (n, k) in side_a.iter().enumerate() {
        assert_eq!(client.search(&pool, k), Some(val(n)));
    }
    for (n, k) in side_b.iter().enumerate() {
        assert_eq!(client.search(&pool, k), Some(val(n)));
    }
    check_pool(&pool);
}
