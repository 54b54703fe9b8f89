use race_hash::client::Client;
use race_hash::hash::HashMethod;
use race_hash::mempool::MemPool;
use race_hash::subtable::{Slot, SlotPos};
use race_hash::utils::RaceUtils;

fn s(x: &str) -> String {
    String::from(x)
}

fn key(i: usize) -> String {
    format!("key{}", i)
}

fn dir_hash(k: &String) -> u64 {
    race_hash::hash::Hash::hash(k, HashMethod::Directory)
}

/// Stores the record of `k` in the first slot of bucket 0 of its first
/// group in the subtable at `ptr`, and returns the position.
fn place(pool: &mut MemPool, ptr: u64, k: &String, v: &str) -> SlotPos {
    let g = race_hash::hash::Hash::hash(k, HashMethod::CombinedBucket1) as usize;
    let block = pool.write_kv(k.clone(), s(v)).unwrap();
    let mut slot = 0;
    loop {
        let pos = SlotPos { subtable: ptr, bucket_group: g, bucket: 0, header: 0, slot };
        if pool.write_slot(&pos, RaceUtils::set_data(k, &s(v), block), 0) {
            return pos;
        }
        slot += 1;
    }
}

#[test]
fn slot_read_with_checksum() {
    let mut pool = MemPool::new();
    let ptr = pool.get_entry(1).get_subtable_pointer();
    let k = s("key42");
    let pos = place(&mut pool, ptr, &k, "val42");
    let (word, kv) = Client::read_from_slot_pos_with_crc_check(&pool, &pos);
    assert_eq!(word, pool.read_slot(&pos));
    let kv = kv.unwrap();
    assert_eq!((kv.key.as_str(), kv.value.as_str()), ("key42", "val42"));
    let empty = SlotPos { slot: 6, ..pos };
    assert_eq!(Client::read_from_slot_pos_with_crc_check(&pool, &empty).0, 0);
    assert!(Client::read_from_slot_pos_with_crc_check(&pool, &empty).1.is_none());
}

#[test]
fn one_slot_migrates_by_its_suffix() {
    let mut pool = MemPool::new();
    let old = pool.get_entry(0).get_subtable_pointer();
    let new = pool.new_subtable(2, 2).unwrap();
    let moving = (0..).map(key).find(|k| dir_hash(k) & 3 == 2).unwrap();
    let staying = (0..).map(key).find(|k| dir_hash(k) & 3 == 0).unwrap();
    let a = place(&mut pool, old, &moving, "m");
    let b = place(&mut pool, old, &staying, "s");
    let word_a = pool.read_slot(&a);
    let word_b = pool.read_slot(&b);
    Client::move_item(&mut pool, old, new, a.bucket_group, a.bucket, a.slot, 2, 2);
    Client::move_item(&mut pool, old, new, b.bucket_group, b.bucket, b.slot, 2, 2);
    // an empty slot: nothing happens
    Client::move_item(&mut pool, old, new, 0, 1, 6, 2, 2);
    assert_eq!(pool.read_slot(&a), 0);
    assert_eq!(pool.read_slot(&SlotPos { subtable: new, ..a }), word_a);
    assert_eq!(pool.read_slot(&b), word_b);
    assert_eq!(pool.read_slot(&SlotPos { subtable: new, ..b }), 0);
    // the record itself did not move
    assert_eq!(Slot { data: word_a }.get_kv(&pool.kvs).unwrap().value, "m");
    assert_eq!(pool.kvs.len(), 2);
}

#[test]
fn split_by_hand() {
    let mut pool = MemPool::new();
    let mut client = Client::new(&pool);
    for i in 0..400 {
        assert_eq!(client.insert(&mut pool, &key(i), &format!("v{}", i)), Ok(true));
    }
    // the directory has to be doubled before subtable 0 can be split
    client.double_size(&mut pool);
    assert_eq!(client.get_directory().global_depth, 2);
    let old_ptr = pool.get_entry(0).get_subtable_pointer();
    client.lock_suffix_and_flush(&mut pool, 0, 2, 2);
    let locks: Vec<u8> = (0..4).map(|i| pool.get_entry(i).get_lock()).collect();
    assert_eq!(locks, vec![1, 0, 1, 0]);
    assert!(client.split_entry(&mut pool, 0));
    // the entries are repointed, still locked; the copy is not
    let new_ptr = pool.get_entry(2).get_subtable_pointer();
    assert_ne!(new_ptr, old_ptr);
    assert_eq!(pool.get_entry(0).data, (1 << 56) | (2 << 48) | old_ptr);
    assert_eq!(pool.get_entry(2).data, (1 << 56) | (2 << 48) | new_ptr);
    assert_eq!(client.get_directory().entries[2].get_data(), (2 << 48) | new_ptr);
    let headers: Vec<u64> = (0..4)
        .map(|i| {
            let p = pool.get_entry(i).get_subtable_pointer();
            pool.subtables.get(&p).unwrap().get_bucket_header_atomic(5, 1).data
        })
        .collect();
    assert_eq!(
        headers,
        vec![0x0200_0000_0000_0000, 0x0100_0000_0000_0001, 0x0200_0000_0000_0002,
            0x0100_0000_0000_0001]
    );
    client.move_items(&mut pool, 0, 2, 2);
    client.unlock_suffix(&mut pool, 2);
    client.unlock_suffix(&mut pool, 0);
    let locks: Vec<u8> = (0..4).map(|i| pool.get_entry(i).get_lock()).collect();
    assert_eq!(locks, vec![0, 0, 0, 0]);
    for i in 0..400 {
        let k = key(i);
        assert_eq!(client.search(&pool, &k), Some(format!("v{}", i)));
        // each key sits in the subtable of its suffix
        let h = dir_hash(&k);
        let g1 = race_hash::hash::Hash::hash(&k, HashMethod::CombinedBucket1) as usize;
        let g2 = race_hash::hash::Hash::hash(&k, HashMethod::CombinedBucket2) as usize;
        let ptr = pool.get_entry((h & 3) as usize).get_subtable_pointer();
        let cbs = pool.subtables.get(&ptr).unwrap().get_by_bucket_group_ids(ptr, g1, g2).unwrap();
        assert!(cbs[0].get_by_key(&k, &pool.kvs).is_some()
            || cbs[1].get_by_key(&k, &pool.kvs).is_some());
    }
}

#[test]
fn entries_of_a_suffix_are_set_and_locked_together() {
    let mut pool = MemPool::new();
    let mut client = Client::new(&pool);
    client.double_size(&mut pool);
    client.double_size(&mut pool);
    assert_eq!(client.pub_get_size(), 8);
    // entries 1, 3, 5, 7 have the low bit 1
    client.lock_suffix(&mut pool, 1, 1);
    let locks: Vec<u8> = (0..8).map(|i| pool.get_entry(i).get_lock()).collect();
    assert_eq!(locks, vec![0, 1, 0, 1, 0, 1, 0, 1]);
    client.unlock_suffix(&mut pool, 1);
    // entries 6 of suffix 2 at depth 2, without entry 2 itself
    client.lock_suffix_without_self(&mut pool, 2, 2);
    let locks: Vec<u8> = (0..8).map(|i| pool.get_entry(i).get_lock()).collect();
    assert_eq!(locks, vec![0, 0, 0, 0, 0, 0, 1, 0]);
    client.unlock_all(&mut pool);
    client.lock_suffix_helper(&mut pool, 0, 1, 1, true);
    let locks: Vec<u8> = (0..8).map(|i| pool.get_entry(i).get_lock()).collect();
    assert_eq!(locks, vec![1, 1, 0, 0, 0, 0, 0, 0]);
    client.lock_suffix_helper(&mut pool, 0, 1, 1, false);
    let locks: Vec<u8> = (0..8).map(|i| pool.get_entry(i).get_lock()).collect();
    assert_eq!(locks, vec![1, 1, 1, 1, 1, 1, 1, 1]);
    // with the locks held, new words go to the pool locked
    let before = pool.get_entry(5).data;
    client.set_local_entries_and_push(&mut pool, 1, 0x5000, 2);
    assert_eq!(pool.get_entry(1).data, (1 << 56) | (2 << 48) | 0x5000);
    assert_eq!(pool.get_entry(5).data, (1 << 56) | (2 << 48) | 0x5000);
    assert_eq!(pool.get_entry(3).data, before);
    assert_eq!(client.get_directory().entries[5].get_data(), (2 << 48) | 0x5000);
    client.set_local_entry_and_push(&mut pool, 3, 0x6000, 2);
    assert_eq!(pool.get_entry(3).data, (1 << 56) | (2 << 48) | 0x6000);
    // an entry beyond the live ones is written if it is zero
    client.init_local_entry_and_push(&mut pool, 8, 0x7000, 3);
    assert_eq!(pool.get_entry(8).data, (1 << 56) | (3 << 48) | 0x7000);
    client.init_local_entry_and_push(&mut pool, 8, 0x8000, 3);
    assert_eq!(pool.get_entry(8).data, (1 << 56) | (3 << 48) | 0x7000);
    client.clear_all_lock_status();
    client.refresh_directory_without_wait(&pool);
    assert_eq!(client.get_directory().entries[3].get_data(), (2 << 48) | 0x6000);
}
