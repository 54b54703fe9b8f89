use race_hash::client::Client;
use race_hash::kvblock::KVBlockMem;
use race_hash::subtable::{
    store_cas, store_set_header, Bucket, BucketGroup, CombinedBucket, Slot, SlotPos, Subtable,
};
use race_hash::utils::RaceUtils;
use std::collections::HashMap;

fn s(x: &str) -> String {
    String::from(x)
}

fn bucket_with(used: usize) -> Bucket {
    let mut b = Bucket::new(0x0100_0000_0000_0000);
    for i in 0..used {
        b.slots[i] = Slot { data: 0x0011_0000_0000_1000 + i as u64 };
    }
    b
}

fn combined(main: usize, overflow: usize, header_main: u64,
    header_overflow: u64) -> CombinedBucket {
    let mut m = bucket_with(main);
    m.header.data = header_main;
    let mut o = bucket_with(overflow);
    o.header.data = header_overflow;
    CombinedBucket { subtable: 0x7000, bucket_group: 3, main_bucket: m, overflow_bucket: o }
}

#[test]
fn used_slots_stop_at_the_first_empty_one() {
    assert_eq!(bucket_with(0).get_used_slot_num(), 0);
    assert_eq!(bucket_with(3).get_used_slot_num(), 3);
    assert_eq!(bucket_with(7).get_used_slot_num(), 7);
    // a hole: the slots behind it are not counted
    let mut b = bucket_with(5);
    b.slots[2] = Slot { data: 0 };
    assert_eq!(b.get_used_slot_num(), 2);
}

#[test]
fn combined_count_adds_overflow_only_when_main_is_full() {
    assert_eq!(combined(0, 0, 0, 0).count(), 0);
    assert_eq!(combined(6, 4, 0, 0).count(), 6);
    assert_eq!(combined(7, 0, 0, 0).count(), 7);
    assert_eq!(combined(7, 4, 0, 0).count(), 11);
    assert_eq!(combined(7, 7, 0, 0).count(), 14);
}

#[test]
fn slot_selection_prefers_the_smaller_count() {
    let a = combined(2, 0, 0xa, 0xb);
    let mut b = combined(1, 0, 0xc, 0xd);
    b.bucket_group = 9;
    let sp = Client::get_slot(&[a, b]).unwrap();
    assert_eq!(sp.subtable, 0x7000);
    assert_eq!(sp.bucket_group, 9);
    assert_eq!(sp.bucket, 2);
    assert_eq!(sp.slot, 1);
    assert_eq!(sp.header, 0xc);
}

#[test]
fn slot_selection_tie_goes_to_the_first() {
    let a = combined(4, 0, 0xa, 0xb);
    let mut b = combined(4, 0, 0xc, 0xd);
    b.bucket_group = 9;
    let sp = Client::get_slot(&[a, b]).unwrap();
    assert_eq!(sp.bucket_group, 3);
    assert_eq!(sp.bucket, 0);
    assert_eq!(sp.slot, 4);
    assert_eq!(sp.header, 0xa);
}

#[test]
fn overflow_only_placement() {
    // the other side is full: the eighth to fourteenth record of a side
    // land in the overflow bucket, slots 0 to 6
    let mut other = combined(7, 7, 0xc, 0xd);
    other.bucket_group = 9;
    for n in 7..14 {
        let this = combined(7, n - 7, 0xa, 0xb);
        let sp = Client::get_slot(&[this, other]).unwrap();
        assert_eq!(sp.bucket_group, 3);
        assert_eq!(sp.bucket, 1);
        assert_eq!(sp.slot, n - 7);
        assert_eq!(sp.header, 0xb);
        let sp = Client::get_slot(&[other, this]).unwrap();
        assert_eq!(sp.bucket_group, 3);
        assert_eq!(sp.bucket, 1);
        assert_eq!(sp.slot, n - 7);
    }
    // the seventh still goes to the main bucket
    let sp = Client::get_slot(&[combined(6, 0, 0xa, 0xb), other]).unwrap();
    assert_eq!((sp.bucket, sp.slot, sp.header), (0, 6, 0xa));
    let sp = Client::get_slot(&[other, combined(6, 0, 0xa, 0xb)]).unwrap();
    assert_eq!((sp.bucket, sp.slot, sp.header), (2, 6, 0xa));
    // the fifteenth finds no slot
    assert!(Client::get_slot(&[combined(7, 7, 0xa, 0xb), other]).is_none());
}

fn store_with(records: &[(u64, &str, &str)]) -> HashMap<u64, KVBlockMem> {
    let mut kvs = HashMap::new();
    for (p, k, v) in records {
        kvs.insert(*p, KVBlockMem::new(&s(k), &s(v)));
    }
    kvs
}

#[test]
fn slot_finds_its_record_by_fingerprint_and_key() {
    let kvs = store_with(&[(0x2000, "key42", "val42")]);
    let slot = Slot { data: RaceUtils::set_data(&s("key42"), &s("val42"), 0x2000) };
    let found = slot.get_by_key(&s("key42"), 207, &kvs).unwrap();
    assert_eq!(found.value, "val42");
    assert_eq!(found.klen, 5);
    // wrong fingerprint, wrong key, empty slot, dangling pointer
    assert!(slot.get_by_key(&s("key42"), 206, &kvs).is_none());
    assert!(slot.get_by_key(&s("key43"), 207, &kvs).is_none());
    assert!(Slot { data: 0 }.get_by_key(&s("key42"), 207, &kvs).is_none());
    let dangling = Slot { data: RaceUtils::set_data(&s("key42"), &s("val42"), 0x3000) };
    assert!(dangling.get_by_key(&s("key42"), 207, &kvs).is_none());
    assert!(dangling.get_kv(&kvs).is_none());
    assert_eq!(slot.get_kv(&kvs).unwrap().key, "key42");
}

#[test]
fn bucket_search_goes_past_holes() {
    let kvs = store_with(&[(0x2000, "a", "1"), (0x2100, "b", "2")]);
    let mut b = Bucket::new(0);
    b.slots[1] = Slot { data: RaceUtils::set_data(&s("a"), &s("1"), 0x2000) };
    b.slots[5] = Slot { data: RaceUtils::set_data(&s("b"), &s("2"), 0x2100) };
    assert_eq!(b.get_used_slot_num(), 0);
    assert_eq!(b.get_by_key(&s("b"), 98, &kvs).unwrap().value, "2");
    assert_eq!(b.get_slot_and_data(&s("b"), 98, &kvs), Some((5, b.slots[5].data)));
    assert_eq!(b.get_slot_and_data(&s("a"), 97, &kvs), Some((1, b.slots[1].data)));
    assert!(b.get_slot_and_data(&s("c"), 99, &kvs).is_none());
    assert_eq!(b.get(5), b.slots[5].data);
    assert_eq!(b.get_kv(1, &kvs).unwrap().value, "1");
    assert!(b.get_kv(0, &kvs).is_none());
}

#[test]
fn combined_bucket_reports_position_of_a_key() {
    let kvs = store_with(&[(0x2000, "a", "1"), (0x2100, "b", "2")]);
    let mut cb = combined(0, 0, 0xa, 0xb);
    cb.main_bucket.slots[2] = Slot { data: RaceUtils::set_data(&s("a"), &s("1"), 0x2000) };
    cb.overflow_bucket.slots[4] = Slot { data: RaceUtils::set_data(&s("b"), &s("2"), 0x2100) };
    let (sp, data) = cb.get_slot_pos_and_data(&s("a"), 1, &kvs).unwrap();
    assert_eq!((sp.subtable, sp.bucket_group, sp.bucket, sp.slot, sp.header), (0x7000, 3, 2, 2,
        0xa));
    assert_eq!(data, cb.main_bucket.slots[2].data);
    let (sp, data) = cb.get_slot_pos_and_data(&s("a"), 0, &kvs).unwrap();
    assert_eq!((sp.bucket, sp.slot), (0, 2));
    assert_eq!(data, cb.main_bucket.slots[2].data);
    let (sp, data) = cb.get_slot_pos_and_data(&s("b"), 0, &kvs).unwrap();
    assert_eq!((sp.bucket, sp.slot, sp.header), (1, 4, 0xb));
    assert_eq!(data, cb.overflow_bucket.slots[4].data);
    assert!(cb.get_slot_pos_and_data(&s("c"), 0, &kvs).is_none());
    assert_eq!(cb.get_by_key(&s("b"), &kvs).unwrap().value, "2");
    assert!(cb.get_by_key(&s("c"), &kvs).is_none());
}

#[test]
fn bucket_compare_and_swap_and_header() {
    let mut b = Bucket::new(7);
    assert_eq!(b.get_header(), 7);
    assert_eq!(b.get_header_atomic().data, 7);
    assert!(b.set(3, 99, 0));
    assert!(!b.set(3, 100, 0));
    assert_eq!(b.get(3), 99);
    b.set_header(2, 1);
    assert_eq!(b.get_header(), 0x0200_0000_0000_0001);
    assert_eq!(b.get(3), 99);
    let mut g = BucketGroup::new(0);
    assert!(g.set(2, 6, 5, 0));
    assert_eq!(g.get(2, 6), 5);
    assert_eq!(g.get(1, 6), 0);
    g.set_header(4, 9);
    for i in 0..3 {
        assert_eq!(g.buckets[i].get_header(), 0x0400_0000_0000_0009);
    }
    assert_eq!(g.get(2, 6), 5);
}

#[test]
fn subtable_snapshots_and_writes() {
    let mut t = Subtable::new(1, 1);
    assert_eq!(t.bucket_groups.len(), 1024);
    assert_eq!(t.get_bucket_header_atomic(1023, 2).data, 0x0100_0000_0000_0001);
    let pos = SlotPos { subtable: 0x9000, bucket_group: 5, bucket: 1, header: 0, slot: 3 };
    assert!(t.set(&pos, 77, 0));
    assert!(!t.set(&pos, 78, 0));
    assert_eq!(t.get(&pos), 77);
    let cbs = t.get_by_bucket_group_ids(0x9000, 5, 6).unwrap();
    assert_eq!(cbs[0].subtable, 0x9000);
    assert_eq!(cbs[0].bucket_group, 5);
    assert_eq!(cbs[1].bucket_group, 6);
    // bucket 1 of group 5 is the overflow bucket of the first snapshot only
    assert_eq!(cbs[0].overflow_bucket.slots[3].data, 77);
    assert_eq!(cbs[1].overflow_bucket.slots[3].data, 0);
    assert_eq!(cbs[0].main_bucket.get_header(), 0x0100_0000_0000_0001);
    // both sides of one group share the overflow bucket
    let same = t.get_by_bucket_group_ids(0x9000, 5, 5).unwrap();
    assert_eq!(same[0].overflow_bucket.slots[3].data, 77);
    assert_eq!(same[1].overflow_bucket.slots[3].data, 77);
    assert!(t.get_by_bucket_group_ids(0x9000, 1024, 0).is_none());
    assert!(t.get_by_bucket_group_ids(0x9000, 0, 1024).is_none());
    t.set_header(2, 3);
    assert_eq!(t.get_bucket_header_atomic(0, 0).data, 0x0200_0000_0000_0003);
    assert_eq!(t.get(&pos), 77);
}

#[test]
fn table_store_compare_and_swap() {
    let mut tables: HashMap<u64, Subtable> = HashMap::new();
    tables.insert(0x9000, Subtable::new(1, 0));
    let pos = SlotPos { subtable: 0x9000, bucket_group: 0, bucket: 0, header: 0, slot: 0 };
    assert!(store_cas(&mut tables, &pos, 5, 0));
    assert!(!store_cas(&mut tables, &pos, 6, 0));
    assert_eq!(tables.get(&0x9000).unwrap().get(&pos), 5);
    let nowhere = SlotPos { subtable: 0x8000, bucket_group: 0, bucket: 0, header: 0, slot: 0 };
    assert!(!store_cas(&mut tables, &nowhere, 5, 0));
    assert!(store_set_header(&mut tables, 0x9000, 3, 4));
    assert!(!store_set_header(&mut tables, 0x8000, 3, 4));
    assert_eq!(
        tables.get(&0x9000).unwrap().get_bucket_header_atomic(7, 1).data,
        0x0300_0000_0000_0004
    );
    assert_eq!(tables.get(&0x9000).unwrap().get(&pos), 5);
}
