use race_hash::config::RaceConfig;
use race_hash::directory::{ClientEntry, MemPoolEntry};
use race_hash::subtable::{Header, Slot};
use race_hash::utils::{set_data, RaceUtils};

#[test]
fn slot_word_packs_fingerprint_length_pointer() {
    let data = set_data(0xab, 0x21, 0x0000_1234_5678_9abc);
    assert_eq!(data, 0xab21_1234_5678_9abc);
    let slot = Slot { data };
    assert_eq!(slot.get_fingerprint(), 0xab);
    assert_eq!(slot.get_length(), 0x21);
    assert_eq!(slot.get_kv_pointer(), 0x0000_1234_5678_9abc);
    assert_eq!(slot.get_data(), data);
    assert_eq!(slot.get_atomic(), data);
    assert!(!slot.judge_empty());
}

#[test]
fn slot_pointer_keeps_only_48_bits() {
    let data = set_data(1, 2, 0xffff_0000_0000_0001);
    assert_eq!(data, 0x0102_0000_0000_0001);
}

#[test]
fn slot_setters_change_one_field() {
    let mut slot = Slot { data: 0x1122_3344_5566_7788 };
    slot.set_fingerprint(0xee);
    assert_eq!(slot.data, 0xee22_3344_5566_7788);
    slot.set_length(0);
    assert_eq!(slot.data, 0xee00_3344_5566_7788);
    assert!(slot.judge_empty());
    slot.set_kv_pointer(0xabcd);
    assert_eq!(slot.data, 0xee00_0000_0000_abcd);
}

#[test]
fn empty_slot_is_zero_length() {
    assert!(Slot { data: 0 }.judge_empty());
    assert!(Slot { data: 0xff00_0000_0000_0001 }.judge_empty());
    assert!(!Slot { data: 0x0001_0000_0000_0000 }.judge_empty());
}

#[test]
fn slot_compare_and_swap_swaps_only_on_match() {
    let mut slot = Slot { data: 5 };
    assert!(!slot.compare_and_swap(9, 4));
    assert_eq!(slot.data, 5);
    assert!(slot.compare_and_swap(9, 5));
    assert_eq!(slot.data, 9);
}

#[test]
fn header_word_packs_depth_and_suffix() {
    let mut h = Header { data: 0 };
    h.set_local_depth(3);
    h.set_suffix(5);
    assert_eq!(h.get_data(), 0x0300_0000_0000_0005);
    assert_eq!(h.get_local_depth(), 3);
    assert_eq!(h.get_suffix(), 5);
    h.set_suffix(0xff00_0000_0000_0007);
    assert_eq!(h.get_data(), 0x0300_0000_0000_0007);
    h.set_local_depth(16);
    assert_eq!(h.get_data(), 0x1000_0000_0000_0007);
}

#[test]
fn entry_word_packs_lock_depth_pointer() {
    let mut e = ClientEntry { data: 0 };
    e.set_subtable_and_localdepth(0x30_1000, 2);
    assert_eq!(e.get_data(), 0x0002_0000_0030_1000);
    assert_eq!(e.get_local_depth(), 2);
    assert_eq!(e.get_subtable_pointer(), 0x30_1000);
    assert!(!e.check_is_locked());
    assert_eq!(e.get_locked_data(), 0x0102_0000_0030_1000);
    e.set_data(0x0102_0000_0030_1000);
    assert!(e.check_is_locked());
    e.clear_lock_status();
    assert_eq!(e.get_data(), 0x0002_0000_0030_1000);
    e.set_local_depth(7);
    assert_eq!(e.get_data(), 0x0007_0000_0030_1000);
    e.set_subtable_pointer(0x40_0000);
    assert_eq!(e.get_data(), 0x0007_0000_0040_0000);
}

#[test]
fn pool_entry_lock_is_compare_and_swap() {
    let mut e = MemPoolEntry { data: 0x0001_0000_0000_2000 };
    assert_eq!(e.get_lock(), 0);
    assert_eq!(e.get_local_depth(), 1);
    assert_eq!(e.get_subtable_pointer(), 0x2000);
    // a stale expectation fails and reports the word found
    assert_eq!(e.try_lock(0x0002_0000_0000_2000, 1), Err(0x0001_0000_0000_2000));
    assert_eq!(e.data, 0x0001_0000_0000_2000);
    assert_eq!(e.try_lock(0x0001_0000_0000_2000, 1), Ok(0x0001_0000_0000_2000));
    assert_eq!(e.data, 0x0101_0000_0000_2000);
    assert_eq!(e.get_lock(), 1);
    // locked twice: the second try sees the lock
    assert_eq!(e.try_lock(0x0001_0000_0000_2000, 1), Err(0x0101_0000_0000_2000));
    assert_eq!(e.try_unlock(0x0101_0000_0000_2000), Ok(0x0101_0000_0000_2000));
    assert_eq!(e.data, 0x0001_0000_0000_2000);
    assert_eq!(MemPoolEntry::set_lock_data(0x0001_0000_0000_2000, 1), 0x0101_0000_0000_2000);
}

#[test]
fn pool_entry_initial_and_update() {
    let mut e = MemPoolEntry { data: 0 };
    assert!(e.initial(7));
    assert_eq!(e.data, 7);
    assert!(!e.initial(9));
    assert_eq!(e.data, 7);
    assert!(!e.update(8, 10));
    assert!(e.update(7, 10));
    assert_eq!(e.data, 10);
    let mut f = MemPoolEntry { data: 0x0100_0000_0000_0000 };
    f.copy_from(&MemPoolEntry { data: 0x0003_0000_0000_4000 });
    assert_eq!(f.data, 0x0103_0000_0000_4000);
    f.set_subtable_and_localdepth(0x5000, 4);
    assert_eq!(f.data, 0x0104_0000_0000_5000);
    f.set_local_depth(5);
    f.set_subtable_pointer(0x6000);
    assert_eq!(f.data, 0x0105_0000_0000_6000);
}

#[test]
fn suffix_arithmetic() {
    assert_eq!(RaceUtils::restrict_suffix_to(0b1011_0110, 4), 0b0110);
    assert_eq!(RaceUtils::restrict_suffix_to(0b1011_0110, 0), 0);
    assert_eq!(RaceUtils::restrict_suffix_to(u64::MAX, 16), 0xffff);
    assert_eq!(RaceUtils::add_bit_to_suffix(0b0101, 2), 0b0111);
    assert_eq!(RaceUtils::add_bit_to_suffix(0b0101, 1), 0b0101);
    assert_eq!(RaceUtils::plus_bit_to_suffix(0b0101, 1), 0b0110);
    assert_eq!(RaceUtils::plus_bit_to_suffix(2, 3), 6);
    assert_eq!(RaceUtils::depth_to_size(0), 1);
    assert_eq!(RaceUtils::depth_to_size(1), 2);
    assert_eq!(RaceUtils::depth_to_size(16), 65536);
    assert_eq!(RaceUtils::get_new_suffix_from_old(0, 1), 2);
    assert_eq!(RaceUtils::get_new_suffix_from_old(1, 1), 3);
    assert_eq!(RaceUtils::get_new_suffix_from_old(2, 2), 6);
    assert_eq!(RaceUtils::get_new_suffix_from_old(2, 3), 10);
    assert!(!RaceUtils::check_is_locked(0x00ff_ffff_ffff_ffff));
    assert!(RaceUtils::check_is_locked(0x0100_0000_0000_0000));
}

#[test]
fn configuration_defaults() {
    let c = RaceConfig::new();
    assert_eq!(c.bucket_group_num, 1024);
    assert_eq!(c.bucket_num, 3);
    assert_eq!(c.slot_num, 7);
    assert_eq!(c.page_size, 4096);
    assert_eq!(c.align_bytes, 8);
    assert_eq!(c.max_entry_num, 1 << 16);
    assert_eq!(c.max_try_lock_times, 5);
    assert_eq!(c.slot_len_offset, 1);
    assert!(!c.enable_mm_debug);
}
