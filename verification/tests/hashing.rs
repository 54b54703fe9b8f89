use race_hash::hash::HashMethod;
use race_hash::kvblock::{crc_matches, record_checksum, KVBlockMem};
use race_hash::utils::RaceUtils;

fn s(x: &str) -> String {
    String::from(x)
}

#[test]
fn rolling_hashes_of_short_keys() {
    assert_eq!(race_hash::hash::Hash::hash_1(&s(""), 1024), 0);
    assert_eq!(race_hash::hash::Hash::hash_1(&s("a"), 1024), 97);
    assert_eq!(race_hash::hash::Hash::hash_1(&s("ab"), 1024), 33);
    assert_eq!(race_hash::hash::Hash::hash_2(&s("ab"), 1024), 517);
    assert_eq!(race_hash::hash::Hash::hash_3(&s("ab"), 256), 227);
    assert_eq!(race_hash::hash::Hash::hash_4(&s("ab"), 65536), 28621);
}

#[test]
fn hash_by_role() {
    let k = s("key42");
    assert_eq!(race_hash::hash::Hash::hash(&k, HashMethod::CombinedBucket1), 285);
    assert_eq!(race_hash::hash::Hash::hash(&k, HashMethod::CombinedBucket2), 17);
    assert_eq!(race_hash::hash::Hash::hash(&k, HashMethod::FingerPrint), 207);
    assert_eq!(race_hash::hash::Hash::hash(&k, HashMethod::Directory), 9337);
    assert_eq!(race_hash::hash::Hash::hash(&s("hello"), HashMethod::CombinedBucket1), 210);
    assert_eq!(race_hash::hash::Hash::hash(&s("hello"), HashMethod::Directory), 29926);
}

#[test]
fn hash_reduces_at_each_step() {
    // capacity 1: every hash is zero
    assert_eq!(race_hash::hash::Hash::hash_1(&s("anything"), 1), 0);
    // a capacity that the multiplier would overflow without the reduction
    let big: usize = 1 << 40;
    let h = race_hash::hash::Hash::hash_4(&s("zzzzzzzzzzzzzzzzzzzzzzzz"), big);
    assert!((h as usize) < big);
}

#[test]
fn key_suffix_is_low_bits_of_directory_hash() {
    let k = s("key42");
    // 9337 = 0b10_0100_0111_1001
    assert_eq!(RaceUtils::get_suffix(&k, 0), 0);
    assert_eq!(RaceUtils::get_suffix(&k, 1), 1);
    assert_eq!(RaceUtils::get_suffix(&k, 4), 9);
    assert_eq!(RaceUtils::get_suffix(&k, 16), 9337);
}

#[test]
fn slot_word_of_a_record() {
    let data = RaceUtils::set_data(&s("key42"), &s("val42"), 0x2000);
    // fingerprint 207, length 16 + 5 + 5
    assert_eq!(data, (207u64 << 56) | (26u64 << 48) | 0x2000);
}

#[test]
fn checksum_is_crc64_redis() {
    assert_eq!(record_checksum(&s("123456789"), &s("")), 0xe9c6d914c4b8d9ca);
    assert_eq!(record_checksum(&s("12345"), &s("6789")), 0xe9c6d914c4b8d9ca);
    assert_eq!(record_checksum(&s(""), &s("")), 0);
    assert_eq!(record_checksum(&s("key42"), &s("val42")), 0x09f6e61d41f09cc2);
}

#[test]
fn check_crc_compares_with_the_checksum_of_key_and_value() {
    assert!(RaceUtils::check_crc(&s("12345"), &s("6789"), 0xe9c6d914c4b8d9ca));
    assert!(!RaceUtils::check_crc(&s("12345"), &s("6789"), 0xe9c6d914c4b8d9cb));
    assert!(!RaceUtils::check_crc(&s("12345"), &s("678"), 0xe9c6d914c4b8d9ca));
    assert!(crc_matches(4, 4));
    assert!(!crc_matches(4, 5));
}

#[test]
fn record_header_holds_lengths_and_checksum() {
    let m = KVBlockMem::new(&s("key42"), &s("val4"));
    assert_eq!(m.klen, 5);
    assert_eq!(m.vlen, 4);
    assert_eq!(m.get_total_length(), 25);
    assert!(RaceUtils::check_crc(&m.key, &m.value, m.crc64));
    let b = m.get();
    assert_eq!(b.key, "key42");
    assert_eq!(b.value, "val4");
    assert_eq!(b.klen, 5);
    assert_eq!(b.vlen, 4);
    assert_eq!(b.crc64, m.crc64);
}

#[test]
fn record_lengths_count_bytes_not_characters() {
    let m = KVBlockMem::new(&s("é"), &s("日本"));
    assert_eq!(m.klen, 2);
    assert_eq!(m.vlen, 6);
    assert_eq!(m.get_total_length(), 24);
}
