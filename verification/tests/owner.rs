use race_hash::client::RaceError;
use race_hash::computepool::ComputePool;

fn s(x: &str) -> String {
    String::from(x)
}

#[test]
fn index_in_one_value() {
    let mut index = ComputePool::new();
    assert_eq!(index.pub_get_size(), 2);
    assert_eq!(index.search(&s("key42")), None);
    assert_eq!(index.insert(&s("key42"), &s("val42")), Ok(true));
    assert_eq!(index.insert(&s("key42"), &s("other")), Ok(false));
    assert_eq!(index.search(&s("key42")), Some(s("val42")));
    assert_eq!(index.update(&s("key42"), &s("new")), Ok(true));
    assert_eq!(index.update(&s("nokey"), &s("new")), Ok(false));
    assert_eq!(index.search(&s("key42")), Some(s("new")));
    assert_eq!(index.pub_rehash(1), Ok(()));
    assert_eq!(index.pub_rehash(0), Ok(()));
    assert_eq!(index.pub_get_size(), 4);
    assert_eq!(index.get_directory().global_depth, 2);
    assert_eq!(index.get_mempool().get_global_length(), 2);
    // no such entry: nothing to split
    assert_eq!(index.pub_rehash(4), Ok(()));
    assert_eq!(index.pub_get_size(), 4);
    assert_eq!(index.search(&s("key42")), Some(s("new")));
    assert!(index.delete(&s("key42")));
    assert!(!index.delete(&s("key42")));
    assert_eq!(index.insert(&"k".repeat(240), &s("")), Err(RaceError::InvalidSize));
    assert_eq!(index.insert(&"k".repeat(239), &s("")), Ok(true));
}
