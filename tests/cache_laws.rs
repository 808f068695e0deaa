use lru_cache_store::memory_cache::debug_join;
use lru_cache_store::{Count, FileSize, LruCache, Meter, VecLen};

#[test]
fn weight_stays_within_capacity() {
    let mut cache = LruCache::with_meter(7, VecLen);
    cache.insert(1u64, vec![0u8; 3]);
    cache.insert(2u64, vec![0u8; 3]);
    assert_eq!(cache.size(), 6);
    cache.insert(3u64, vec![0u8; 4]);
    assert!(cache.size() <= 7);
    assert_eq!(cache.size(), 7);
    assert!(!cache.contains_key(&1));
    cache.insert(2u64, vec![0u8; 1]);
    assert_eq!(cache.size(), 5);
    let sum: usize = cache.iter().iter().map(|(_, v)| v.len()).sum();
    assert_eq!(sum as u64, cache.size());
}

#[test]
fn zero_capacity_stays_empty() {
    let mut cache = LruCache::new(0);
    assert_eq!(cache.insert(1, 10), None);
    assert_eq!(cache.len(), 0);
    assert_eq!(cache.size(), 0);
    assert!(cache.is_empty());
    assert!(!cache.contains_key(&1));
}

#[test]
fn zero_capacity_drops_weightless_entries() {
    let mut cache = LruCache::with_meter(0, VecLen);
    cache.insert("a", Vec::<u8>::new());
    assert_eq!(cache.len(), 0);
    assert_eq!(cache.size(), 0);
}

#[test]
fn set_capacity_zero_empties() {
    let mut cache = LruCache::with_meter(4, VecLen);
    cache.insert(1u8, Vec::<u8>::new());
    cache.insert(2u8, vec![1u8]);
    cache.set_capacity(0);
    assert!(cache.is_empty());
}

#[test]
fn debug_join_braces_and_separates() {
    let parts = vec![String::from("a: 1"), String::from("b: 2")];
    assert_eq!(debug_join(&parts), "{a: 1, b: 2}");
    assert_eq!(debug_join(&Vec::new()), "{}");
    assert_eq!(debug_join(&vec![String::from("x")]), "{x}");
}

#[test]
fn debug_string_uses_debug_formatting() {
    let mut cache = LruCache::new(2);
    cache.insert("k", String::from("v"));
    assert_eq!(cache.debug_string(), "{\"k\": \"v\"}");
}

#[test]
fn reinsert_replaces_and_moves_to_head() {
    let mut cache = LruCache::new(3);
    cache.insert(1, 10);
    cache.insert(2, 20);
    cache.insert(3, 30);
    assert_eq!(cache.insert(1, 11), Some(10));
    assert_eq!(cache.len(), 3);
    assert_eq!(cache.iter(), [(&1, &11), (&3, &30), (&2, &20)]);
}

#[test]
fn oversize_reinsert_returns_previous_value() {
    let mut cache = LruCache::with_meter(2, VecLen);
    cache.insert("k", vec![1]);
    assert_eq!(cache.insert("k", vec![1, 2, 3]), Some(vec![1]));
    assert!(!cache.contains_key(&"k"));
    assert_eq!(cache.size(), 0);
}

#[test]
fn get_agrees_with_contains_key() {
    let mut cache = LruCache::new(2);
    cache.insert(String::from("a"), 1);
    for k in ["a", "b"] {
        let key = String::from(k);
        let present = cache.contains_key(&key);
        assert_eq!(cache.get(&key).is_some(), present);
    }
    assert!(cache.contains_key(&String::from("a")));
}

#[test]
fn get_moves_key_to_head() {
    let mut cache = LruCache::new(3);
    cache.insert(1, 10);
    cache.insert(2, 20);
    cache.insert(3, 30);
    assert_eq!(cache.get(&1), Some(&10));
    assert_eq!(cache.iter(), [(&1, &10), (&3, &30), (&2, &20)]);
    cache.insert(4, 40);
    assert!(!cache.contains_key(&2));
    assert!(cache.contains_key(&1));
}

#[test]
fn peek_does_not_promote() {
    let mut cache = LruCache::new(2);
    cache.insert(1, 10);
    cache.insert(2, 20);
    assert_eq!(cache.peek(&1), Some(&10));
    assert_eq!(cache.peek(&9), None);
    cache.insert(3, 30);
    assert!(!cache.contains_key(&1));
}

#[test]
fn get_mut_writes_without_reweighing() {
    let mut cache = LruCache::with_meter(4, VecLen);
    cache.insert(1u32, vec![1, 2]);
    cache.insert(2u32, vec![3]);
    if let Some(v) = cache.get_mut(&1) {
        v.push(9);
        v.push(9);
    }
    assert_eq!(cache.size(), 3);
    assert_eq!(cache.peek(&1), Some(&vec![1, 2, 9, 9]));
    assert_eq!(cache.iter()[0].0, &1);
}

#[test]
fn iter_mut_writes_values() {
    let mut cache = LruCache::new(3);
    cache.insert(1, 10);
    cache.insert(2, 20);
    for (_, v) in cache.iter_mut() {
        *v += 1;
    }
    assert_eq!(cache.iter(), [(&2, &21), (&1, &11)]);
}

#[test]
fn remove_lru_takes_tail() {
    let mut cache = LruCache::new(3);
    assert_eq!(cache.remove_lru(), None);
    cache.insert(1, 10);
    cache.insert(2, 20);
    assert_eq!(cache.remove_lru(), Some((1, 10)));
    assert_eq!(cache.len(), 1);
    assert_eq!(cache.size(), 1);
    assert_eq!(cache.remove(&7), None);
}

#[test]
fn set_capacity_evicts_from_tail() {
    let mut cache = LruCache::new(4);
    for i in 0..4 {
        cache.insert(i, i * 10);
    }
    cache.set_capacity(2);
    assert_eq!(cache.iter(), [(&3, &30), (&2, &20)]);
    assert_eq!(cache.capacity(), 2);
    cache.set_capacity(5);
    assert_eq!(cache.len(), 2);
}

#[test]
fn meters_measure() {
    assert_eq!(Meter::<u64, u64>::measure(&Count, &1, &77), 1);
    assert_eq!(Meter::<u64, u64>::measure(&FileSize, &1, &77), 77);
    assert_eq!(Meter::<u64, Vec<u8>>::measure(&VecLen, &1, &vec![1, 2, 3]), 3);
}

#[test]
fn str_keys_compare_by_content() {
    let mut cache = LruCache::new(3);
    let owned = String::from("héllo");
    cache.insert("héllo", 1);
    assert!(cache.contains_key(&owned.as_str()));
    assert!(!cache.contains_key(&"héll"));
    assert!(!cache.contains_key(&"hello"));
}
