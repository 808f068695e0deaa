use lru_cache_store::disk_cache::sort_by_mtime;
use lru_cache_store::{Error, FoundFile, LruDiskCache, Removal};

fn found(rel: &str, size: u64, mtime: u128) -> FoundFile {
    FoundFile { rel_path: String::from(rel), size, mtime }
}

fn keys(cache: &LruDiskCache, names: &[&str]) -> Vec<bool> {
    names.iter().map(|n| cache.contains_key(n)).collect()
}

#[test]
fn recovery_drops_oldest_file() {
    let files = vec![found("c", 1, 30), found("a", 1, 10), found("b", 1, 20)];
    let (cache, removals) = LruDiskCache::new(String::from("/cache"), 2, files);
    assert_eq!(removals, vec![Removal::Evicted(String::from("a"))]);
    assert_eq!(cache.size(), 2);
    assert_eq!(cache.len(), 2);
    assert_eq!(keys(&cache, &["a", "b", "c"]), vec![false, true, true]);
}

#[test]
fn recovery_unlinks_oversize_files() {
    let files = vec![found("big", 9, 1), found("x/small", 2, 2)];
    let (cache, removals) = LruDiskCache::new(String::from("/cache"), 4, files);
    assert_eq!(removals, vec![Removal::Oversize(String::from("big"))]);
    assert_eq!(cache.len(), 1);
    assert!(cache.contains_key("x/small"));
    assert_eq!(cache.size(), 2);
    assert!(!cache.is_empty());
}

#[test]
fn sort_by_mtime_is_stable() {
    let files = vec![found("b", 1, 5), found("a", 1, 3), found("c", 1, 5), found("d", 1, 1)];
    let sorted = sort_by_mtime(files);
    assert_eq!(sorted.len(), 4);
    let names: Vec<&str> = sorted.iter().map(|f| f.rel_path.as_str()).collect();
    assert_eq!(names, vec!["d", "a", "b", "c"]);
}

#[test]
fn add_file_refuses_too_large() {
    let (mut cache, _) = LruDiskCache::new(String::from("/cache"), 10, Vec::new());
    assert!(cache.can_store(10));
    assert!(!cache.can_store(11));
    assert!(matches!(cache.add_file(String::from("k"), 11), Err(Error::FileTooLarge)));
    assert_eq!(cache.len(), 0);
    assert_eq!(cache.capacity(), 10);
}

#[test]
fn add_file_evicts_before_recording() {
    let (mut cache, _) = LruDiskCache::new(String::from("/cache"), 10, Vec::new());
    assert_eq!(cache.add_file(String::from("a"), 4).unwrap(), Vec::<String>::new());
    assert_eq!(cache.add_file(String::from("b"), 4).unwrap(), Vec::<String>::new());
    assert_eq!(cache.add_file(String::from("c"), 7).unwrap(), vec![String::from("a"), String::from("b")]);
    assert_eq!(cache.size(), 7);
    assert_eq!(keys(&cache, &["a", "b", "c"]), vec![false, false, true]);
}

#[test]
fn add_file_replaces_same_key_without_unlinking_it() {
    let (mut cache, _) = LruDiskCache::new(String::from("/cache"), 10, Vec::new());
    cache.add_file(String::from("a"), 6).unwrap();
    assert_eq!(cache.add_file(String::from("a"), 6).unwrap(), Vec::<String>::new());
    assert_eq!(cache.size(), 6);
    assert_eq!(cache.len(), 1);
}

#[test]
fn reinsert_least_recent_key_evicts_others_only() {
    let (mut cache, _) = LruDiskCache::new(String::from("/cache"), 5, Vec::new());
    cache.add_file(String::from("foo1"), 2).unwrap();
    cache.add_file(String::from("foo2"), 2).unwrap();
    assert_eq!(cache.add_file(String::from("foo3"), 2).unwrap(), vec![String::from("foo1")]);
    assert_eq!(cache.add_file(String::from("foo2"), 2).unwrap(), Vec::<String>::new());
    assert_eq!(cache.add_file(String::from("foo4"), 2).unwrap(), vec![String::from("foo3")]);
    assert_eq!(cache.size(), 4);
    assert_eq!(keys(&cache, &["foo2", "foo3", "foo4"]), vec![true, false, true]);
}

#[test]
fn reinsert_at_capacity_one_keeps_key() {
    let (mut cache, _) = LruDiskCache::new(String::from("/cache"), 1, Vec::new());
    cache.add_file(String::from("1"), 1).unwrap();
    assert_eq!(cache.add_file(String::from("1"), 1).unwrap(), Vec::<String>::new());
    assert_eq!(cache.get("1").unwrap(), "/cache/1");
    assert_eq!(cache.len(), 1);
}

#[test]
fn zero_capacity_disk_cache_stays_empty() {
    let (mut cache, _) = LruDiskCache::new(String::from("/cache"), 0, Vec::new());
    assert!(matches!(cache.add_file(String::from("k"), 1), Err(Error::FileTooLarge)));
    assert_eq!(cache.add_file(String::from("k"), 0).unwrap(), vec![String::from("k")]);
    assert!(cache.is_empty());
    assert_eq!(cache.size(), 0);
    let (reopened, removals) = LruDiskCache::new(String::from("/cache"), 0, vec![found("e", 0, 1)]);
    assert_eq!(removals, vec![Removal::Evicted(String::from("e"))]);
    assert!(reopened.is_empty());
}

#[test]
fn get_promotes_and_names_the_file() {
    let (mut cache, _) = LruDiskCache::new(String::from("/cache"), 2, Vec::new());
    cache.add_file(String::from("a"), 1).unwrap();
    cache.add_file(String::from("b"), 1).unwrap();
    assert_eq!(cache.get("a").unwrap(), "/cache/a");
    assert_eq!(cache.add_file(String::from("c"), 1).unwrap(), vec![String::from("b")]);
    assert!(matches!(cache.get("b"), Err(Error::FileNotInCache)));
}

#[test]
fn remove_names_the_file_to_unlink() {
    let (mut cache, _) = LruDiskCache::new(String::from("/cache/"), 5, Vec::new());
    cache.add_file(String::from("d/e"), 3).unwrap();
    assert_eq!(cache.remove("d/e"), Some(String::from("/cache/d/e")));
    assert_eq!(cache.remove("d/e"), None);
    assert_eq!(cache.size(), 0);
}

#[test]
fn paths_join_root_and_key() {
    let (cache, _) = LruDiskCache::new(String::from("/tmp/root"), 5, Vec::new());
    assert_eq!(cache.path(), "/tmp/root");
    assert_eq!(cache.rel_to_abs_path("x/y"), "/tmp/root/x/y");
    let (slash, _) = LruDiskCache::new(String::from("/tmp/root/"), 5, Vec::new());
    assert_eq!(slash.rel_to_abs_path("x"), "/tmp/root/x");
}

#[test]
fn prepare_insert_checks_known_size() {
    let (cache, _) = LruDiskCache::new(String::from("/r"), 5, Vec::new());
    assert!(matches!(cache.prepare_insert("k", Some(6)), Err(Error::FileTooLarge)));
    assert_eq!(cache.prepare_insert("k", Some(5)).unwrap(), "/r/k");
    assert_eq!(cache.prepare_insert("k", None).unwrap(), "/r/k");
}

#[test]
fn stored_weight_is_file_length() {
    let (mut cache, _) = LruDiskCache::new(String::from("/r"), 100, Vec::new());
    cache.add_file(String::from("a"), 17).unwrap();
    cache.add_file(String::from("b"), 25).unwrap();
    assert_eq!(cache.size(), 42);
}

#[test]
fn reopen_gives_same_content() {
    let (mut cache, _) = LruDiskCache::new(String::from("/r"), 10, Vec::new());
    cache.add_file(String::from("a"), 3).unwrap();
    cache.add_file(String::from("b"), 4).unwrap();
    cache.add_file(String::from("c"), 2).unwrap();
    cache.get("a").unwrap();
    // Recency from least to most recent: b, c, a; times follow it.
    let files = vec![found("a", 3, 300), found("b", 4, 100), found("c", 2, 200)];
    let (again, removals) = LruDiskCache::new(String::from("/r"), 10, files);
    assert!(removals.is_empty());
    assert_eq!(again.size(), cache.size());
    assert_eq!(again.len(), cache.len());
    let (mut again, _) = (again, ());
    assert_eq!(again.add_file(String::from("d"), 5).unwrap(), vec![String::from("b")]);
    assert_eq!(cache.add_file(String::from("d"), 5).unwrap(), vec![String::from("b")]);
}

#[test]
fn io_errors_convert() {
    let e: Error = std::io::Error::new(std::io::ErrorKind::NotFound, "gone").into();
    assert!(matches!(e, Error::Io(_)));
}
