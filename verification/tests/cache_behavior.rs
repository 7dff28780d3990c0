use dirscan::cache::ScanCache;
use dirscan::items::{FileEntry, ScanResult};
use dirscan::scan::{complete_scan, try_cached};

fn entry(path: &str, size: i64) -> FileEntry {
    FileEntry { path: path.to_string(), size }
}

fn empty_result(path: &str) -> ScanResult {
    ScanResult {
        items: Vec::new(),
        total_size: 0,
        total_size_formatted: "0 B".to_string(),
        scan_time_millis: 0,
        path: path.to_string(),
    }
}

#[test]
fn second_scan_of_unchanged_root_is_served_from_cache() {
    let mut cache = ScanCache::new(50, 100);
    let root = "/r".to_string();
    let files = vec![entry("/r/a/f1.txt", 100), entry("/r/g.txt", 7)];
    let first = complete_scan(&mut cache, &root, &root, &files, 10, 42);
    assert_eq!(first.scan_time_millis, 42);

    let second = try_cached(&cache, &root, 10, false).expect("fresh entry must be served");
    assert_eq!(second.scan_time_millis, 0);
    assert_eq!(second.total_size, first.total_size);
    assert_eq!(second.items.len(), first.items.len());
    for (a, b) in first.items.iter().zip(second.items.iter()) {
        assert_eq!(a.path, b.path);
        assert_eq!(a.size, b.size);
        assert_eq!(a.is_dir, b.is_dir);
    }
}

#[test]
fn forced_refresh_bypasses_the_cache() {
    let mut cache = ScanCache::new(50, 100);
    let root = "/r".to_string();
    let files = vec![entry("/r/g.txt", 7)];
    complete_scan(&mut cache, &root, &root, &files, 10, 1);
    assert!(try_cached(&cache, &root, 10, true).is_none());
}

#[test]
fn stale_entry_is_not_served_and_rescan_sees_new_file() {
    let mut cache = ScanCache::new(50, 100);
    let root = "/r".to_string();
    let files = vec![entry("/r/g.txt", 7)];
    complete_scan(&mut cache, &root, &root, &files, 10, 1);

    // the directory's mtime moved past the recorded one: cache miss
    assert!(try_cached(&cache, &root, 11, false).is_none());

    // rescan with the added file; it must appear in the result
    let files2 = vec![entry("/r/g.txt", 7), entry("/r/new.txt", 3)];
    let r = complete_scan(&mut cache, &root, &root, &files2, 11, 2);
    assert!(r.items.iter().any(|it| it.path == "new.txt" && !it.is_dir && it.size == 3));

    // and the refreshed entry is served again
    let again = try_cached(&cache, &root, 11, false).expect("refreshed entry is fresh");
    assert!(again.items.iter().any(|it| it.path == "new.txt"));
}

#[test]
fn eviction_keeps_the_cache_within_its_bound() {
    let mut cache = ScanCache::new(3, 100);
    for k in 0..10 {
        let root = format!("/root{}", k);
        cache.insert(root.clone(), empty_result(&root), k as i64);
        assert!(cache.len() <= 3);
    }
    assert_eq!(cache.len(), 3);
}

#[test]
fn eviction_removes_the_oldest_entry() {
    let mut cache = ScanCache::new(3, 100);
    cache.insert("/a".to_string(), empty_result("/a"), 5);
    cache.insert("/b".to_string(), empty_result("/b"), 1);
    cache.insert("/c".to_string(), empty_result("/c"), 9);
    // at capacity: the next insert evicts the entry with the oldest mtime
    cache.insert("/d".to_string(), empty_result("/d"), 7);
    assert!(cache.get(&"/b".to_string()).is_none());
    assert!(cache.get(&"/a".to_string()).is_some());
    assert!(cache.get(&"/c".to_string()).is_some());
    assert!(cache.get(&"/d".to_string()).is_some());
}

#[test]
fn reinserting_a_root_replaces_its_entry() {
    let mut cache = ScanCache::new(5, 100);
    cache.insert("/a".to_string(), empty_result("/a"), 5);
    let mut newer = empty_result("/a");
    newer.total_size = 123;
    cache.insert("/a".to_string(), newer, 6);
    assert_eq!(cache.len(), 1);
    let e = cache.get(&"/a".to_string()).expect("entry present");
    assert_eq!(e.result.total_size, 123);
    assert_eq!(e.dir_mtime, 6);
}

#[test]
fn invalidate_drops_everything_under_the_prefix() {
    let mut cache = ScanCache::new(10, 100);
    cache.insert("/a".to_string(), empty_result("/a"), 1);
    cache.insert("/a/b".to_string(), empty_result("/a/b"), 2);
    cache.insert("/c".to_string(), empty_result("/c"), 3);
    cache.invalidate(&"/a".to_string());
    assert!(cache.get(&"/a".to_string()).is_none());
    assert!(cache.get(&"/a/b".to_string()).is_none());
    assert!(cache.get(&"/c".to_string()).is_some());
    assert_eq!(cache.len(), 1);
}

#[test]
fn clear_empties_the_cache() {
    let mut cache = ScanCache::new(10, 100);
    cache.insert("/a".to_string(), empty_result("/a"), 1);
    cache.clear();
    assert_eq!(cache.len(), 0);
    assert!(cache.get(&"/a".to_string()).is_none());
}

#[test]
fn freshness_check_compares_mtimes() {
    let mut cache = ScanCache::new(10, 100);
    cache.insert("/a".to_string(), empty_result("/a"), 8);
    let e = cache.get(&"/a".to_string()).expect("entry present");
    assert!(ScanCache::freshness_check(e, 8));
    assert!(ScanCache::freshness_check(e, 7));
    assert!(!ScanCache::freshness_check(e, 9));
}
