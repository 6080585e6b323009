use image_viewer::metadata_cache::{hash_path, CacheRecord, CachedMetadata, Lookup, MetadataCache};

fn paths(c: &MetadataCache) -> Vec<String> {
    c.records().into_iter().map(|r| r.file_path).collect()
}

#[test]
fn hit_after_set() {
    let mut c = MetadataCache::new(10);
    c.set("/pics/a.png", "2024-01-01 10:00:00 UTC", 640, 480, 1234, 1);
    let got = c.get("/pics/a.png", "2024-01-01 10:00:00 UTC", 100);
    assert_eq!(got, Some(CachedMetadata { width: 640, height: 480, file_size: 1234 }));
}

#[test]
fn invalidation_on_fingerprint_change() {
    let mut c = MetadataCache::new(10);
    c.set("/pics/a.png", "t1", 10, 20, 30, 1);
    assert_eq!(c.get("/pics/a.png", "t2", 100), None);
    assert_eq!(c.get("/pics/a.png", "t1", 100), None);
    assert_eq!(c.get_stats().entry_count, 0);
}

#[test]
fn stale_lookup_reports_and_removes() {
    let mut c = MetadataCache::new(10);
    c.set("/a", "t1", 1, 2, 3, 5);
    c.set("/b", "t1", 4, 5, 6, 6);
    assert_eq!(c.lookup("/a", "t2", 7), Lookup::Stale);
    assert_eq!(paths(&c), vec!["/b".to_string()]);
    assert_eq!(c.lookup("/a", "t1", 8), Lookup::Miss);
}

#[test]
fn miss_on_unknown_path() {
    let mut c = MetadataCache::new(10);
    c.set("/a", "f", 1, 1, 1, 3);
    c.set("/b", "f", 2, 2, 2, 4);
    let before: Vec<(String, u64)> =
        c.records().into_iter().map(|r| (r.file_path, r.last_accessed)).collect();
    assert_eq!(c.lookup("/never/seen", "anything", 100), Lookup::Miss);
    assert_eq!(c.get("/never/seen", "anything", 100), None);
    let after: Vec<(String, u64)> =
        c.records().into_iter().map(|r| (r.file_path, r.last_accessed)).collect();
    assert_eq!(before, after);
    assert_eq!(c.latest_access(), 4);
}

#[test]
fn capacity_bound_evicts_oldest() {
    let mut c = MetadataCache::new(2);
    assert!(c.set("A", "f", 1, 1, 1, 1).is_empty());
    assert!(c.set("B", "f", 2, 2, 2, 2).is_empty());
    let dropped = c.set("C", "f", 3, 3, 3, 3);
    assert_eq!(dropped, vec!["A".to_string()]);
    assert_eq!(paths(&c), vec!["B".to_string(), "C".to_string()]);
    let st = c.get_stats();
    assert_eq!(st.entry_count, 2);
    assert_eq!(st.max_entries, 2);
    assert_eq!(c.get("A", "f", 100), None);
}

#[test]
fn capacity_bound_over_many_writes() {
    let mut c = MetadataCache::new(3);
    for i in 0..50u64 {
        c.set(&format!("/img/{}.png", i % 7), "f", 1, 1, i, i);
        assert!(c.get_stats().entry_count <= 3);
    }
    assert_eq!(c.get_stats().entry_count, 3);
}

#[test]
fn lru_ordering() {
    let mut c = MetadataCache::new(2);
    c.set("A", "fa", 1, 1, 1, 1);
    c.set("B", "fb", 2, 2, 2, 2);
    assert_eq!(
        c.lookup("A", "fa", 3),
        Lookup::Hit(CachedMetadata { width: 1, height: 1, file_size: 1 })
    );
    let dropped = c.set("C", "fc", 3, 3, 3, 4);
    assert_eq!(dropped, vec!["B".to_string()]);
    assert_eq!(paths(&c), vec!["A".to_string(), "C".to_string()]);
    assert_eq!(c.get("B", "fb", 100), None);
    assert!(c.get("A", "fa", 100).is_some());
    assert!(c.get("C", "fc", 100).is_some());
}

#[test]
fn idempotent_re_set() {
    let mut c = MetadataCache::new(5);
    c.set("/x", "other", 9, 9, 9, 1);
    c.set("/p", "f", 100, 200, 300, 2);
    c.set("/p", "f", 100, 200, 300, 3);
    let rows = c.records();
    assert_eq!(rows.len(), 2);
    let p: Vec<&CacheRecord> = rows.iter().filter(|r| r.file_path == "/p").collect();
    assert_eq!(p.len(), 1);
    assert_eq!(p[0].fingerprint, "f");
    assert_eq!((p[0].width, p[0].height, p[0].file_size), (100, 200, 300));
    assert_eq!(p[0].last_accessed, 3);
}

#[test]
fn zero_capacity_keeps_nothing() {
    let mut c = MetadataCache::new(0);
    let dropped = c.set("/a", "f", 1, 2, 3, 1);
    assert_eq!(dropped, vec!["/a".to_string()]);
    assert_eq!(c.get("/a", "f", 100), None);
    assert_eq!(c.get_stats().entry_count, 0);
}

#[test]
fn access_times_never_go_back() {
    let mut c = MetadataCache::new(4);
    c.set("/a", "f", 1, 1, 1, 50);
    c.set("/b", "f", 1, 1, 1, 20);
    assert_eq!(c.latest_access(), 50);
    let rows = c.records();
    assert_eq!(rows[1].file_path, "/b");
    assert_eq!(rows[1].last_accessed, 50);
    c.lookup("/a", "f", 70);
    let rows = c.records();
    assert_eq!(rows[1].file_path, "/a");
    assert_eq!(rows[1].last_accessed, 70);
}

#[test]
fn restore_round_trip() {
    let mut c = MetadataCache::new(3);
    c.set("/a", "ta", 1, 2, 3, 10);
    c.set("/b", "tb", 4, 5, 6, 11);
    c.set("/c", "tc", 7, 8, 9, 12);
    c.lookup("/a", "ta", 13);
    let rows = c.records();
    let mut back = MetadataCache::restore(3, &rows);
    assert_eq!(paths(&back), paths(&c));
    assert_eq!(back.latest_access(), 13);
    assert_eq!(back.get("/b", "tb", 100), Some(CachedMetadata { width: 4, height: 5, file_size: 6 }));
}

#[test]
fn restore_orders_and_dedups() {
    let row = |p: &str, f: &str, t: u64| CacheRecord {
        file_path: p.to_string(),
        fingerprint: f.to_string(),
        width: 1,
        height: 1,
        file_size: t,
        last_accessed: t,
    };
    let rows = vec![row("/a", "old", 5), row("/b", "f", 6), row("/a", "new", 7), row("/c", "f", 8)];
    let mut c = MetadataCache::restore(2, &rows);
    assert_eq!(paths(&c), vec!["/a".to_string(), "/c".to_string()]);
    assert_eq!(c.get("/a", "new", 100), Some(CachedMetadata { width: 1, height: 1, file_size: 7 }));
}

#[test]
fn clear_removes_everything() {
    let mut c = MetadataCache::new(3);
    c.set("/a", "f", 1, 1, 1, 1);
    c.set("/b", "f", 1, 1, 1, 1);
    c.clear();
    assert_eq!(c.get_stats().entry_count, 0);
    assert_eq!(c.get_stats().max_entries, 3);
    assert_eq!(c.get("/a", "f", 100), None);
}

#[test]
fn equal_times_keep_write_order() {
    let mut c = MetadataCache::new(2);
    c.set("/a", "f", 1, 1, 1, 1);
    c.set("/b", "f", 1, 1, 1, 1);
    c.set("/c", "f", 1, 1, 1, 1);
    assert_eq!(paths(&c), vec!["/b".to_string(), "/c".to_string()]);
    assert_eq!(c.latest_access(), 1);
}

#[test]
fn reopen_at_smaller_capacity_keeps_latest_write() {
    let mut c = MetadataCache::new(4);
    c.set("/a", "f", 1, 1, 1, 10);
    c.set("/b", "f", 2, 2, 2, 11);
    c.set("/p", "fp", 7, 8, 9, 12);
    let mut back = MetadataCache::restore(1, &c.records());
    assert_eq!(back.get_stats().entry_count, 1);
    assert_eq!(back.get("/p", "fp", 13), Some(CachedMetadata { width: 7, height: 8, file_size: 9 }));
    assert_eq!(back.get("/a", "f", 14), None);
}

#[test]
fn hit_takes_the_given_time() {
    let mut c = MetadataCache::new(4);
    c.set("/a", "f", 1, 1, 1, 10);
    assert!(c.get("/a", "f", 25).is_some());
    assert_eq!(c.latest_access(), 25);
    assert_eq!(c.records()[0].last_accessed, 25);
    assert_eq!(c.get("/zzz", "f", 99), None);
    assert_eq!(c.latest_access(), 25);
}

#[test]
fn path_hash_values() {
    assert_eq!(hash_path(""), 0);
    assert_eq!(hash_path("a"), 98);
    assert_eq!(hash_path("ab"), 25285);
    assert_eq!(
        hash_path("/pics/é.png"),
        hash_path(&String::from("/pics/é.png"))
    );
}

#[test]
fn restore_large_listing() {
    let rows: Vec<CacheRecord> = (0..5000u64)
        .map(|i| CacheRecord {
            file_path: format!("/photos/2024/IMG_{:05}.JPG", i),
            fingerprint: "f".to_string(),
            width: 1,
            height: 1,
            file_size: i,
            last_accessed: i,
        })
        .collect();
    let mut c = MetadataCache::restore(4000, &rows);
    assert_eq!(c.get_stats().entry_count, 4000);
    assert_eq!(c.get("/photos/2024/IMG_00999.JPG", "f", 100), None);
    assert_eq!(
        c.get("/photos/2024/IMG_01000.JPG", "f", 100),
        Some(CachedMetadata { width: 1, height: 1, file_size: 1000 })
    );
}
