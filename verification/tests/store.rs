use std::collections::BTreeSet;
use sync_vault::store::{FileRecord, Store, FLUSH_INTERVAL_MS};
use sync_vault::SyncEvent;
use sync_vault::exclude::ExcludeSet;
use sync_vault::syncer::{scan_step, Scan, ScanInput};

fn rec(hash: &str, size: u64) -> FileRecord {
    FileRecord { hash: hash.to_string(), size, modified_ms: 7 }
}

#[test]
fn new_store_is_empty() {
    let s = Store::new(100);
    assert_eq!(s.len(), 0);
    assert_eq!(s.total_synced(), 0);
    assert_eq!(s.total_bytes(), 0);
    assert_eq!(s.last_sync_ms(), None);
    assert!(!s.should_flush(100 + FLUSH_INTERVAL_MS));
}

#[test]
fn needs_copy_follows_size_then_hash() {
    let mut s = Store::new(0);
    assert!(s.needs_copy("a.txt", 10, "h1"));
    s.insert_record("a.txt".to_string(), rec("h1", 10));
    assert!(!s.needs_copy("a.txt", 10, "h1"));
    assert!(s.needs_copy("a.txt", 11, "h1"));
    assert!(s.needs_copy("a.txt", 10, "h2"));
    assert!(s.needs_copy("b.txt", 10, "h1"));
}

#[test]
fn record_copy_updates_record_and_totals() {
    let mut s = Store::new(0);
    let ev = s.record_copy("dir/a.bin".to_string(), "abc".to_string(), 5, 5, 1234);
    assert_eq!(ev, SyncEvent::Copied { rel: "dir/a.bin".to_string(), bytes: 5 });
    let ev2 = s.record_copy("dir/a.bin".to_string(), "def".to_string(), 7, 7, 1300);
    assert_eq!(ev2, SyncEvent::Copied { rel: "dir/a.bin".to_string(), bytes: 7 });
    assert_eq!(s.len(), 1);
    assert_eq!(s.total_synced(), 2);
    assert_eq!(s.total_bytes(), 12);
    let r = s.record("dir/a.bin").unwrap();
    assert_eq!((r.hash.as_str(), r.size, r.modified_ms), ("def", 7, 1300));
    assert!(!s.needs_copy("dir/a.bin", 7, "def"));
}

#[test]
fn forget_removes_record() {
    let mut s = Store::new(0);
    s.insert_record("x".to_string(), rec("h", 1));
    s.insert_record("y".to_string(), rec("h", 2));
    let ev = s.forget("x".to_string());
    assert_eq!(ev, SyncEvent::Deleted { rel: "x".to_string() });
    assert!(s.record("x").is_none());
    assert!(s.record("y").is_some());
    assert_eq!(s.len(), 1);
    let ev = s.forget("never-recorded".to_string());
    assert_eq!(ev, SyncEvent::Deleted { rel: "never-recorded".to_string() });
    assert_eq!(s.len(), 1);
}

#[test]
fn unseen_lists_records_missing_from_scan() {
    let mut s = Store::new(0);
    for k in ["a", "b", "c", "d"] {
        s.insert_record(k.to_string(), rec("h", 1));
    }
    let mut scan = Scan::new();
    let ex = ExcludeSet::new(&Vec::new());
    for k in ["b", "d", "new"] {
        scan_step(&mut scan, &s, &ex, &k.to_string(), ScanInput::Visited);
    }
    let gone: BTreeSet<String> = s.unseen(scan.seen()).into_iter().collect();
    assert_eq!(gone, ["a", "c"].iter().map(|s| s.to_string()).collect());
    let evs = s.forget_all(s.unseen(scan.seen()));
    assert_eq!(evs.len(), 2);
    assert!(s.unseen(scan.seen()).is_empty());
    assert_eq!(s.len(), 2);
}

#[test]
fn flush_waits_for_interval_and_change() {
    let mut s = Store::new(1000);
    assert!(!s.should_flush(10_000));
    s.mark_dirty();
    assert!(!s.should_flush(1000 + FLUSH_INTERVAL_MS - 1));
    assert!(s.should_flush(1000 + FLUSH_INTERVAL_MS));
    s.mark_flushed(5000);
    assert!(!s.should_flush(9000));
    s.finish_sync(42);
    assert_eq!(s.last_sync_ms(), Some(42));
    assert!(s.should_flush(8000));
    assert!(!s.should_flush(7999));
}

#[test]
fn restore_totals_sets_counters() {
    let mut s = Store::new(0);
    s.restore_totals(9, 900, Some(5));
    assert_eq!((s.total_synced(), s.total_bytes(), s.last_sync_ms()), (9, 900, Some(5)));
}

#[test]
fn paths_lists_every_record_once() {
    let mut s = Store::new(0);
    for k in ["b", "a", "b", "c"] {
        s.insert_record(k.to_string(), rec("h", 1));
    }
    let mut p = s.paths();
    p.sort();
    assert_eq!(p, vec!["a".to_string(), "b".to_string(), "c".to_string()]);
    s.remove_record("a");
    assert_eq!(s.paths().len(), 2);
}
