use sync_vault::exclude::ExcludeSet;
use sync_vault::store::{FileRecord, Store};
use sync_vault::syncer::{end_full_sync, scan_step, sync_file_step, ChangeAction, ChangeInput, Scan, ScanAction, ScanInput};
use sync_vault::SyncEvent;

fn excludes() -> ExcludeSet {
    ExcludeSet::new(&vec!["*.tmp".to_string(), ".git".to_string()])
}

#[test]
fn changed_file_is_sized_hashed_copied_and_recorded() {
    let ex = excludes();
    let mut st = Store::new(0);
    let rel = "src/main.rs".to_string();
    let a = sync_file_step(&mut st, &ex, true, &rel, ChangeInput::Observed { exists: true });
    assert!(matches!(a, ChangeAction::ReadSize));
    let a = sync_file_step(&mut st, &ex, true, &rel, ChangeInput::Sized(Ok(12)));
    assert!(matches!(a, ChangeAction::HashSource { size: 12 }));
    let a = sync_file_step(&mut st, &ex, true, &rel, ChangeInput::Hashed { size: 12, hash: Ok("h".into()) });
    match a {
        ChangeAction::CopySource { size, hash } => assert_eq!((size, hash.as_str()), (12, "h")),
        _ => panic!("expected a copy"),
    }
    let a = sync_file_step(
        &mut st,
        &ex,
        true,
        &rel,
        ChangeInput::Copied { size: 12, hash: "h".into(), result: Ok(12), now_ms: 99 },
    );
    match a {
        ChangeAction::Report(ev) => assert_eq!(ev, SyncEvent::Copied { rel: rel.clone(), bytes: 12 }),
        _ => panic!("expected a report"),
    }
    assert_eq!(st.total_synced(), 1);
    // the same contents again: nothing to copy
    let a = sync_file_step(&mut st, &ex, true, &rel, ChangeInput::Hashed { size: 12, hash: Ok("h".into()) });
    assert!(matches!(a, ChangeAction::Finish));
}

#[test]
fn excluded_file_is_left_alone() {
    let ex = excludes();
    let mut st = Store::new(0);
    st.insert_record("build/x.tmp".to_string(), FileRecord { hash: "h".into(), size: 1, modified_ms: 0 });
    let rel = "build/x.tmp".to_string();
    let a = sync_file_step(&mut st, &ex, true, &rel, ChangeInput::Observed { exists: false });
    assert!(matches!(a, ChangeAction::Finish));
    assert!(st.record("build/x.tmp").is_some());
}

#[test]
fn vanished_file_is_forgotten() {
    let ex = excludes();
    let mut st = Store::new(0);
    st.insert_record("doc.txt".to_string(), FileRecord { hash: "h".into(), size: 1, modified_ms: 0 });
    let rel = "doc.txt".to_string();
    let a = sync_file_step(&mut st, &ex, true, &rel, ChangeInput::Observed { exists: false });
    match a {
        ChangeAction::RemoveTarget(ev) => assert_eq!(ev, SyncEvent::Deleted { rel: rel.clone() }),
        _ => panic!("expected removal"),
    }
    assert!(st.record("doc.txt").is_none());
}

#[test]
fn failures_are_reported() {
    let ex = excludes();
    let mut st = Store::new(0);
    let rel = "a".to_string();
    let err = |e: &str| SyncEvent::Error { rel: "a".to_string(), err: e.to_string() };
    match sync_file_step(&mut st, &ex, true, &rel, ChangeInput::Sized(Err("denied".into()))) {
        ChangeAction::Report(ev) => assert_eq!(ev, err("denied")),
        _ => panic!(),
    }
    match sync_file_step(&mut st, &ex, true, &rel, ChangeInput::Hashed { size: 1, hash: Err("io".into()) }) {
        ChangeAction::Report(ev) => assert_eq!(ev, err("io")),
        _ => panic!(),
    }
    match sync_file_step(
        &mut st,
        &ex,
        true,
        &rel,
        ChangeInput::Copied { size: 1, hash: "h".into(), result: Err("full".into()), now_ms: 0 },
    ) {
        ChangeAction::Report(ev) => assert_eq!(ev, err("full")),
        _ => panic!(),
    }
    assert_eq!(st.len(), 0);
}

fn visit(scan: &mut Scan, st: &Store, ex: &ExcludeSet, rel: &str) -> (Option<SyncEvent>, ScanAction) {
    scan_step(scan, st, ex, &rel.to_string(), ScanInput::Visited)
}

#[test]
fn scan_reports_progress_and_queues_changes() {
    let ex = excludes();
    let mut st = Store::new(0);
    st.insert_record("same".to_string(), FileRecord { hash: "h".into(), size: 3, modified_ms: 0 });
    let mut scan = Scan::new();
    let mut reports = 0;
    for i in 0..250 {
        let (p, a) = visit(&mut scan, &st, &ex, &format!("f{}", i));
        assert!(matches!(a, ScanAction::ReadSize));
        if let Some(ev) = p {
            reports += 1;
            assert!(matches!(ev, SyncEvent::Progress { total: 0, .. }));
        }
    }
    assert_eq!(reports, 2);
    let same = "same".to_string();
    assert!(matches!(visit(&mut scan, &st, &ex, "same").1, ScanAction::ReadSize));
    let (_, a) = scan_step(&mut scan, &st, &ex, &same, ScanInput::Sized(Ok(3)));
    assert!(matches!(a, ScanAction::Hash { size: 3, again: false }));
    let (_, a) = scan_step(&mut scan, &st, &ex, &same, ScanInput::Hashed { size: 3, hash: Ok("h".into()), again: false, id: 250 });
    assert!(matches!(a, ScanAction::Next));
    let new = "new".to_string();
    let (_, a) = scan_step(&mut scan, &st, &ex, &new, ScanInput::Hashed { size: 3, hash: Ok("x".into()), again: false, id: 7 });
    assert!(matches!(a, ScanAction::Next));
    assert_eq!(scan.scanned(), 251);
    let (pending, done, seen) = scan.finish();
    assert!(seen.contains("same"));
    assert_eq!(pending.len(), 1);
    assert_eq!(pending[0].rel, "new");
    assert_eq!(pending[0].id, 7);
    assert_eq!(done, SyncEvent::Progress { scanned: 251, total: 251 });
}

#[test]
fn scan_passes_over_excluded_and_unreadable_files() {
    let ex = excludes();
    let st = Store::new(0);
    let mut scan = Scan::new();
    assert!(matches!(visit(&mut scan, &st, &ex, "a/.git/HEAD").1, ScanAction::Next));
    assert!(scan.seen().contains("a/.git/HEAD"));
    let r = "locked".to_string();
    let (_, a) = scan_step(&mut scan, &st, &ex, &r, ScanInput::Sized(Err("denied".into())));
    assert!(matches!(a, ScanAction::Next));
}

#[test]
fn scan_retries_fingerprint_once_for_same_size_record() {
    let ex = excludes();
    let mut st = Store::new(0);
    st.insert_record("r".to_string(), FileRecord { hash: "h".into(), size: 5, modified_ms: 0 });
    let mut scan = Scan::new();
    let r = "r".to_string();
    let (_, a) = scan_step(&mut scan, &st, &ex, &r, ScanInput::Hashed { size: 5, hash: Err("busy".into()), again: false, id: 0 });
    assert!(matches!(a, ScanAction::Hash { size: 5, again: true }));
    let (_, a) = scan_step(&mut scan, &st, &ex, &r, ScanInput::Hashed { size: 5, hash: Err("busy".into()), again: true, id: 0 });
    match a {
        ScanAction::Report(ev) => assert_eq!(ev, SyncEvent::Error { rel: "r".into(), err: "busy".into() }),
        _ => panic!("expected a report"),
    }
    // a different size: no second attempt
    let (_, a) = scan_step(&mut scan, &st, &ex, &r, ScanInput::Hashed { size: 6, hash: Err("busy".into()), again: false, id: 0 });
    assert!(matches!(a, ScanAction::Report(_)));
}

#[test]
fn end_full_sync_deletes_only_vanished_files_when_enabled() {
    let ex = excludes();
    let mut st = Store::new(0);
    for k in ["kept", "gone", "build/x.tmp"] {
        st.insert_record(k.to_string(), FileRecord { hash: "h".into(), size: 1, modified_ms: 0 });
    }
    let mut scan = Scan::new();
    visit(&mut scan, &st, &ex, "kept");
    visit(&mut scan, &st, &ex, "build/x.tmp");
    let gone = end_full_sync(&mut st, scan.seen(), false, 10);
    assert!(gone.is_empty());
    assert_eq!(st.len(), 3);
    assert_eq!(st.last_sync_ms(), Some(10));
    let gone = end_full_sync(&mut st, scan.seen(), true, 20);
    assert_eq!(gone, vec!["gone".to_string()]);
    assert!(st.record("gone").is_none());
    assert!(st.record("build/x.tmp").is_some());
    assert_eq!(st.len(), 2);
    // a second sync with everything present deletes nothing
    let mut again = Scan::new();
    visit(&mut again, &st, &ex, "kept");
    visit(&mut again, &st, &ex, "build/x.tmp");
    assert!(end_full_sync(&mut st, again.seen(), true, 30).is_empty());
    assert_eq!(st.len(), 2);
}

#[test]
fn vanished_file_is_kept_without_deletion_sync() {
    let ex = excludes();
    let mut st = Store::new(0);
    st.insert_record("doc.txt".to_string(), FileRecord { hash: "h".into(), size: 1, modified_ms: 0 });
    let rel = "doc.txt".to_string();
    let a = sync_file_step(&mut st, &ex, false, &rel, ChangeInput::Observed { exists: false });
    assert!(matches!(a, ChangeAction::Finish));
    assert!(st.record("doc.txt").is_some());
}

/// One full sync over `files` (path, size, fingerprint), every read and
/// copy succeeding; returns the number of copies and the deletions.
fn run_full_sync(st: &mut Store, ex: &ExcludeSet, files: &[(&str, u64, &str)], delete: bool, now: i64) -> (usize, Vec<String>) {
    let mut scan = Scan::new();
    for (id, (rel, size, hash)) in files.iter().enumerate() {
        let rel = rel.to_string();
        let mut input = ScanInput::Visited;
        loop {
            let (_, action) = scan_step(&mut scan, st, ex, &rel, input);
            input = match action {
                ScanAction::Next => break,
                ScanAction::Report(ev) => panic!("unexpected report {:?}", ev),
                ScanAction::ReadSize => ScanInput::Sized(Ok(*size)),
                ScanAction::Hash { size, again } => ScanInput::Hashed { size, hash: Ok(hash.to_string()), again, id },
            };
        }
    }
    let (pending, _, seen) = scan.finish();
    let copies = pending.len();
    for p in pending {
        st.record_copy(p.rel, p.hash, p.size, p.size, now);
    }
    (copies, end_full_sync(st, &seen, delete, now))
}

#[test]
fn second_full_sync_over_unchanged_source_does_nothing() {
    let ex = excludes();
    let mut st = Store::new(0);
    for k in ["old", "a.txt"] {
        st.insert_record(k.to_string(), FileRecord { hash: "stale".into(), size: 9, modified_ms: 0 });
    }
    let files = [("a.txt", 3, "ha"), ("dir/b.bin", 5, "hb"), ("x.tmp", 1, "hx"), ("dir/.git/c", 2, "hc")];
    let (copies, gone) = run_full_sync(&mut st, &ex, &files, true, 100);
    assert_eq!(copies, 2);
    assert_eq!(gone, vec!["old".to_string()]);
    let (synced, bytes) = (st.total_synced(), st.total_bytes());
    assert_eq!((synced, bytes), (2, 8));
    let (copies, gone) = run_full_sync(&mut st, &ex, &files, true, 200);
    assert_eq!(copies, 0);
    assert!(gone.is_empty());
    assert_eq!((st.total_synced(), st.total_bytes()), (synced, bytes));
    assert_eq!(st.len(), 2);
    assert_eq!(st.record("a.txt").map(|r| (r.size, r.hash.clone())), Some((3, "ha".to_string())));
    assert_eq!(st.last_sync_ms(), Some(200));
}
