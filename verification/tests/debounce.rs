use std::collections::BTreeSet;
use sync_vault::debounce::{is_relevant, ChangeKind, Debouncer, DEBOUNCE_MS};

fn paths(v: &[&str]) -> Vec<String> {
    v.iter().map(|s| s.to_string()).collect()
}

#[test]
fn only_create_modify_remove_are_relevant() {
    assert!(is_relevant(ChangeKind::Create));
    assert!(is_relevant(ChangeKind::Modify));
    assert!(is_relevant(ChangeKind::Remove));
    assert!(!is_relevant(ChangeKind::Access));
    assert!(!is_relevant(ChangeKind::Other));
}

#[test]
fn path_waits_for_quiet_period() {
    let mut d = Debouncer::new();
    d.note(ChangeKind::Modify, paths(&["/src/a.txt"]), 1000);
    assert!(d.flush(1000 + DEBOUNCE_MS - 1).is_empty());
    assert_eq!(d.len(), 1);
    assert_eq!(d.flush(1000 + DEBOUNCE_MS), paths(&["/src/a.txt"]));
    assert_eq!(d.len(), 0);
    assert!(d.flush(1_000_000).is_empty());
}

#[test]
fn burst_of_changes_is_coalesced() {
    let mut d = Debouncer::new();
    d.note(ChangeKind::Modify, paths(&["/f"]), 0);
    d.note(ChangeKind::Modify, paths(&["/f"]), 200);
    d.note(ChangeKind::Modify, paths(&["/f", "/f"]), 400);
    assert_eq!(d.len(), 1);
    assert!(d.flush(650).is_empty());
    assert_eq!(d.flush(700), paths(&["/f"]));
}

#[test]
fn irrelevant_changes_are_ignored() {
    let mut d = Debouncer::new();
    d.note(ChangeKind::Access, paths(&["/f"]), 0);
    assert_eq!(d.len(), 0);
}

#[test]
fn flush_splits_ready_from_waiting() {
    let mut d = Debouncer::new();
    d.note(ChangeKind::Create, paths(&["/a", "/b"]), 0);
    d.note(ChangeKind::Remove, paths(&["/c"]), 500);
    let ready: BTreeSet<String> = d.flush(600).into_iter().collect();
    assert_eq!(ready, paths(&["/a", "/b"]).into_iter().collect());
    assert_eq!(d.len(), 1);
    assert_eq!(d.flush(800), paths(&["/c"]));
}

#[test]
fn handed_on_only_after_latest_relevant_change_is_quiet() {
    let mut d = Debouncer::new();
    d.note(ChangeKind::Modify, paths(&["/f"]), 0);
    d.note(ChangeKind::Access, paths(&["/f"]), 250);
    assert_eq!(d.flush(300), paths(&["/f"]));
    d.note(ChangeKind::Create, paths(&["/f", "/g"]), 1000);
    d.note(ChangeKind::Modify, paths(&["/g"]), 1200);
    assert!(d.flush(1299).is_empty());
    assert_eq!(d.flush(1300), paths(&["/f"]));
    assert!(d.flush(1499).is_empty());
    assert_eq!(d.flush(1500), paths(&["/g"]));
}
