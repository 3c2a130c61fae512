//! What a sync reports, and the decisions of a full sync and of a
//! single-file sync.

use vstd::prelude::*;
use vstd::hash_set::StringHashSet;
use crate::store::{lists, FileRecord, Store, StoreView};
use crate::exclude::{excluded, ExcludeSet};

verus! {

/// A report from the sync engine.
#[derive(Debug, PartialEq, Eq)]
pub enum SyncEvent {
    /// A file was copied to the target.
    Copied { rel: String, bytes: u64 },
    /// A file was removed from the target.
    Deleted { rel: String },
    /// A file could not be synced.
    Error { rel: String, err: String },
    /// Scan progress; `scanned == total` signals completion (`total == 0`
    /// means the total is not known yet).
    Progress { scanned: usize, total: usize },
}

} // verus!

verus! {

/// How often a scan reports progress, in files.
pub const PROGRESS_EVERY: usize = 100;

/// A file a scan found changed: it must be copied.
pub struct PendingCopy {
    pub rel: String,
    pub size: u64,
    pub hash: String,
    /// The caller's tag for the file (such as the index of its full path).
    pub id: usize,
}

/// The abstract state of a scan.
pub struct ScanView {
    /// Files visited so far.
    pub scanned: usize,
    /// Relative paths of the files visited, excluded or not.
    pub seen: Set<Seq<char>>,
    /// Files to copy, in the order they were found.
    pub pending: Seq<PendingCopy>,
}

/// The first phase of a full sync: walking the source and deciding what
/// to copy, without touching the state.
pub struct Scan {
    scanned: usize,
    seen: StringHashSet,
    pending: Vec<PendingCopy>,
}

impl View for Scan {
    type V = ScanView;

    closed spec fn view(&self) -> ScanView {
        ScanView { scanned: self.scanned, seen: self.seen@, pending: self.pending@ }
    }
}

/// The progress report, if any, after `scanned` files.
pub open spec fn progress_report(scanned: usize) -> Option<SyncEvent> {
    if scanned % 100 == 0 {
        Some(SyncEvent::Progress { scanned, total: 0 })
    } else {
        None
    }
}

impl Scan {
    /// A scan that has visited nothing.
    pub fn new() -> (s: Scan)
        ensures
            s@ == (ScanView { scanned: 0, seen: Set::empty(), pending: seq![] }),
    {
        Scan { scanned: 0, seen: StringHashSet::new(), pending: Vec::new() }
    }

    /// Files visited so far.
    pub fn scanned(&self) -> (n: usize)
        ensures
            n == self@.scanned,
    {
        self.scanned
    }

    /// The paths seen so far.
    pub fn seen(&self) -> (s: &StringHashSet)
        ensures
            s@ == self@.seen,
    {
        &self.seen
    }

    /// Ends the scan: the files to copy, the final progress report
    /// (scanned == total), and the paths noted present.
    pub fn finish(self) -> (r: (Vec<PendingCopy>, SyncEvent, StringHashSet))
        ensures
            r.0@ == self@.pending,
            r.1 == (SyncEvent::Progress { scanned: self@.scanned, total: self@.scanned }),
            r.2@ == self@.seen,
    {
        let n = self.scanned;
        (self.pending, SyncEvent::Progress { scanned: n, total: n }, self.seen)
    }
}

/// What the caller learned about the file a scan is at, one step at a time.
#[allow(inconsistent_fields)]
pub enum ScanInput {
    /// The scan reached a regular file (the relative path is passed beside).
    Visited,
    /// Its size, or why it could not be read.
    Sized(Result<u64, String>),
    /// Its fingerprint for the size read before, or why it could not be
    /// computed; `again` for a second attempt; `id` is the caller's tag for
    /// the file.
    Hashed { size: u64, hash: Result<String, String>, again: bool, id: usize },
}

/// What the caller must do next for the file a scan is at.
pub enum ScanAction {
    /// Go on to the next file.
    Next,
    /// Read the file's size and come back with `Sized`.
    ReadSize,
    /// Fingerprint the file and come back with `Hashed` (passing `again`).
    Hash { size: u64, again: bool },
    /// Send the report, then go on to the next file.
    Report(SyncEvent),
}

/// One step of a scan. A visited file is counted (a progress report is due
/// every `PROGRESS_EVERY` files) and noted as present, so it is not
/// deleted, excluded or not; an excluded file goes no further. A file
/// whose size cannot be read is passed over. A fingerprint that differs
/// from the record (or a missing record) queues a copy. A fingerprint that
/// cannot be computed is retried once when a record of the same size
/// exists, and otherwise reported.
pub open spec fn scan_step_spec(
    scan: ScanView,
    store: StoreView,
    excluded: bool,
    rel: Seq<char>,
    rel_s: String,
    input: ScanInput,
    next: ScanView,
    progress: Option<SyncEvent>,
    action: ScanAction,
) -> bool {
    match input {
        ScanInput::Visited => {
            &&& next == (ScanView {
                scanned: (scan.scanned + 1) as usize,
                seen: scan.seen.insert(rel),
                ..scan
            })
            &&& progress == progress_report(next.scanned)
            &&& action == if excluded { ScanAction::Next } else { ScanAction::ReadSize }
        },
        ScanInput::Sized(r) => next == scan && progress is None && match r {
            Ok(size) => action == (ScanAction::Hash { size, again: false }),
            Err(_) => action == ScanAction::Next,
        },
        ScanInput::Hashed { size, hash, again, id } => progress is None && match hash {
            Ok(h) => action == ScanAction::Next && next == (ScanView {
                pending: if needs_copy(store, rel, size, h@) {
                    scan.pending.push(PendingCopy { rel: rel_s, size, hash: h, id })
                } else {
                    scan.pending
                },
                ..scan
            }),
            Err(err) => next == scan && if !again && store.files.contains_key(rel)
                && store.files[rel].size == size {
                action == (ScanAction::Hash { size, again: true })
            } else {
                action == ScanAction::Report(SyncEvent::Error { rel: rel_s, err })
            },
        },
    }
}

/// One step of a scan (see `scan_step_spec`); returns the progress report
/// that is due, if any, and the next action.
pub fn scan_step(scan: &mut Scan, store: &Store, excludes: &ExcludeSet, rel: &String, input: ScanInput) -> (r: (
    Option<SyncEvent>,
    ScanAction,
))
    requires
        excludes.wf(),
        input is Visited ==> old(scan)@.scanned < usize::MAX,
    ensures
        scan_step_spec(
            old(scan)@,
            store@,
            excluded(excludes.rules(), rel@),
            rel@,
            *rel,
            input,
            final(scan)@,
            r.0,
            r.1,
        ),
{
    match input {
        ScanInput::Visited => {
            scan.scanned = scan.scanned + 1;
            let progress = if scan.scanned % PROGRESS_EVERY == 0 {
                Some(SyncEvent::Progress { scanned: scan.scanned, total: 0 })
            } else {
                None
            };
            scan.seen.insert(rel.clone());
            if excludes.matches(rel.as_str()) {
                (progress, ScanAction::Next)
            } else {
                (progress, ScanAction::ReadSize)
            }
        },
        ScanInput::Sized(r) => match r {
            Ok(size) => (None, ScanAction::Hash { size, again: false }),
            Err(_) => (None, ScanAction::Next),
        },
        ScanInput::Hashed { size, hash, again, id } => match hash {
            Ok(h) => {
                if store.needs_copy(rel.as_str(), size, h.as_str()) {
                    scan.pending.push(PendingCopy { rel: rel.clone(), size, hash: h, id });
                }
                (None, ScanAction::Next)
            },
            Err(err) => {
                let same_size = match store.record(rel.as_str()) {
                    Some(rec) => rec.size == size,
                    None => false,
                };
                if !again && same_size {
                    (None, ScanAction::Hash { size, again: true })
                } else {
                    (None, ScanAction::Report(SyncEvent::Error { rel: rel.clone(), err }))
                }
            },
        },
    }
}

/// The end of a full sync: which records go (with deletion mirroring on,
/// those of recorded files the scan did not see), and the state after.
pub open spec fn full_sync_end(
    store: StoreView,
    seen: Set<Seq<char>>,
    delete_removed: bool,
    now_ms: i64,
    gone: Seq<String>,
    next: StoreView,
) -> bool {
    &&& forall|k: Seq<char>| #[trigger] lists(gone, k) <==> (delete_removed && store.files.contains_key(k)
        && !seen.contains(k))
    &&& forall|i: int, j: int| 0 <= i < j < gone.len() ==> (#[trigger] gone[i])@ != (#[trigger] gone[j])@
    &&& next == (StoreView {
        files: store.files.remove_keys(Set::new(|k: Seq<char>| lists(gone, k))),
        last_sync_ms: Some(now_ms),
        dirty: true,
        ..store
    })
}

/// Ends a full sync after its copies: with deletion mirroring on, forgets
/// the recorded files the scan did not see and returns them (their copies
/// are to be removed from the target); notes the time of the sync.
pub fn end_full_sync(store: &mut Store, seen: &StringHashSet, delete_removed: bool, now_ms: i64) -> (gone: Vec<String>)
    requires
        old(store).wf(),
    ensures
        final(store).wf(),
        full_sync_end(old(store)@, seen@, delete_removed, now_ms, gone@, final(store)@),
{
    let gone: Vec<String> = if delete_removed {
        store.unseen(seen)
    } else {
        Vec::new()
    };
    let mut names: Vec<String> = Vec::new();
    let mut i: usize = 0;
    while i < gone.len()
        invariant
            i <= gone@.len(),
            names@.len() == i,
            forall|m: int| 0 <= m < i ==> #[trigger] names@[m] == gone@[m],
        decreases gone.len() - i,
    {
        names.push(gone[i].clone());
        i = i + 1;
    }
    assert(names@ =~= gone@);
    let _evs = store.forget_all(names);
    store.finish_sync(now_ms);
    gone
}

/// A second full sync over unchanged files changes nothing: a file whose
/// size and fingerprint match its record queues no copy, and when every
/// recorded file is seen again no record is dropped; only the sync time is
/// noted.
pub proof fn lemma_unchanged_sync_is_quiet(
    scan: ScanView,
    store: StoreView,
    excluded: bool,
    rel: Seq<char>,
    rel_s: String,
    size: u64,
    h: String,
    again: bool,
    id: usize,
    next: ScanView,
    progress: Option<SyncEvent>,
    action: ScanAction,
    seen: Set<Seq<char>>,
    delete_removed: bool,
    now_ms: i64,
    gone: Seq<String>,
    after: StoreView,
)
    requires
        store.files.contains_key(rel),
        store.files[rel].size == size,
        store.files[rel].hash@ == h@,
        scan_step_spec(scan, store, excluded, rel, rel_s, ScanInput::Hashed { size, hash: Ok(h), again, id }, next, progress, action),
        forall|k: Seq<char>| #[trigger] store.files.contains_key(k) ==> seen.contains(k),
        full_sync_end(store, seen, delete_removed, now_ms, gone, after),
    ensures
        next == scan,
        action == ScanAction::Next,
        progress is None,
        gone.len() == 0,
        after == (StoreView { last_sync_ms: Some(now_ms), dirty: true, ..store }),
{
    if gone.len() > 0 {
        assert(lists(gone, gone[0]@));
    }
    assert(store.files.remove_keys(Set::new(|k: Seq<char>| lists(gone, k))) =~= store.files);
}

/// Files still present are never deleted, excluded or not: the scan notes
/// every visited file as present, and the end of a full sync keeps the
/// record of every file noted present.
pub proof fn lemma_present_files_survive(
    scan: ScanView,
    store: StoreView,
    excluded: bool,
    rel: Seq<char>,
    rel_s: String,
    next: ScanView,
    progress: Option<SyncEvent>,
    action: ScanAction,
    later_seen: Set<Seq<char>>,
    delete_removed: bool,
    now_ms: i64,
    gone: Seq<String>,
    after: StoreView,
)
    requires
        scan_step_spec(scan, store, excluded, rel, rel_s, ScanInput::Visited, next, progress, action),
        next.seen.subset_of(later_seen),
        store.files.contains_key(rel),
        full_sync_end(store, later_seen, delete_removed, now_ms, gone, after),
    ensures
        after.files.contains_key(rel),
        after.files[rel] == store.files[rel],
{
    assert(later_seen.contains(rel));
    assert(!lists(gone, rel));
}

/// Whether a file with this size and fingerprint differs from its record.
pub open spec fn needs_copy(store: StoreView, rel: Seq<char>, size: u64, hash: Seq<char>) -> bool {
    !(store.files.contains_key(rel) && store.files[rel].size == size && store.files[rel].hash@ == hash)
}

} // verus!

verus! {

/// What the caller learned about a changed file, one step at a time.
#[allow(inconsistent_fields)]
pub enum ChangeInput {
    /// Whether the changed source file still exists.
    Observed { exists: bool },
    /// Its size, or why it could not be read.
    Sized(Result<u64, String>),
    /// Its fingerprint (for the size read before), or why it could not be
    /// computed.
    Hashed { size: u64, hash: Result<String, String> },
    /// The outcome of copying it (bytes written, or why the copy failed),
    /// with the wall-clock time of completion.
    Copied { size: u64, hash: String, result: Result<u64, String>, now_ms: i64 },
}

/// What the caller must do next for a changed file.
pub enum ChangeAction {
    /// Nothing more.
    Finish,
    /// Delete the target copy, then send the report; nothing more.
    RemoveTarget(SyncEvent),
    /// Read the source file's size and come back with `Sized`.
    ReadSize,
    /// Fingerprint the source file and come back with `Hashed`.
    HashSource { size: u64 },
    /// Copy the source over the target (atomically) and come back with
    /// `Copied`.
    CopySource { size: u64, hash: String },
    /// Send the report; nothing more.
    Report(SyncEvent),
}

/// The next action for a changed file, and the state after it.
pub open spec fn change_step(
    store: StoreView,
    excluded: bool,
    delete_removed: bool,
    rel: Seq<char>,
    rel_s: String,
    input: ChangeInput,
    next: StoreView,
    action: ChangeAction,
) -> bool {
    match input {
        ChangeInput::Observed { exists } => if excluded {
            next == store && action == ChangeAction::Finish
        } else if !exists && !delete_removed {
            next == store && action == ChangeAction::Finish
        } else if !exists {
            next == (StoreView { files: store.files.remove(rel), dirty: true, ..store })
                && action == ChangeAction::RemoveTarget(SyncEvent::Deleted { rel: rel_s })
        } else {
            next == store && action == ChangeAction::ReadSize
        },
        ChangeInput::Sized(r) => next == store && match r {
            Ok(size) => action == (ChangeAction::HashSource { size }),
            Err(err) => action == ChangeAction::Report(SyncEvent::Error { rel: rel_s, err }),
        },
        ChangeInput::Hashed { size, hash } => next == store && match hash {
            Ok(h) => if needs_copy(store, rel, size, h@) {
                action == (ChangeAction::CopySource { size, hash: h })
            } else {
                action == ChangeAction::Finish
            },
            Err(err) => action == ChangeAction::Report(SyncEvent::Error { rel: rel_s, err }),
        },
        ChangeInput::Copied { size, hash, result, now_ms } => match result {
            Ok(bytes) => next == (StoreView {
                files: store.files.insert(rel, FileRecord { hash, size, modified_ms: now_ms }),
                total_synced: (store.total_synced + 1) as u64,
                total_bytes: (store.total_bytes + bytes) as u64,
                dirty: true,
                ..store
            }) && action == ChangeAction::Report(SyncEvent::Copied { rel: rel_s, bytes }),
            Err(err) => next == store && action == ChangeAction::Report(
                SyncEvent::Error { rel: rel_s, err },
            ),
        },
    }
}

/// Whether a step can be taken without a counter overflowing.
pub open spec fn step_fits(store: StoreView, input: ChangeInput) -> bool {
    match input {
        ChangeInput::Copied { result: Ok(bytes), .. } => store.total_synced < u64::MAX
            && store.total_bytes + bytes <= u64::MAX,
        _ => true,
    }
}

/// One step of syncing a single changed file. An excluded file is left
/// alone; a vanished file is forgotten and its copy removed when deletions
/// are mirrored (`delete_removed`), and left alone otherwise; else the
/// file is sized, fingerprinted, and copied only if it differs from its
/// record, which the copy then updates.
pub fn sync_file_step(
    store: &mut Store,
    excludes: &ExcludeSet,
    delete_removed: bool,
    rel: &String,
    input: ChangeInput,
) -> (action: ChangeAction)
    requires
        old(store).wf(),
        excludes.wf(),
        step_fits(old(store)@, input),
    ensures
        final(store).wf(),
        change_step(
            old(store)@,
            excluded(excludes.rules(), rel@),
            delete_removed,
            rel@,
            *rel,
            input,
            final(store)@,
            action,
        ),
{
    match input {
        ChangeInput::Observed { exists } => {
            if excludes.matches(rel.as_str()) {
                ChangeAction::Finish
            } else if !exists && !delete_removed {
                ChangeAction::Finish
            } else if !exists {
                let ev = store.forget(rel.clone());
                ChangeAction::RemoveTarget(ev)
            } else {
                ChangeAction::ReadSize
            }
        },
        ChangeInput::Sized(r) => match r {
            Ok(size) => ChangeAction::HashSource { size },
            Err(err) => ChangeAction::Report(SyncEvent::Error { rel: rel.clone(), err }),
        },
        ChangeInput::Hashed { size, hash } => match hash {
            Ok(h) => {
                if store.needs_copy(rel.as_str(), size, h.as_str()) {
                    ChangeAction::CopySource { size, hash: h }
                } else {
                    ChangeAction::Finish
                }
            },
            Err(err) => ChangeAction::Report(SyncEvent::Error { rel: rel.clone(), err }),
        },
        ChangeInput::Copied { size, hash, result, now_ms } => match result {
            Ok(bytes) => {
                let ev = store.record_copy(rel.clone(), hash, size, bytes, now_ms);
                ChangeAction::Report(ev)
            },
            Err(err) => ChangeAction::Report(SyncEvent::Error { rel: rel.clone(), err }),
        },
    }
}

} // verus!

verus! {

/// Syncing settles: once a copy of a file is recorded, the same file (same
/// size, same fingerprint) is not copied again; the next sync of it ends
/// without touching the state.
pub proof fn lemma_copy_settles(
    store: StoreView,
    rel: String,
    size: u64,
    hash: String,
    bytes: u64,
    now_ms: i64,
    next: StoreView,
    action: ChangeAction,
    again: String,
    next2: StoreView,
    action2: ChangeAction,
)
    requires
        change_step(
            store,
            false,
            false,
            rel@,
            rel,
            ChangeInput::Copied { size, hash, result: Ok(bytes), now_ms },
            next,
            action,
        ),
        again@ == hash@,
        change_step(next, false, false, rel@, rel, ChangeInput::Hashed { size, hash: Ok(again) }, next2, action2),
    ensures
        !needs_copy(next, rel@, size, hash@),
        next.files[rel@].hash == hash,
        next.files[rel@].size == size,
        action2 == ChangeAction::Finish,
        next2 == next,
{
}

/// A full sync with deletion keeps exactly the records of the files it saw:
/// removing every recorded path that was not seen leaves the records of the
/// seen paths, unchanged, and nothing else.
pub proof fn lemma_prune_keeps_seen(
    files: Map<Seq<char>, FileRecord>,
    seen: Set<Seq<char>>,
    unseen: Set<Seq<char>>,
)
    requires
        forall|k: Seq<char>| #[trigger] unseen.contains(k) <==> (files.contains_key(k) && !seen.contains(k)),
    ensures
        files.remove_keys(unseen).dom() == files.dom().intersect(seen),
        forall|k: Seq<char>| #[trigger] files.remove_keys(unseen).contains_key(k) ==> files.remove_keys(unseen)[k] == files[k],
{
    assert(files.remove_keys(unseen).dom() =~= files.dom().intersect(seen));
}

} // verus!

verus! {

/// Size first: a file that has no record, or whose size differs from its
/// record, is copied whatever its fingerprint; a file whose size and
/// fingerprint both match its record is not.
pub proof fn lemma_size_decides_first(store: StoreView, rel: Seq<char>, size: u64, hash: Seq<char>)
    ensures
        !store.files.contains_key(rel) ==> needs_copy(store, rel, size, hash),
        store.files.contains_key(rel) && store.files[rel].size != size ==> needs_copy(store, rel, size, hash),
        store.files.contains_key(rel) && store.files[rel].size == size && store.files[rel].hash@ == hash
            ==> !needs_copy(store, rel, size, hash),
{
}

} // verus!

verus! {

/// An excluded path is left alone by a single-file sync, whether the file
/// exists or not: the state stays and the sync ends at once, so it is never
/// sized, fingerprinted, copied or deleted.
pub proof fn lemma_excluded_change_left_alone(
    store: StoreView,
    delete_removed: bool,
    rel: Seq<char>,
    rel_s: String,
    exists: bool,
    next: StoreView,
    action: ChangeAction,
)
    requires
        change_step(store, true, delete_removed, rel, rel_s, ChangeInput::Observed { exists }, next, action),
    ensures
        next == store,
        action == ChangeAction::Finish,
{
}

/// A scan passes over an excluded file: after noting it present it goes on
/// to the next file, without reading its size.
pub proof fn lemma_excluded_scan_passes_over(
    scan: ScanView,
    store: StoreView,
    rel: Seq<char>,
    rel_s: String,
    next: ScanView,
    progress: Option<SyncEvent>,
    action: ScanAction,
)
    requires
        scan_step_spec(scan, store, true, rel, rel_s, ScanInput::Visited, next, progress, action),
    ensures
        action == ScanAction::Next,
        next.pending == scan.pending,
{
}

/// After fingerprinting, a single-file sync copies exactly when the file
/// differs from its record: there is no record, or the recorded size or
/// the recorded fingerprint differs. A same-size edit with a new
/// fingerprint is copied; an unchanged file ends the sync. The state is
/// not touched until the copy is done.
pub proof fn lemma_fingerprint_decides_copy(
    store: StoreView,
    excluded: bool,
    delete_removed: bool,
    rel: Seq<char>,
    rel_s: String,
    size: u64,
    h: String,
    next: StoreView,
    action: ChangeAction,
)
    requires
        change_step(store, excluded, delete_removed, rel, rel_s, ChangeInput::Hashed { size, hash: Ok(h) }, next, action),
    ensures
        next == store,
        !(store.files.contains_key(rel) && store.files[rel].size == size && store.files[rel].hash@ == h@)
            ==> action == (ChangeAction::CopySource { size, hash: h }),
        (store.files.contains_key(rel) && store.files[rel].size == size && store.files[rel].hash@ == h@)
            ==> action == ChangeAction::Finish,
        (store.files.contains_key(rel) && store.files[rel].size == size && store.files[rel].hash@ != h@)
            ==> action is CopySource,
{
}

/// In a full sync, a fingerprinted file is queued for copying exactly when
/// it differs from its record (no record, another size, or another
/// fingerprint), and nothing else is queued.
pub proof fn lemma_scan_fingerprint_decides_copy(
    scan: ScanView,
    store: StoreView,
    excluded: bool,
    rel: Seq<char>,
    rel_s: String,
    size: u64,
    h: String,
    id: usize,
    next: ScanView,
    progress: Option<SyncEvent>,
    action: ScanAction,
)
    requires
        scan_step_spec(scan, store, excluded, rel, rel_s, ScanInput::Hashed { size, hash: Ok(h), again: false, id }, next, progress, action),
    ensures
        !(store.files.contains_key(rel) && store.files[rel].size == size && store.files[rel].hash@ == h@)
            ==> next.pending == scan.pending.push(PendingCopy { rel: rel_s, size, hash: h, id }),
        (store.files.contains_key(rel) && store.files[rel].size == size && store.files[rel].hash@ == h@)
            ==> next.pending == scan.pending,
        next.seen == scan.seen,
{
}

/// A vanished file that is not excluded is forgotten, and its copy removed,
/// exactly when deletions are mirrored; otherwise the state stays and the
/// sync ends. A file that still exists and is not excluded goes on to be
/// sized.
pub proof fn lemma_observed_file(
    store: StoreView,
    delete_removed: bool,
    rel: Seq<char>,
    rel_s: String,
    exists: bool,
    next: StoreView,
    action: ChangeAction,
)
    requires
        change_step(store, false, delete_removed, rel, rel_s, ChangeInput::Observed { exists }, next, action),
    ensures
        exists ==> next == store && action == ChangeAction::ReadSize,
        !exists && delete_removed ==> !next.files.contains_key(rel)
            && (forall|k: Seq<char>| k != rel ==> next.files.contains_key(k) == store.files.contains_key(k))
            && action == ChangeAction::RemoveTarget(SyncEvent::Deleted { rel: rel_s }),
        !exists && !delete_removed ==> next == store && action == ChangeAction::Finish,
{
}

} // verus!
