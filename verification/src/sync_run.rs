//! A full sync as a whole: the scan over every file of the source, the
//! copies of what it queued, and the end of the sync, composed from the
//! steps of `syncer` and `store`; and the law that a second full sync over
//! an unchanged source, after one that met no error, does nothing.

use vstd::prelude::*;
use crate::exclude::excluded;
use crate::store::{lists, FileRecord, StoreView};
use crate::syncer::{full_sync_end, needs_copy, scan_step_spec, PendingCopy, ScanAction, ScanInput, ScanView, SyncEvent};

verus! {

/// A scan that has visited nothing.
pub open spec fn empty_scan() -> ScanView {
    ScanView { scanned: 0, seen: Set::empty(), pending: seq![] }
}

/// The scan after it visited `f`, a file whose size and fingerprint were
/// read without error: `f` is noted present, and queued when it is not
/// excluded and differs from its record.
pub open spec fn scan_file(scan: ScanView, store: StoreView, rules: Seq<Seq<char>>, f: PendingCopy) -> ScanView {
    let visited = ScanView { scanned: (scan.scanned + 1) as usize, seen: scan.seen.insert(f.rel@), ..scan };
    if !excluded(rules, f.rel@) && needs_copy(store, f.rel@, f.size, f.hash@) {
        ScanView { pending: visited.pending.push(f), ..visited }
    } else {
        visited
    }
}

/// The scan after it visited `files` in order, each read without error.
pub open spec fn scan_run(scan: ScanView, store: StoreView, rules: Seq<Seq<char>>, files: Seq<PendingCopy>) -> ScanView
    decreases files.len(),
{
    if files.len() == 0 {
        scan
    } else {
        scan_file(scan_run(scan, store, rules, files.drop_last()), store, rules, files.last())
    }
}

/// The files of `files` that a scan against `store` queues, in order.
pub open spec fn to_copy(store: StoreView, rules: Seq<Seq<char>>, files: Seq<PendingCopy>) -> Seq<PendingCopy>
    decreases files.len(),
{
    if files.len() == 0 {
        seq![]
    } else {
        let f = files.last();
        if !excluded(rules, f.rel@) && needs_copy(store, f.rel@, f.size, f.hash@) {
            to_copy(store, rules, files.drop_last()).push(f)
        } else {
            to_copy(store, rules, files.drop_last())
        }
    }
}

/// Some entry of `files` is for the path `k`.
pub open spec fn lists_path(files: Seq<PendingCopy>, k: Seq<char>) -> bool {
    exists|i: int| 0 <= i < files.len() && #[trigger] files[i].rel@ == k
}

/// No two entries of `files` are for the same path (a walk of the source
/// meets each file once).
pub open spec fn distinct_rels(files: Seq<PendingCopy>) -> bool {
    forall|i: int, j: int| 0 <= i < j < files.len() ==> (#[trigger] files[i]).rel@ != (#[trigger] files[j]).rel@
}

/// No later entry of `pending` is for the same path as entry `i`.
pub open spec fn last_for_path(pending: Seq<PendingCopy>, i: int) -> bool {
    forall|j: int| i < j < pending.len() ==> (#[trigger] pending[j]).rel@ != pending[i].rel@
}

/// `files` records the size and fingerprint of `f`.
pub open spec fn holds_record(files: Map<Seq<char>, FileRecord>, f: PendingCopy) -> bool {
    files.contains_key(f.rel@) && files[f.rel@].size == f.size && files[f.rel@].hash@ == f.hash@
}

/// The records after the copies of `pending` were recorded, one by one,
/// starting from `before`: each copied path holds the record of its last
/// copy, and every other record is as it was.
pub open spec fn copies_recorded(before: StoreView, pending: Seq<PendingCopy>, after: StoreView) -> bool {
    &&& forall|k: Seq<char>| #[trigger] after.files.contains_key(k) <==> (before.files.contains_key(k) || lists_path(pending, k))
    &&& forall|k: Seq<char>| before.files.contains_key(k) && !lists_path(pending, k) ==> #[trigger] after.files[k] == before.files[k]
    &&& forall|i: int| 0 <= i < pending.len() && last_for_path(pending, i) ==> holds_record(after.files, #[trigger] pending[i])
}

/// The state that a full sync over `files` leaves when it met no error:
/// every file that is not excluded has a record of its size and
/// fingerprint, and with deletion mirroring on every record is of a file
/// in `files`.
pub open spec fn settled(store: StoreView, rules: Seq<Seq<char>>, files: Seq<PendingCopy>, delete_removed: bool) -> bool {
    &&& forall|i: int| 0 <= i < files.len() && !excluded(rules, files[i].rel@) ==> holds_record(store.files, #[trigger] files[i])
    &&& delete_removed ==> forall|k: Seq<char>| #[trigger] store.files.contains_key(k) ==> lists_path(files, k)
}

/// The steps that `scan_step` takes for a file read without error (the
/// visit; for a file that is not excluded, its size, then its fingerprint)
/// lead to `scan_file`, asking for exactly those readings and reporting
/// nothing but the progress that is due at the visit.
pub proof fn lemma_scan_steps(
    scan: ScanView,
    store: StoreView,
    rules: Seq<Seq<char>>,
    f: PendingCopy,
    s1: ScanView,
    p1: Option<SyncEvent>,
    a1: ScanAction,
    s2: ScanView,
    p2: Option<SyncEvent>,
    a2: ScanAction,
    s3: ScanView,
    p3: Option<SyncEvent>,
    a3: ScanAction,
)
    requires
        scan_step_spec(scan, store, excluded(rules, f.rel@), f.rel@, f.rel, ScanInput::Visited, s1, p1, a1),
        excluded(rules, f.rel@) ==> s3 == s1,
        !excluded(rules, f.rel@) ==> scan_step_spec(s1, store, excluded(rules, f.rel@), f.rel@, f.rel, ScanInput::Sized(Ok(f.size)), s2, p2, a2),
        !excluded(rules, f.rel@) ==> scan_step_spec(
            s2,
            store,
            excluded(rules, f.rel@),
            f.rel@,
            f.rel,
            ScanInput::Hashed { size: f.size, hash: Ok(f.hash), again: false, id: f.id },
            s3,
            p3,
            a3,
        ),
    ensures
        s3 == scan_file(scan, store, rules, f),
        excluded(rules, f.rel@) ==> a1 == ScanAction::Next,
        !excluded(rules, f.rel@) ==> {
            &&& a1 == ScanAction::ReadSize
            &&& a2 == (ScanAction::Hash { size: f.size, again: false })
            &&& a3 == ScanAction::Next
            &&& p2 is None
            &&& p3 is None
        },
{
    let g = PendingCopy { rel: f.rel, size: f.size, hash: f.hash, id: f.id };
    assert(g == f);
}

proof fn lemma_scan_run(scan: ScanView, store: StoreView, rules: Seq<Seq<char>>, files: Seq<PendingCopy>)
    ensures
        scan_run(scan, store, rules, files).pending == scan.pending + to_copy(store, rules, files),
        forall|k: Seq<char>| #[trigger] scan_run(scan, store, rules, files).seen.contains(k) <==> (scan.seen.contains(k)
            || lists_path(files, k)),
    decreases files.len(),
{
    if files.len() == 0 {
        assert(scan.pending + seq![] =~= scan.pending);
    } else {
        let d = files.drop_last();
        lemma_scan_run(scan, store, rules, d);
        let f = files.last();
        if !excluded(rules, f.rel@) && needs_copy(store, f.rel@, f.size, f.hash@) {
            assert(scan.pending + to_copy(store, rules, d).push(f) =~= (scan.pending + to_copy(store, rules, d)).push(f));
        }
        assert forall|k: Seq<char>| lists_path(files, k) <==> (lists_path(d, k) || f.rel@ == k) by {
            if lists_path(files, k) {
                let i = choose|i: int| 0 <= i < files.len() && #[trigger] files[i].rel@ == k;
                if i < d.len() {
                    assert(d[i] == files[i]);
                }
            }
            if lists_path(d, k) {
                let i = choose|i: int| 0 <= i < d.len() && #[trigger] d[i].rel@ == k;
                assert(files[i] == d[i]);
            }
            if f.rel@ == k {
                assert(files[files.len() - 1].rel@ == k);
            }
        }
    }
}

proof fn lemma_to_copy(store: StoreView, rules: Seq<Seq<char>>, files: Seq<PendingCopy>)
    ensures
        forall|a: int| 0 <= a < to_copy(store, rules, files).len() ==> exists|i: int|
            0 <= i < files.len() && #[trigger] files[i] == #[trigger] to_copy(store, rules, files)[a]
                && !excluded(rules, files[i].rel@) && needs_copy(store, files[i].rel@, files[i].size, files[i].hash@),
        forall|i: int| 0 <= i < files.len() && !excluded(rules, files[i].rel@)
            && needs_copy(store, files[i].rel@, files[i].size, files[i].hash@) ==> exists|a: int|
            0 <= a < to_copy(store, rules, files).len() && #[trigger] to_copy(store, rules, files)[a] == #[trigger] files[i],
        distinct_rels(files) ==> distinct_rels(to_copy(store, rules, files)),
    decreases files.len(),
{
    if files.len() > 0 {
        let d = files.drop_last();
        lemma_to_copy(store, rules, d);
        let r = to_copy(store, rules, files);
        let rd = to_copy(store, rules, d);
        let f = files.last();
        assert forall|a: int| 0 <= a < r.len() implies exists|i: int|
            0 <= i < files.len() && #[trigger] files[i] == #[trigger] r[a] && !excluded(rules, files[i].rel@)
                && needs_copy(store, files[i].rel@, files[i].size, files[i].hash@) by {
            if a < rd.len() {
                assert(r[a] == rd[a]);
                let i = choose|i: int| 0 <= i < d.len() && #[trigger] d[i] == #[trigger] rd[a] && !excluded(rules, d[i].rel@)
                    && needs_copy(store, d[i].rel@, d[i].size, d[i].hash@);
                assert(files[i] == d[i]);
            } else {
                assert(files[files.len() - 1] == r[a]);
            }
        }
        assert forall|i: int| 0 <= i < files.len() && !excluded(rules, files[i].rel@)
            && needs_copy(store, files[i].rel@, files[i].size, files[i].hash@) implies exists|a: int|
            0 <= a < r.len() && #[trigger] r[a] == #[trigger] files[i] by {
            if i < d.len() {
                assert(d[i] == files[i]);
                let a = choose|a: int| 0 <= a < rd.len() && #[trigger] rd[a] == #[trigger] d[i];
                assert(r[a] == rd[a]);
            } else {
                assert(r[rd.len() as int] == files[i]);
            }
        }
        if distinct_rels(files) {
            assert(distinct_rels(d)) by {
                assert forall|i: int, j: int| 0 <= i < j < d.len() implies (#[trigger] d[i]).rel@ != (#[trigger] d[j]).rel@ by {
                    assert(d[i] == files[i] && d[j] == files[j]);
                }
            }
            assert forall|a: int, b: int| 0 <= a < b < r.len() implies (#[trigger] r[a]).rel@ != (#[trigger] r[b]).rel@ by {
                if b < rd.len() {
                    assert(r[a] == rd[a] && r[b] == rd[b]);
                } else {
                    assert(r[a] == rd[a]);
                    let i = choose|i: int| 0 <= i < d.len() && #[trigger] d[i] == #[trigger] rd[a] && !excluded(rules, d[i].rel@)
                        && needs_copy(store, d[i].rel@, d[i].size, d[i].hash@);
                    assert(files[i] == d[i]);
                    assert(r[b] == files[files.len() - 1]);
                }
            }
        }
    }
}

/// Before any copy, the records are as they were.
pub proof fn lemma_no_copies(store: StoreView)
    ensures
        copies_recorded(store, seq![], store),
{
}

/// Recording one more copy (as `Store::record_copy` does: the path's record
/// becomes the copy's size and fingerprint) extends `copies_recorded` by
/// that copy.
pub proof fn lemma_copy_recorded(
    before: StoreView,
    pending: Seq<PendingCopy>,
    mid: StoreView,
    p: PendingCopy,
    now_ms: i64,
    after: StoreView,
)
    requires
        copies_recorded(before, pending, mid),
        after.files == mid.files.insert(p.rel@, FileRecord { hash: p.hash, size: p.size, modified_ms: now_ms }),
    ensures
        copies_recorded(before, pending.push(p), after),
{
    let q = pending.push(p);
    assert forall|k: Seq<char>| lists_path(q, k) <==> (lists_path(pending, k) || p.rel@ == k) by {
        if lists_path(q, k) {
            let i = choose|i: int| 0 <= i < q.len() && #[trigger] q[i].rel@ == k;
            if i < pending.len() {
                assert(pending[i] == q[i]);
            }
        }
        if lists_path(pending, k) {
            let i = choose|i: int| 0 <= i < pending.len() && #[trigger] pending[i].rel@ == k;
            assert(q[i] == pending[i]);
        }
        if p.rel@ == k {
            assert(q[pending.len() as int].rel@ == k);
        }
    }
    assert forall|i: int| 0 <= i < q.len() && last_for_path(q, i) implies holds_record(after.files, #[trigger] q[i]) by {
        if i < pending.len() {
            assert(q[i] == pending[i]);
            assert(q[pending.len() as int] == p);
            assert(p.rel@ != pending[i].rel@);
            assert(last_for_path(pending, i)) by {
                assert forall|j: int| i < j < pending.len() implies (#[trigger] pending[j]).rel@ != pending[i].rel@ by {
                    assert(q[j] == pending[j]);
                }
            }
        }
    }
}

proof fn lemma_full_sync_settles(
    s0: StoreView,
    rules: Seq<Seq<char>>,
    files: Seq<PendingCopy>,
    delete_removed: bool,
    s1: StoreView,
    now_ms: i64,
    gone: Seq<String>,
    s2: StoreView,
)
    requires
        distinct_rels(files),
        copies_recorded(s0, scan_run(empty_scan(), s0, rules, files).pending, s1),
        full_sync_end(s1, scan_run(empty_scan(), s0, rules, files).seen, delete_removed, now_ms, gone, s2),
    ensures
        settled(s2, rules, files, delete_removed),
{
    let run = scan_run(empty_scan(), s0, rules, files);
    lemma_scan_run(empty_scan(), s0, rules, files);
    lemma_to_copy(s0, rules, files);
    let tc = to_copy(s0, rules, files);
    assert(run.pending =~= tc);
    let gs = Set::new(|k: Seq<char>| lists(gone, k));
    assert forall|i: int| 0 <= i < files.len() && !excluded(rules, files[i].rel@) implies holds_record(s2.files, #[trigger] files[i]) by {
        let f = files[i];
        let k = f.rel@;
        if needs_copy(s0, k, f.size, f.hash@) {
            let a = choose|a: int| 0 <= a < tc.len() && #[trigger] tc[a] == #[trigger] files[i];
            assert(last_for_path(tc, a)) by {
                assert forall|j: int| a < j < tc.len() implies (#[trigger] tc[j]).rel@ != tc[a].rel@ by {}
            }
            assert(holds_record(s1.files, tc[a]));
        } else {
            assert(!lists_path(tc, k)) by {
                if lists_path(tc, k) {
                    let a = choose|a: int| 0 <= a < tc.len() && #[trigger] tc[a].rel@ == k;
                    let j = choose|j: int| 0 <= j < files.len() && #[trigger] files[j] == #[trigger] tc[a]
                        && !excluded(rules, files[j].rel@) && needs_copy(s0, files[j].rel@, files[j].size, files[j].hash@);
                    if j < i {
                        assert(files[j].rel@ != files[i].rel@);
                    } else if j > i {
                        assert(files[i].rel@ != files[j].rel@);
                    }
                }
            }
            assert(s1.files[k] == s0.files[k]);
        }
        assert(files[i].rel@ == k);
        assert(run.seen.contains(k));
        assert(!gs.contains(k));
    }
    if delete_removed {
        assert forall|k: Seq<char>| #[trigger] s2.files.contains_key(k) implies lists_path(files, k) by {
            assert(s1.files.contains_key(k));
            assert(!lists(gone, k));
            assert(run.seen.contains(k));
        }
    }
}

proof fn lemma_settled_run(
    store: StoreView,
    rules: Seq<Seq<char>>,
    files: Seq<PendingCopy>,
    delete_removed: bool,
    now_ms: i64,
    gone: Seq<String>,
    after: StoreView,
)
    requires
        settled(store, rules, files, delete_removed),
        full_sync_end(store, scan_run(empty_scan(), store, rules, files).seen, delete_removed, now_ms, gone, after),
    ensures
        scan_run(empty_scan(), store, rules, files).pending == Seq::<PendingCopy>::empty(),
        gone.len() == 0,
        after == (StoreView { last_sync_ms: Some(now_ms), dirty: true, ..store }),
{
    let run = scan_run(empty_scan(), store, rules, files);
    lemma_scan_run(empty_scan(), store, rules, files);
    lemma_to_copy(store, rules, files);
    let tc = to_copy(store, rules, files);
    if tc.len() > 0 {
        let i = choose|i: int| 0 <= i < files.len() && #[trigger] files[i] == #[trigger] tc[0]
            && !excluded(rules, files[i].rel@) && needs_copy(store, files[i].rel@, files[i].size, files[i].hash@);
        assert(holds_record(store.files, files[i]));
    }
    assert(run.pending =~= Seq::<PendingCopy>::empty());
    if gone.len() > 0 {
        let k = gone[0]@;
        assert(lists(gone, k));
        assert(store.files.contains_key(k) && !run.seen.contains(k));
    }
    assert(store.files.remove_keys(Set::new(|k: Seq<char>| lists(gone, k))) =~= store.files);
}

/// Syncing again changes nothing. After a full sync over the files of the
/// source (each met once, read and copied without error: the scan of
/// `scan_run`, every queued copy recorded, then `end_full_sync`), a second
/// full sync over the same files with the same rules and setting queues
/// no copy (so it copies nothing and records no copy: the file and byte
/// totals stay), meets no error, deletes nothing, and leaves every record
/// as it was; only the time of the sync is noted.
pub proof fn lemma_resync_is_quiet(
    s0: StoreView,
    rules: Seq<Seq<char>>,
    files: Seq<PendingCopy>,
    delete_removed: bool,
    s1: StoreView,
    first_ms: i64,
    first_gone: Seq<String>,
    s2: StoreView,
    second_ms: i64,
    second_gone: Seq<String>,
    s3: StoreView,
)
    requires
        distinct_rels(files),
        copies_recorded(s0, scan_run(empty_scan(), s0, rules, files).pending, s1),
        full_sync_end(s1, scan_run(empty_scan(), s0, rules, files).seen, delete_removed, first_ms, first_gone, s2),
        full_sync_end(s2, scan_run(empty_scan(), s2, rules, files).seen, delete_removed, second_ms, second_gone, s3),
    ensures
        scan_run(empty_scan(), s2, rules, files).pending == Seq::<PendingCopy>::empty(),
        second_gone.len() == 0,
        s3 == (StoreView { last_sync_ms: Some(second_ms), dirty: true, ..s2 }),
        s3.files == s2.files,
        s3.total_synced == s2.total_synced,
        s3.total_bytes == s2.total_bytes,
{
    lemma_full_sync_settles(s0, rules, files, delete_removed, s1, first_ms, first_gone, s2);
    lemma_settled_run(s2, rules, files, delete_removed, second_ms, second_gone, s3);
}

} // verus!
