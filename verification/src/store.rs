//! The sync state: what was last copied for each relative path (content
//! hash, size, time), running totals, and when the state must be saved.

use vstd::prelude::*;
use vstd::hash_map::StringHashMap;
use vstd::hash_set::StringHashSet;
use crate::syncer::{needs_copy, SyncEvent};

verus! {

/// How long a change to the state may wait before it is written out.
pub const FLUSH_INTERVAL_MS: u64 = 3000;

/// What was copied for one file.
pub struct FileRecord {
    /// Fingerprint of the copied contents (see `digest::hash_contents`).
    pub hash: String,
    /// Size of the source file when it was copied.
    pub size: u64,
    /// Wall-clock time of the copy, in milliseconds since the Unix epoch.
    pub modified_ms: i64,
}

impl FileRecord {
    /// A copy of this record.
    pub fn duplicate(&self) -> (r: FileRecord)
        ensures
            r == *self,
    {
        FileRecord { hash: self.hash.clone(), size: self.size, modified_ms: self.modified_ms }
    }
}

/// Whether the state must be written out at `now`: it changed, and the
/// last write is at least `FLUSH_INTERVAL_MS` old.
pub open spec fn flush_due(s: StoreView, now: u64) -> bool {
    s.dirty && now >= s.flushed_at + FLUSH_INTERVAL_MS
}

/// Some of the first `n` strings of `s` has the view `k`.
pub open spec fn in_prefix(s: Seq<String>, n: int, k: Seq<char>) -> bool {
    exists|m: int| 0 <= m < n && #[trigger] s[m]@ == k
}

/// Some string of `s` has the view `k`.
pub open spec fn lists(s: Seq<String>, k: Seq<char>) -> bool {
    in_prefix(s, s.len() as int, k)
}

/// The abstract sync state.
pub struct StoreView {
    /// The records, by relative path.
    pub files: Map<Seq<char>, FileRecord>,
    /// Files copied since the state was created.
    pub total_synced: u64,
    /// Bytes copied since the state was created.
    pub total_bytes: u64,
    /// When the last full sync finished (milliseconds since the epoch).
    pub last_sync_ms: Option<i64>,
    /// A change has not yet been written out.
    pub dirty: bool,
    /// When the state was last written out (monotonic milliseconds).
    pub flushed_at: u64,
}

/// The sync state.
pub struct Store {
    files: StringHashMap<FileRecord>,
    keys: Vec<String>,
    total_synced: u64,
    total_bytes: u64,
    last_sync_ms: Option<i64>,
    dirty: bool,
    last_flush_ms: u64,
}

impl View for Store {
    type V = StoreView;

    closed spec fn view(&self) -> StoreView {
        StoreView {
            files: self.files@,
            total_synced: self.total_synced,
            total_bytes: self.total_bytes,
            last_sync_ms: self.last_sync_ms,
            dirty: self.dirty,
            flushed_at: self.last_flush_ms,
        }
    }
}

impl Store {
    /// The key list names every record exactly once.
    pub closed spec fn wf(&self) -> bool {
        &&& forall|i: int| 0 <= i < self.keys@.len() ==> self.files@.contains_key(#[trigger] self.keys@[i]@)
        &&& forall|k: Seq<char>| #[trigger] self.files@.contains_key(k) ==> exists|i: int|
            0 <= i < self.keys@.len() && #[trigger] self.keys@[i]@ == k
        &&& forall|i: int, j: int|
            0 <= i < j < self.keys@.len() ==> (#[trigger] self.keys@[i])@ != (#[trigger] self.keys@[j])@
    }

    /// An empty state, last written at `now_ms`.
    pub fn new(now_ms: u64) -> (s: Store)
        ensures
            s.wf(),
            s@ == (StoreView {
                files: Map::empty(),
                total_synced: 0,
                total_bytes: 0,
                last_sync_ms: None,
                dirty: false,
                flushed_at: now_ms,
            }),
    {
        Store {
            files: StringHashMap::new(),
            keys: Vec::new(),
            total_synced: 0,
            total_bytes: 0,
            last_sync_ms: None,
            dirty: false,
            last_flush_ms: now_ms,
        }
    }

    /// Files copied so far.
    pub fn total_synced(&self) -> (n: u64)
        ensures
            n == self@.total_synced,
    {
        self.total_synced
    }

    /// Bytes copied so far.
    pub fn total_bytes(&self) -> (n: u64)
        ensures
            n == self@.total_bytes,
    {
        self.total_bytes
    }

    /// When the last full sync finished.
    pub fn last_sync_ms(&self) -> (t: Option<i64>)
        ensures
            t == self@.last_sync_ms,
    {
        self.last_sync_ms
    }

    /// Sets the totals and the last sync time (used when the state is
    /// loaded).
    pub fn restore_totals(&mut self, total_synced: u64, total_bytes: u64, last_sync_ms: Option<i64>)
        requires
            old(self).wf(),
        ensures
            final(self).wf(),
            final(self)@ == (StoreView { total_synced, total_bytes, last_sync_ms, ..old(self)@ }),
    {
        self.total_synced = total_synced;
        self.total_bytes = total_bytes;
        self.last_sync_ms = last_sync_ms;
        assert(self.keys@ == old(self).keys@ && self.files@ == old(self).files@);
    }

    /// The number of records.
    pub fn len(&self) -> (n: usize)
        requires
            self.wf(),
        ensures
            n == self@.files.len(),
    {
        proof {
            self.lemma_len();
        }
        self.keys.len()
    }

    proof fn lemma_len(&self)
        requires
            self.wf(),
        ensures
            self.files@.dom().finite(),
            self.keys@.len() == self.files@.len(),
    {
        let ks = self.keys@.map_values(|s: String| s@);
        assert forall|i: int, j: int| 0 <= i < ks.len() && 0 <= j < ks.len() && i != j implies ks[i] != ks[j] by {
            if i < j {
                assert(self.keys@[i]@ != self.keys@[j]@);
            } else {
                assert(self.keys@[j]@ != self.keys@[i]@);
            }
        }
        assert(ks.no_duplicates());
        assert(ks.to_set() =~= self.files@.dom()) by {
            assert forall|k: Seq<char>| ks.to_set().contains(k) implies self.files@.dom().contains(k) by {
                assert(ks.contains(k));
                let i = choose|i: int| 0 <= i < ks.len() && ks[i] == k;
                assert(self.files@.contains_key(self.keys@[i]@));
            }
            assert forall|k: Seq<char>| self.files@.dom().contains(k) implies ks.to_set().contains(k) by {
                assert(self.files@.contains_key(k));
                let i = choose|i: int| 0 <= i < self.keys@.len() && #[trigger] self.keys@[i]@ == k;
                assert(ks[i] == k);
                assert(ks.contains(k));
            }
        }
        ks.unique_seq_to_set();
    }

    /// The record for a relative path, if any.
    pub fn record(&self, rel: &str) -> (r: Option<&FileRecord>)
        ensures
            match r {
                Some(rec) => self@.files.contains_key(rel@) && *rec == self@.files[rel@],
                None => !self@.files.contains_key(rel@),
            },
    {
        self.files.get(rel)
    }

    /// Whether a file of this size and fingerprint must be copied: it has
    /// no record, or its size or its fingerprint differs from the record.
    pub fn needs_copy(&self, rel: &str, size: u64, hash: &str) -> (r: bool)
        ensures
            r == needs_copy(self@, rel@, size, hash@),
    {
        match self.files.get(rel) {
            None => true,
            Some(rec) => {
                if rec.size != size {
                    true
                } else {
                    let h = String::from_str(hash);
                    !(rec.hash == h)
                }
            },
        }
    }

    fn find_key(&self, rel: &str) -> (r: Option<usize>)
        requires
            self.wf(),
        ensures
            match r {
                Some(i) => i < self.keys@.len() && self.keys@[i as int]@ == rel@,
                None => !self.files@.contains_key(rel@),
            },
    {
        let target = String::from_str(rel);
        let mut i: usize = 0;
        while i < self.keys.len()
            invariant
                self.wf(),
                target@ == rel@,
                i <= self.keys@.len(),
                forall|j: int| 0 <= j < i ==> (#[trigger] self.keys@[j])@ != rel@,
            decreases self.keys.len() - i,
        {
            if self.keys[i] == target {
                return Some(i);
            }
            i = i + 1;
        }
        None
    }

    /// Stores the record for a path without touching totals or the
    /// dirty flag (used when the state is loaded).
    pub fn insert_record(&mut self, rel: String, rec: FileRecord)
        requires
            old(self).wf(),
        ensures
            final(self).wf(),
            final(self)@ == (StoreView { files: old(self)@.files.insert(rel@, rec), ..old(self)@ }),
    {
        let known = self.files.contains_key(rel.as_str());
        if !known {
            let ghost old_keys = self.keys@;
            self.keys.push(rel.clone());
            proof {
                assert forall|i: int, j: int|
                    0 <= i < j < self.keys@.len() implies (#[trigger] self.keys@[i])@ != (#[trigger] self.keys@[j])@ by {
                    if j == old_keys.len() {
                        assert(old(self).files@.contains_key(old_keys[i]@));
                    } else {
                        assert(self.keys@[i] == old_keys[i] && self.keys@[j] == old_keys[j]);
                    }
                }
            }
        }
        let ghost keys_now = self.keys@;
        self.files.insert(rel, rec);
        proof {
            assert forall|k: Seq<char>| #[trigger] self.files@.contains_key(k) implies exists|i: int|
                0 <= i < self.keys@.len() && #[trigger] self.keys@[i]@ == k by {
                if k == rel@ {
                    if !known {
                        assert(self.keys@[self.keys@.len() - 1]@ == k);
                    } else {
                        let i = choose|i: int| 0 <= i < old(self).keys@.len() && #[trigger] old(self).keys@[i]@ == k;
                        assert(self.keys@[i] == old(self).keys@[i]);
                    }
                } else {
                    assert(old(self).files@.contains_key(k));
                    let i = choose|i: int| 0 <= i < old(self).keys@.len() && #[trigger] old(self).keys@[i]@ == k;
                    assert(self.keys@[i] == old(self).keys@[i]);
                }
            }
            assert forall|i: int| 0 <= i < self.keys@.len() implies self.files@.contains_key(#[trigger] self.keys@[i]@) by {
                if i < old(self).keys@.len() {
                    assert(self.keys@[i] == old(self).keys@[i]);
                    assert(old(self).files@.contains_key(old(self).keys@[i]@));
                }
            }
        }
    }

    /// Drops the record for a path, if there is one.
    pub fn remove_record(&mut self, rel: &str)
        requires
            old(self).wf(),
        ensures
            final(self).wf(),
            final(self)@ == (StoreView { files: old(self)@.files.remove(rel@), ..old(self)@ }),
    {
        match self.find_key(rel) {
            None => {
                proof {
                    assert(old(self).files@.remove(rel@) =~= old(self).files@);
                }
            },
            Some(idx) => {
                let ghost ok = self.keys@;
                let _gone = self.keys.remove(idx);
                self.files.remove(rel);
                proof {
                    assert forall|i: int| 0 <= i < self.keys@.len() implies self.files@.contains_key(#[trigger] self.keys@[i]@) by {
                        if i < idx {
                            assert(self.keys@[i] == ok[i]);
                            assert(old(self).files@.contains_key(ok[i]@));
                            assert(ok[i]@ != ok[idx as int]@);
                        } else {
                            assert(self.keys@[i] == ok[i + 1]);
                            assert(old(self).files@.contains_key(ok[i + 1]@));
                            assert(ok[idx as int]@ != ok[i + 1]@);
                        }
                    }
                    assert forall|k: Seq<char>| #[trigger] self.files@.contains_key(k) implies exists|i: int|
                        0 <= i < self.keys@.len() && #[trigger] self.keys@[i]@ == k by {
                        assert(old(self).files@.contains_key(k));
                        let i = choose|i: int| 0 <= i < ok.len() && #[trigger] ok[i]@ == k;
                        assert(i != idx);
                        if i < idx {
                            assert(self.keys@[i] == ok[i]);
                        } else {
                            assert(self.keys@[i - 1] == ok[i]);
                        }
                    }
                    assert forall|i: int, j: int|
                        0 <= i < j < self.keys@.len() implies (#[trigger] self.keys@[i])@ != (#[trigger] self.keys@[j])@ by {
                        let oi = if i < idx { i } else { i + 1 };
                        let oj = if j < idx { j } else { j + 1 };
                        assert(self.keys@[i] == ok[oi]);
                        assert(self.keys@[j] == ok[oj]);
                        assert(ok[oi]@ != ok[oj]@);
                    }
                }
            },
        }
    }

    /// Marks the state as changed.
    pub fn mark_dirty(&mut self)
        requires
            old(self).wf(),
        ensures
            final(self).wf(),
            final(self)@ == (StoreView { dirty: true, ..old(self)@ }),
    {
        self.dirty = true;
        assert(self.keys@ == old(self).keys@ && self.files@ == old(self).files@);
    }

    /// Whether a pending change has waited long enough to be written out:
    /// writes happen at most once per `FLUSH_INTERVAL_MS`.
    pub fn should_flush(&self, now_ms: u64) -> (r: bool)
        ensures
            r == flush_due(self@, now_ms),
    {
        self.dirty && now_ms >= self.last_flush_ms && now_ms - self.last_flush_ms >= FLUSH_INTERVAL_MS
    }

    /// Notes that the state was written out at `now_ms`.
    pub fn mark_flushed(&mut self, now_ms: u64)
        requires
            old(self).wf(),
        ensures
            final(self).wf(),
            final(self)@ == (StoreView { dirty: false, flushed_at: now_ms, ..old(self)@ }),
    {
        self.dirty = false;
        self.last_flush_ms = now_ms;
        assert(self.keys@ == old(self).keys@ && self.files@ == old(self).files@);
    }
}

impl Store {
    /// Records a completed copy: the file's record becomes the new
    /// fingerprint, size and time; one more file and `bytes` more bytes are
    /// counted; the state is marked changed. Reports the copy.
    pub fn record_copy(&mut self, rel: String, hash: String, size: u64, bytes: u64, now_ms: i64) -> (ev: SyncEvent)
        requires
            old(self).wf(),
            old(self)@.total_synced < u64::MAX,
            old(self)@.total_bytes + bytes <= u64::MAX,
        ensures
            final(self).wf(),
            final(self)@ == (StoreView {
                files: old(self)@.files.insert(rel@, FileRecord { hash, size, modified_ms: now_ms }),
                total_synced: (old(self)@.total_synced + 1) as u64,
                total_bytes: (old(self)@.total_bytes + bytes) as u64,
                dirty: true,
                ..old(self)@
            }),
            ev == (SyncEvent::Copied { rel, bytes }),
    {
        let key = rel.clone();
        self.insert_record(key, FileRecord { hash, size, modified_ms: now_ms });
        let ghost keys = self.keys@;
        let ghost files = self.files@;
        self.total_synced = self.total_synced + 1;
        self.total_bytes = self.total_bytes + bytes;
        self.dirty = true;
        assert(self.keys@ == keys && self.files@ == files);
        SyncEvent::Copied { rel, bytes }
    }

    /// Forgets a file that no longer exists in the source: its record is
    /// dropped and the state is marked changed. Reports the deletion.
    pub fn forget(&mut self, rel: String) -> (ev: SyncEvent)
        requires
            old(self).wf(),
        ensures
            final(self).wf(),
            final(self)@ == (StoreView { files: old(self)@.files.remove(rel@), dirty: true, ..old(self)@ }),
            ev == (SyncEvent::Deleted { rel }),
    {
        self.remove_record(rel.as_str());
        self.mark_dirty();
        SyncEvent::Deleted { rel }
    }

    /// Every recorded path, each once.
    pub fn paths(&self) -> (v: Vec<String>)
        requires
            self.wf(),
        ensures
            forall|k: Seq<char>| #[trigger] lists(v@, k) <==> self@.files.contains_key(k),
            forall|i: int, j: int| 0 <= i < j < v@.len() ==> (#[trigger] v@[i])@ != (#[trigger] v@[j])@,
    {
        let mut v: Vec<String> = Vec::new();
        let mut i: usize = 0;
        while i < self.keys.len()
            invariant
                self.wf(),
                i <= self.keys@.len(),
                v@.len() == i,
                forall|m: int| 0 <= m < i ==> #[trigger] v@[m] == self.keys@[m],
            decreases self.keys.len() - i,
        {
            v.push(self.keys[i].clone());
            i = i + 1;
        }
        proof {
            assert forall|k: Seq<char>| #[trigger] lists(v@, k) <==> self@.files.contains_key(k) by {
                if lists(v@, k) {
                    let m = choose|m: int| 0 <= m < v@.len() && #[trigger] v@[m]@ == k;
                    assert(self.files@.contains_key(self.keys@[m]@));
                }
                if self@.files.contains_key(k) {
                    let m = choose|m: int| 0 <= m < self.keys@.len() && #[trigger] self.keys@[m]@ == k;
                    assert(v@[m]@ == k);
                }
            }
            assert forall|a: int, b: int| 0 <= a < b < v@.len() implies (#[trigger] v@[a])@ != (#[trigger] v@[b])@ by {
                assert(v@[a] == self.keys@[a] && v@[b] == self.keys@[b]);
            }
        }
        v
    }

    /// The recorded paths that are not in `seen`, each once.
    pub fn unseen(&self, seen: &StringHashSet) -> (v: Vec<String>)
        requires
            self.wf(),
        ensures
            forall|k: Seq<char>|
                #[trigger] lists(v@, k) <==> (self@.files.contains_key(k) && !seen@.contains(k)),
            forall|i: int, j: int| 0 <= i < j < v@.len() ==> (#[trigger] v@[i])@ != (#[trigger] v@[j])@,
    {
        let mut v: Vec<String> = Vec::new();
        let mut i: usize = 0;
        while i < self.keys.len()
            invariant
                self.wf(),
                i <= self.keys@.len(),
                forall|k: Seq<char>|
                    #[trigger] lists(v@, k) <==> (in_prefix(self.keys@, i as int, k) && !seen@.contains(k)),
                forall|a: int, b: int| 0 <= a < b < v@.len() ==> (#[trigger] v@[a])@ != (#[trigger] v@[b])@,
            decreases self.keys.len() - i,
        {
            let ghost before = v@;
            let ghost ki = self.keys@[i as int]@;
            if !seen.contains(self.keys[i].as_str()) {
                v.push(self.keys[i].clone());
                proof {
                    assert forall|a: int, b: int| 0 <= a < b < v@.len() implies (#[trigger] v@[a])@ != (#[trigger] v@[b])@ by {
                        if b == before.len() {
                            if v@[a]@ == ki {
                                assert(before[a]@ == ki);
                                assert(lists(before, ki));
                                let m = choose|m: int| 0 <= m < i && #[trigger] self.keys@[m]@ == ki;
                                assert(self.keys@[m]@ != self.keys@[i as int]@);
                            }
                        } else {
                            assert(v@[a] == before[a] && v@[b] == before[b]);
                        }
                    }
                    assert forall|k: Seq<char>|
                        #[trigger] lists(v@, k) <==> (in_prefix(self.keys@, i + 1, k) && !seen@.contains(k)) by {
                        if lists(v@, k) {
                            let m = choose|m: int| 0 <= m < v@.len() && #[trigger] v@[m]@ == k;
                            if m < before.len() {
                                assert(before[m]@ == k);
                                assert(lists(before, k));
                                let mm = choose|mm: int| 0 <= mm < i && #[trigger] self.keys@[mm]@ == k;
                            } else {
                                assert(self.keys@[i as int]@ == k);
                            }
                        }
                        if in_prefix(self.keys@, i + 1, k) && !seen@.contains(k) {
                            let m = choose|m: int| 0 <= m < i + 1 && #[trigger] self.keys@[m]@ == k;
                            if m < i {
                                assert(in_prefix(self.keys@, i as int, k));
                                assert(lists(before, k));
                                let mm = choose|mm: int| 0 <= mm < before.len() && #[trigger] before[mm]@ == k;
                                assert(v@[mm] == before[mm]);
                            } else {
                                assert(v@[before.len() as int]@ == k);
                            }
                        }
                    }
                }
            } else {
                proof {
                    assert forall|k: Seq<char>|
                        #[trigger] lists(v@, k) <==> (in_prefix(self.keys@, i + 1, k) && !seen@.contains(k)) by {
                        if in_prefix(self.keys@, i + 1, k) && !seen@.contains(k) {
                            let m = choose|m: int| 0 <= m < i + 1 && #[trigger] self.keys@[m]@ == k;
                            assert(m != i);
                            assert(in_prefix(self.keys@, i as int, k));
                        }
                        if lists(v@, k) {
                            let m = choose|m: int| 0 <= m < i && #[trigger] self.keys@[m]@ == k;
                        }
                    }
                }
            }
            i = i + 1;
        }
        proof {
            assert forall|k: Seq<char>|
                #[trigger] lists(v@, k) <==> (self@.files.contains_key(k) && !seen@.contains(k)) by {
                if self@.files.contains_key(k) && !seen@.contains(k) {
                    let m = choose|m: int| 0 <= m < self.keys@.len() && #[trigger] self.keys@[m]@ == k;
                    assert(in_prefix(self.keys@, i as int, k));
                }
                if lists(v@, k) {
                    let m = choose|m: int| 0 <= m < i && #[trigger] self.keys@[m]@ == k;
                    assert(self.files@.contains_key(self.keys@[m]@));
                }
            }
        }
        v
    }

    /// Forgets each listed path (files gone from the source), marking the
    /// state changed when there is any; reports one deletion per path, in
    /// order.
    pub fn forget_all(&mut self, rels: Vec<String>) -> (evs: Vec<SyncEvent>)
        requires
            old(self).wf(),
        ensures
            final(self).wf(),
            final(self)@ == (StoreView {
                files: old(self)@.files.remove_keys(Set::new(|k: Seq<char>| lists(rels@, k))),
                dirty: old(self)@.dirty || rels@.len() > 0,
                ..old(self)@
            }),
            evs@.len() == rels@.len(),
            forall|i: int| 0 <= i < rels@.len() ==> #[trigger] evs@[i] == (SyncEvent::Deleted { rel: rels@[i] }),
    {
        let mut evs: Vec<SyncEvent> = Vec::new();
        let mut i: usize = 0;
        assert(old(self)@.files.remove_keys(Set::new(|k: Seq<char>| in_prefix(rels@, 0, k))) =~= old(self)@.files);
        while i < rels.len()
            invariant
                self.wf(),
                i <= rels@.len(),
                self@ == (StoreView {
                    files: old(self)@.files.remove_keys(Set::new(|k: Seq<char>| in_prefix(rels@, i as int, k))),
                    dirty: old(self)@.dirty || i > 0,
                    ..old(self)@
                }),
                evs@.len() == i,
                forall|m: int| 0 <= m < i ==> #[trigger] evs@[m] == (SyncEvent::Deleted { rel: rels@[m] }),
            decreases rels.len() - i,
        {
            let ev = self.forget(rels[i].clone());
            evs.push(ev);
            i = i + 1;
            proof {
                assert(self@.files =~= old(self)@.files.remove_keys(
                    Set::new(|k: Seq<char>| in_prefix(rels@, i as int, k)),
                )) by {
                    assert forall|k: Seq<char>| in_prefix(rels@, i as int, k) == (in_prefix(rels@, i - 1, k) || k == rels@[i - 1]@) by {
                        if in_prefix(rels@, i as int, k) {
                            let m = choose|m: int| 0 <= m < i && #[trigger] rels@[m]@ == k;
                            if m < i - 1 {
                                assert(in_prefix(rels@, i - 1, k));
                            }
                        }
                        if k == rels@[i - 1]@ {
                            assert(rels@[i - 1]@ == k);
                        }
                        if in_prefix(rels@, i - 1, k) {
                            let m = choose|m: int| 0 <= m < i - 1 && #[trigger] rels@[m]@ == k;
                            assert(rels@[m]@ == k);
                        }
                    }
                }
            }
        }
        assert(Set::new(|k: Seq<char>| lists(rels@, k)) =~= Set::new(|k: Seq<char>| in_prefix(rels@, i as int, k)));
        evs
    }

    /// Notes the end of a full sync at wall-clock time `now_ms`.
    pub fn finish_sync(&mut self, now_ms: i64)
        requires
            old(self).wf(),
        ensures
            final(self).wf(),
            final(self)@ == (StoreView { last_sync_ms: Some(now_ms), dirty: true, ..old(self)@ }),
    {
        self.last_sync_ms = Some(now_ms);
        self.dirty = true;
        assert(self.keys@ == old(self).keys@ && self.files@ == old(self).files@);
    }
}

} // verus!

verus! {

/// Saving is throttled: after the state is written at `t`, it is not due
/// again before `t + FLUSH_INTERVAL_MS`, however many changes are made; it
/// is due from then on once something changed.
pub proof fn lemma_flush_throttled(s: StoreView, t: u64, now: u64)
    ensures
        ({
            let written = StoreView { dirty: false, flushed_at: t, ..s };
            let changed = StoreView { dirty: true, ..written };
            &&& now < t + FLUSH_INTERVAL_MS ==> !flush_due(changed, now)
            &&& now >= t + FLUSH_INTERVAL_MS ==> flush_due(changed, now)
            &&& !flush_due(written, now)
        }),
{
}

} // verus!
