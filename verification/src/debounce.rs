//! Debouncing of file-system change notifications: a changed path is held
//! back until it has been quiet for `DEBOUNCE_MS`, so a burst of writes to
//! one file (an editor's save, a build) leads to a single sync.

use vstd::prelude::*;
use crate::store::lists;

verus! {

/// How long a path must stay quiet before it is handed on.
pub const DEBOUNCE_MS: u64 = 300;

/// The kind of a change notification.
#[derive(Debug, Clone, Copy, PartialEq, Eq, Structural)]
pub enum ChangeKind {
    Create,
    Modify,
    Remove,
    Access,
    Other,
}

/// Only creations, modifications and removals lead to a sync.
pub fn is_relevant(kind: ChangeKind) -> (r: bool)
    ensures
        r == (kind == ChangeKind::Create || kind == ChangeKind::Modify || kind == ChangeKind::Remove),
{
    match kind {
        ChangeKind::Create | ChangeKind::Modify | ChangeKind::Remove => true,
        _ => false,
    }
}

/// `pending` after each of `paths` was changed at `now`.
pub open spec fn noted(pending: Map<Seq<char>, u64>, paths: Seq<Seq<char>>, now: u64) -> Map<Seq<char>, u64>
    decreases paths.len(),
{
    if paths.len() == 0 {
        pending
    } else {
        noted(pending, paths.drop_last(), now).insert(paths.last(), now)
    }
}

/// A path last changed at `at` has been quiet long enough at `now`.
pub open spec fn is_ready(at: u64, now: u64) -> bool {
    now >= at + DEBOUNCE_MS
}

/// The pending paths that are ready at `now`.
pub open spec fn ready_set(pending: Map<Seq<char>, u64>, now: u64) -> Set<Seq<char>> {
    Set::new(|k: Seq<char>| pending.contains_key(k) && is_ready(pending[k], now))
}

/// A path waiting to be synced, with the time of its latest change.
pub struct PendingPath {
    pub path: String,
    pub at: u64,
}

/// Changed paths waiting for their quiet period to end.
///
/// The paths are kept in a list with their times, each path once, and the
/// view is the map from path to time. A flush has to visit every pending
/// path. vstd specifies `HashMap` (its walks too) only for key types that
/// obey its hashing model, which vstd grants to integers and not to
/// `String`; its `StringHashMap`, specified for `String` keys, has no walk
/// over its entries. So the list is the structure the flush is proved on.
pub struct Debouncer {
    entries: Vec<PendingPath>,
    pending: Ghost<Map<Seq<char>, u64>>,
}

impl View for Debouncer {
    type V = Map<Seq<char>, u64>;

    closed spec fn view(&self) -> Map<Seq<char>, u64> {
        self.pending@
    }
}

impl Debouncer {
    /// The entry list holds each pending path once, with its time.
    pub closed spec fn wf(&self) -> bool {
        let e = self.entries@;
        let m = self.pending@;
        &&& forall|i: int| 0 <= i < e.len() ==> m.contains_key(#[trigger] e[i].path@) && m[e[i].path@] == e[i].at
        &&& forall|k: Seq<char>| #[trigger] m.contains_key(k) ==> exists|i: int| 0 <= i < e.len() && #[trigger] e[i].path@ == k
        &&& forall|i: int, j: int| 0 <= i < j < e.len() ==> (#[trigger] e[i]).path@ != (#[trigger] e[j]).path@
    }

    /// Nothing pending.
    pub fn new() -> (d: Debouncer)
        ensures
            d.wf(),
            d@ == Map::<Seq<char>, u64>::empty(),
    {
        Debouncer { entries: Vec::new(), pending: Ghost(Map::empty()) }
    }

    /// The number of pending paths.
    pub fn len(&self) -> (n: usize)
        requires
            self.wf(),
        ensures
            n as int == self@.dom().len(),
            self@.dom().finite(),
    {
        proof {
            let ks = self.entries@.map_values(|p: PendingPath| p.path@);
            assert forall|i: int, j: int| 0 <= i < ks.len() && 0 <= j < ks.len() && i != j implies ks[i] != ks[j] by {
                if i < j {
                    assert(self.entries@[i].path@ != self.entries@[j].path@);
                } else {
                    assert(self.entries@[j].path@ != self.entries@[i].path@);
                }
            }
            assert(ks.to_set() =~= self.pending@.dom()) by {
                assert forall|k: Seq<char>| ks.to_set().contains(k) implies self.pending@.dom().contains(k) by {
                    assert(ks.contains(k));
                    let i = choose|i: int| 0 <= i < ks.len() && ks[i] == k;
                    assert(self.pending@.contains_key(self.entries@[i].path@));
                }
                assert forall|k: Seq<char>| self.pending@.dom().contains(k) implies ks.to_set().contains(k) by {
                    assert(self.pending@.contains_key(k));
                    let i = choose|i: int| 0 <= i < self.entries@.len() && #[trigger] self.entries@[i].path@ == k;
                    assert(ks[i] == k);
                    assert(ks.contains(k));
                }
            }
            ks.unique_seq_to_set();
        }
        self.entries.len()
    }

    fn touch(&mut self, path: String, now: u64)
        requires
            old(self).wf(),
        ensures
            final(self).wf(),
            final(self)@ == old(self)@.insert(path@, now),
    {
        let mut i: usize = 0;
        while i < self.entries.len()
            invariant
                self.wf(),
                self == old(self),
                i <= self.entries@.len(),
                forall|j: int| 0 <= j < i ==> (#[trigger] self.entries@[j]).path@ != path@,
            decreases self.entries.len() - i,
        {
            if self.entries[i].path == path {
                let ghost e = self.entries@;
                let name = self.entries[i].path.clone();
                self.entries.set(i, PendingPath { path: name, at: now });
                self.pending = Ghost(self.pending@.insert(path@, now));
                proof {
                    assert forall|a: int, b: int| 0 <= a < b < self.entries@.len() implies (#[trigger] self.entries@[a]).path@ != (#[trigger] self.entries@[b]).path@ by {
                        assert(self.entries@[a].path@ == e[a].path@);
                        assert(self.entries@[b].path@ == e[b].path@);
                    }
                    assert forall|j: int| 0 <= j < self.entries@.len() implies self.pending@.contains_key(#[trigger] self.entries@[j].path@)
                        && self.pending@[self.entries@[j].path@] == self.entries@[j].at by {
                        if j != i {
                            assert(self.entries@[j] == e[j]);
                            assert(e[j].path@ != e[i as int].path@);
                        }
                    }
                    assert forall|k: Seq<char>| #[trigger] self.pending@.contains_key(k) implies exists|j: int|
                        0 <= j < self.entries@.len() && #[trigger] self.entries@[j].path@ == k by {
                        if k == path@ {
                            assert(self.entries@[i as int].path@ == k);
                        } else {
                            let j = choose|j: int| 0 <= j < e.len() && #[trigger] e[j].path@ == k;
                            assert(self.entries@[j].path@ == e[j].path@);
                        }
                    }
                }
                return;
            }
            i = i + 1;
        }
        let ghost e = self.entries@;
        assert(!self.pending@.contains_key(path@)) by {
            if self.pending@.contains_key(path@) {
                let j = choose|j: int| 0 <= j < e.len() && #[trigger] e[j].path@ == path@;
            }
        }
        self.entries.push(PendingPath { path, at: now });
        self.pending = Ghost(self.pending@.insert(path@, now));
        proof {
            assert forall|a: int, b: int| 0 <= a < b < self.entries@.len() implies (#[trigger] self.entries@[a]).path@ != (#[trigger] self.entries@[b]).path@ by {
                if b < e.len() {
                    assert(self.entries@[a] == e[a] && self.entries@[b] == e[b]);
                } else {
                    assert(self.entries@[a] == e[a]);
                }
            }
            assert forall|j: int| 0 <= j < self.entries@.len() implies self.pending@.contains_key(#[trigger] self.entries@[j].path@)
                && self.pending@[self.entries@[j].path@] == self.entries@[j].at by {
                if j < e.len() {
                    assert(self.entries@[j] == e[j]);
                }
            }
            assert forall|k: Seq<char>| #[trigger] self.pending@.contains_key(k) implies exists|j: int|
                0 <= j < self.entries@.len() && #[trigger] self.entries@[j].path@ == k by {
                if k == path@ {
                    assert(self.entries@[e.len() as int].path@ == k);
                } else {
                    let j = choose|j: int| 0 <= j < e.len() && #[trigger] e[j].path@ == k;
                    assert(self.entries@[j] == e[j]);
                }
            }
        }
    }

    /// Takes in a change notification at `now`: for a relevant kind, each
    /// path becomes pending with `now` as its latest change; other kinds
    /// are ignored.
    pub fn note(&mut self, kind: ChangeKind, paths: Vec<String>, now: u64)
        requires
            old(self).wf(),
        ensures
            final(self).wf(),
            final(self)@ == if kind == ChangeKind::Create || kind == ChangeKind::Modify
                || kind == ChangeKind::Remove {
                noted(old(self)@, paths@.map_values(|p: String| p@), now)
            } else {
                old(self)@
            },
    {
        if !is_relevant(kind) {
            return;
        }
        let ghost ps = paths@.map_values(|p: String| p@);
        let mut i: usize = 0;
        assert(ps.take(0) =~= Seq::<Seq<char>>::empty());
        while i < paths.len()
            invariant
                self.wf(),
                i <= paths@.len(),
                ps == paths@.map_values(|p: String| p@),
                self@ == noted(old(self)@, ps.take(i as int), now),
            decreases paths.len() - i,
        {
            assert(ps.take(i + 1).drop_last() =~= ps.take(i as int));
            self.touch(paths[i].clone(), now);
            i = i + 1;
        }
        assert(ps.take(paths.len() as int) =~= ps);
    }

    /// Hands on every path that has been quiet for `DEBOUNCE_MS` at `now`,
    /// each once, and stops tracking them; the others keep waiting.
    pub fn flush(&mut self, now: u64) -> (ready: Vec<String>)
        requires
            old(self).wf(),
        ensures
            final(self).wf(),
            final(self)@ == old(self)@.remove_keys(ready_set(old(self)@, now)),
            forall|k: Seq<char>| #[trigger] lists(ready@, k) <==> ready_set(old(self)@, now).contains(k),
            forall|i: int, j: int| 0 <= i < j < ready@.len() ==> (#[trigger] ready@[i])@ != (#[trigger] ready@[j])@,
    {
        let ghost m = self.pending@;
        let ghost e = self.entries@;
        let mut ready: Vec<String> = Vec::new();
        let mut keep: Vec<PendingPath> = Vec::new();
        let mut i: usize = 0;
        assert(e.take(0) =~= Seq::<PendingPath>::empty());
        assert(ready@.map_values(|s: String| s@) =~= ready_paths(e.take(0), now));
        while i < self.entries.len()
            invariant
                self.pending@ == m,
                self.entries@ == e,
                i <= e.len(),
                ready@.map_values(|s: String| s@) == ready_paths(e.take(i as int), now),
                keep@ == kept(e.take(i as int), now),
            decreases e.len() - i,
        {
            let at = self.entries[i].at;
            assert(e.take(i + 1).drop_last() =~= e.take(i as int));
            assert(e.take(i + 1).last() == e[i as int]);
            if now >= at && now - at >= DEBOUNCE_MS {
                let ghost r0 = ready@;
                ready.push(self.entries[i].path.clone());
                assert(ready@.map_values(|s: String| s@) =~= r0.map_values(|s: String| s@).push(e[i as int].path@));
            } else {
                keep.push(PendingPath { path: self.entries[i].path.clone(), at });
            }
            i = i + 1;
        }
        assert(e.take(e.len() as int) =~= e);
        let ghost rs = ready_set(m, now);
        let ghost nm = m.remove_keys(rs);
        proof {
            let rv = ready@.map_values(|s: String| s@);
            lemma_flush_result(m, e, now, rv, keep@);
            assert forall|k: Seq<char>| #[trigger] lists(ready@, k) <==> rs.contains(k) by {
                if lists(ready@, k) {
                    let a = choose|a: int| 0 <= a < ready@.len() && #[trigger] ready@[a]@ == k;
                    assert(rv[a] == k);
                }
                if rs.contains(k) {
                    let a = choose|a: int| 0 <= a < rv.len() && #[trigger] rv[a] == k;
                    assert(ready@[a]@ == k);
                }
            }
            assert forall|a: int, b: int| 0 <= a < b < ready@.len() implies (#[trigger] ready@[a])@ != (#[trigger] ready@[b])@ by {
                assert(rv[a] != rv[b]);
            }
        }
        self.entries = keep;
        self.pending = Ghost(nm);
        proof {
            assert forall|k: Seq<char>| #[trigger] self.pending@.contains_key(k) implies exists|i: int|
                0 <= i < self.entries@.len() && #[trigger] self.entries@[i].path@ == k by {
                let a = choose|a: int| 0 <= a < self.entries@.len() && #[trigger] path_is(self.entries@[a], k);
            }
        }
        ready
    }
}

proof fn lemma_flush_result(
    m: Map<Seq<char>, u64>,
    e: Seq<PendingPath>,
    now: u64,
    rv: Seq<Seq<char>>,
    keep: Seq<PendingPath>,
)
    requires
        forall|i: int| 0 <= i < e.len() ==> m.contains_key(#[trigger] e[i].path@) && m[e[i].path@] == e[i].at,
        forall|k: Seq<char>| #[trigger] m.contains_key(k) ==> exists|i: int| 0 <= i < e.len() && #[trigger] e[i].path@ == k,
        distinct_paths(e),
        rv == ready_paths(e, now),
        keep == kept(e, now),
    ensures
        forall|k: Seq<char>| (exists|a: int| 0 <= a < rv.len() && #[trigger] rv[a] == k) <==> #[trigger] ready_set(m, now).contains(k),
        forall|a: int, b: int| 0 <= a < b < rv.len() ==> #[trigger] rv[a] != #[trigger] rv[b],
        forall|a: int| 0 <= a < keep.len() ==> m.remove_keys(ready_set(m, now)).contains_key(#[trigger] keep[a].path@)
            && m.remove_keys(ready_set(m, now))[keep[a].path@] == keep[a].at,
        forall|k: Seq<char>| #[trigger] m.remove_keys(ready_set(m, now)).contains_key(k) ==> exists|a: int|
            0 <= a < keep.len() && #[trigger] path_is(keep[a], k),
        distinct_paths(keep),
{
    lemma_ready_paths(e, now);
    lemma_kept(e, now);
    let rs = ready_set(m, now);
    let nm = m.remove_keys(rs);
    assert forall|k: Seq<char>| (exists|a: int| 0 <= a < rv.len() && #[trigger] rv[a] == k) <==> #[trigger] rs.contains(k) by {
        if exists|a: int| 0 <= a < rv.len() && #[trigger] rv[a] == k {
            let a = choose|a: int| 0 <= a < rv.len() && #[trigger] rv[a] == k;
            assert(ready_entry(e, now, rv[a]));
            let j = choose|j: int| 0 <= j < e.len() && #[trigger] path_is(e[j], rv[a]) && is_ready(e[j].at, now);
            assert(m.contains_key(e[j].path@));
        }
        if rs.contains(k) {
            let j = choose|j: int| 0 <= j < e.len() && #[trigger] e[j].path@ == k;
            assert(is_ready(e[j].at, now));
            let a = choose|a: int| 0 <= a < rv.len() && rv[a] == e[j].path@;
            assert(rv[a] == k);
        }
    }
    assert forall|a: int| 0 <= a < keep.len() implies nm.contains_key(#[trigger] keep[a].path@)
        && nm[keep[a].path@] == keep[a].at by {
        let j = choose|j: int| 0 <= j < e.len() && #[trigger] e[j] == #[trigger] keep[a] && !is_ready(e[j].at, now);
        assert(m.contains_key(e[j].path@));
    }
    assert forall|k: Seq<char>| #[trigger] nm.contains_key(k) implies exists|a: int|
        0 <= a < keep.len() && #[trigger] path_is(keep[a], k) by {
        let j = choose|j: int| 0 <= j < e.len() && #[trigger] e[j].path@ == k;
        assert(!is_ready(e[j].at, now));
        let a = choose|a: int| 0 <= a < keep.len() && #[trigger] keep[a] == e[j];
        assert(path_is(keep[a], k));
    }
}

/// Some entry of `e` for the path `p` is ready at `now`.
pub open spec fn ready_entry(e: Seq<PendingPath>, now: u64, p: Seq<char>) -> bool {
    exists|j: int| 0 <= j < e.len() && #[trigger] path_is(e[j], p) && is_ready(e[j].at, now)
}

/// An entry for the path `p`.
pub open spec fn path_is(e: PendingPath, p: Seq<char>) -> bool {
    e.path@ == p
}

/// The paths of the ready entries, in order.
pub open spec fn ready_paths(e: Seq<PendingPath>, now: u64) -> Seq<Seq<char>>
    decreases e.len(),
{
    if e.len() == 0 {
        seq![]
    } else if is_ready(e.last().at, now) {
        ready_paths(e.drop_last(), now).push(e.last().path@)
    } else {
        ready_paths(e.drop_last(), now)
    }
}

/// The entries that are not ready, in order.
pub open spec fn kept(e: Seq<PendingPath>, now: u64) -> Seq<PendingPath>
    decreases e.len(),
{
    if e.len() == 0 {
        seq![]
    } else if is_ready(e.last().at, now) {
        kept(e.drop_last(), now)
    } else {
        kept(e.drop_last(), now).push(e.last())
    }
}

/// Entry paths are pairwise distinct.
pub open spec fn distinct_paths(e: Seq<PendingPath>) -> bool {
    forall|i: int, j: int| 0 <= i < j < e.len() ==> (#[trigger] e[i]).path@ != (#[trigger] e[j]).path@
}

proof fn lemma_ready_paths(e: Seq<PendingPath>, now: u64)
    ensures
        forall|a: int| 0 <= a < ready_paths(e, now).len() ==> ready_entry(e, now, #[trigger] ready_paths(e, now)[a]),
        forall|j: int| 0 <= j < e.len() && is_ready(#[trigger] e[j].at, now) ==> exists|a: int|
            0 <= a < ready_paths(e, now).len() && ready_paths(e, now)[a] == e[j].path@,
        distinct_paths(e) ==> forall|a: int, b: int|
            0 <= a < b < ready_paths(e, now).len() ==> #[trigger] ready_paths(e, now)[a] != #[trigger] ready_paths(e, now)[b],
    decreases e.len(),
{
    if e.len() > 0 {
        let d = e.drop_last();
        lemma_ready_paths(d, now);
        let r = ready_paths(e, now);
        let rd = ready_paths(d, now);
        assert forall|a: int| 0 <= a < ready_paths(e, now).len() implies ready_entry(e, now, #[trigger] ready_paths(e, now)[a]) by {
            if a < rd.len() {
                assert(r[a] == rd[a]);
                assert(ready_entry(d, now, ready_paths(d, now)[a]));
                let j = choose|j: int| 0 <= j < d.len() && #[trigger] path_is(d[j], ready_paths(d, now)[a]) && is_ready(d[j].at, now);
                assert(e[j] == d[j]);
                assert(path_is(e[j], r[a]));
            } else {
                assert(is_ready(e.last().at, now));
                assert(path_is(e[e.len() - 1], r[a]));
            }
        }
        assert forall|j: int| 0 <= j < e.len() && is_ready(#[trigger] e[j].at, now) implies exists|a: int|
            0 <= a < r.len() && r[a] == e[j].path@ by {
            if j < d.len() {
                assert(d[j] == e[j]);
                let a = choose|a: int| 0 <= a < rd.len() && rd[a] == d[j].path@;
                assert(r[a] == rd[a]);
            } else {
                assert(r[rd.len() as int] == e[j].path@);
            }
        }
        if distinct_paths(e) {
            assert(distinct_paths(d)) by {
                assert forall|i: int, j: int| 0 <= i < j < d.len() implies (#[trigger] d[i]).path@ != (#[trigger] d[j]).path@ by {
                    assert(d[i] == e[i] && d[j] == e[j]);
                }
            }
            assert forall|a: int, b: int| 0 <= a < b < r.len() implies #[trigger] r[a] != #[trigger] r[b] by {
                if b < rd.len() {
                    assert(r[a] == rd[a] && r[b] == rd[b]);
                } else {
                    assert(r[a] == rd[a]);
                    assert(ready_entry(d, now, ready_paths(d, now)[a]));
                let j = choose|j: int| 0 <= j < d.len() && #[trigger] path_is(d[j], ready_paths(d, now)[a]) && is_ready(d[j].at, now);
                    assert(e[j] == d[j]);
                    assert(e[j].path@ != e[e.len() - 1].path@);
                }
            }
        }
    } else {
        assert(ready_paths(e, now) =~= Seq::<Seq<char>>::empty());
    }
}

proof fn lemma_kept(e: Seq<PendingPath>, now: u64)
    ensures
        forall|a: int| 0 <= a < kept(e, now).len() ==> exists|j: int|
            0 <= j < e.len() && #[trigger] e[j] == #[trigger] kept(e, now)[a] && !is_ready(e[j].at, now),
        forall|j: int| 0 <= j < e.len() && !is_ready(#[trigger] e[j].at, now) ==> exists|a: int|
            0 <= a < kept(e, now).len() && #[trigger] kept(e, now)[a] == e[j],
        distinct_paths(e) ==> distinct_paths(kept(e, now)),
    decreases e.len(),
{
    if e.len() > 0 {
        let d = e.drop_last();
        lemma_kept(d, now);
        let r = kept(e, now);
        let rd = kept(d, now);
        assert forall|a: int| 0 <= a < r.len() implies exists|j: int|
            0 <= j < e.len() && #[trigger] e[j] == #[trigger] r[a] && !is_ready(e[j].at, now) by {
            if a < rd.len() {
                assert(r[a] == rd[a]);
                let j = choose|j: int| 0 <= j < d.len() && #[trigger] d[j] == #[trigger] rd[a] && !is_ready(d[j].at, now);
                assert(e[j] == d[j]);
            } else {
                assert(e[e.len() - 1] == r[a]);
            }
        }
        assert forall|j: int| 0 <= j < e.len() && !is_ready(#[trigger] e[j].at, now) implies exists|a: int|
            0 <= a < r.len() && #[trigger] r[a] == e[j] by {
            if j < d.len() {
                assert(d[j] == e[j]);
                let a = choose|a: int| 0 <= a < rd.len() && #[trigger] rd[a] == d[j];
                assert(r[a] == rd[a]);
            } else {
                assert(r[rd.len() as int] == e[j]);
            }
        }
        if distinct_paths(e) {
            assert(distinct_paths(d)) by {
                assert forall|i: int, j: int| 0 <= i < j < d.len() implies (#[trigger] d[i]).path@ != (#[trigger] d[j]).path@ by {
                    assert(d[i] == e[i] && d[j] == e[j]);
                }
            }
            assert forall|a: int, b: int| 0 <= a < b < r.len() implies (#[trigger] r[a]).path@ != (#[trigger] r[b]).path@ by {
                if b < rd.len() {
                    assert(r[a] == rd[a] && r[b] == rd[b]);
                } else {
                    assert(r[a] == rd[a]);
                    let j = choose|j: int| 0 <= j < d.len() && #[trigger] d[j] == #[trigger] rd[a] && !is_ready(d[j].at, now);
                    assert(e[j] == d[j]);
                    assert(e[j].path@ != e[e.len() - 1].path@);
                }
            }
        }
    }
}

} // verus!

verus! {

proof fn lemma_noted_one(pending: Map<Seq<char>, u64>, path: Seq<char>, at: u64)
    ensures
        noted(pending, seq![path], at) == pending.insert(path, at),
{
    let one = seq![path];
    assert(one.drop_last() =~= Seq::<Seq<char>>::empty());
    assert(one.last() == path);
    assert(noted(pending, one.drop_last(), at) == pending);
}

/// A changed path is handed on once, and only after it has been quiet for
/// the debounce period: a flush before then keeps it waiting with the time
/// of its change; a flush after then hands it on; later flushes do not see
/// it again.
pub proof fn lemma_quiet_period(
    pending: Map<Seq<char>, u64>,
    path: Seq<char>,
    at: u64,
    early: u64,
    late: u64,
)
    requires
        early < at + DEBOUNCE_MS,
        late >= at + DEBOUNCE_MS,
    ensures
        ({
            let m1 = noted(pending, seq![path], at);
            let m2 = m1.remove_keys(ready_set(m1, early));
            let m3 = m2.remove_keys(ready_set(m2, late));
            &&& !ready_set(m1, early).contains(path)
            &&& m2.contains_key(path) && m2[path] == at
            &&& ready_set(m2, late).contains(path)
            &&& !m3.contains_key(path)
            &&& forall|t: u64| !(#[trigger] ready_set(m3, t)).contains(path)
        }),
{
    lemma_noted_one(pending, path, at);
}

/// Repeated changes to one path leave one pending entry, timed by the
/// latest change.
pub proof fn lemma_coalesce(pending: Map<Seq<char>, u64>, path: Seq<char>, first: u64, second: u64)
    ensures
        noted(noted(pending, seq![path], first), seq![path], second) == pending.insert(path, second),
{
    lemma_noted_one(pending, path, first);
    lemma_noted_one(pending.insert(path, first), path, second);
    assert(pending.insert(path, first).insert(path, second) =~= pending.insert(path, second));
}

} // verus!

verus! {

/// Creations, modifications and removals; the kinds that `note` keeps.
pub open spec fn relevant_kind(kind: ChangeKind) -> bool {
    kind == ChangeKind::Create || kind == ChangeKind::Modify || kind == ChangeKind::Remove
}

/// One call on a debouncer: a notification taken in by `note`, or a `flush`.
pub enum WatchOp {
    Note { kind: ChangeKind, paths: Seq<Seq<char>>, at: u64 },
    Flush { at: u64 },
}

/// What a new debouncer holds after `ops`, call by call, as the contracts of
/// `note` and `flush` give it.
pub open spec fn pending_after(ops: Seq<WatchOp>) -> Map<Seq<char>, u64>
    decreases ops.len(),
{
    if ops.len() == 0 {
        Map::empty()
    } else {
        let m = pending_after(ops.drop_last());
        match ops.last() {
            WatchOp::Note { kind, paths, at } => if relevant_kind(kind) {
                noted(m, paths, at)
            } else {
                m
            },
            WatchOp::Flush { at } => m.remove_keys(ready_set(m, at)),
        }
    }
}

/// The time of the latest relevant notification in `ops` that names `k`.
pub open spec fn last_change(ops: Seq<WatchOp>, k: Seq<char>) -> Option<u64>
    decreases ops.len(),
{
    if ops.len() == 0 {
        None
    } else {
        match ops.last() {
            WatchOp::Note { kind, paths, at } => if relevant_kind(kind) && paths.contains(k) {
                Some(at)
            } else {
                last_change(ops.drop_last(), k)
            },
            WatchOp::Flush { .. } => last_change(ops.drop_last(), k),
        }
    }
}

proof fn lemma_noted(m: Map<Seq<char>, u64>, paths: Seq<Seq<char>>, at: u64)
    ensures
        forall|k: Seq<char>| #[trigger] noted(m, paths, at).contains_key(k) == (m.contains_key(k) || paths.contains(k)),
        forall|k: Seq<char>| noted(m, paths, at).contains_key(k) ==> #[trigger] noted(m, paths, at)[k] == if paths.contains(k) {
            at
        } else {
            m[k]
        },
    decreases paths.len(),
{
    if paths.len() > 0 {
        let d = paths.drop_last();
        lemma_noted(m, d, at);
        assert forall|k: Seq<char>| paths.contains(k) == (d.contains(k) || paths.last() == k) by {
            if paths.contains(k) {
                let i = choose|i: int| 0 <= i < paths.len() && paths[i] == k;
                if i < d.len() {
                    assert(d[i] == k);
                }
            }
            if d.contains(k) {
                let i = choose|i: int| 0 <= i < d.len() && d[i] == k;
                assert(paths[i] == k);
            }
            if paths.last() == k {
                assert(paths[paths.len() - 1] == k);
            }
        }
        assert(noted(m, paths, at) == noted(m, d, at).insert(paths.last(), at));
    } else {
        assert(noted(m, paths, at) == m);
        assert forall|k: Seq<char>| !paths.contains(k) by {}
    }
}

proof fn lemma_pending_history(ops: Seq<WatchOp>)
    ensures
        forall|k: Seq<char>| #[trigger] pending_after(ops).contains_key(k) ==> last_change(ops, k) == Some(pending_after(ops)[k]),
    decreases ops.len(),
{
    if ops.len() > 0 {
        let d = ops.drop_last();
        lemma_pending_history(d);
        let m = pending_after(d);
        match ops.last() {
            WatchOp::Note { kind, paths, at } => {
                if relevant_kind(kind) {
                    lemma_noted(m, paths, at);
                }
            },
            WatchOp::Flush { at } => {},
        }
    }
}

/// After any history of notifications and flushes, every pending path was
/// named by a creation, modification or removal, and waits with the time of
/// the latest such notification for it; so a path that a flush at `t` hands
/// on was changed, and last changed at least `DEBOUNCE_MS` before `t`.
pub proof fn lemma_flush_history(ops: Seq<WatchOp>, t: u64)
    ensures
        forall|k: Seq<char>| #[trigger] pending_after(ops).contains_key(k) ==> last_change(ops, k) == Some(pending_after(ops)[k]),
        forall|k: Seq<char>| #[trigger] ready_set(pending_after(ops), t).contains(k) ==> {
            &&& last_change(ops, k) is Some
            &&& last_change(ops, k)->0 + DEBOUNCE_MS <= t
        },
{
    lemma_pending_history(ops);
}

} // verus!
