//! The running session as the user sees it: counters of what this session
//! copied, the scan progress indicator, the bounded log of what happened,
//! and the log filter.

use vstd::prelude::*;
use std::collections::VecDeque;
use crate::syncer::SyncEvent;
use crate::units::{fmt_bytes, size_text};
use crate::text::{chars_of, decimal, push_decimal};
use vstd::string::StrSliceExecFns;

verus! {

/// The most log lines kept; older lines are dropped first.
pub const MAX_LOG: usize = 500;

/// What a log line reports; it decides the line's colour, and the error
/// filter keeps only `Error` lines.
#[derive(Debug, Clone, Copy, PartialEq, Eq, Structural)]
pub enum LogKind {
    Started,
    Stopped,
    Resync,
    Copied,
    Deleted,
    Error,
}

/// One line of the log.
pub struct LogLine {
    pub kind: LogKind,
    pub text: String,
}

/// The session counters and the progress indicator.
pub struct Session {
    pub copied: usize,
    pub bytes: u64,
    /// Files scanned so far while a scan runs; `None` when no scan is shown.
    pub progress: Option<usize>,
}

/// The progress indicator after a progress report. A report with
/// `scanned == total` is the last one of a scan and ends the indicator,
/// also for a scan that visited nothing (0 of 0); a running report
/// (total unknown, written 0, after at least one file) shows the count.
pub open spec fn progress_after(scanned: usize, total: usize) -> Option<usize> {
    if scanned >= total && (total > 0 || scanned == 0) {
        None
    } else {
        Some(scanned)
    }
}

/// Whether a report can be taken in without a session counter overflowing.
pub open spec fn fits(s: Session, ev: SyncEvent) -> bool {
    match ev {
        SyncEvent::Copied { bytes, .. } => s.copied < usize::MAX && s.bytes + bytes <= u64::MAX,
        _ => true,
    }
}

/// The log text for a report, if it has one.
pub open spec fn event_text(ev: SyncEvent) -> Option<(LogKind, Seq<char>)> {
    match ev {
        SyncEvent::Copied { rel, bytes } => Some(
            (LogKind::Copied, "📋 已同步  "@ + rel@ + "  ("@ + size_text(bytes as nat) + ")"@),
        ),
        SyncEvent::Deleted { rel } => Some((LogKind::Deleted, "🗑 已删除  "@ + rel@)),
        SyncEvent::Error { rel, err } => Some((LogKind::Error, "❌ 错误  "@ + rel@ + "  "@ + err@)),
        SyncEvent::Progress { .. } => None,
    }
}

impl Session {
    /// A session with nothing copied and no progress shown.
    pub fn new() -> (s: Session)
        ensures
            s.copied == 0 && s.bytes == 0 && s.progress is None,
    {
        Session { copied: 0, bytes: 0, progress: None }
    }

    /// Takes in a report from the sync engine: a copy is counted, a
    /// progress report moves the indicator; the line to log is returned.
    pub fn apply(&mut self, ev: SyncEvent) -> (line: Option<LogLine>)
        requires
            fits(*old(self), ev),
        ensures
            match ev {
                SyncEvent::Copied { bytes, .. } => final(self).copied == old(self).copied + 1
                    && final(self).bytes == old(self).bytes + bytes
                    && final(self).progress == old(self).progress,
                SyncEvent::Progress { scanned, total } => final(self).copied == old(self).copied
                    && final(self).bytes == old(self).bytes
                    && final(self).progress == progress_after(scanned, total),
                _ => *final(self) == *old(self),
            },
            match event_text(ev) {
                Some((kind, text)) => line matches Some(l) && l.kind == kind && l.text@ == text,
                None => line is None,
            },
    {
        match ev {
            SyncEvent::Copied { rel, bytes } => {
                self.copied = self.copied + 1;
                self.bytes = self.bytes + bytes;
                let mut t = String::from_str("📋 已同步  ");
                t.append(rel.as_str());
                t.append("  (");
                t.append(fmt_bytes(bytes).as_str());
                t.append(")");
                Some(LogLine { kind: LogKind::Copied, text: t })
            },
            SyncEvent::Deleted { rel } => {
                let mut t = String::from_str("🗑 已删除  ");
                t.append(rel.as_str());
                Some(LogLine { kind: LogKind::Deleted, text: t })
            },
            SyncEvent::Error { rel, err } => {
                let mut t = String::from_str("❌ 错误  ");
                t.append(rel.as_str());
                t.append("  ");
                t.append(err.as_str());
                Some(LogLine { kind: LogKind::Error, text: t })
            },
            SyncEvent::Progress { scanned, total } => {
                self.progress = if scanned >= total && (total > 0 || scanned == 0) {
                    None
                } else {
                    Some(scanned)
                };
                None
            },
        }
    }

    /// Ends the session: the line summing it up is returned, and the
    /// counters and the indicator are cleared.
    pub fn stop(&mut self) -> (line: LogLine)
        ensures
            final(self).copied == 0 && final(self).bytes == 0 && final(self).progress is None,
            line.kind == LogKind::Stopped,
            line.text@ == "⏹ 已停止（本次同步 "@ + decimal(old(self).copied as nat) + " 个文件 "@
                + size_text(old(self).bytes as nat) + "）"@,
    {
        let mut t = String::from_str("⏹ 已停止（本次同步 ");
        push_decimal(&mut t, self.copied as u64);
        t.append(" 个文件 ");
        t.append(fmt_bytes(self.bytes).as_str());
        t.append("）");
        self.copied = 0;
        self.bytes = 0;
        self.progress = None;
        LogLine { kind: LogKind::Stopped, text: t }
    }
}

/// The line announcing that watching started.
pub fn started_line(src: &str, dst: &str) -> (line: LogLine)
    ensures
        line.kind == LogKind::Started,
        line.text@ == "✅ 开始监控: "@ + src@ + " → "@ + dst@,
{
    let mut t = String::from_str("✅ 开始监控: ");
    t.append(src);
    t.append(" → ");
    t.append(dst);
    LogLine { kind: LogKind::Started, text: t }
}

/// The line announcing a manual full sync.
pub fn resync_line() -> (line: LogLine)
    ensures
        line.kind == LogKind::Resync,
        line.text@ == "🔄 手动触发全量同步…"@,
{
    LogLine { kind: LogKind::Resync, text: String::from_str("🔄 手动触发全量同步…") }
}

/// The error line for a target directory that could not be created.
pub fn target_unavailable_line(dst: &str) -> (line: LogLine)
    ensures
        line.kind == LogKind::Error,
        line.text@ == "❌ 无法创建目标路径: "@ + dst@,
{
    let mut t = String::from_str("❌ 无法创建目标路径: ");
    t.append(dst);
    LogLine { kind: LogKind::Error, text: t }
}

/// The error line for a watcher that could not be started.
pub fn watch_failed_line(err: &str) -> (line: LogLine)
    ensures
        line.kind == LogKind::Error,
        line.text@ == "❌ 监听失败: "@ + err@,
{
    let mut t = String::from_str("❌ 监听失败: ");
    t.append(err);
    LogLine { kind: LogKind::Error, text: t }
}

} // verus!

verus! {

/// The lowercase form of a string, as `str::to_lowercase` computes it.
pub uninterp spec fn lowercase_of(s: Seq<char>) -> Seq<char>;

/// `str::to_lowercase`.
#[verifier::external_body]
fn lowercase(s: &str) -> (r: String)
    ensures
        r@ == lowercase_of(s@),
{
    s.to_lowercase()
}

/// `needle` occurs in `hay` as a contiguous run.
pub open spec fn occurs_in(needle: Seq<char>, hay: Seq<char>) -> bool {
    exists|i: int| 0 <= i && i + needle.len() <= hay.len() && #[trigger] hay.subrange(i, i + needle.len()) == needle
}

fn occurs_at(needle: &Vec<char>, hay: &Vec<char>, i: usize) -> (r: bool)
    requires
        i + needle.len() <= hay.len(),
    ensures
        r == (hay@.subrange(i as int, i + needle.len()) == needle@),
{
    let mut k: usize = 0;
    while k < needle.len()
        invariant
            i + needle.len() <= hay.len(),
            k <= needle.len(),
            forall|m: int| 0 <= m < k ==> hay@[i + m] == needle@[m],
        decreases needle.len() - k,
    {
        if hay[i + k] != needle[k] {
            assert(hay@.subrange(i as int, i + needle.len())[k as int] != needle@[k as int]);
            return false;
        }
        k = k + 1;
    }
    assert(hay@.subrange(i as int, i + needle.len()) =~= needle@);
    true
}

fn occurs(needle: &Vec<char>, hay: &Vec<char>) -> (r: bool)
    ensures
        r == occurs_in(needle@, hay@),
{
    if needle.len() > hay.len() {
        return false;
    }
    if needle.len() == 0 {
        assert(hay@.subrange(0, 0 + needle@.len() as int) =~= needle@);
        return true;
    }
    let last = hay.len() - needle.len();
    let mut i: usize = 0;
    while i <= last
        invariant
            last == hay.len() - needle.len(),
            needle.len() >= 1,
            i <= last + 1,
            forall|m: int| 0 <= m < i ==> #[trigger] hay@.subrange(m, m + needle.len()) != needle@,
        decreases last + 1 - i,
    {
        if occurs_at(needle, hay, i) {
            return true;
        }
        i = i + 1;
    }
    false
}

/// Whether the log view shows a line: with `errors_only` only error lines;
/// with a non-empty query only lines whose lowercase text contains it.
pub open spec fn shown(line: LogLine, errors_only: bool, query_lc: Seq<char>) -> bool {
    (!errors_only || line.kind == LogKind::Error) && (query_lc.len() == 0 || occurs_in(
        query_lc,
        lowercase_of(line.text@),
    ))
}

/// The indices, in order, of the first `n` lines that are shown.
pub open spec fn shown_indices(lines: Seq<LogLine>, errors_only: bool, query_lc: Seq<char>, n: int) -> Seq<usize>
    decreases n,
{
    if n <= 0 {
        seq![]
    } else if shown(lines[n - 1], errors_only, query_lc) {
        shown_indices(lines, errors_only, query_lc, n - 1).push((n - 1) as usize)
    } else {
        shown_indices(lines, errors_only, query_lc, n - 1)
    }
}

/// The log after appending `x`: when it is full, the oldest line goes.
pub open spec fn keep_latest(s: Seq<LogLine>, x: LogLine) -> Seq<LogLine> {
    if s.len() < MAX_LOG {
        s.push(x)
    } else {
        s.drop_first().push(x)
    }
}

/// The log after appending each of `xs` to an empty log, in order.
pub open spec fn replay(xs: Seq<LogLine>) -> Seq<LogLine>
    decreases xs.len(),
{
    if xs.len() == 0 {
        seq![]
    } else {
        keep_latest(replay(xs.drop_last()), xs.last())
    }
}

/// The log holds exactly the latest `MAX_LOG` lines appended, in order.
pub proof fn lemma_log_keeps_latest(xs: Seq<LogLine>)
    ensures
        replay(xs) == if xs.len() <= MAX_LOG { xs } else { xs.skip(xs.len() - MAX_LOG) },
    decreases xs.len(),
{
    if xs.len() > 0 {
        let d = xs.drop_last();
        lemma_log_keeps_latest(d);
        if xs.len() <= MAX_LOG {
            assert(d.push(xs.last()) =~= xs);
        } else if d.len() <= MAX_LOG {
            assert(d.len() == MAX_LOG);
            assert(d.drop_first().push(xs.last()) =~= xs.skip(xs.len() - MAX_LOG));
        } else {
            assert(d.skip(d.len() - MAX_LOG).drop_first().push(xs.last()) =~= xs.skip(xs.len() - MAX_LOG));
        }
    }
}

/// Whether a line is shown, given its kind and its text and the query
/// both already lowercased (see `shown`).
pub fn shown_lowered(kind: LogKind, text_lc: &str, errors_only: bool, query_lc: &str) -> (r: bool)
    ensures
        r == ((!errors_only || kind == LogKind::Error) && (query_lc@.len() == 0 || occurs_in(query_lc@, text_lc@))),
{
    if errors_only && kind != LogKind::Error {
        return false;
    }
    let qc = chars_of(query_lc);
    if qc.len() == 0 {
        return true;
    }
    let tc = chars_of(text_lc);
    occurs(&qc, &tc)
}

/// The log: the latest `MAX_LOG` lines, oldest first.
pub struct Log {
    lines: VecDeque<LogLine>,
}

impl View for Log {
    type V = Seq<LogLine>;

    closed spec fn view(&self) -> Seq<LogLine> {
        self.lines@
    }
}

impl Log {
    /// At most `MAX_LOG` lines are kept.
    pub closed spec fn wf(&self) -> bool {
        self.lines@.len() <= MAX_LOG
    }

    /// An empty log.
    pub fn new() -> (l: Log)
        ensures
            l.wf(),
            l@ == Seq::<LogLine>::empty(),
    {
        Log { lines: VecDeque::new() }
    }

    /// The number of lines.
    pub fn len(&self) -> (n: usize)
        ensures
            n == self@.len(),
    {
        self.lines.len()
    }

    /// Whether the log is empty.
    pub fn is_empty(&self) -> (b: bool)
        ensures
            b == (self@.len() == 0),
    {
        self.lines.len() == 0
    }

    /// The line at `i`.
    pub fn get(&self, i: usize) -> (l: &LogLine)
        requires
            i < self@.len(),
        ensures
            *l == self@[i as int],
    {
        &self.lines[i]
    }

    /// Removes every line.
    pub fn clear(&mut self)
        ensures
            final(self).wf(),
            final(self)@ == Seq::<LogLine>::empty(),
    {
        self.lines.clear();
    }

    /// Appends a line, prefixed with "[stamp] "; when the log is full the
    /// oldest line is dropped first.
    pub fn push(&mut self, stamp: &str, line: LogLine)
        requires
            old(self).wf(),
        ensures
            final(self).wf(),
            final(self)@ == keep_latest(old(self)@, final(self)@.last()),
            final(self)@.last().kind == line.kind,
            final(self)@.last().text@ == "["@ + stamp@ + "] "@ + line.text@,
    {
        let mut t = String::from_str("[");
        t.append(stamp);
        t.append("] ");
        t.append(line.text.as_str());
        if self.lines.len() >= MAX_LOG {
            let _oldest = self.lines.pop_front();
        }
        let ghost mid = self.lines@;
        self.lines.push_back(LogLine { kind: line.kind, text: t });
        proof {
            if old(self)@.len() >= MAX_LOG {
                assert(mid =~= old(self)@.drop_first());
            }
            assert(self.lines@ =~= keep_latest(old(self)@, self.lines@.last()));
        }
    }

    /// The indices of the shown lines, in order (see `shown`).
    pub fn filter(&self, errors_only: bool, query: &str) -> (idx: Vec<usize>)
        ensures
            idx@ == shown_indices(self@, errors_only, lowercase_of(query@), self@.len() as int),
    {
        let q = lowercase(query);
        let qc = chars_of(q.as_str());
        let mut idx: Vec<usize> = Vec::new();
        let mut i: usize = 0;
        while i < self.lines.len()
            invariant
                i <= self@.len(),
                qc@ == lowercase_of(query@),
                q@ == qc@,
                idx@ == shown_indices(self@, errors_only, qc@, i as int),
            decreases self@.len() - i,
        {
            let line = &self.lines[i];
            let mut ok = !errors_only || line.kind == LogKind::Error;
            if ok && qc.len() > 0 {
                let low = lowercase(line.text.as_str());
                ok = shown_lowered(line.kind, low.as_str(), errors_only, q.as_str());
            }
            if ok {
                idx.push(i);
            }
            i = i + 1;
        }
        idx
    }
}

} // verus!

verus! {

/// The end of a scan (its last report has `scanned == total`) clears the
/// progress indicator, whatever the count, while the running reports of a
/// scan (unknown total, after some files) keep it showing their count.
pub proof fn lemma_scan_end_clears_progress(scanned: usize)
    ensures
        progress_after(scanned, scanned) is None,
        scanned > 0 ==> progress_after(scanned, 0) == Some(scanned),
{
}

/// The status-bar summary of all syncing so far: files, bytes, and the
/// time of the last full sync ("从未", never, when there was none).
pub fn stats_text(total_synced: u64, total_bytes: u64, last: &str) -> (s: String)
    ensures
        s@ == "累计同步 "@ + decimal(total_synced as nat) + " 个文件  "@ + size_text(total_bytes as nat)
            + "  |  上次: "@ + if last@.len() == 0 { "从未"@ } else { last@ },
{
    let mut s = String::from_str("累计同步 ");
    push_decimal(&mut s, total_synced);
    s.append(" 个文件  ");
    s.append(fmt_bytes(total_bytes).as_str());
    s.append("  |  上次: ");
    if last.unicode_len() == 0 {
        s.append("从未");
    } else {
        s.append(last);
    }
    s
}

} // verus!

verus! {

proof fn lemma_shown_indices(lines: Seq<LogLine>, errors_only: bool, q: Seq<char>, n: int)
    requires
        0 <= n <= lines.len(),
        lines.len() <= usize::MAX,
    ensures
        ({
            let idx = shown_indices(lines, errors_only, q, n);
            &&& forall|j: int| 0 <= j < idx.len() ==> #[trigger] idx[j] < n
            &&& forall|a: int, b: int| 0 <= a < b < idx.len() ==> #[trigger] idx[a] < #[trigger] idx[b]
            &&& errors_only ==> forall|j: int| 0 <= j < idx.len() ==> lines[#[trigger] idx[j] as int].kind == LogKind::Error
            &&& q.len() > 0 ==> forall|j: int| 0 <= j < idx.len() ==> occurs_in(q, lowercase_of(lines[#[trigger] idx[j] as int].text@))
            &&& forall|i: int| 0 <= i < n && (!errors_only || lines[i].kind == LogKind::Error)
                && (q.len() == 0 || occurs_in(q, lowercase_of(lines[i].text@))) ==> exists|j: int| 0 <= j < idx.len() && #[trigger] idx[j] == i
        }),
    decreases n,
{
    if n > 0 {
        lemma_shown_indices(lines, errors_only, q, n - 1);
        let p = shown_indices(lines, errors_only, q, n - 1);
        let idx = shown_indices(lines, errors_only, q, n);
        if shown(lines[n - 1], errors_only, q) {
            assert(idx == p.push((n - 1) as usize));
            assert forall|i: int| 0 <= i < n && (!errors_only || lines[i].kind == LogKind::Error)
                && (q.len() == 0 || occurs_in(q, lowercase_of(lines[i].text@))) implies exists|j: int| 0 <= j < idx.len() && #[trigger] idx[j] == i by {
                if i < n - 1 {
                    let j = choose|j: int| 0 <= j < p.len() && #[trigger] p[j] == i;
                    assert(idx[j] == p[j]);
                } else {
                    assert(idx[p.len() as int] == i);
                }
            }
            assert forall|a: int, b: int| 0 <= a < b < idx.len() implies #[trigger] idx[a] < #[trigger] idx[b] by {
                assert(idx[a] == p[a]);
                if b < p.len() {
                    assert(idx[b] == p[b]);
                }
            }
            assert forall|j: int| 0 <= j < idx.len() implies #[trigger] idx[j] < n by {
                if j < p.len() {
                    assert(idx[j] == p[j]);
                }
            }
            if errors_only {
                assert forall|j: int| 0 <= j < idx.len() implies lines[#[trigger] idx[j] as int].kind == LogKind::Error by {
                    if j < p.len() {
                        assert(idx[j] == p[j]);
                    }
                }
            }
            if q.len() > 0 {
                assert forall|j: int| 0 <= j < idx.len() implies occurs_in(q, lowercase_of(lines[#[trigger] idx[j] as int].text@)) by {
                    if j < p.len() {
                        assert(idx[j] == p[j]);
                    }
                }
            }
        } else {
            assert(idx == p);
        }
    }
}

/// The log view shows exactly the lines asked for, in order, each once:
/// with "errors only" every shown line is an error line; with a query every
/// shown line contains it (compared in lowercase); and every line that is
/// an error line (when asked) and contains the query (when given) is shown.
pub proof fn lemma_filter_shows(lines: Seq<LogLine>, errors_only: bool, query: Seq<char>)
    requires
        lines.len() <= usize::MAX,
    ensures
        ({
            let q = lowercase_of(query);
            let idx = shown_indices(lines, errors_only, q, lines.len() as int);
            &&& forall|j: int| 0 <= j < idx.len() ==> #[trigger] idx[j] < lines.len()
            &&& forall|a: int, b: int| 0 <= a < b < idx.len() ==> #[trigger] idx[a] < #[trigger] idx[b]
            &&& errors_only ==> forall|j: int| 0 <= j < idx.len() ==> lines[#[trigger] idx[j] as int].kind == LogKind::Error
            &&& q.len() > 0 ==> forall|j: int| 0 <= j < idx.len() ==> occurs_in(q, lowercase_of(lines[#[trigger] idx[j] as int].text@))
            &&& forall|i: int| 0 <= i < lines.len() && (!errors_only || lines[i].kind == LogKind::Error)
                && (q.len() == 0 || occurs_in(q, lowercase_of(lines[i].text@))) ==> exists|j: int| 0 <= j < idx.len() && #[trigger] idx[j] == i
        }),
{
    lemma_shown_indices(lines, errors_only, lowercase_of(query), lines.len() as int);
}

} // verus!
