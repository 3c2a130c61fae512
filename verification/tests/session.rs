use sync_vault::session::{
    resync_line, shown_lowered, started_line, stats_text, target_unavailable_line, watch_failed_line, Log, LogKind, LogLine,
    Session, MAX_LOG,
};
use sync_vault::SyncEvent;

fn line(kind: LogKind, text: &str) -> LogLine {
    LogLine { kind, text: text.to_string() }
}

#[test]
fn session_counts_copies_and_tracks_progress() {
    let mut s = Session::new();
    let l = s.apply(SyncEvent::Copied { rel: "a/b.txt".into(), bytes: 4300 }).unwrap();
    assert_eq!(l.kind, LogKind::Copied);
    assert_eq!(l.text, "📋 已同步  a/b.txt  (4.2 KB)");
    assert_eq!((s.copied, s.bytes), (1, 4300));
    assert!(s.apply(SyncEvent::Progress { scanned: 100, total: 0 }).is_none());
    assert_eq!(s.progress, Some(100));
    s.apply(SyncEvent::Progress { scanned: 120, total: 120 });
    assert_eq!(s.progress, None);
    s.apply(SyncEvent::Progress { scanned: 100, total: 0 });
    s.apply(SyncEvent::Progress { scanned: 0, total: 0 });
    assert_eq!(s.progress, None);
    let l = s.apply(SyncEvent::Deleted { rel: "old.rs".into() }).unwrap();
    assert_eq!((l.kind, l.text.as_str()), (LogKind::Deleted, "🗑 已删除  old.rs"));
    let l = s.apply(SyncEvent::Error { rel: "x".into(), err: "denied".into() }).unwrap();
    assert_eq!((l.kind, l.text.as_str()), (LogKind::Error, "❌ 错误  x  denied"));
    let l = s.stop();
    assert_eq!(l.kind, LogKind::Stopped);
    assert_eq!(l.text, "⏹ 已停止（本次同步 1 个文件 4.2 KB）");
    assert_eq!((s.copied, s.bytes, s.progress), (0, 0, None));
}

#[test]
fn fixed_lines() {
    assert_eq!(started_line("/p", "/b").text, "✅ 开始监控: /p → /b");
    assert_eq!(resync_line().text, "🔄 手动触发全量同步…");
    assert_eq!(target_unavailable_line("/b").text, "❌ 无法创建目标路径: /b");
    assert_eq!(watch_failed_line("boom").kind, LogKind::Error);
}

#[test]
fn log_is_stamped_and_bounded() {
    let mut log = Log::new();
    assert!(log.is_empty());
    for i in 0..(MAX_LOG + 20) {
        log.push("10:00:00", line(LogKind::Copied, &format!("line {}", i)));
    }
    assert_eq!(log.len(), MAX_LOG);
    assert_eq!(log.get(0).text, "[10:00:00] line 20");
    assert_eq!(log.get(MAX_LOG - 1).text, format!("[10:00:00] line {}", MAX_LOG + 19));
    log.clear();
    assert_eq!(log.len(), 0);
}

#[test]
fn log_filter_by_kind_and_text() {
    let mut log = Log::new();
    log.push("t", line(LogKind::Copied, "📋 已同步  Readme.MD"));
    log.push("t", line(LogKind::Error, "❌ 错误  readme.md  denied"));
    log.push("t", line(LogKind::Deleted, "🗑 已删除  other"));
    assert_eq!(log.filter(false, ""), vec![0, 1, 2]);
    assert_eq!(log.filter(true, ""), vec![1]);
    assert_eq!(log.filter(false, "README"), vec![0, 1]);
    assert_eq!(log.filter(true, "readme"), vec![1]);
    assert_eq!(log.filter(false, "nothing"), Vec::<usize>::new());
}

#[test]
fn stats_text_shows_totals_and_last_sync() {
    assert_eq!(stats_text(142, 1887437, "10/15 10:25:03"), "累计同步 142 个文件  1.8 MB  |  上次: 10/15 10:25:03");
    assert_eq!(stats_text(0, 0, ""), "累计同步 0 个文件  0 B  |  上次: 从未");
}

#[test]
fn shown_lowered_checks_kind_and_substring() {
    assert!(shown_lowered(LogKind::Copied, "[t] 📋 已同步  readme.md", false, "readme"));
    assert!(!shown_lowered(LogKind::Copied, "[t] 📋 已同步  readme.md", true, "readme"));
    assert!(shown_lowered(LogKind::Error, "anything", true, ""));
    assert!(!shown_lowered(LogKind::Deleted, "abc", false, "abd"));
    assert!(shown_lowered(LogKind::Deleted, "abc", false, "bc"));
}
