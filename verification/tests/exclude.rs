use sync_vault::exclude::{default_excludes, ExcludeSet};

fn set(rules: &[&str]) -> ExcludeSet {
    ExcludeSet::new(&rules.iter().map(|s| s.to_string()).collect())
}

#[test]
fn default_excludes_list() {
    assert_eq!(
        default_excludes(),
        vec![".git", ".svn", "node_modules", "__pycache__", "target", "*.tmp", "*.swp"]
    );
}

#[test]
fn exact_names_match_at_any_depth() {
    let ex = set(&["node_modules", ".git"]);
    assert!(ex.matches("node_modules"));
    assert!(ex.matches("node_modules/react/index.js"));
    assert!(ex.matches("web/app/node_modules/react/index.js"));
    assert!(ex.matches("repo/.git/HEAD"));
    assert!(!ex.matches("node_modules_backup/a.js"));
    assert!(!ex.matches("src/main.rs"));
    assert!(!ex.matches("my.git/file"));
}

#[test]
fn wildcards_match_segment_suffixes() {
    let ex = set(&["*.log", "*.tmp"]);
    assert!(ex.matches("server.log"));
    assert!(ex.matches("logs/2024/server.log"));
    assert!(ex.matches("a.tmp/inner.txt"));
    assert!(!ex.matches("server.log.txt"));
    assert!(!ex.matches("logfile"));
}

#[test]
fn default_rules_exclude_build_and_vcs_paths() {
    let ex = ExcludeSet::new(&default_excludes());
    assert!(ex.matches(".git/config"));
    assert!(ex.matches("crates/core/target/debug/app"));
    assert!(ex.matches("pkg/__pycache__/mod.pyc"));
    assert!(ex.matches("notes.txt.swp"));
    assert!(!ex.matches("src/target.rs"));
    assert!(!ex.matches("docs/readme.md"));
}

#[test]
fn no_rules_exclude_nothing() {
    let ex = set(&[]);
    assert!(!ex.matches("anything/at/all"));
    assert!(!ex.matches(""));
}
