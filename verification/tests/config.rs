use sync_vault::config::Config;

fn cfg(excludes: Vec<&str>) -> Config {
    Config {
        src: "/s".into(),
        dst: "/d".into(),
        delete_removed: true,
        excludes: excludes.into_iter().map(String::from).collect(),
    }
}

#[test]
fn empty_rules_get_defaults() {
    let c = cfg(vec![]).with_default_excludes();
    assert_eq!(c.excludes.len(), 7);
    assert_eq!(c.excludes[0], ".git");
    assert_eq!((c.src.as_str(), c.dst.as_str(), c.delete_removed), ("/s", "/d", true));
}

#[test]
fn configured_rules_are_kept() {
    let c = cfg(vec!["*.log"]).with_default_excludes();
    assert_eq!(c.excludes, vec!["*.log".to_string()]);
}

#[test]
fn adding_and_removing_rules() {
    let mut c = cfg(vec!["a"]);
    assert!(!c.add_exclude(String::new()));
    assert!(c.add_exclude("*.bak".into()));
    assert_eq!(c.excludes, vec!["a".to_string(), "*.bak".to_string()]);
    c.remove_exclude(0);
    assert_eq!(c.excludes, vec!["*.bak".to_string()]);
}
