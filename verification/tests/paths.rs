use std::path::{Component, Path};
use sync_vault::paths::{check_dirs, check_dirs_with, normalize_rel, path_components, resolved_components, temp_file_name, DirError};

fn comps(p: &str) -> Vec<String> {
    path_components(p).into_iter().map(|c| c.into_iter().collect()).collect()
}

#[test]
fn components_ignore_redundant_separators() {
    assert_eq!(comps("/a//b/"), vec!["/", "a", "b"]);
    assert_eq!(comps("a/./b"), vec!["a", "b"]);
    assert_eq!(comps("./a"), vec![".", "a"]);
    assert_eq!(comps("."), vec!["."]);
    assert_eq!(comps("/./a"), vec!["/", "a"]);
    assert_eq!(comps("a/../b"), vec!["a", "..", "b"]);
    assert_eq!(comps(""), Vec::<String>::new());
}

#[test]
fn components_agree_with_std_paths() {
    for p in ["/a/b", "a//b/", "./x/./y", ".", "/", "a/..", "./", "//a", "a/.hidden/b.txt", "..", "../x"] {
        let ours = comps(p);
        let theirs: Vec<String> = Path::new(p)
            .components()
            .map(|c| match c {
                Component::RootDir => "/".to_string(),
                Component::CurDir => ".".to_string(),
                Component::ParentDir => "..".to_string(),
                Component::Normal(s) => s.to_string_lossy().into_owned(),
                Component::Prefix(_) => unreachable!(),
            })
            .collect();
        assert_eq!(ours, theirs, "path {:?}", p);
    }
}

#[test]
fn check_dirs_accepts_separate_directories() {
    assert_eq!(check_dirs("/home/me/project", "/mnt/backup/project", true), Ok(()));
    assert_eq!(check_dirs("/data/a", "/data/ab", true), Ok(()));
    assert_eq!(check_dirs("/data/a/b", "/data/a", true), Ok(()));
}

#[test]
fn check_dirs_refuses_missing_source() {
    assert_eq!(check_dirs("/nope", "/backup", false), Err(DirError::SourceMissing));
    assert_eq!(check_dirs("/same", "/same", false), Err(DirError::SourceMissing));
}

#[test]
fn check_dirs_refuses_same_directory() {
    assert_eq!(check_dirs("/data/a", "/data/a", true), Err(DirError::SameDirectory));
    assert_eq!(check_dirs("/data/a", "/data/a/", true), Err(DirError::SameDirectory));
    assert_eq!(check_dirs("/data//a", "/data/./a", true), Err(DirError::SameDirectory));
}

#[test]
fn check_dirs_refuses_target_inside_source() {
    assert_eq!(check_dirs("/data/a", "/data/a/backup", true), Err(DirError::TargetInsideSource));
    assert_eq!(check_dirs("/data/a/", "/data/a/x/y", true), Err(DirError::TargetInsideSource));
    assert_eq!(check_dirs("/", "/backup", true), Err(DirError::TargetInsideSource));
}

/// Lexical resolution on top of std's components: "." dropped, ".."
/// going back over the previous entry (and staying at the root); with
/// `backslash`, '\\' separates too.
fn reference_resolve(p: &str, backslash: bool) -> Vec<String> {
    let unified = if backslash { p.replace('\\', "/") } else { p.to_string() };
    let mut out: Vec<String> = Vec::new();
    for c in Path::new(&unified).components() {
        match c {
            Component::RootDir => out.push("/".to_string()),
            Component::CurDir => {}
            Component::ParentDir => match out.last().map(|s| s.as_str()) {
                Some("/") => {}
                Some(l) if l != ".." => {
                    out.pop();
                }
                _ => out.push("..".to_string()),
            },
            Component::Normal(s) => out.push(s.to_string_lossy().into_owned()),
            Component::Prefix(_) => unreachable!(),
        }
    }
    out
}

fn resolved(p: &str) -> Vec<String> {
    resolved_components(p, true).into_iter().map(|c| c.into_iter().collect()).collect()
}

#[test]
fn resolution_handles_dots_and_backslashes() {
    assert_eq!(resolved("/tmp/x/../s/d"), vec!["/", "tmp", "s", "d"]);
    assert_eq!(resolved("/../a"), vec!["/", "a"]);
    assert_eq!(resolved("../a/../../b"), vec!["..", "..", "b"]);
    assert_eq!(resolved("./a/./b/.."), vec!["a"]);
    assert_eq!(resolved("C:\\a\\b"), vec!["C:", "a", "b"]);
    let cases = ["/a/b", "a//b/", "./x/./y", ".", "/", "a/..", "./", "//a", "a/../..", "../x", "/a/b/../../c", "x\\y\\..\\z"];
    for p in cases {
        assert_eq!(resolved(p), reference_resolve(p, true), "path {:?}", p);
    }
}

#[test]
fn backslash_is_a_plain_character_where_it_does_not_separate() {
    let plain: Vec<String> = resolved_components("/x\\y/../z", false).into_iter().map(|c| c.into_iter().collect()).collect();
    assert_eq!(plain, vec!["/", "z"]);
    assert_eq!(check_dirs_with("/x\\y", "/x/y", true, false), Ok(()));
    assert_eq!(check_dirs_with("/x\\y", "/x/y", true, true), Err(DirError::SameDirectory));
    let here = std::path::MAIN_SEPARATOR == '\\';
    assert_eq!(check_dirs("/x\\y", "/x/y", true), check_dirs_with("/x\\y", "/x/y", true, here));
    assert_eq!(check_dirs("/x/y", "/x/y/z", true), Err(DirError::TargetInsideSource));
}

#[test]
fn check_dirs_agrees_with_resolved_paths() {
    let cases = ["/a", "/a/", "/a/b", "/ab", "a", "a/b", "./a", "/a/./b", "/", "a/../a", "/a//b/c", "/a/x/../b", "C:\\a", "C:/a/b"];
    for backslash in [true, false] {
        for s in cases {
            for d in cases {
                let (rs, rd) = (reference_resolve(s, backslash), reference_resolve(d, backslash));
                let expected = if rs == rd {
                    Err(DirError::SameDirectory)
                } else if rd.len() >= rs.len() && rd[..rs.len()] == rs[..] {
                    Err(DirError::TargetInsideSource)
                } else {
                    Ok(())
                };
                assert_eq!(check_dirs_with(s, d, true, backslash), expected, "src {:?} dst {:?}", s, d);
            }
        }
    }
}

#[test]
fn check_dirs_sees_through_parent_steps_and_backslashes() {
    assert_eq!(check_dirs("/tmp/s", "/tmp/x/../s/d", true), Err(DirError::TargetInsideSource));
    assert_eq!(check_dirs("/tmp/s", "/tmp/s/d/..", true), Err(DirError::SameDirectory));
    assert_eq!(check_dirs_with("C:\\a", "C:\\a\\b", true, true), Err(DirError::TargetInsideSource));
    assert_eq!(check_dirs_with("C:\\a", "C:/a", true, true), Err(DirError::SameDirectory));
    assert_eq!(check_dirs("/tmp/s", "/tmp/s/../t", true), Ok(()));
}

#[test]
fn normalize_rel_turns_backslashes_into_slashes() {
    assert_eq!(normalize_rel("a\\b\\c.txt"), "a/b/c.txt");
    assert_eq!(normalize_rel("plain/path"), "plain/path");
    assert_eq!(normalize_rel(""), "");
    assert_eq!(normalize_rel("文件\\名"), "文件/名");
}

#[test]
fn temp_file_name_appends_suffix() {
    assert_eq!(temp_file_name("report.pdf"), "report.pdf.svtmp");
    assert_eq!(temp_file_name("Makefile"), "Makefile.svtmp");
    assert_eq!(temp_file_name(""), ".svtmp");
}
