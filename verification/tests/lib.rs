use tect::diag::Issues;
use tect::{find_root, parent, Arg, Command};

#[test]
fn every_command_word_is_read_back() {
    assert_eq!(Command::parse("plan"), Some(Command::Plan));
    assert_eq!(Command::parse("why"), Some(Command::Why));
    assert_eq!(Command::parse("graph-json"), None);
    assert_eq!(Command::parse(""), None);
    assert!(matches!(Command::Section.arg(), Some(Arg::Image)));
    assert!(matches!(Command::Sbom.arg(), Some(Arg::Target)));
    assert!(matches!(Command::WhyJson.arg(), Some(Arg::Module)));
    assert!(Command::Plan.arg().is_none());
}

#[test]
fn a_parent_drops_the_last_component() {
    assert_eq!(parent("/a/b").as_deref(), Some("/a"));
    assert_eq!(parent("/a/b/").as_deref(), Some("/a"));
    assert_eq!(parent("/a").as_deref(), Some("/"));
    assert_eq!(parent("a").as_deref(), Some(""));
    assert_eq!(parent("/"), None);
    assert_eq!(parent(""), None);
}

#[test]
fn the_root_is_the_nearest_directory_holding_a_repo_file() {
    let found = find_root("/home/me/repo/modules/x", |dir: &str| dir == "/home/me/repo");
    assert_eq!(found.as_deref(), Some("/home/me/repo"));
    let nearest = find_root("/a/b/c", |dir: &str| dir == "/a" || dir == "/a/b");
    assert_eq!(nearest.as_deref(), Some("/a/b"));
    assert_eq!(find_root("/a/b", |_: &str| false), None);
}

fn words(w: &[&str]) -> Vec<String> {
    w.iter().map(|s| s.to_string()).collect()
}

#[test]
fn the_root_is_found_anywhere_among_the_words() {
    assert_eq!(tect::root_anywhere(&words(&["check", "--root", "/r"])).as_deref(), Some("/r"));
    assert_eq!(tect::root_anywhere(&words(&["--root=/x", "plan"])).as_deref(), Some("/x"));
    assert_eq!(tect::root_anywhere(&words(&["plan", "--root"])), None);
    assert_eq!(tect::root_anywhere(&words(&["plan"])), None);
}

#[test]
fn help_is_the_surface_only_before_a_command_word() {
    assert_eq!(tect::help_requested(&words(&["--help"])), Some(None));
    assert_eq!(tect::help_requested(&words(&["--root", "/r", "-h"])), Some(Some("/r".to_string())));
    assert_eq!(tect::help_requested(&words(&["--no-tui", "--root=/s", "--help"])), Some(Some("/s".to_string())));
    assert_eq!(tect::help_requested(&words(&["check", "--help"])), None);
    assert_eq!(tect::help_requested(&words(&["--root"])), None);
    assert_eq!(tect::help_requested(&words(&[])), None);
}

#[test]
fn committed_artifacts_are_held_to_what_generation_writes() {
    let files = vec![
        ("generated/a.sh".to_string(), "one\ntwo\nthree\n".to_string()),
        ("generated/b.sh".to_string(), "x\n".to_string()),
        ("generated/c.sh".to_string(), "same\n".to_string()),
        ("generated/d.sh".to_string(), "one\nmore\n".to_string()),
    ];
    let found = vec![Some("one\ntwo\nfour\n".to_string()), None, Some("same\n".to_string()), Some("one\n".to_string())];
    let committed = vec!["generated/c.sh".to_string(), "generated/old.sh".to_string()];
    let mut issues = Issues::new();
    tect::verify(&files, &found, &committed, &mut issues);
    let said: Vec<String> = issues.plain().lines().filter_map(|l| l.strip_prefix("  x ")).map(str::to_string).collect();
    assert_eq!(
        said,
        [
            "`generated/a.sh` is not what this repository generates",
            "`generated/b.sh` is not there",
            "`generated/d.sh` is not what this repository generates",
            "nothing generates `generated/old.sh`",
        ]
    );
    assert_eq!(issues.list[0].labels[0].span.offset, 8);
    assert_eq!(issues.list[0].labels[0].span.len, 4);
    assert_eq!(issues.list[0].labels[0].text, "generated: three");
    assert_eq!(issues.list[2].labels[0].span.offset, 4);
    assert_eq!(issues.list[2].labels[0].span.len, 0);
    assert_eq!(issues.list[2].labels[0].text, "generated: more");
}

#[test]
fn declarations_name_the_files_read() {
    let listing = vec![("repo.kdl".to_string(), Ok("schema-version 1\n".to_string()))];
    let (_, _, context) = tect::declarations("/repo", Ok(listing));
    assert_eq!(context, "/repo/repo.kdl");
    let (_, _, context) = tect::declarations("/repo", Ok(Vec::new()));
    assert_eq!(context, "/repo");
}

#[test]
fn a_parent_skips_the_dot_components_a_path_does() {
    assert_eq!(parent("a/./b").as_deref(), Some("a"));
    assert_eq!(parent("a/.").as_deref(), Some(""));
    assert_eq!(parent("/a/./b/").as_deref(), Some("/a"));
    assert_eq!(parent("./a").as_deref(), Some("."));
    assert_eq!(parent(".").as_deref(), Some(""));
    assert_eq!(parent("a/..").as_deref(), Some("a"));
    assert_eq!(parent("a//b").as_deref(), Some("a"));
    assert_eq!(parent("//"), None);
    assert_eq!(parent("/."), None);
    // The ancestors of `a/./b` are it, `a` and the empty path, so the
    // repository in `a` is found as `a`, never as `a/.`.
    let found = find_root("a/./b", |dir: &str| dir == "a" || dir == "a/.");
    assert_eq!(found.as_deref(), Some("a"));
}
