use tect::diag::{Issues, Source};
use tect::model::image::{List, TECT_VERSION};
use tect::model::remote::At;
use tect::parse::list::sources_in;
use tect::parse::repo::{at_text, compatible, pinned_elsewhere, pinned_unverified, time, workflows_span};

fn said(issues: &Issues) -> Vec<String> {
    issues
        .plain()
        .lines()
        .filter_map(|line| line.strip_prefix("  x "))
        .map(str::to_string)
        .collect()
}

fn repo(text: &str) -> (List, Issues) {
    let mut list = List::empty(".");
    let mut issues = Issues::new();
    list.parse_file(&Source::new("repo.kdl", text), text, true, &mut issues);
    (list, issues)
}

fn image_file(text: &str) -> (List, Issues) {
    let mut list = List::empty(".");
    let mut issues = Issues::new();
    list.parse_file(&Source::new("image.kdl", text), text, false, &mut issues);
    (list, issues)
}

#[test]
fn publish_has_one_cadence() {
    let read = |value: &str| {
        let text = format!("schema-version 1\nname \"Tectonic\"\nworkflows publish=\"{value}\" {{ build }}\n");
        let (list, issues) = repo(&text);
        (list.publishes_scheduled, issues.plain())
    };
    assert_eq!(read("scheduled"), (true, String::new()));
    let (scheduled, issues) = read("push");
    assert!(!scheduled);
    assert!(issues.contains("`push` is not a publish cadence"), "{issues}");
}

#[test]
fn manifest_label_is_off_unless_declared() {
    let read = |text: &str| repo(text).0.manifest_label;
    assert!(!read("schema-version 1\n"));
    assert!(read("schema-version 1\nmanifest {\n    label #true\n}\n"));
}

#[test]
fn malformed_tect_hashes_are_issues() {
    for sha256 in ["", "bad"] {
        let text = format!("schema-version 1\ntect-version \"{TECT_VERSION}\" sha256=\"{sha256}\"\nname \"Example\"\n");
        let (_, issues) = repo(&text);
        let found = issues.plain();
        assert!(found.contains("`tect-version` has a malformed sha256"), "{found}");
    }
}

#[test]
fn a_pin_naming_another_release_is_reported_and_this_one_is_not() {
    assert_eq!(pinned_elsewhere(Some("schema-version 1\ntect-version \"0.0.1\"\n")).as_deref(), Some("0.0.1"));
    let ours = format!("schema-version 1\ntect-version \"{TECT_VERSION}\"\n");
    assert_eq!(pinned_elsewhere(Some(&ours)), None);
    assert_eq!(pinned_elsewhere(Some("schema-version 1\n")), None);
    assert_eq!(pinned_elsewhere(None), None);
}

#[test]
fn a_pin_naming_another_release_refuses_nothing() {
    let issues = compatible(Some("schema-version 1\ntect-version \"0.0.1\"\n"), "repo.kdl");
    assert!(issues.is_empty(), "{}", issues.plain());
}

#[test]
fn a_declared_sha256_is_the_only_verifier() {
    let hash = "a".repeat(64);
    let declared = format!("schema-version 1\n  tect-version \"{TECT_VERSION}\" sha256=\"{hash}\"   // pinned\n");
    assert_eq!(pinned_unverified(Some(&declared)), None);
    assert_eq!(pinned_unverified(Some("schema-version 1\ntect-version \"0.0.1\"\n")).as_deref(), Some("0.0.1"));
    assert_eq!(pinned_unverified(Some("schema-version 1\n")), None);
}

#[test]
fn another_schema_version_is_refused_and_told_which_way() {
    let ahead = compatible(Some("schema-version 2\n"), "repo.kdl");
    assert_eq!(said(&ahead), ["this repository is written against schema version 2"]);
    assert!(ahead.plain().contains("the repository is ahead of the tool"));
    let behind = compatible(Some("schema-version -3\n"), "repo.kdl");
    assert_eq!(said(&behind), ["this repository is written against schema version -3"]);
    assert!(behind.plain().contains("nothing here moves a repository to schema 1"));
    assert!(compatible(Some("schema-version 1\n"), "repo.kdl").is_empty());
    assert!(compatible(None, "repo.kdl").is_empty());
    assert!(compatible(Some("schema-version \"open"), "repo.kdl").is_empty());
}

#[test]
fn a_time_of_day_is_hours_and_minutes() {
    assert_eq!(time("12:30"), Some((12, 30)));
    assert_eq!(time("0:05"), Some((0, 5)));
    assert_eq!(time("+1:05"), Some((1, 5)));
    assert_eq!(time("24:00"), None);
    assert_eq!(time("12:60"), None);
    assert_eq!(time("1230"), None);
    assert_eq!(time("a:b"), None);
    assert_eq!(at_text((4, 0)), "04:00");
    assert_eq!(at_text((12, 5)), "12:05");
    assert_eq!(at_text((23, 59)), "23:59");
}

#[test]
fn a_workflows_block_names_each_workflow_once() {
    let (list, issues) = repo("schema-version 1\nworkflows at=\"6:15\" scan=\"daily\" {\n    build\n    build\n    smoke-test\n}\n");
    assert_eq!(list.workflows_at, (6, 15));
    assert!(!list.scans_scheduled);
    let names: Vec<&str> = list.workflows.iter().map(|w| w.name.as_str()).collect();
    assert_eq!(names, ["build", "smoke-test"]);
    assert_eq!(said(&issues), ["`daily` is not a scan cadence", "workflow `build` is declared twice"]);
    let (list, issues) = repo("workflows at=\"noon\"\n");
    assert_eq!(list.workflows_at, (4, 0));
    assert_eq!(said(&issues), ["`noon` is not a time of day"]);
    assert!(workflows_span("name \"x\"\nworkflows { build }\n").is_some());
    assert!(workflows_span("name \"x\"\n").is_none());
}

#[test]
fn repo_settings_read_into_the_list() {
    let (list, issues) = repo(
        "schema-version 1\nname \"My Repo\"\ndefault-image \"deb\"\npr-image \"fed\"\nseed \"deb\" collection=\"mine\"\naudit {\n    enforce #true\n}\n",
    );
    assert!(issues.is_empty(), "{}", issues.plain());
    assert_eq!(list.name, "My Repo");
    assert_eq!(list.id, "my-repo");
    assert_eq!(list.default_image_id.as_deref(), Some("deb"));
    assert_eq!(list.pr_image_id.as_deref(), Some("fed"));
    let seed = list.seed.unwrap();
    assert_eq!((seed.image.as_str(), seed.collection.as_str()), ("deb", "mine"));
    assert!(list.audit_enforce);
    assert!(list.schema_version_seen);
    assert_eq!(list.schema_version, Some(1));
}

#[test]
fn a_collection_is_a_directory_or_a_pin() {
    let (list, issues) = repo(
        r#"
sources {
    local "../modules"
    remote {
        pin {
            version "1.0"
            url "https://host/{version}.tar.gz"
        }
    }
    both "../x" {
        pin {
            url "https://host/x.tar.gz"
        }
    }
    nowhere
    Bad "../y"
    local "../again"
}
"#,
    );
    let names: Vec<&str> = list.sources.iter().map(|c| c.name.as_str()).collect();
    assert_eq!(names, ["local", "remote", "both"]);
    assert!(matches!(&list.sources[0].at, At::Dir(d) if d == "../modules"));
    match &list.sources[1].at {
        At::Archive(pin) => {
            assert_eq!(pin.version.as_deref(), Some("1.0"));
            assert_eq!(pin.url.as_deref(), Some("https://host/{version}.tar.gz"));
        }
        At::Dir(_) => panic!("a pin is an archive"),
    }
    assert_eq!(
        said(&issues),
        [
            "`both` is a directory, so its `pin` says nothing",
            "`nowhere` says nothing about where the collection is",
            "invalid collection name `Bad`",
            "collection `local` is declared twice",
        ]
    );
    let found = sources_in("sources {\n    local \"../modules\"\n}\nname \"x\"\n");
    assert_eq!(found.len(), 1);
    assert!(sources_in("sources {").is_empty());
}

#[test]
fn an_image_reads_its_name_base_flavours_and_entries() {
    let (list, issues) = image_file(
        r#"
image {
    name "My Image"
    pretty-name "My Image 1"
    base "quay.io/fedora/fedora-bootc:44" {
        family "fedora"
        provides "rechunk"
        provides-file "/usr/bin/a" "usr/bin/b"
        signed #true
    }
    flavours {
        desktop default=#true
        gpu default=#true pr-build=#true
        none
        desktop
    }
    modules {
        module "core/base"
        module "core/base"
        module "fonts" variant="lean" {
            family "A" "B"
        }
        flavour "desktop" {
            module "core/base"
            module "gnome"
        }
        flavour "laptop" {
            module "tlp"
        }
    }
}
"#,
    );
    assert_eq!(list.images.len(), 1);
    let img = &list.images[0];
    assert_eq!(img.id, "my-image");
    assert_eq!(img.pretty_name, "My Image 1");
    let base = img.base.as_ref().unwrap();
    assert_eq!(base.family, "fedora");
    assert!(base.signed);
    assert_eq!(base.provides_files.len(), 2);
    let flavours: Vec<&str> = img.flavours.iter().map(|f| f.name.as_str()).collect();
    assert_eq!(flavours, ["desktop", "gpu", "none"]);
    let entries: Vec<(&str, Option<&str>)> = img.entries.iter().map(|e| (e.path.as_str(), e.flavour.as_deref())).collect();
    assert_eq!(
        entries,
        [
            ("core/base", None),
            ("fonts", None),
            ("core/base", Some("desktop")),
            ("gnome", Some("desktop")),
            ("tlp", Some("laptop")),
        ]
    );
    assert_eq!(img.entries[1].variant.as_deref(), Some("lean"));
    assert_eq!(img.entries[1].options[0].0, "family");
    assert_eq!(img.entries[1].options[0].1.len(), 2);
    assert_eq!(
        said(&issues),
        [
            "`usr/bin/b` is not an absolute path",
            "`none` is reserved",
            "flavour `desktop` is declared twice",
            "`core/base` is listed twice",
            "`laptop` is not a declared flavour",
            "more than one flavour is marked `default=#true`",
        ]
    );
    assert!(issues.plain().contains("declared flavours: desktop, gpu, none"));
}

#[test]
fn an_image_file_with_no_image_says_so() {
    let (list, issues) = image_file("palette \"red\"\n");
    assert!(list.images.is_empty());
    assert_eq!(said(&issues), ["image.kdl declares no image"]);
    let (_, issues) = image_file("image { name \"Bad Name!\" }\n");
    assert_eq!(said(&issues), ["`Bad Name!` does not derive a usable image name"]);
    let (_, issues) = image_file("image { id \"Nope\" }\n");
    assert_eq!(said(&issues), ["invalid image name `Nope`"]);
}

#[test]
fn a_repository_root_is_read_in_name_order() {
    let listing = vec![
        ("notes.kdl".to_string(), Ok("x".to_string())),
        ("b.image.kdl".to_string(), Ok("image { id \"bee\" }\n".to_string())),
        ("repo.kdl".to_string(), Ok("schema-version 1\ndefault-image \"ay\"\n".to_string())),
        ("a.image.kdl".to_string(), Ok("image { id \"ay\" }\n".to_string())),
        ("broken.image.kdl".to_string(), Err("permission denied".to_string())),
    ];
    let (list, issues) = List::read("/repo", Ok(listing));
    let ids: Vec<&str> = list.images.iter().map(|i| i.id.as_str()).collect();
    assert_eq!(ids, ["ay", "bee"]);
    assert_eq!(list.files, ["/repo/a.image.kdl", "/repo/b.image.kdl", "/repo/repo.kdl"]);
    assert_eq!(list.repo_src.name, "/repo/repo.kdl");
    assert_eq!(said(&issues), ["cannot read /repo/broken.image.kdl: permission denied", "nothing reads `notes.kdl`"]);
    assert!(issues.plain().contains("rename it to `notes.image.kdl`"));
    let (list, issues) = List::read("/repo", Err("no such directory".to_string()));
    assert!(list.images.is_empty());
    assert_eq!(said(&issues), ["cannot read /repo: no such directory"]);
}

#[test]
fn a_repository_on_another_schema_is_not_read() {
    let listing = vec![
        ("repo.kdl".to_string(), Ok("schema-version 2\n".to_string())),
        ("image.kdl".to_string(), Ok("image { id \"x\" }\n".to_string())),
    ];
    let (list, issues) = List::load("/repo", Ok(listing));
    assert!(list.images.is_empty());
    assert_eq!(said(&issues), ["this repository is written against schema version 2"]);
}

fn two_images(default: bool) -> tect::model::image::List {
    let repo = if default { "schema-version 1\ndefault-image \"ay\"\n" } else { "schema-version 1\n" };
    let listing = vec![
        ("repo.kdl".to_string(), Ok(repo.to_string())),
        ("a.image.kdl".to_string(), Ok("image { id \"ay\" }\n".to_string())),
        ("b.image.kdl".to_string(), Ok("image { id \"bee\" }\n".to_string())),
    ];
    List::read("/repo", Ok(listing)).0
}

#[test]
fn a_command_says_what_it_was_given_that_the_repository_does_not_declare() {
    let list = two_images(false);
    let (issues, one, target) = tect::command_issues(tect::Command::Plan, None, &list, &Vec::new());
    assert_eq!(said(&issues), ["2 images are declared and none is the default"]);
    assert_eq!((one, target), (None, None));
    let (issues, one, _) = tect::command_issues(tect::Command::Section, Some("nope"), &list, &Vec::new());
    assert_eq!(said(&issues), ["`nope` is not a declared image"]);
    assert!(issues.plain().contains("images: ay, bee"));
    assert_eq!(one, None);
    let (issues, one, _) = tect::command_issues(tect::Command::Section, Some("bee"), &list, &Vec::new());
    assert!(issues.list.is_empty());
    assert_eq!(one, Some(1));
    let (issues, _, target) = tect::command_issues(tect::Command::Summary, Some("zed"), &list, &Vec::new());
    assert_eq!(said(&issues), ["`zed` is not a build target"]);
    assert!(issues.plain().contains("targets: ay, bee"));
    assert_eq!(target.as_deref(), Some("zed"));
    let list = two_images(true);
    let (issues, one, target) = tect::command_issues(tect::Command::Plan, None, &list, &Vec::new());
    assert!(issues.list.is_empty());
    assert_eq!((one, target.as_deref()), (Some(0), Some("ay")));
    // A fork is an error only where the repository enforces its audit, and
    // only `check` looks.
    let forks = vec!["net/tuned".to_string()];
    let (issues, _, _) = tect::command_issues(tect::Command::Check, None, &list, &forks);
    assert!(issues.list.is_empty());
    let listing = vec![
        ("repo.kdl".to_string(), Ok("schema-version 1\naudit {\n    enforce #true\n}\n".to_string())),
        ("image.kdl".to_string(), Ok("image { id \"ay\" }\n".to_string())),
    ];
    let (audited, _) = List::read("/repo", Ok(listing));
    assert!(audited.audit_enforce);
    let (issues, _, _) = tect::command_issues(tect::Command::Check, None, &audited, &forks);
    assert_eq!(said(&issues), ["`net/tuned` no longer matches the record it was imported with"]);
    let (issues, _, _) = tect::command_issues(tect::Command::Plan, None, &audited, &forks);
    assert!(issues.list.is_empty());
}

#[test]
fn every_time_written_reads_back_as_itself() {
    assert_eq!(at_text((9, 5)), "09:05");
    for h in 0..24u32 {
        for m in [0u32, 5, 30, 59] {
            assert_eq!(time(&at_text((h, m))), Some((h, m)));
        }
    }
    assert_eq!(time("12:30:00"), None);
}
