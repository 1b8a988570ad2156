use tect::parse::disk::{walk_step, DirEntry};
use tect::diag::{Issues, Source, Span};
use tect::model::image::{Entry, Flavour, Image, List, Seed};
use tect::model::module::Module;
use tect::model::remote::{At, Collection};
use tect::parse::module::{bad_token, satisfies_span};
use tect::provenance::Evidence;
use tect::ui::Choice;

fn said(issues: &Issues) -> Vec<String> {
    issues
        .plain()
        .lines()
        .filter_map(|line| line.strip_prefix("  x "))
        .map(str::to_string)
        .collect()
}

fn parse(text: &str, shipped: &[&str], published: &[&str], fragment: bool, repo: bool) -> (Option<Module>, Issues) {
    let mut issues = Issues::new();
    let shipped: Vec<String> = shipped.iter().map(|s| s.to_string()).collect();
    let published: Vec<String> = published.iter().map(|s| s.to_string()).collect();
    let classes = vec!["man-page-missing".to_string(), "unit-unknown".to_string()];
    let m = Module::parse(
        "known",
        "known",
        ".",
        text,
        &shipped,
        &published,
        if fragment { Some("RUN true\n".to_string()) } else { None },
        None,
        None,
        repo,
        &classes,
        &mut issues,
    );
    (m, issues)
}

#[test]
fn debian_and_ubuntu_are_known_families_and_enablerepo_stays_fedora_only() {
    let (_, issues) = parse(
        r#"
description "known families and packages"
supports "fedora" "debian" "ubuntu"
packages {
    fedora "curl" enablerepo="rpmfusion"
    debian "curl" enablerepo="backports"
    ubuntu "curl" enablerepo="backports"
}
"#,
        &[],
        &[],
        false,
        false,
    );
    assert_eq!(said(&issues), ["`enablerepo` is Fedora-only, not `debian`", "`enablerepo` is Fedora-only, not `ubuntu`"]);
}

#[test]
fn a_manifest_reads_into_its_module() {
    let (m, issues) = parse(
        r#"
description "one"
description "two"
supports "fedora"
provides "cap-a" "cap-b"
requires "cap-c"
after "cap-d"
provides-file "/usr/bin/x" build-only=#true
requires-file "/usr/bin/y"
overrides "/etc/z"
secret "token"
arg "flag"
mode "/etc/example.conf" "0640"
helpers "lib/family.sh"
collects "justfile.inc" into="/usr/share/just/justfile.apps" priority=500
contributes "justfile.inc" priority=900
key "cosign" {
    generator "cosign"
    public "/etc/pki/cosign.pub"
    private "cosign.key"
}
packages {
    fedora "curl" "git" enablerepo="rpmfusion"
}
satisfies {
    cis-fedora "1.1.1.1" "1.1.1.2"
}
allow-verify "man-page-missing" unit="x.service"
"#,
        &["files/etc/example.conf", "lib/family.sh", "justfile.inc"],
        &["etc/pki/cosign.pub"],
        false,
        false,
    );
    assert!(issues.is_empty(), "{}", issues.plain());
    let m = m.unwrap();
    assert_eq!(m.description, "one");
    assert_eq!(m.supports, ["fedora"]);
    let names = |d: &Vec<tect::model::module::Decl>| d.iter().map(|d| d.name.clone()).collect::<Vec<_>>();
    assert_eq!(names(&m.provides), ["cap-a", "cap-b"]);
    assert_eq!(names(&m.requires), ["cap-c"]);
    assert_eq!(names(&m.after), ["cap-d"]);
    assert_eq!(names(&m.provides_files), ["/usr/bin/x", "/etc/pki/cosign.pub"]);
    assert_eq!(m.provides_files_build_only, ["/usr/bin/x"]);
    assert_eq!(names(&m.requires_files), ["/usr/bin/y"]);
    assert_eq!(names(&m.overrides), ["/etc/z"]);
    assert_eq!(names(&m.secrets), ["token"]);
    assert_eq!(names(&m.args), ["flag"]);
    assert_eq!(names(&m.helpers), ["lib/family.sh"]);
    assert_eq!(m.modes.len(), 1);
    assert_eq!(m.modes[0].path, "/etc/example.conf");
    assert_eq!(m.modes[0].mode, 0o640);
    assert_eq!(m.collects[0].file, "justfile.inc");
    assert_eq!(m.collects[0].into, "/usr/share/just/justfile.apps");
    assert_eq!(m.collects[0].priority, 500);
    assert_eq!(m.contributes[0].priority, 900);
    assert_eq!(m.keys[0].kind, "cosign");
    assert_eq!(m.keys[0].bits, 4096);
    assert_eq!(m.keys[0].format, "pem");
    assert_eq!(m.packages[0].packages, ["curl", "git"]);
    assert_eq!(m.packages[0].enablerepo.as_deref(), Some("rpmfusion"));
    assert_eq!(m.satisfies[0].benchmark, "cis-fedora");
    assert_eq!(m.satisfies[0].rules, ["1.1.1.1", "1.1.1.2"]);
    assert_eq!(m.verify_exceptions[0].unit, "x.service");
    assert!(m.standard_layer);
    assert!(!m.fragment_after);
    assert_eq!(m.src.name, "./modules/known/module.kdl");
}

#[test]
fn what_a_manifest_leaves_out_is_named() {
    let (m, issues) = parse(
        r#"
key "cosign" {
    generator "cosign"
    public "/etc/pki/cosign.pub"
    private "cosign.key"
}
fragment position="after" standard-layer=#false
secret "token"
packages {
    fedora "curl"
}
"#,
        &[],
        &[],
        false,
        true,
    );
    assert!(m.is_some());
    assert_eq!(
        said(&issues),
        [
            "`known` declares `fragment` but ships no Containerfile.inc",
            "`position` says nothing without a standard layer",
            "`known` has no public half for its cosign key",
            "`known` declares no description",
            "`known` declares `secret \"token\"` with no standard layer to carry it",
            "`known` declares no `supports`",
            "`known` declares both a `repo` file and `packages`",
        ]
    );
}

#[test]
fn a_mode_is_an_octal_string_for_a_shipped_overlay_file() {
    let (_, issues) = parse(
        r#"
description "modes"
supports "fedora"
mode "/etc/a"
mode "/etc/a" 640
mode "etc/a" "0640"
mode "/etc/../a" "0640"
mode "/etc/a" "0648"
mode "/etc/a" "17777"
mode "/etc/b" "0640"
"#,
        &["files/etc/a"],
        &[],
        false,
        false,
    );
    assert_eq!(
        said(&issues),
        [
            "`mode` needs one path and one octal file mode",
            "a file mode has to be an octal string",
            "`etc/a` is not a normal absolute overlay path",
            "`/etc/../a` is not a normal absolute overlay path",
            "`0648` is not an octal file mode",
            "file mode `17777` is out of range",
            "`known` declares a mode for a file it does not ship",
        ]
    );
}

#[test]
fn a_repeated_option_variant_asset_or_key_keeps_the_first() {
    let (m, _) = parse(
        r#"
description "twice"
supports "fedora"
option "fonts" type="list" { default "A" }
option "fonts" type="string" { default "B" }
variant "lean" { set "fonts" "C" }
variant "lean"
asset "starship" { pin { version "1.0"; url "https://x/{version}" } }
asset "starship"
"#,
        &[],
        &[],
        false,
        false,
    );
    let m = m.unwrap();
    assert_eq!(m.options.len(), 1);
    assert_eq!(m.variants.len(), 1);
    assert_eq!(m.variants[0].sets.len(), 1);
    assert_eq!(m.assets.len(), 1);
    assert_eq!(m.assets[0].pin.version.as_deref(), Some("1.0"));
}

#[test]
fn a_manifest_that_is_not_kdl_is_one_issue() {
    let (m, issues) = parse("description \"open", &[], &[], false, false);
    assert!(m.is_none());
    assert_eq!(issues.len(), 1);
    assert!(issues.plain().contains("./modules/known/module.kdl is not valid KDL"));
}

#[test]
fn a_token_is_letters_digits_and_a_few_marks() {
    assert_eq!(bad_token(""), Some("is empty"));
    assert_eq!(bad_token("-x"), Some("starts with a dash"));
    assert_eq!(bad_token("a b"), Some("has a character that is not allowed"));
    assert_eq!(bad_token("gcc-c++"), None);
    assert_eq!(bad_token("python3.12:amd64"), None);
}

#[test]
fn the_satisfies_block_is_found_where_it_is() {
    let text = "description \"x\"\nsatisfies {\n    cis \"1\"\n}\n";
    let span = satisfies_span(text).unwrap();
    assert_eq!(span.offset, 16);
    assert!(satisfies_span("description \"x\"\n").is_none());
    assert!(satisfies_span("description \"open").is_none());
}

fn entry(path: &str, source: Option<&str>) -> Entry {
    Entry {
        source: source.map(str::to_string),
        path: path.to_string(),
        flavour: None,
        variant: None,
        options: Vec::new(),
        remote: None,
        span: Span::new(path.len(), 1),
        module: None,
    }
}

fn image(file: &str, id: &str, entries: Vec<Entry>, flavours: Vec<Flavour>) -> Image {
    Image {
        src: Source::new(file, ""),
        id: id.to_string(),
        name: String::new(),
        pretty_name: String::new(),
        url: String::new(),
        issues_url: String::new(),
        description: String::new(),
        keywords: Vec::new(),
        logo_url: String::new(),
        conforms: String::new(),
        base: None,
        flavours,
        entries,
        suppressed: Vec::new(),
        span: Span::none(),
    }
}

fn list(images: Vec<Image>, sources: Vec<Collection>) -> List {
    List {
        name: "repo".to_string(),
        id: "repo".to_string(),
        images,
        workflows: Vec::new(),
        workflows_at: (4, 0),
        publishes_scheduled: false,
        scans_scheduled: false,
        sources,
        default_image_id: None,
        pr_image_id: None,
        seed: None,
        manifest_label: false,
        audit_enforce: false,
        schema_version: Some(1),
        schema_version_seen: true,
        repo_src: Source::new("repo.kdl", ""),
        files: Vec::new(),
    }
}

#[test]
fn two_images_cannot_publish_under_one_name() {
    let mut l = list(
        vec![
            image("a.image.kdl", "deb", Vec::new(), vec![Flavour { name: "gpu".to_string(), default: false, pr_build: false, span: Span::none() }]),
            image("a.image.kdl", "deb", Vec::new(), Vec::new()),
            image("b.image.kdl", "deb-gpu", Vec::new(), Vec::new()),
        ],
        Vec::new(),
    );
    l.default_image_id = Some("nope".to_string());
    l.pr_image_id = Some("deb".to_string());
    l.schema_version_seen = false;
    let mut issues = Issues::new();
    l.check_images(&mut issues);
    assert_eq!(
        said(&issues),
        [
            "two builds would publish as `deb-gpu`",
            "`deb` is declared twice",
            "repo.kdl declares no `schema-version`",
            "`default-image` names `nope`, which is not a declared image",
        ]
    );
    assert!(issues.plain().contains("images: deb, deb, deb-gpu"));
    assert!(issues.plain().contains("the image declared in b.image.kdl publishes under that name too"));
}

#[test]
fn an_entry_comes_from_a_declared_collection() {
    let pinned = Collection {
        name: "moving".to_string(),
        at: At::Archive(Evidence {
            url: Some("https://x".to_string()),
            version: None,
            sha256: None,
            path: None,
            unpinned: Some("tracks main".to_string()),
            span: Span::none(),
        }),
        span: Span::none(),
    };
    let mut l = list(
        vec![image("image.kdl", "deb", vec![entry("nowhere/a", Some("nowhere")), entry("moving/b", Some("moving"))], Vec::new())],
        vec![pinned],
    );
    let mut issues = Issues::new();
    l.check_images(&mut issues);
    assert_eq!(said(&issues), ["`nowhere` is not declared in `sources`"]);
    l.audit_enforce = true;
    l.seed = Some(Seed { image: "deb".to_string(), collection: "mine".to_string() });
    let mut issues = Issues::new();
    l.check_images(&mut issues);
    assert_eq!(
        said(&issues),
        [
            "`nowhere` is not declared in `sources`",
            "`moving` follows an unverified ref",
            "`mine` is not a collection this repository declares",
            "`nowhere/a` is in no collection the seed can name",
        ]
    );
}

#[test]
fn a_summary_reads_what_a_manifest_says_of_itself() {
    let text = r#"
description "Tuned" "sysctl"
provides "net-tuning" flag="x"
provides-file "/etc/sysctl.d/90.conf"
supports "fedora" "debian"
requires "base-network"
arg "MTU"
key "mok" {
    public "/usr/share/mok.der"
    public "/second.der"
}
key "bare"
satisfies {
    cis "1.1" "1.2" level=2
    stig "V-1"
}
"#;
    let s = tect::parse::module::summary(Some(text));
    assert_eq!(s.description, "Tuned sysctl");
    assert_eq!(s.provides, ["net-tuning", "x", "/etc/sysctl.d/90.conf", "/usr/share/mok.der"]);
    assert_eq!(s.supports, ["fedora", "debian"]);
    assert_eq!(s.required, ["base-network"]);
    assert_eq!(s.keys, ["mok", "bare"]);
    assert_eq!(s.args, ["MTU"]);
    assert_eq!(s.satisfies, ["1.1", "1.2", "V-1"]);
    let none = tect::parse::module::summary(Some("provides {"));
    assert!(none.provides.is_empty() && none.description.is_empty());
    assert!(tect::parse::module::summary(None).keys.is_empty());
}

#[test]
fn a_question_over_two_lines_answers_like_one() {
    let mut p = tect::prompt::Prompt::scripted(vec!["  /dev/vdb ".to_string()]);
    assert_eq!(p.line(None, "Which disk", "--disk", "> ", None), Ok("/dev/vdb".to_string()));
    assert_eq!(p.transcript, ["Which disk\n>   /dev/vdb "]);
    assert_eq!(p.line(Some("given".to_string()), "Which disk", "--disk", "> ", None), Ok("given".to_string()));
    let mut silent = tect::prompt::Prompt::silent();
    assert_eq!(silent.line(None, "Which disk", "--disk", "> ", Some("/dev/vda")), Ok("/dev/vda".to_string()));
    assert_eq!(
        silent.line(None, "Which disk", "--disk", "> ", None),
        Err("give --disk, since nothing can be asked here: Which disk".to_string())
    );
}

fn on_disk(name: &str, overlay: &[&str], manifest: Option<&str>) -> tect::parse::disk::OnDisk {
    tect::parse::disk::OnDisk {
        name: name.to_string(),
        overlay: overlay.iter().map(|p| p.to_string()).collect(),
        manifest: manifest.map(str::to_string),
    }
}

#[test]
fn the_module_trees_are_read_into_maps_in_key_order() {
    let mok = |public: &str, private: &str| {
        format!("key \"mok\" {{\n    generator \"openssl\" profile=\"module-signing\"\n    public \"{public}\"\n    private \"{private}\"\n}}\n")
    };
    let b = format!("collects \"sysctl.conf\" into=\"/etc/sysctl.d/90.conf\"\n{}", mok("/usr/share/b.der", "b.priv"));
    let a = format!(
        "{}key \"cosign\" {{\n    generator \"cosign\"\n    public \"/etc/pki/cosign.pub\"\n    private \"cosign.key\"\n}}\ncollects 7 \"limits.conf\"\n",
        mok("/usr/share/a.der", "a.priv")
    );
    let found = vec![
        on_disk("b", &["/etc/b"], Some(&b)),
        on_disk("a", &[], Some(&a)),
        on_disk("c", &["/etc/c1", "/etc/c2"], None),
        on_disk("d", &[], Some("collects \"sysctl.conf\"\nkey {")),
        on_disk("e", &[], Some("collects \"sysctl.conf\"")),
    ];
    let disk = tect::parse::disk::Disk::read(&found);
    assert_eq!(disk.modules(), ["a", "b", "c", "d", "e"]);
    assert_eq!(disk.overlays[2].1, ["/etc/c1", "/etc/c2"]);
    // The later of two collectors of one file is the one kept; a manifest
    // that does not parse collects nothing.
    assert_eq!(
        disk.collectors,
        [("limits.conf".to_string(), "a".to_string()), ("sysctl.conf".to_string(), "e".to_string())]
    );
    let kinds: Vec<&str> = disk.keys.iter().map(|(k, _)| k.as_str()).collect();
    assert_eq!(kinds, ["cosign", "mok"]);
    let mok_modules: Vec<&str> = disk.keys[1].1.iter().map(|(m, _)| m.as_str()).collect();
    assert_eq!(mok_modules, ["a", "b"]);
    assert_eq!(disk.keys[1].1[1].1.public, "/usr/share/b.der");
    assert_eq!(disk.keys[1].1[0].1.profile.as_deref(), Some("module-signing"));
}

#[test]
fn a_module_no_image_lists_is_read_on_its_own() {
    let list = List::empty("/repo");
    let dirs = vec!["a".to_string(), ".remote/x".to_string(), "b".to_string()];
    assert_eq!(tect::parse::disk::unlisted(&list, &dirs), ["a", "b"]);
}

#[test]
fn a_list_that_takes_several_reads_numbers_and_names_once_each() {
    let options = vec![Choice::new("a", ""), Choice::new("b", "the second"), Choice::new("c", "")];
    let mut p = tect::prompt::Prompt::scripted(vec![
        "c,a".to_string(),
        "3 b 3".to_string(),
        "2 0".to_string(),
        "2, x".to_string(),
    ]);
    assert_eq!(p.choose_many("Which", &options), Ok(vec![2, 0]));
    assert_eq!(p.choose_many("Which", &options), Ok(vec![2, 1]));
    assert_eq!(p.choose_many("Which", &options), Ok(Vec::new()));
    assert_eq!(p.choose_many("Which", &options), Err("`x` is not one of them".to_string()));
    assert_eq!(
        p.choose_many("Which", &options),
        Err("nothing left in TECT_ANSWERS to answer `Which [1-3, several, 0 for none]` with".to_string())
    );
    assert!(p.transcript.contains(&"  2) b  the second".to_string()));
    assert_eq!(tect::prompt::Prompt::silent().choose_many("Which", &options), Ok(Vec::new()));
}

#[test]
fn a_confirmation_is_no_only_when_it_starts_like_no() {
    let mut p = tect::prompt::Prompt::scripted(vec!["No way".to_string(), "y".to_string(), "".to_string()]);
    assert_eq!(p.confirm("Erase", "yes", "no"), Ok(false));
    assert_eq!(p.confirm("Erase", "yes", "no"), Ok(true));
    assert_eq!(p.confirm("Erase", "yes", "no"), Ok(true));
    assert_eq!(
        p.confirm("Erase", "yes", "no"),
        Err("nothing left in TECT_ANSWERS to answer `Erase (yes/no)` with".to_string())
    );
    assert_eq!(tect::prompt::Prompt::silent().confirm("Erase", "yes", "no"), Ok(false));
}

#[test]
fn every_capability_on_disk_lists_the_modules_providing_it_once_each() {
    let mods = vec![
        ("b".to_string(), vec!["x".to_string(), "y".to_string(), "x".to_string()]),
        ("a".to_string(), vec!["x".to_string()]),
        ("c".to_string(), Vec::new()),
    ];
    assert_eq!(
        tect::parse::disk::offered(&mods),
        vec![
            ("x".to_string(), vec!["b".to_string(), "a".to_string()]),
            ("y".to_string(), vec!["b".to_string()]),
        ]
    );
}

#[test]
fn the_walk_finds_modules_and_walks_into_groups_but_not_templates() {
    let entry = |name: &str, is_dir: bool, has_manifest: bool| DirEntry { name: name.to_string(), is_dir, has_manifest };
    let (found, more) = walk_step(
        "",
        &vec![
            entry("base", true, true),
            entry("_template", true, true),
            entry("desktop", true, false),
            entry("README.md", false, false),
        ],
    );
    assert_eq!(found, ["base"]);
    assert_eq!(more, ["desktop"]);
    let (found, more) = walk_step("desktop", &vec![entry("gnome", true, true), entry("_template", true, false)]);
    assert_eq!(found, ["desktop/gnome"]);
    assert!(more.is_empty());
}

#[test]
fn policy_sources_are_the_files_of_the_policy_kind_in_order() {
    let names = vec!["b.te".to_string(), "a.te".to_string(), "notes.txt".to_string(), "c.fc".to_string()];
    assert_eq!(tect::layout::selinux().files(&names), ["a.te", "b.te"]);
    assert_eq!(tect::layout::apparmor().files(&names), ["a.te", "b.te", "c.fc", "notes.txt"]);
}
