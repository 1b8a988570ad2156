use tect::diag::{Issues, Source, Span};
use tect::json::Json;
use tect::layout;
use tect::model::asset::Asset;
use tect::model::image::{is_name, Entry, Flavour, Image, List, Target};
use tect::model::module::{Collect, Contribution, Decl, Module};
use tect::module::{resolve_collects, staged};
use tect::model::options::{env_name, resolve, Opt, OptType, Value, Variant};
use tect::model::remote::{At, Collection};
use tect::order::{apply, sort};
use tect::provenance::{Evidence, Record};

#[test]
fn a_name_is_lowercase_digits_and_dashes_from_a_letter() {
    assert!(is_name("deb2"));
    assert!(is_name("gpu-accel"));
    assert!(!is_name(""));
    assert!(!is_name("2deb"));
    assert!(!is_name("Deb"));
    assert!(!is_name("a_b"));
}

#[test]
fn an_option_env_name_is_upper_case_with_underscores() {
    assert_eq!(env_name("gpu-accel"), "OPT_GPU_ACCEL");
}

#[test]
fn json_renders_two_spaces_a_level_and_escapes_what_is_unprintable() {
    let doc = Json::object(vec![
        ("name", Json::string("a\"b\n".to_string())),
        ("count", Json::Number(3)),
        ("none", Json::optional(None)),
        ("list", Json::strings(vec!["x".to_string(), "\u{1}".to_string()])),
        ("empty", Json::array(Vec::new())),
    ]);
    assert_eq!(
        doc.render(),
        "{\n  \"name\": \"a\\\"b\\n\",\n  \"count\": 3,\n  \"none\": null,\n  \"list\": [\n    \"x\",\n    \"\\u0001\"\n  ],\n  \"empty\": []\n}\n"
    );
    assert_eq!(Json::map(Vec::new()).render(), "{}\n");
    assert_eq!(Json::Bool(false).render(), "false\n");
}

#[test]
fn paths_join_the_way_a_path_does() {
    assert_eq!(layout::modules("/repo"), "/repo/modules");
    assert_eq!(layout::module("/repo/", "a/b"), "/repo/modules/a/b");
    assert_eq!(layout::public_key("/repo", "/usr/share/k.der"), "/repo/keys/public/usr/share/k.der");
    assert_eq!(layout::private_key("/repo", "MOK.priv"), "/repo/keys/private/MOK.priv");
    assert_eq!(layout::manifest("/repo", "x"), "/repo/modules/x/module.kdl");
    assert_eq!(layout::generated_image("deb2"), "generated/deb2");
    assert!(layout::is_image_file("image.kdl"));
    assert!(layout::is_image_file("deb.image.kdl"));
    assert!(!layout::is_image_file("repo.kdl"));
    assert_eq!(layout::as_image_file("deb.kdl"), "deb.image.kdl");
    assert!(layout::nonempty(Some(3)));
    assert!(!layout::nonempty(Some(0)));
    assert!(!layout::nonempty(None));
}

#[test]
fn family_directories_are_taken_widest_first() {
    let present = vec!["deb".to_string(), "debian".to_string(), "fedora".to_string()];
    assert_eq!(layout::family_dirs(&present, "debian"), ["deb", "debian"]);
    assert_eq!(layout::family_dirs(&present, "ubuntu"), ["deb"]);
    assert_eq!(layout::family_dirs(&present, "fedora"), ["fedora"]);
    assert!(layout::family_dirs(&present, "").is_empty());
    assert!(layout::selinux().takes("local.te"));
    assert!(!layout::selinux().takes("local.fc"));
    assert!(layout::apparmor().takes("usr.bin.foo"));
}

fn decl(name: &str) -> Decl {
    Decl { name: name.to_string(), span: Span::none() }
}

fn module(path: &str, provides: &[&str], requires: &[&str], after: &[&str]) -> Module {
    Module {
        path: path.to_string(),
        dir: path.to_string(),
        src: Source::new("module.kdl", ""),
        description: String::new(),
        supports: Vec::new(),
        provides: provides.iter().map(|n| decl(n)).collect(),
        requires: requires.iter().map(|n| decl(n)).collect(),
        after: after.iter().map(|n| decl(n)).collect(),
        provides_files: Vec::new(),
        provides_files_build_only: Vec::new(),
        requires_files: Vec::new(),
        overrides: Vec::new(),
        verify_exceptions: Vec::new(),
        flavour: None,
        collects: Vec::new(),
        contributes: Vec::new(),
        modes: Vec::new(),
        keys: Vec::new(),
        secrets: Vec::new(),
        args: Vec::new(),
        options: Vec::new(),
        variants: Vec::new(),
        assets: Vec::new(),
        packages: Vec::new(),
        groups: Vec::new(),
        helpers: Vec::new(),
        satisfies: Vec::new(),
        resolved: Vec::new(),
        fragment: None,
        fragment_after: false,
        standard_layer: true,
        content: None,
        imported: None,
        repo: false,
    }
}

fn entry(path: &str, flavour: Option<&str>, m: Option<Module>) -> Entry {
    Entry {
        source: None,
        path: path.to_string(),
        flavour: flavour.map(str::to_string),
        variant: None,
        options: Vec::new(),
        remote: None,
        span: Span::new(path.len(), 1),
        module: m,
    }
}

fn image(id: &str, entries: Vec<Entry>, flavours: Vec<Flavour>) -> Image {
    Image {
        src: Source::new("image.kdl", ""),
        id: id.to_string(),
        name: String::new(),
        pretty_name: String::new(),
        url: String::new(),
        issues_url: String::new(),
        description: String::new(),
        keywords: Vec::new(),
        logo_url: String::new(),
        conforms: String::new(),
        base: None,
        flavours,
        entries,
        suppressed: Vec::new(),
        span: Span::none(),
    }
}

#[test]
fn a_requirement_builds_first_and_ungated_goes_before_gated() {
    let img = image(
        "deb2",
        vec![
            entry("a", None, Some(module("a", &[], &["cap-b"], &[]))),
            entry("gated", Some("nvidia"), Some(module("gated", &[], &[], &[]))),
            entry("b", None, Some(module("b", &["cap-b"], &[], &[]))),
            entry("c", None, Some(module("c", &[], &[], &["cap-gated"]))),
            entry("d", Some("nvidia"), Some(module("d", &["cap-gated"], &[], &[]))),
        ],
        Vec::new(),
    );
    let mut issues = Issues::new();
    let order = sort(&img, &mut issues);
    assert_eq!(order, [2, 0, 3, 1, 4]);
    assert!(issues.is_empty());
}

#[test]
fn a_cycle_is_reported_once_and_its_members_go_last() {
    let mut img = image(
        "deb2",
        vec![
            entry("x", None, Some(module("x", &["cap-x"], &["cap-y"], &[]))),
            entry("free", None, Some(module("free", &[], &[], &[]))),
            entry("y", Some("nvidia"), Some(module("y", &["cap-y"], &["cap-x"], &[]))),
        ],
        Vec::new(),
    );
    let mut issues = Issues::new();
    let order = sort(&img, &mut issues);
    assert_eq!(order, [1, 0, 2]);
    assert_eq!(issues.len(), 1);
    let said = issues.plain();
    assert!(said.contains("the module graph has a cycle"), "{said}");
    assert!(said.contains("waits on `y [nvidia]`"), "{said}");
    assert!(said.contains("waits on `x`"), "{said}");
    apply(&mut img, &order);
    let paths: Vec<&str> = img.entries.iter().map(|e| e.path.as_str()).collect();
    assert_eq!(paths, ["free", "x", "y"]);
}

fn list(images: Vec<Image>, default: Option<&str>) -> List {
    List {
        name: "repo".to_string(),
        id: "repo".to_string(),
        images,
        workflows: Vec::new(),
        workflows_at: (4, 0),
        publishes_scheduled: false,
        scans_scheduled: false,
        sources: Vec::new(),
        default_image_id: default.map(str::to_string),
        pr_image_id: None,
        seed: None,
        manifest_label: false,
        audit_enforce: false,
        schema_version: Some(1),
        schema_version_seen: true,
        repo_src: Source::new("repo.kdl", ""),
        files: Vec::new(),
    }
}

fn flavour(name: &str, default: bool, pr_build: bool) -> Flavour {
    Flavour { name: name.to_string(), default, pr_build, span: Span::none() }
}

#[test]
fn targets_are_the_ungated_set_then_each_flavour() {
    let repo = list(
        vec![
            image("deb2", Vec::new(), vec![flavour("nvidia", true, false), flavour("amd", false, true)]),
            image("fed", Vec::new(), Vec::new()),
        ],
        Some("deb2"),
    );
    let shown: Vec<String> = repo.targets().iter().map(Target::to_string).collect();
    assert_eq!(shown, ["deb2", "deb2/nvidia", "deb2/amd", "fed"]);
    assert_eq!(repo.find_target("deb2/amd").unwrap().published(), "deb2-amd");
    assert_eq!(
        repo.find_target("nope").err().unwrap(),
        "`nope` is not a build target (have: deb2 deb2/nvidia deb2/amd fed)"
    );
    assert_eq!(repo.default_target().unwrap().to_string(), "deb2/nvidia");
    assert_eq!(repo.ungated_target().unwrap().to_string(), "deb2");
    assert_eq!(repo.pr_target().unwrap().to_string(), "deb2/amd");
    assert_eq!(repo.cache_image().as_deref(), Some("deb2-cache"));
    assert!(repo.no_default().is_none());

    let two = list(vec![image("a", Vec::new(), Vec::new()), image("b", Vec::new(), Vec::new())], None);
    assert!(two.default_image().is_none());
    let issue = two.no_default().expect("an issue");
    assert_eq!(issue.message, "2 images are declared and none is the default");
    assert!(issue.help.unwrap().contains("`default-image \"a\"` in repo.kdl"));
    let one = list(vec![image("a", Vec::new(), Vec::new())], None);
    assert_eq!(one.default_image().map(|i| i.id.as_str()), Some("a"));
}

#[test]
fn an_entry_names_its_directory_and_its_pin() {
    let mut referenced = entry("one/keyholder", None, None);
    referenced.source = Some("one".to_string());
    assert_eq!(referenced.dir(), ".remote/one/keyholder");
    assert_eq!(referenced.name(), "keyholder");
    assert_eq!(referenced.qualified("mine").as_deref(), Some("one/keyholder"));
    let mut pin = Evidence::new(Span::none());
    pin.url = Some("https://x/{version}.tar".to_string());
    pin.version = Some("1.2".to_string());
    let sources = vec![
        Collection { name: "dir".to_string(), at: At::Dir("/x".to_string()), span: Span::none() },
        Collection { name: "one".to_string(), at: At::Archive(pin), span: Span::none() },
    ];
    let found = referenced.pin(&sources).expect("the collection's pin");
    assert_eq!(found.url_resolved().as_deref(), Some("https://x/1.2.tar"));
    assert!(!sources[1].unpinned());

    let mut owned = entry("local", None, Some(module("local", &[], &[], &[])));
    assert_eq!(owned.dir(), "local");
    assert_eq!(owned.qualified("mine").as_deref(), Some("mine/local"));
    owned.module.as_mut().unwrap().imported = Some(Record { collection: "theirs".to_string() });
    assert_eq!(owned.qualified("mine").as_deref(), Some("theirs/local"));
}

#[test]
fn an_asset_writes_its_pin_as_env() {
    let mut pin = Evidence::new(Span::none());
    pin.url = Some("https://x/v{version}.zip".to_string());
    pin.version = Some("3.1".to_string());
    pin.sha256 = Some("ab".to_string());
    let asset = Asset { name: "nerd-fonts".to_string(), pin, span: Span::none() };
    assert_eq!(asset.env_prefix(), "ASSET_NERD_FONTS");
    assert_eq!(
        asset.env(),
        [
            ("ASSET_NERD_FONTS_VERSION".to_string(), "3.1".to_string()),
            ("ASSET_NERD_FONTS_URL".to_string(), "https://x/v3.1.zip".to_string()),
            ("ASSET_NERD_FONTS_SHA256".to_string(), "ab".to_string()),
        ]
    );
}

fn opt(name: &str, ty: OptType, default: Vec<Value>) -> Opt {
    Opt { name: name.to_string(), ty, default, span: Span::none() }
}

#[test]
fn options_resolve_in_one_pass_default_then_variant_then_image() {
    let options = vec![
        opt("gpu-accel", OptType::Bool, vec![Value::Bool(false)]),
        opt("flavour", OptType::String, vec![Value::String("plain".to_string())]),
        opt("extras", OptType::List, Vec::new()),
    ];
    let variants = vec![Variant {
        name: "fast".to_string(),
        sets: vec![("gpu-accel".to_string(), vec![Value::Bool(true)], Span::none())],
        span: Span::none(),
    }];
    let src = Source::new("module.kdl", "");
    let mut e = entry("m", None, None);
    e.variant = Some("fast".to_string());
    e.options = vec![
        ("extras".to_string(), vec![Value::String("a".to_string()), Value::String("b".to_string())], Span::none()),
        ("extras".to_string(), vec![Value::String("c".to_string())], Span::new(7, 1)),
        ("nope".to_string(), vec![Value::Bool(true)], Span::none()),
        ("flavour".to_string(), vec![Value::String("with space".to_string())], Span::none()),
    ];
    let img = image("deb2", Vec::new(), Vec::new());
    let mut issues = Issues::new();
    let env = resolve(&options, &variants, &src, &e, &img, &mut issues);
    assert_eq!(
        env,
        [
            ("OPT_GPU_ACCEL".to_string(), "1".to_string()),
            ("OPT_FLAVOUR".to_string(), "with space".to_string()),
            ("OPT_EXTRAS".to_string(), "a b".to_string()),
        ]
    );
    let said = issues.plain();
    assert_eq!(issues.len(), 2, "{said}");
    assert!(said.contains("`extras` is set twice on `m`"), "{said}");
    assert!(said.contains("`m` has no option `nope`"), "{said}");
    assert!(said.contains("declared options: gpu-accel, flavour, extras"), "{said}");

    let mut bad = entry("m", None, None);
    bad.variant = Some("slow".to_string());
    bad.options = vec![("extras".to_string(), vec![Value::String("a b".to_string()), Value::Bool(true)], Span::none())];
    let mut issues = Issues::new();
    let env = resolve(&options, &variants, &src, &bad, &img, &mut issues);
    assert_eq!(env[2], ("OPT_EXTRAS".to_string(), String::new()));
    let said = issues.plain();
    assert_eq!(issues.len(), 3, "{said}");
    assert!(said.contains("`m` has no variant `slow`"), "{said}");
    assert!(said.contains("declared variants: fast"), "{said}");
    assert!(said.contains("contains whitespace"), "{said}");
    assert!(said.contains("every value must be a string"), "{said}");
}

#[test]
fn a_contribution_is_staged_under_its_collectors_destination() {
    let mut sysctl = module("sysctl", &[], &[], &[]);
    sysctl.collects = vec![Collect { file: "sysctl.conf".to_string(), into: "/etc/sysctl.d/90-tect.conf".to_string(), priority: 50, span: Span::new(3, 1) }];
    let mut again = module("other/sysctl", &[], &[], &[]);
    again.collects = vec![
        Collect { file: "sysctl.conf".to_string(), into: "/etc/other.conf".to_string(), priority: 10, span: Span::new(7, 1) },
        Collect { file: "hosts".to_string(), into: "/etc/hosts".to_string(), priority: 10, span: Span::new(8, 1) },
    ];
    let mut tuned = module("net/tuned", &[], &[], &[]);
    tuned.contributes = vec![Contribution { file: "sysctl.conf".to_string(), priority: 7, span: Span::none() }];
    let mut bare = module("bare", &[], &[], &[]);
    bare.standard_layer = false;
    let img = image(
        "deb2",
        vec![
            entry("sysctl", None, Some(sysctl)),
            entry("other/sysctl", None, Some(again)),
            entry("net/tuned", None, Some(tuned)),
            entry("bare", None, Some(bare)),
        ],
        Vec::new(),
    );
    let shipped = vec![
        vec!["sysctl.conf".to_string()],
        vec![],
        vec!["sysctl.conf".to_string(), "limits.conf".to_string()],
        vec!["sysctl.conf".to_string()],
    ];
    let collectors = vec![
        ("limits.conf".to_string(), "limits".to_string()),
        ("sysctl.conf".to_string(), "sysctl".to_string()),
    ];
    let mut issues = Issues::new();
    let out = resolve_collects(&img, &shipped, &collectors, &mut issues);
    let said: Vec<&str> = issues.list.iter().map(|i| i.message.as_str()).collect();
    assert_eq!(
        said,
        [
            "two enabled modules collect `sysctl.conf`",
            "`net/tuned` ships a limits.conf but nothing enabled collects it",
            "`bare` ships a sysctl.conf with no standard layer to collect it from",
        ]
    );
    assert_eq!(issues.list[0].help.as_deref(), Some("already collected by `sysctl`"));
    assert_eq!(issues.list[1].help.as_deref(), Some("`limits` collects it; add it to this image, or drop the limits.conf"));
    // Every destination a collector declares, sorted and once each.
    assert_eq!(out.destinations, ["/etc/hosts", "/etc/other.conf", "/etc/sysctl.d/90-tect.conf"]);
    // Modules come out in path order, each with where its files are staged.
    let keys: Vec<&str> = out.by_module.iter().map(|(k, _)| k.as_str()).collect();
    assert_eq!(keys, ["net/tuned", "sysctl"]);
    assert_eq!(out.by_module[0].1[0].staged, "/etc/sysctl.d/90-tect.conf.d/0007-net-tuned.part");
    assert_eq!(out.by_module[1].1[0].file, "sysctl.conf");
    assert_eq!(out.by_module[1].1[0].staged, "/etc/sysctl.d/90-tect.conf.d/0050-sysctl.part");
    assert_eq!(staged("/x", 12345, "a/b/c"), "/x.d/12345-a-b-c.part");
}
