use tect::install::Found;
use tect::copy;
use tect::install::{Answers, CustomLayout, CustomMount, Data, Encryption, Key, LuksOpen, Opened, NONE};
use tect::json::Json;
use tect::recipe::complete;

fn answers(kind: &str, layout: Option<CustomLayout>, data: Data) -> Answers {
    Answers {
        disk: "/dev/vda".to_string(),
        hostname: "deb2".to_string(),
        user: "tect".to_string(),
        password: "hunter2".to_string(),
        opened: Opened::Keep,
        encryption: Encryption { kind: kind.to_string(), passphrase: String::new() },
        data,
        layout,
    }
}

fn recipe(with_var: bool) -> Json {
    let mut fields = vec![
        ("image".to_string(), Json::String("ghcr.io/x".to_string())),
        (
            "user".to_string(),
            Json::Object(vec![(
                "groups".to_string(),
                Json::Array(vec![Json::String("sudo".to_string())]),
            )]),
        ),
    ];
    if with_var {
        fields.push((
            "varDisk".to_string(),
            Json::Object(vec![("size".to_string(), Json::String("20 GB".to_string()))]),
        ));
    }
    Json::Object(fields)
}

fn no_data() -> Data {
    Data { disk: String::new(), size: String::new(), keep: false }
}

#[test]
fn the_answers_fill_the_recipe_and_the_user_is_merged() {
    let done = complete("/r.json", Ok(recipe(false)), &answers(NONE, None, no_data()), Ok("$6$abc".to_string()))
        .ok()
        .expect("a recipe");
    assert_eq!(
        done.render(),
        "{\n  \"image\": \"ghcr.io/x\",\n  \"disk\": \"/dev/vda\",\n  \"hostname\": \"deb2\",\n  \"encryption\": {\n    \"type\": \"none\",\n    \"passphrase\": \"\"\n  },\n  \"user\": {\n    \"groups\": [\n      \"sudo\"\n    ],\n    \"username\": \"tect\",\n    \"password\": \"$6$abc\"\n  }\n}\n"
    );
}

#[test]
fn a_var_on_the_install_disk_is_wrapped_in_the_roots_passphrase() {
    let data = Data { disk: String::new(), size: "20 GB".to_string(), keep: false };
    let done = complete("/r.json", Ok(recipe(false)), &answers("luks-passphrase", None, data), Ok("$6$abc".to_string()))
        .ok()
        .expect("a recipe");
    let text = done.render();
    assert!(text.contains("\"varDisk\": {\n    \"size\": \"20 GB\",\n    \"encrypt\": true\n  }"), "{text}");
    let data = Data { disk: "/dev/sdb".to_string(), size: String::new(), keep: true };
    let done = complete("/r.json", Ok(recipe(true)), &answers(NONE, None, data), Ok("$6$abc".to_string()))
        .ok()
        .expect("a recipe");
    let text = done.render();
    assert!(text.contains("\"varDisk\": {\n    \"disk\": \"/dev/sdb\",\n    \"keepExisting\": true\n  }"), "{text}");
}

#[test]
fn a_custom_layout_reaches_the_recipe_as_mounts_and_mappers() {
    let layout = CustomLayout {
        disk: "/dev/vda".to_string(),
        mounts: vec![CustomMount {
            partition: "/dev/vda1".to_string(),
            target: "/boot/efi".to_string(),
            fstype: "unformatted".to_string(),
        }],
        opens: vec![LuksOpen {
            partition: "/dev/vda2".to_string(),
            target: "/".to_string(),
            key: Key::Passphrase("opensesame".to_string()),
        }],
    };
    let done = complete("/r.json", Ok(recipe(true)), &answers(NONE, Some(layout), no_data()), Ok("$6$abc".to_string()))
        .ok()
        .expect("a recipe");
    let text = done.render();
    assert!(!text.contains("varDisk"), "{text}");
    assert!(!text.contains("opensesame"), "{text}");
    assert!(text.contains(
        "\"customMounts\": [\n    {\n      \"partition\": \"/dev/vda1\",\n      \"target\": \"/boot/efi\",\n      \"fstype\": \"unformatted\"\n    },\n    {\n      \"partition\": \"/dev/mapper/tect-1\",\n      \"target\": \"/\",\n      \"fstype\": \"unformatted\"\n    }\n  ]"
    ), "{text}");
}

#[test]
fn an_encrypted_custom_layout_is_refused_before_the_recipe_is_read() {
    let layout = CustomLayout { disk: "/dev/vda".to_string(), mounts: Vec::new(), opens: Vec::new() };
    let refused = complete(
        "/r.json",
        Err("/r.json: gone".to_string()),
        &answers("luks-passphrase", Some(layout), no_data()),
        Ok("$6$abc".to_string()),
    )
    .err()
    .expect("a refusal");
    assert_eq!(refused, copy::CUSTOM_ENCRYPTION);
    let refused = complete("/r.json", Err("/r.json: gone".to_string()), &answers(NONE, None, no_data()), Ok(String::new()))
        .err()
        .expect("a refusal");
    assert_eq!(refused, "/r.json: gone");
    let refused = complete("/r.json", Ok(Json::Null), &answers(NONE, None, no_data()), Ok(String::new()))
        .err()
        .expect("a refusal");
    assert_eq!(refused, "/r.json: not an object");
    let refused = complete("/r.json", Ok(recipe(false)), &answers(NONE, None, no_data()), Err("openssl: gone".to_string()))
        .err()
        .expect("a refusal");
    assert_eq!(refused, "openssl: gone");
}

#[test]
fn no_var_answer_leaves_the_var_the_image_declared() {
    let done = complete("/r.json", Ok(recipe(true)), &answers(NONE, None, no_data()), Ok("$6$abc".to_string()))
        .ok()
        .expect("a recipe");
    let text = done.render();
    assert!(text.contains("\"varDisk\": {\n    \"size\": \"20 GB\"\n  }"), "{text}");
}

fn obj(fields: Vec<(&str, Json)>) -> Json {
    Json::Object(fields.into_iter().map(|(k, v)| (k.to_string(), v)).collect())
}

fn s(text: &str) -> Json {
    Json::String(text.to_string())
}

/// The walk reads the filesystems a disk has — partitions, opened containers
/// and logical volumes — and skips containers it cannot mount and nodes that
/// carry no filesystem.
#[test]
fn the_walk_reads_every_mountable_node_and_no_container() {
    let lvm = obj(vec![("name", s("/dev/mapper/vg-root")), ("fstype", s("xfs")), ("type", s("lvm"))]);
    let crypt = obj(vec![
        ("name", s("/dev/mapper/vda2")),
        ("fstype", s("ext4")),
        ("type", s("crypt")),
        ("children", Json::Array(vec![lvm])),
    ]);
    let doc = obj(vec![(
        "blockdevices",
        Json::Array(vec![
            obj(vec![("name", s("/dev/vda1")), ("fstype", s("vfat")), ("type", s("part"))]),
            obj(vec![
                ("name", s("/dev/vda2")),
                ("fstype", s("crypto_LUKS")),
                ("type", s("part")),
                ("children", Json::Array(vec![crypt])),
            ]),
            obj(vec![("name", s("/dev/vda3")), ("fstype", Json::Null), ("type", s("part"))]),
        ]),
    )]);
    let rows = tect::recipe::mountable_rows(&doc);
    assert_eq!(
        rows,
        [
            ("/dev/vda1".to_string(), "vfat".to_string()),
            ("/dev/mapper/vda2".to_string(), "ext4".to_string()),
            ("/dev/mapper/vg-root".to_string(), "xfs".to_string()),
        ]
    );
    for fstype in ["ext3", "ext4", "xfs", "btrfs"] {
        assert_eq!(tect::install::mount_options(fstype), "ro,norecovery", "{fstype}");
    }
    for fstype in ["vfat", "exfat", "iso9660", ""] {
        assert_eq!(tect::install::mount_options(fstype), "ro", "{fstype}");
    }
}

#[test]
fn a_root_is_a_payload_a_repository_or_neither() {
    let recipe = obj(vec![
        ("image", s("ghcr.io/x/deb2:latest")),
        ("hostname", s("deb2")),
        ("bootloader", s("grub2")),
        ("luksInitramfs", Json::Bool(true)),
    ]);
    match tect::recipe::classify("/m", Some(Ok(recipe)), true) {
        Ok(Found::Image(p)) => {
            assert_eq!(p.recipe, "/m/install-recipe.json");
            assert_eq!(p.image, "ghcr.io/x/deb2:latest");
            assert_eq!(p.hostname, "deb2");
            assert_eq!(p.bootloader, "grub2");
            assert_eq!(p.filesystem, "");
            assert!(p.luks_initramfs);
        }
        _ => panic!("a payload"),
    }
    let no_host = obj(vec![("image", s("x")), ("hostname", s(""))]);
    match tect::recipe::classify("/m", Some(Ok(no_host)), false) {
        Err(e) => assert_eq!(e, "/m/install-recipe.json: no `hostname`"),
        _ => panic!("a refusal"),
    }
    match tect::recipe::classify("/m", Some(Err("/m/install-recipe.json: bad".to_string())), true) {
        Err(e) => assert_eq!(e, "/m/install-recipe.json: bad"),
        _ => panic!("a refusal"),
    }
    assert!(matches!(tect::recipe::classify("/r", None, true), Ok(Found::Repo(r)) if r == "/r"));
    assert!(matches!(tect::recipe::classify("/n", None, false), Ok(Found::Nothing(r)) if r == "/n"));
}
