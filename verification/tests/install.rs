use tect::copy;
use tect::install::{
    add_boot_arg, ask_encryption, asked, boot_arg_named, kinds_table, labelled, layout_from,
    layout_short_of, mounted_answer, opens_from, partition_number, shown, Answers, CustomLayout,
    CustomMount, Data, Discovered, Encryption, Found, Key, LuksOpen, Mounted, Opened, Opening,
    Partition, Payload, NONE, OPEN, RECIPE, ROW_DATA, ROW_PASSPHRASE, ROW_SIZE,
};
use tect::install::{
    at_boot, chose, data_rows, data_said, key_methods, kinds, mount_choices, root_device,
    usable_key,
};
use tect::install::OldKey;
use tect::install::{encryption_row, opened_rows, short_of, Slots, ROW_ACCOUNT, ROW_ENCRYPTION};
use tect::prompt::Prompt;
use tect::ui::{Choice, Field};

#[test]
fn custom_layouts_need_one_root_and_unique_mount_points() {
    let field = |target: &str| {
        Field::pick(
            "partition",
            vec![Choice::new(&copy::format_at("ext4", target), "")],
            Some(0),
        )
    };
    assert_eq!(
        layout_short_of(&[field("/var")]).as_deref(),
        Some(copy::CUSTOM_ROOT)
    );
    assert_eq!(
        layout_short_of(&[field("/"), field("/")]).as_deref(),
        Some(copy::CUSTOM_DUPLICATE)
    );
    assert!(layout_short_of(&[field("/"), field("/var")]).is_none());
}

#[test]
fn every_answer_the_editor_takes_reads_back_as_a_mount() {
    assert_eq!(
        mounted_answer(&copy::open_at("/")),
        Some(Mounted {
            target: "/".to_string(),
            fstype: OPEN.to_string(),
        })
    );
    assert_eq!(
        mounted_answer(&copy::keep_as("/boot/efi")),
        Some(Mounted {
            target: "/boot/efi".to_string(),
            fstype: "unformatted".to_string(),
        })
    );
    assert_eq!(
        mounted_answer(&copy::format_at("btrfs", "/var")),
        Some(Mounted {
            target: "/var".to_string(),
            fstype: "btrfs".to_string(),
        })
    );
    assert_eq!(mounted_answer(copy::LEAVE_PARTITION), None);
}

#[test]
fn an_open_container_is_an_opening_and_not_a_format() {
    let partition = |device: &str, fstype: &str| Partition {
        device: device.to_string(),
        size: "4G".to_string(),
        fstype: fstype.to_string(),
        label: String::new(),
        parttype: String::new(),
        uuid: String::new(),
    };
    let rows = [
        partition("/dev/vda1", "vfat"),
        partition("/dev/vda2", "crypto_LUKS"),
        partition("/dev/vda3", "xfs"),
    ];
    let field = |answer: &str| Field::pick("partition", vec![Choice::new(answer, "")], Some(0));
    let fields = [
        field(&copy::keep_as("/boot/efi")),
        field(&copy::open_at("/")),
        field(&copy::format_at("ext4", "/var")),
    ];
    let (mounts, openings) = layout_from(&rows, &fields);
    assert_eq!(
        mounts,
        [
            CustomMount {
                partition: "/dev/vda1".to_string(),
                target: "/boot/efi".to_string(),
                fstype: "unformatted".to_string(),
            },
            CustomMount {
                partition: "/dev/vda3".to_string(),
                target: "/var".to_string(),
                fstype: "ext4".to_string(),
            },
        ]
    );
    assert_eq!(
        openings,
        [Opening {
            partition: "/dev/vda2".to_string(),
            target: "/".to_string(),
        }]
    );
}

#[test]
fn a_key_file_is_usable_only_where_a_container_encrypts_the_root() {
    assert!(usable_key(&Key::Passphrase("x".to_string()), false));
    assert!(!usable_key(&Key::File("/run/key".to_string()), false));
    assert!(!usable_key(&Key::Data(b"key".to_vec()), false));
    assert!(usable_key(&Key::File("/run/key".to_string()), true));
    assert!(usable_key(&Key::Data(b"key".to_vec()), true));
}

#[test]
fn an_edited_layout_keeps_the_key_it_already_has() {
    let opening = Opening {
        partition: "/dev/vda2".to_string(),
        target: "/".to_string(),
    };
    let held = CustomLayout {
        disk: "/dev/vda".to_string(),
        mounts: Vec::new(),
        opens: vec![LuksOpen {
            partition: opening.partition.clone(),
            target: opening.target.clone(),
            key: Key::Passphrase("opensesame".to_string()),
        }],
    };
    let opens = opens_from(
        std::slice::from_ref(&opening),
        Some(&held),
        &Discovered::default(),
        |_: &Opening, _: Option<&str>, _: bool| -> Result<Key, String> {
            Err("nothing is asked for a key the layout carries".to_string())
        },
    )
    .expect("the carried key");
    assert!(opens == held.opens);
}

#[test]
fn the_key_file_method_is_refused_where_the_root_is_not_encrypted() {
    let both = key_methods(None);
    assert!(both.iter().all(|method| method.available));
    assert_eq!(both[1].detail, copy::KEY_FILE_COST);

    let refused = key_methods(Some(copy::OPENED_KEYFILE_PLAIN));
    assert!(refused[0].available);
    assert!(refused[0].detail == copy::KEY_PASSPHRASE_COST);
    assert!(!refused[1].available);
    assert_eq!(refused[1].detail, copy::OPENED_KEYFILE_PLAIN);
}

#[test]
fn only_the_forms_named_for_a_passphrase_are_asked_for_one() {
    let wants: Vec<&str> = kinds_table()
        .iter()
        .map(|(name, _, _)| *name)
        .filter(|name| Encryption::wants_passphrase(name))
        .collect();
    assert_eq!(wants, ["luks-passphrase", "tpm2-luks-passphrase"]);
}

#[test]
fn an_encryption_no_backend_takes_is_refused_by_name() {
    let refused = ask_encryption(Some("luks".to_string()), None, &mut Prompt::silent(), true, false)
        .err()
        .expect("a refusal");
    assert!(refused.contains("tpm2-luks-passphrase"), "{refused}");
    let kept = ask_encryption(Some("tpm2-luks".to_string()), None, &mut Prompt::silent(), true, false)
        .ok()
        .expect("one of the four");
    assert_eq!(kept.kind, "tpm2-luks");
    assert!(kept.passphrase.is_empty());
}

#[test]
fn more_than_one_labelled_partition_is_named_rather_than_chosen() {
    assert!(labelled("\n").is_empty());
    assert_eq!(labelled("/dev/sdb2\n"), ["/dev/sdb2"]);
    assert_eq!(
        labelled("/dev/sdb2\n/dev/sdc1\n"),
        ["/dev/sdb2", "/dev/sdc1"]
    );
}

#[test]
fn the_confirm_screen_shows_what_is_about_to_be_erased() {
    let answers = Answers {
        disk: "/dev/vda".to_string(),
        hostname: "deb2".to_string(),
        user: "tect".to_string(),
        password: "hunter2".to_string(),
        opened: Opened::Keep,
        encryption: Encryption {
            kind: NONE.to_string(),
            passphrase: String::new(),
        },
        data: Data::default(),
        layout: None,
    };
    assert_eq!(
        answers.summary(&Payload {
            recipe: "/mnt/tect/install-recipe.json".into(),
            image: "ghcr.io/tectonic-os/deb2:latest".to_string(),
            hostname: "deb2".to_string(),
            filesystem: "ext4".to_string(),
            bootloader: "grub2".to_string(),
            boot: String::new(),
            luks_initramfs: true,
        }),
        vec![
            (copy::ROW_DISK.to_string(), "/dev/vda".to_string()),
            (copy::ROW_HOSTNAME.to_string(), "deb2".to_string()),
            (copy::ROW_ACCOUNT.to_string(), "tect".to_string()),
            (
                copy::ROW_PASSWORD.to_string(),
                copy::PASSWORD_SET.to_string()
            ),
            (copy::ROW_ENCRYPTION.to_string(), copy::ENC_NONE.to_string()),
            (copy::ROW_DATA.to_string(), copy::NONE.to_string()),
            ("esp".to_string(), "2 GB  fat32".to_string()),
            ("/boot".to_string(), "2 GB  ext4".to_string()),
            ("root".to_string(), "the rest  ext4".to_string()),
        ]
    );
    let question = copy::erasing(&answers.disk);
    assert!(
        question.contains("/dev/vda") && question.contains("erased"),
        "{question}"
    );
    assert!(!question.contains("hunter2"));
}

#[test]
fn the_passphrase_is_a_row_only_where_it_is_owed() {
    let form = |kind: &str| {
        vec![
            Field::text(copy::ROW_DISK, "/dev/vda"),
            Field::action(copy::ROW_LAYOUT, "esp + ext4 /boot + ext4 root"),
            Field::text(copy::ROW_HOSTNAME, "deb2"),
            Field::text(copy::ROW_ACCOUNT, "tect"),
            Field::secret(copy::ROW_PASSWORD, "hunter2"),
            Field::secret(copy::ROW_CONFIRM, "hunter2"),
            Field::pick(
                copy::ROW_ENCRYPTION,
                vec![Choice::new(shown(kind), "")],
                Some(0),
            ),
            Field::secret(copy::ROW_PASSPHRASE, ""),
            Field::pick(copy::ROW_DATA, vec![Choice::new(copy::NONE, "")], Some(0)),
            Field::text(copy::ROW_SIZE, ""),
        ]
    };
    assert!(!asked(&form(NONE), false).contains(&ROW_PASSPHRASE));
    assert!(!asked(&form("tpm2-luks"), false).contains(&ROW_PASSPHRASE));
    assert!(asked(&form("luks-passphrase"), false).contains(&ROW_PASSPHRASE));
    assert!(asked(&form("tpm2-luks-passphrase"), false).contains(&ROW_PASSPHRASE));
    let mut sized = form(NONE);
    assert!(!asked(&sized, false).contains(&ROW_SIZE));
    sized[ROW_DATA] = Field::pick(
        copy::ROW_DATA,
        vec![Choice::new(copy::DATA_HERE, "")],
        Some(0),
    );
    assert!(asked(&sized, false).contains(&ROW_SIZE));
    assert_eq!(asked(&form(NONE), false).len(), 8);
}

#[test]
fn a_root_with_nothing_built_on_it_refuses_by_name() {
    let nothing = Found::Nothing("/mnt/tect".into()).payload().err().expect("a refusal");
    assert!(nothing.contains(RECIPE) && nothing.contains(tect::layout::REPO_FILE));
    assert!(nothing.contains("/mnt/tect"), "{nothing}");
    let repo = Found::Repo("/mnt/tect".into()).payload().err().expect("a refusal");
    assert!(repo.contains("tect build"), "{repo}");
}

#[test]
fn a_boot_argument_lands_on_the_options_line_once() {
    let raw = "title Fedora\nlinux /vmlinuz\noptions root=UUID=aa quiet\n";
    let (text, changed) = add_boot_arg(raw, "rd.luks.name=bb=root");
    assert!(changed);
    assert!(text.contains("options root=UUID=aa quiet rd.luks.name=bb=root"));
    assert!(text.ends_with('\n'));
    let (again, changed) = add_boot_arg(&text, "rd.luks.name=bb=root");
    assert!(!changed);
    assert_eq!(again, text);
    assert!(boot_arg_named(&text, "rd.luks.name=bb=root"));
    assert!(!boot_arg_named(raw, "rd.luks.name=bb=root"));
    assert!(!boot_arg_named("title nothing\n", "rd.luks.name=bb=root"));
}

#[test]
fn a_partition_number_is_the_trailing_digits() {
    assert_eq!(partition_number("/dev/vda3").expect("a number"), "3");
    assert_eq!(partition_number("/dev/nvme0n1p12").expect("a number"), "12");
    assert_eq!(partition_number("/dev/mmcblk0p2").expect("a number"), "2");
    assert!(partition_number("/dev/vda").is_err());
}

#[test]
fn the_opened_rows_answer_reads_back() {
    assert_eq!(Opened::of(copy::OPENED_TPM2), Opened::Tpm2);
    assert_eq!(Opened::of(copy::OPENED_ADD_KEY), Opened::AddKey);
    assert_eq!(Opened::of(copy::OPENED_KEEP), Opened::Keep);
    assert_eq!(Opened::of("anything else"), Opened::Keep);
}

#[test]
fn every_opened_answer_reads_back_as_itself() {
    for opened in [Opened::Keep, Opened::Tpm2, Opened::AddKey] {
        assert_eq!(Opened::of(opened.label()), opened);
    }
}

#[test]
fn the_var_rows_an_encrypted_root_can_take_are_pickable() {
    let found = [
        ("/dev/vda".to_string(), "68 GB".to_string()),
        ("/dev/sdb".to_string(), "30 GB".to_string()),
    ];
    let open = data_rows("/dev/vda", &found, false);
    let labels: Vec<&str> = open.iter().map(|row| row.label.as_str()).collect();
    assert_eq!(
        labels,
        [
            copy::NONE,
            copy::DATA_HERE,
            &copy::on_disk("/dev/sdb", copy::DATA_ERASED),
            &copy::on_disk("/dev/sdb", copy::DATA_KEPT),
        ]
    );
    assert!(open.iter().all(|row| row.available));

    let gated = data_rows("/dev/vda", &found, true);
    let at = |label: &str| gated.iter().find(|row| row.label == label).expect("a row");
    assert!(at(copy::NONE).available);
    assert!(at(copy::DATA_HERE).available);
    assert!(at(&copy::on_disk("/dev/sdb", copy::DATA_ERASED)).available);
    let kept = at(&copy::on_disk("/dev/sdb", copy::DATA_KEPT));
    assert!(!kept.available);
    assert_eq!(kept.detail, copy::DATA_UNENCRYPTED);
}

#[test]
fn the_tpm_forms_are_shown_and_unpickable_where_there_is_no_tpm() {
    let rows = kinds(false, true);
    let without: Vec<(&str, &str, bool)> = rows
        .iter()
        .map(|choice| (choice.label.as_str(), choice.detail.as_str(), choice.available))
        .collect();
    assert_eq!(
        without,
        vec![
            (copy::ENC_NONE, "", true),
            (copy::ENC_TPM2, copy::NO_TPM, false),
            (copy::ENC_PASSPHRASE, copy::ENC_ONLY_YOU, true),
            (copy::ENC_BOTH, copy::NO_TPM, false),
        ]
    );
    let with = kinds(true, true);
    assert!(with.iter().all(|choice| choice.available));
    assert_eq!(with[1].detail, copy::ENC_ANY_HOLDER);
    assert_eq!(with[3].detail, copy::ENC_ANY_HOLDER);
}

#[test]
fn root_encryption_is_refused_without_an_initramfs_witness() {
    let rows = kinds(true, false);
    assert!(rows[0].available);
    for row in &rows[1..] {
        assert!(!row.available, "{}", row.label);
        assert_eq!(row.detail, copy::NO_LUKS_INITRAMFS);
    }
    assert_eq!(
        ask_encryption(
            Some("luks-passphrase".to_string()),
            Some("opensesame".to_string()),
            &mut Prompt::silent(),
            false,
            true,
        )
        .err()
        .as_deref(),
        Some(copy::NO_LUKS_INITRAMFS)
    );

    let container = Partition {
        device: "/dev/vda2".to_string(),
        size: "60G".to_string(),
        fstype: "crypto_LUKS".to_string(),
        label: String::new(),
        parttype: String::new(),
        uuid: String::new(),
    };
    let choices = mount_choices(&container, "ext4", "grub2", false);
    let at = |target: &str| {
        choices
            .iter()
            .find(|choice| choice.label == copy::open_at(target))
            .expect("an open row")
    };
    assert!(!at("/").available);
    assert_eq!(at("/").detail, copy::NO_LUKS_INITRAMFS);
    assert!(at("/var").available, "a data volume opens after root boots");
}

#[test]
fn the_root_device_is_where_the_layout_put_it() {
    let opened = CustomLayout {
        disk: "/dev/vda".to_string(),
        mounts: Vec::new(),
        opens: vec![LuksOpen {
            partition: "/dev/vda3".to_string(),
            target: "/".to_string(),
            key: Key::Passphrase("opensesame".to_string()),
        }],
    };
    assert_eq!(root_device(&opened).as_deref(), Some("/dev/mapper/tect-1"));
    let mounted = CustomLayout {
        disk: "/dev/vda".to_string(),
        mounts: vec![CustomMount {
            partition: "/dev/vda2".to_string(),
            target: "/".to_string(),
            fstype: "ext4".to_string(),
        }],
        opens: Vec::new(),
    };
    assert_eq!(root_device(&mounted).as_deref(), Some("/dev/vda2"));
}

#[test]
fn the_ladder_says_how_each_container_opens_at_boot() {
    let data = |key: Key| LuksOpen {
        partition: "/dev/vda3".to_string(),
        target: "/var".to_string(),
        key,
    };
    let root = LuksOpen {
        partition: "/dev/vda3".to_string(),
        target: "/".to_string(),
        key: Key::Data(b"opensesame".to_vec()),
    };
    assert_eq!(at_boot(&root, Opened::Keep), copy::OPENED_ROOT_KEYFILE);
    assert_eq!(at_boot(&root, Opened::Tpm2), copy::BOOT_TPM2);
    let root_passphrase = LuksOpen {
        partition: "/dev/vda3".to_string(),
        target: "/".to_string(),
        key: Key::Passphrase("opensesame".to_string()),
    };
    assert_eq!(at_boot(&root_passphrase, Opened::Keep), copy::BOOT_PASSPHRASE);
    assert_eq!(at_boot(&data(Key::Data(b"key".to_vec())), Opened::Keep), copy::BOOT_KEYFILE);
    assert_eq!(at_boot(&data(Key::Passphrase("x".into())), Opened::Keep), copy::BOOT_PASSPHRASE);
    assert_eq!(at_boot(&data(Key::Passphrase("x".into())), Opened::AddKey), copy::BOOT_ADDED_KEY);
    assert_eq!(at_boot(&data(Key::Passphrase("x".into())), Opened::Tpm2), copy::BOOT_TPM2);
}

#[test]
fn the_summary_says_a_created_var_is_encrypted() {
    let sized = chose(copy::DATA_HERE, "200 GB");
    assert!(data_said(&sized, true).contains(copy::DATA_ENCRYPTED));
    assert!(!data_said(&sized, false).contains(copy::DATA_ENCRYPTED));
    let disk = chose(&copy::on_disk("/dev/sdb", copy::DATA_ERASED), "");
    assert!(data_said(&disk, true).contains(copy::DATA_ENCRYPTED));
    assert!(!data_said(&Data::default(), true).contains(copy::DATA_ENCRYPTED));
}

#[test]
fn a_scripted_encryption_is_picked_by_number_or_by_name() {
    let mut by_number = Prompt::scripted(vec!["3".to_string(), "opensesame".to_string()]);
    let picked = ask_encryption(None, None, &mut by_number, true, true).ok().expect("a pick");
    assert_eq!(picked.kind, "luks-passphrase");
    assert_eq!(picked.passphrase, "opensesame");
    let mut by_name = Prompt::scripted(vec![copy::ENC_TPM2.to_string()]);
    let picked = ask_encryption(None, None, &mut by_name, true, true).ok().expect("a pick");
    assert_eq!(picked.kind, "tpm2-luks");
    let mut none = Prompt::scripted(vec!["0".to_string()]);
    let picked = ask_encryption(None, None, &mut none, true, true).ok().expect("a pick");
    assert_eq!(picked.kind, NONE);
    let silent = ask_encryption(None, None, &mut Prompt::silent(), true, true).ok().expect("none");
    assert_eq!(silent.kind, NONE);
}

#[test]
fn a_mapper_is_named_in_the_order_containers_open() {
    let layout = CustomLayout {
        disk: "/dev/vda".to_string(),
        mounts: Vec::new(),
        opens: vec![
            LuksOpen {
                partition: "/dev/vda2".to_string(),
                target: "/var".to_string(),
                key: Key::Passphrase("a".to_string()),
            },
            LuksOpen {
                partition: "/dev/vda3".to_string(),
                target: "/".to_string(),
                key: Key::Passphrase("b".to_string()),
            },
        ],
    };
    let names: Vec<String> = layout.mappers().into_iter().map(|(name, _)| name).collect();
    assert_eq!(names, ["tect-1", "tect-2"]);
    assert!(layout.opens_the_root());
    assert_eq!(root_device(&layout).as_deref(), Some("/dev/mapper/tect-2"));
    assert_eq!(tect::install::crypttab_name("/var/lib/data"), "var-lib-data");
}

/// The four things nothing derives, and the one thing a form can check
/// that a sequence of questions had to ask twice for.
#[test]
fn the_action_says_what_the_form_is_short_of() {
    let form = |password: &str, confirm: &str, kind: &str, passphrase: &str| {
        vec![
            Field::text(copy::ROW_DISK, "/dev/vda"),
            Field::action(copy::ROW_LAYOUT, "esp + ext4 /boot + ext4 root"),
            Field::text(copy::ROW_HOSTNAME, "deb2"),
            Field::text(copy::ROW_ACCOUNT, "tect"),
            Field::secret(copy::ROW_PASSWORD, password),
            Field::secret(copy::ROW_CONFIRM, confirm),
            Field::pick(copy::ROW_ENCRYPTION, vec![Choice::new(shown(kind), "")], Some(0)),
            Field::secret(copy::ROW_PASSPHRASE, passphrase),
            Field::pick(copy::ROW_DATA, vec![Choice::new(copy::NONE, "")], Some(0)),
            Field::text(copy::ROW_SIZE, ""),
        ]
    };
    assert!(short_of(&form("hunter2", "hunter2", NONE, ""), None, true).is_none());
    // Both halves are on screen at once, so they are compared there.
    let differ = short_of(&form("hunter2", "hunter3", NONE, ""), None, true).unwrap();
    assert_eq!(differ, copy::NO_MATCH_ROW);
    // A passphrase is owed only by the forms named for one.
    assert!(short_of(&form("hunter2", "hunter2", "luks-passphrase", ""), None, true).is_some());
    assert!(short_of(&form("hunter2", "hunter2", "luks-passphrase", "x"), None, true).is_none());
    assert_eq!(
        short_of(&form("hunter2", "hunter2", "luks-passphrase", "x"), None, false).as_deref(),
        Some(copy::NO_LUKS_INITRAMFS)
    );
    // And an empty account is named beside an empty password.
    let mut bare = form("", "", NONE, "");
    bare[ROW_ACCOUNT] = Field::text(copy::ROW_ACCOUNT, "");
    let short = short_of(&bare, None, true).unwrap();
    assert!(short.contains(copy::ROW_ACCOUNT) && short.contains(copy::ROW_PASSWORD), "{short}");

    // A `/var` cut out of this disk is short of the size it is cut to.
    let data = |form: &mut Vec<Field>, label: String, size: &str| {
        form[ROW_DATA] = Field::pick(copy::ROW_DATA, vec![Choice::new(&label, "")], Some(0));
        form[ROW_SIZE] = Field::text(copy::ROW_SIZE, size);
    };
    let mut sized = form("hunter2", "hunter2", NONE, "");
    data(&mut sized, copy::DATA_HERE.to_string(), "");
    assert!(short_of(&sized, None, true).unwrap().contains(copy::ROW_SIZE));
    data(&mut sized, copy::DATA_HERE.to_string(), "200 GB");
    assert!(short_of(&sized, None, true).is_none());

    // A `/var` the install creates is encrypted by fisherman with the
    // root's passphrase, so an encryption answered after the row was is
    // no longer refused.
    let mut encrypted = form("hunter2", "hunter2", "tpm2-luks", "");
    data(&mut encrypted, copy::DATA_HERE.to_string(), "200 GB");
    assert!(short_of(&encrypted, None, true).is_none());

    // A second disk kept as it is is drawn unpickable under an encrypted
    // root, and this is the same gate for an encryption answered after it.
    let mut kept = form("hunter2", "hunter2", "tpm2-luks", "");
    data(&mut kept, copy::on_disk("/dev/sdb", copy::DATA_KEPT), "");
    assert_eq!(short_of(&kept, None, true).as_deref(), Some(copy::DATA_UNENCRYPTED));

    // And `/var` on the disk this is installing to is the one row the list
    // cannot leave out, since nothing has answered the disk when it is built.
    let mut same = form("hunter2", "hunter2", NONE, "");
    data(&mut same, copy::on_disk("/dev/vda", copy::DATA_ERASED), "");
    assert_eq!(short_of(&same, None, true).as_deref(), Some(copy::DATA_SAME_DISK));

    // A root whose key is a key file has nothing the machine can read at
    // boot, and neither answer on the row can give it one.
    let root_keyfile = CustomLayout {
        disk: "/dev/vda".to_string(),
        mounts: Vec::new(),
        opens: vec![LuksOpen {
            partition: "/dev/vda3".to_string(),
            target: "/".to_string(),
            key: Key::Data(b"key".to_vec()),
        }],
    };
    let opens_row = |label: &str| {
        let mut fields = form("hunter2", "hunter2", NONE, "");
        fields[ROW_ENCRYPTION] = Field::pick(copy::ROW_ENCRYPTION, vec![Choice::new(label, "")], Some(0));
        fields
    };
    assert_eq!(
        short_of(&opens_row(copy::OPENED_KEEP), Some(&root_keyfile), true).as_deref(),
        Some(copy::OPENED_ROOT_KEYFILE)
    );
    assert_eq!(
        short_of(&opens_row(copy::OPENED_TPM2), Some(&root_keyfile), true).as_deref(),
        Some(copy::OPENED_ROOT_KEYFILE)
    );

    // A root that is a plain mount encrypts nothing, so neither addition
    // can land.
    let plain_root = CustomLayout {
        disk: "/dev/vda".to_string(),
        mounts: vec![CustomMount {
            partition: "/dev/vda2".to_string(),
            target: "/".to_string(),
            fstype: "ext4".to_string(),
        }],
        opens: vec![LuksOpen {
            partition: "/dev/vda3".to_string(),
            target: "/var".to_string(),
            key: Key::Passphrase("opensesame".to_string()),
        }],
    };
    assert!(short_of(&opens_row(copy::OPENED_KEEP), Some(&plain_root), true).is_none());
    for answer in [copy::OPENED_ADD_KEY, copy::OPENED_TPM2] {
        assert_eq!(
            short_of(&opens_row(answer), Some(&plain_root), true).as_deref(),
            Some(copy::OPENED_KEYFILE_PLAIN),
            "{answer}"
        );
    }
    // A layout made for another disk is refused before anything else it holds.
    let mut elsewhere = opens_row(copy::OPENED_KEEP);
    elsewhere[0] = Field::text(copy::ROW_DISK, "/dev/vdb");
    assert_eq!(short_of(&elsewhere, Some(&plain_root), true).as_deref(), Some(copy::CUSTOM_OTHER_DISK));
}

fn a_row<'a>(rows: &'a [Choice], label: &str) -> &'a Choice {
    rows.iter().find(|row| row.label == label).expect("a row")
}

/// The two answers that put a key on the root — a key file for boot and
/// the key a first-boot TPM2 enrolment is staged with — are drawn
/// unpickable with the reason where the root is not an opened container:
/// the key would be readable beside the volume it opens. With the root
/// opened, both are offered as before.
#[test]
fn a_key_on_the_root_needs_an_encrypted_root() {
    let volume = |target: &str, partition: &str| LuksOpen {
        partition: partition.to_string(),
        target: target.to_string(),
        key: Key::Passphrase("opensesame".to_string()),
    };
    let layout = |encrypted_root: bool| {
        let mounts = match encrypted_root {
            true => Vec::new(),
            false => vec![CustomMount {
                partition: "/dev/vda2".to_string(),
                target: "/".to_string(),
                fstype: "ext4".to_string(),
            }],
        };
        let mut opens = vec![volume("/var", "/dev/tect-test-no-luks")];
        if encrypted_root {
            opens.insert(0, volume("/", "/dev/tect-test-no-luks-root"));
        }
        CustomLayout { disk: "/dev/vda".to_string(), mounts, opens }
    };
    // The header is unreadable on this fake device, which is what the
    // program hands over for every container the layout opens.
    let unreadable = |n: usize| -> Vec<Result<Slots, String>> {
        (0..n).map(|_| Err("Device /dev/tect-test-no-luks does not exist or access denied.".to_string())).collect()
    };
    let plain = opened_rows(&layout(false), &unreadable(1), true, true);
    for label in [copy::OPENED_ADD_KEY, copy::OPENED_TPM2] {
        let row = a_row(&plain, label);
        assert!(!row.available, "{label}");
        assert_eq!(row.detail, copy::OPENED_KEYFILE_PLAIN, "{label}");
    }
    let encrypted = opened_rows(&layout(true), &unreadable(2), true, true);
    assert!(a_row(&encrypted, copy::OPENED_ADD_KEY).available);
    assert_eq!(a_row(&encrypted, copy::OPENED_ADD_KEY).detail, copy::OPENED_ADD_KEY_COST);
    assert!(a_row(&encrypted, copy::OPENED_KEEP).detail.starts_with("its slots could not be read"));
}

#[test]
fn a_read_header_is_said_by_its_slots_and_an_enrolled_one_refuses_a_second_token() {
    let slots = Slots { keys: vec![0, 2], tokens: vec!["systemd-tpm2".to_string()] };
    assert!(slots.has_tpm2());
    let said = copy::slots_said(&slots.keys, &slots.tokens);
    assert!(said.contains("slot 2"), "{said}");
    assert!(said.contains("systemd-tpm2"), "{said}");
    assert_eq!(said, "slot 0, slot 2; tokens systemd-tpm2");

    let layout = CustomLayout {
        disk: "/dev/vda".to_string(),
        mounts: Vec::new(),
        opens: vec![
            LuksOpen { partition: "/dev/vda3".to_string(), target: "/".to_string(), key: Key::Passphrase("a".to_string()) },
            LuksOpen { partition: "/dev/vda4".to_string(), target: "/var".to_string(), key: Key::Passphrase("b".to_string()) },
        ],
    };
    let read = vec![Ok(slots), Ok(Slots { keys: vec![1], tokens: Vec::new() })];
    let rows = opened_rows(&layout, &read, true, true);
    assert_eq!(rows.len(), 3);
    assert_eq!(rows[0].detail, "slot 0, slot 2; tokens systemd-tpm2; slot 1");
    assert!(rows[0].available);
    assert_eq!(rows[1].detail, copy::OPENED_TPM2_HAS);
    assert!(!rows[1].available);
    assert_eq!(rows[2].detail, format!("{}; 1 slots now", copy::OPENED_ADD_KEY_COST));
    assert!(rows[2].available);
    // Without a TPM the token is refused for that first.
    let rows = opened_rows(&layout, &read, false, true);
    assert_eq!(rows[1].detail, copy::NO_TPM);
    // And an image that cannot open its root refuses every answer.
    let rows = opened_rows(&layout, &read, true, false);
    assert!(rows.iter().all(|row| !row.available && row.detail == copy::NO_LUKS_INITRAMFS));
}

#[test]
fn the_encryption_row_keeps_the_answer_it_had() {
    let layout = CustomLayout {
        disk: "/dev/vda".to_string(),
        mounts: Vec::new(),
        opens: vec![LuksOpen {
            partition: "/dev/vda4".to_string(),
            target: "/var".to_string(),
            key: Key::Passphrase("b".to_string()),
        }],
    };
    let read: Vec<Result<Slots, String>> = vec![Ok(Slots { keys: vec![0], tokens: Vec::new() })];
    let held = Field::pick(copy::ROW_ENCRYPTION, vec![Choice::new(copy::OPENED_ADD_KEY, "")], Some(0));
    let row = encryption_row(Some(&layout), &held, &read, true, true);
    assert_eq!(row.label, copy::ROW_ENCRYPTION);
    assert_eq!(row.choices[row.chosen.unwrap()].label, copy::OPENED_ADD_KEY);
    // An answer whose option is gone falls back to keeping what is there.
    let gone = Field::pick(copy::ROW_ENCRYPTION, vec![Choice::new("something else", "")], Some(0));
    let row = encryption_row(Some(&layout), &gone, &read, true, true);
    assert_eq!(row.choices[row.chosen.unwrap()].label, copy::OPENED_KEEP);
    // Before the layout opens anything the row is the kinds.
    let kind = Field::pick(copy::ROW_ENCRYPTION, vec![Choice::new(copy::ENC_PASSPHRASE, "")], Some(0));
    let row = encryption_row(None, &kind, &[], true, true);
    assert_eq!(row.choices.len(), 4);
    assert_eq!(row.chosen, Some(2));
}

#[test]
fn a_filesystem_with_a_journal_is_read_without_replaying_it() {
    for fstype in ["ext3", "ext4", "xfs", "btrfs"] {
        assert_eq!(tect::install::mount_options(fstype), "ro,norecovery", "{fstype}");
    }
    for fstype in ["vfat", "exfat", "iso9660", ""] {
        assert_eq!(tect::install::mount_options(fstype), "ro", "{fstype}");
    }
}

#[test]
fn an_esp_is_fat_with_the_esp_type_in_either_case() {
    let part = |fstype: &str, parttype: &str| Partition {
        device: "/dev/vda1".to_string(),
        size: "2G".to_string(),
        fstype: fstype.to_string(),
        label: String::new(),
        parttype: parttype.to_string(),
        uuid: String::new(),
    };
    assert!(tect::install::is_esp(&part("vfat", "C12A7328-F81F-11D2-BA4B-00A0C93EC93B")));
    assert!(tect::install::is_esp(&part("fat32", "0xEF")));
    assert!(!tect::install::is_esp(&part("ext4", "c12a7328-f81f-11d2-ba4b-00a0c93ec93b")));
    assert!(!tect::install::is_esp(&part("vfat", "0fc63daf-8483-4772-8e79-3d69d8477de4")));
}

#[test]
fn a_failure_after_a_key_was_added_names_where() {
    assert_eq!(tect::install::naming_added("mkfs failed".to_string(), &Vec::new()), "mkfs failed");
    assert_eq!(
        tect::install::naming_added("mkfs failed".to_string(), &vec!["/dev/vda3".to_string(), "/dev/vdb1".to_string()]),
        "mkfs failed; a key was added to /dev/vda3, /dev/vdb1 and the install did not finish"
    );
}

#[test]
fn an_old_key_opens_its_row_on_the_mount_the_old_fstab_gave() {
    let found = Discovered {
        found: vec![
            ("/dev/vda3".to_string(), OldKey { target: "/var".to_string(), key: Key::Data(b"k".to_vec()) }),
            ("/dev/vda4".to_string(), OldKey { target: String::new(), key: Key::Data(b"k".to_vec()) }),
        ],
        why: Vec::new(),
    };
    let part = |device: &str| Partition {
        device: device.to_string(),
        size: String::new(),
        fstype: "crypto_LUKS".to_string(),
        label: String::new(),
        parttype: String::new(),
        uuid: String::new(),
    };
    let options = vec![
        Choice::new(copy::LEAVE_PARTITION, ""),
        Choice::new(&copy::open_at("/"), ""),
        Choice::new(&copy::open_at("/var"), ""),
    ];
    assert_eq!(found.default_at(&part("/dev/vda3"), &options), Some(2));
    assert_eq!(found.default_at(&part("/dev/vda4"), &options), None);
    assert_eq!(found.default_at(&part("/dev/vda5"), &options), None);
    let refused = vec![Choice::new(copy::LEAVE_PARTITION, ""), Choice::new(&copy::open_at("/var"), "").unavailable()];
    assert_eq!(found.default_at(&part("/dev/vda3"), &refused), None);
}

#[test]
fn the_form_reads_back_as_the_answers() {
    let fields = vec![
        Field::text(copy::ROW_DISK, "/dev/vda"),
        Field::action(copy::ROW_LAYOUT, "automatic"),
        Field::text(copy::ROW_HOSTNAME, "deb2"),
        Field::text(copy::ROW_ACCOUNT, "tect"),
        Field::secret(copy::ROW_PASSWORD, "hunter2"),
        Field::secret(copy::ROW_CONFIRM, "hunter2"),
        Field::pick(copy::ROW_ENCRYPTION, vec![Choice::new(copy::ENC_PASSPHRASE, "")], Some(0)),
        Field::secret(copy::ROW_PASSPHRASE, "opensesame"),
        Field::pick(copy::ROW_DATA, vec![Choice::new(copy::DATA_HERE, "")], Some(0)),
        Field::text(copy::ROW_SIZE, "200 GB"),
    ];
    let answers = Answers::of(&fields, None);
    assert_eq!(answers.disk, "/dev/vda");
    assert_eq!(answers.hostname, "deb2");
    assert_eq!(answers.user, "tect");
    assert_eq!(answers.password, "hunter2");
    assert_eq!(answers.encryption.kind, "luks-passphrase");
    assert_eq!(answers.encryption.passphrase, "opensesame");
    assert_eq!(answers.data.size, "200 GB");
    assert_eq!(answers.opened, Opened::Keep);
    assert!(answers.layout.is_none());
}

#[test]
fn the_media_root_is_the_directory_of_the_build_record() {
    assert_eq!(tect::install::media("/usr/lib/tectonic/build/record.kdl"), "/usr/lib/tectonic/build");
    assert_eq!(tect::install::media("/"), "/");
    assert_eq!(tect::install::media("record.kdl"), "");
}

#[test]
fn more_than_one_labelled_partition_is_refused_naming_them() {
    assert_eq!(tect::install::labelled_root(&Vec::new()), Ok(None));
    assert_eq!(
        tect::install::labelled_root(&vec!["/dev/sdb1".to_string()]),
        Ok(Some("/dev/sdb1".to_string()))
    );
    assert_eq!(
        tect::install::labelled_root(&vec!["/dev/sda1".to_string(), "/dev/sdb1".to_string()]),
        Err("2 partitions are labelled TECT, so which one to install from is not clear: /dev/sda1, /dev/sdb1\n\nhelp: `tect installer --from <root>` names one outright".to_string())
    );
}
