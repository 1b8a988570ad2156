use tect::block::{disks, Block, REMOVABLE};
use tect::form::{form_start, form_step, FormAction, FormEvent, FormState, Note, Phase};
use tect::install::ROW_LAYOUT;

fn at(phase: Phase, held: Option<&str>) -> FormState {
    FormState { phase, held: held.map(String::from), disk: "/dev/vda".to_string() }
}

#[test]
fn a_form_with_nothing_to_draw_on_is_the_flags_alone() {
    let (state, action) = form_start(false);
    assert!(matches!(action, FormAction::Finish(true)));
    assert_eq!(state.phase, Phase::Filling);
    let (_, action) = form_start(true);
    assert!(matches!(action, FormAction::Draw));
}

#[test]
fn installing_is_confirmed_first_and_going_back_draws_the_form_again() {
    let (state, action) = form_step(&at(Phase::Filling, None), FormEvent::Took(0));
    assert!(matches!(action, FormAction::Confirm));
    assert_eq!(state.phase, Phase::Confirming);
    let (state, action) = form_step(&state, FormEvent::Confirmed(false));
    assert!(matches!(action, FormAction::Draw));
    assert_eq!(state.phase, Phase::Filling);
    let (confirming, _) = form_step(&state, FormEvent::Took(0));
    let (_, action) = form_step(&confirming, FormEvent::Confirmed(true));
    assert!(matches!(action, FormAction::Finish(true)));
}

#[test]
fn any_other_action_shuts_the_machine_down_having_written_nothing() {
    let (state, action) = form_step(&at(Phase::Filling, None), FormEvent::Took(1));
    assert!(matches!(action, FormAction::PowerOff));
    let (_, action) = form_step(&state, FormEvent::PoweredOff);
    assert!(matches!(action, FormAction::Finish(false)));
    let (_, action) = form_step(
        &state,
        FormEvent::Failed { message: "systemctl: gone".to_string(), interrupted: false },
    );
    assert!(matches!(action, FormAction::Fail(m) if m == "systemctl: gone"));
}

#[test]
fn the_layout_row_needs_a_disk_and_drops_a_layout_held_for_another() {
    let filling = at(Phase::Filling, Some("/dev/sdb"));
    let (_, action) =
        form_step(&filling, FormEvent::Opened { row: ROW_LAYOUT, disk: String::new() });
    assert!(matches!(action, FormAction::Show(Note::NeedsDisk)));
    let (state, action) =
        form_step(&filling, FormEvent::Opened { row: ROW_LAYOUT, disk: "/dev/vda".to_string() });
    assert!(matches!(action, FormAction::Read { ref disk, drop: true } if disk == "/dev/vda"));
    assert_eq!(state.phase, Phase::Reading);
    assert!(state.held.is_none());
    let same = at(Phase::Filling, Some("/dev/vda"));
    let (state, action) =
        form_step(&same, FormEvent::Opened { row: ROW_LAYOUT, disk: "/dev/vda".to_string() });
    assert!(matches!(action, FormAction::Read { drop: false, .. }));
    assert_eq!(state.held.as_deref(), Some("/dev/vda"));
    let (_, action) = form_step(&filling, FormEvent::Opened { row: 2, disk: "/dev/vda".to_string() });
    assert!(matches!(action, FormAction::Draw));
}

#[test]
fn a_disk_without_partitions_is_said_on_the_layout_row() {
    let reading = at(Phase::Reading, None);
    let (state, action) = form_step(&reading, FormEvent::Partitions(0));
    assert!(matches!(action, FormAction::Show(Note::Failed(ref m))
        if m == "/dev/vda has no partitions to use in a custom layout"));
    assert_eq!(state.phase, Phase::Filling);
    let (_, action) = form_step(&reading, FormEvent::Unreadable("lsblk: gone".to_string()));
    assert!(matches!(action, FormAction::Show(Note::Failed(ref m)) if m == "lsblk: gone"));
    let (state, action) = form_step(&reading, FormEvent::Partitions(3));
    assert!(matches!(action, FormAction::Edit(ref d) if d == "/dev/vda"));
    let (state, action) = form_step(&state, FormEvent::Edited { held: Some("/dev/vda".to_string()) });
    assert!(matches!(action, FormAction::Show(Note::Current)));
    assert_eq!(state.held.as_deref(), Some("/dev/vda"));
}

#[test]
fn a_leave_key_asks_first_and_each_answer_does_what_it_says() {
    let editing = at(Phase::Editing, Some("/dev/vda"));
    let (leaving, action) = form_step(
        &editing,
        FormEvent::Failed { message: "interrupted".to_string(), interrupted: true },
    );
    assert!(matches!(action, FormAction::Ask));
    assert_eq!(leaving.phase, Phase::Leaving);
    let (_, action) = form_step(&leaving, FormEvent::Chose(Some(0)));
    assert!(matches!(action, FormAction::Draw));
    let (state, action) = form_step(&leaving, FormEvent::Chose(Some(1)));
    assert!(matches!(action, FormAction::Restart));
    assert!(state.held.is_none());
    let (_, action) = form_step(&leaving, FormEvent::Chose(Some(2)));
    assert!(matches!(action, FormAction::Finish(false)));
    let (_, action) = form_step(
        &leaving,
        FormEvent::Failed { message: "interrupted".to_string(), interrupted: true },
    );
    assert!(matches!(action, FormAction::Draw));
    let (_, action) = form_step(&at(Phase::Filling, None), FormEvent::Left);
    assert!(matches!(action, FormAction::Ask));
}

fn block(name: &str, sectors: &str, model: Option<&str>, removable: &str, ro: &str) -> Block {
    Block {
        name: name.to_string(),
        size: sectors.to_string(),
        ro: ro.to_string(),
        removable: removable.to_string(),
        model: model.unwrap_or_default().to_string(),
        partitions: Vec::new(),
    }
}

/// The whole disks, what tells them apart, and nothing virtual.
#[test]
fn only_the_disks_a_person_could_install_onto_are_offered() {
    let mut found = vec![
        block("sdd", "6291456\n", Some("QEMU USB HARDDRIVE\n"), "1\n", "1\n"),
        block("sdb", "60088320\n", None, "1\n", "0\n"),
        block("sda", "937703088\n", Some("Samsung SSD 980\n"), "0\n", "0\n"),
        block("loop0", "204800\n", None, "0\n", "0\n"),
        block("sdc", "0\n", None, "1\n", "0\n"),
    ];
    let mut stick = block("sde", "60088320\n", Some("Cruzer Blade\n"), "1\n", "0\n");
    stick.partitions.push("sde1".to_string());
    found.push(stick);
    let mounts = "\
/dev/sde1 /run/initramfs/live iso9660 ro,relatime 0 0
tmpfs /run tmpfs rw,nosuid,nodev 0 0
";
    assert_eq!(
        disks(&found, mounts),
        vec![
            ("/dev/sda".to_string(), "480 GB  Samsung SSD 980".to_string()),
            ("/dev/sdb".to_string(), format!("30 GB  {}", REMOVABLE)),
        ]
    );
    assert!(disks(&found, "").iter().any(|(disk, _)| disk == "/dev/sde"));
}

#[test]
fn a_disk_mounted_whole_is_the_medium_and_a_size_that_is_no_number_is_none() {
    let found = vec![
        block("vda", "41943040", None, "0", "0"),
        block("vdb", "lots", None, "0", "0"),
        block("zram0", "8388608", None, "0", "0"),
    ];
    assert_eq!(
        disks(&found, "/dev/vda / ext4 rw 0 0\n"),
        Vec::<(String, String)>::new()
    );
    assert_eq!(
        disks(&found, ""),
        vec![("/dev/vda".to_string(), "21 GB".to_string())]
    );
}
