use tect::crypttab::{crypttabs, device_spec, fstab_target, names, on_device, Crypttab, KeySource};
use tect::install::Partition;

/// The shapes a crypttab's third field takes, plus the one script this
/// installer will not run and the one wait it does not configure. A line
/// with two fields only asks for a passphrase at boot, so it names no key
/// and falls to the systemd default.
#[test]
fn an_old_crypttab_says_where_each_key_is() {
    let entries = crypttabs(
        "\
# a comment
root UUID=aa11 none luks
var UUID=bb22 /etc/luks/var.key luks,discard
data UUID=cc33 /key:UUID=dd44 luks
stick UUID=ee55 UUID=ff66:/key:10 luks,keyscript=/lib/cryptsetup/scripts/passdev
other UUID=gg77 none luks,keyscript=/lib/cryptsetup/scripts/decrypt_derived
passphrase UUID=hh88
timed UUID=ii99 /media/stick/var.key luks,keyfile-timeout=30s
",
    );
    assert_eq!(entries.len(), 7);
    assert_eq!(entries[0].key, KeySource::Default);
    assert_eq!(entries[1].key, KeySource::Inside("/etc/luks/var.key".to_string()));
    assert_eq!(
        entries[2].key,
        KeySource::OnDevice { device: "UUID=dd44".to_string(), path: "/key".to_string() }
    );
    assert_eq!(
        entries[3].key,
        KeySource::OnDevice { device: "UUID=ff66".to_string(), path: "/key".to_string() }
    );
    assert_eq!(entries[4].key, KeySource::Unreadable);
    assert_eq!(entries[5].key, KeySource::Default);
    // A wait is a removable-media arrangement said another way, not a
    // path inside the old root that happens to be missing.
    assert_eq!(entries[6].key, KeySource::Waited);
}

/// A crypttab names its container by the LUKS uuid, the by-uuid symlink to
/// it, or the device path. Anything else is another disk.
#[test]
fn an_old_system_names_a_container_by_its_uuid_or_its_device() {
    let container = Partition {
        device: "/dev/vda3".to_string(),
        size: String::new(),
        fstype: "crypto_LUKS".to_string(),
        label: String::new(),
        parttype: String::new(),
        uuid: "A1B2".to_string(),
    };
    let entry = |device: &str| Crypttab {
        name: "var".to_string(),
        device: device.to_string(),
        key: KeySource::Default,
    };
    assert!(names(&entry("UUID=a1b2"), &container));
    assert!(names(&entry("/dev/disk/by-uuid/A1B2"), &container));
    assert!(names(&entry("/dev/vda3"), &container));
    assert!(!names(&entry("UUID=ffff"), &container));
    assert!(!names(&entry("/dev/vda2"), &container));
}

#[test]
fn a_container_with_no_uuid_is_named_only_by_its_device() {
    let container = Partition {
        device: "/dev/vda3".to_string(),
        size: String::new(),
        fstype: "crypto_LUKS".to_string(),
        label: String::new(),
        parttype: String::new(),
        uuid: String::new(),
    };
    let entry = Crypttab { name: "var".to_string(), device: "UUID=".to_string(), key: KeySource::Default };
    assert!(!names(&entry, &container));
}

#[test]
fn a_device_is_a_path_under_dev_or_an_fstab_spec() {
    assert!(device_spec("/dev/sdb1"));
    assert!(device_spec("UUID=1234"));
    assert!(device_spec("PARTUUID=abcd"));
    assert!(device_spec("LABEL=KEYS"));
    assert!(!device_spec("/key"));
    assert!(!device_spec("uuid=1234"));
    assert!(!device_spec(""));
}

#[test]
fn a_third_field_names_its_device_on_either_side() {
    assert_eq!(
        on_device("/k:LABEL=KEYS", false),
        Some(KeySource::OnDevice { device: "LABEL=KEYS".to_string(), path: "/k".to_string() })
    );
    assert_eq!(on_device("/k:LABEL=KEYS", true), None);
    assert_eq!(
        on_device("/dev/sdb1:/k:5", true),
        Some(KeySource::OnDevice { device: "/dev/sdb1".to_string(), path: "/k".to_string() })
    );
    assert_eq!(on_device("/etc/key", false), None);
    assert_eq!(on_device("/a:/b", false), None);
}

#[test]
fn a_crypttab_line_keeps_nothing_after_a_hash_and_needs_two_fields() {
    let entries = crypttabs("lonely\n  # only a comment\nvar /dev/vda3 - luks # trailing\r\nkeyed /dev/vda4 /k:UUID=x luks,keyscript=/bin/other");
    assert_eq!(entries.len(), 2);
    assert_eq!(entries[0].name, "var");
    assert_eq!(entries[0].device, "/dev/vda3");
    assert_eq!(entries[0].key, KeySource::Default);
    assert_eq!(entries[1].key, KeySource::Unreadable);
    assert!(crypttabs("").is_empty());
}

#[test]
fn the_old_fstab_says_where_a_mapper_was_mounted() {
    let fstab = "# /etc/fstab\n/dev/mapper/root / btrfs defaults 0 0\n/dev/mapper/var /var ext4 defaults 0 2 # data\n/dev/mapper/var /other ext4\n";
    assert_eq!(fstab_target(fstab, "var"), "/var");
    assert_eq!(fstab_target(fstab, "root"), "/");
    assert_eq!(fstab_target(fstab, "home"), "");
    assert_eq!(fstab_target("/dev/mapper/var\n", "var"), "");
}
