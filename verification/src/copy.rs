//! What the installer says: every label, refusal and cost it shows, in one
//! place, so a screen and the code that reads its answer back agree.

use crate::text::{cat, cat3, cat4, join, join_spec, owned};
use vstd::prelude::*;

verus! {

pub const NONE: &'static str = "none";

pub const ROW_DISK: &'static str = "disk";
pub const ROW_LAYOUT: &'static str = "layout";
pub const ROW_HOSTNAME: &'static str = "hostname";
pub const ROW_ACCOUNT: &'static str = "account";
pub const ROW_PASSWORD: &'static str = "password";
pub const ROW_CONFIRM: &'static str = "confirm password";
pub const ROW_ENCRYPTION: &'static str = "encryption";
pub const ROW_PASSPHRASE: &'static str = "passphrase";
pub const ROW_DATA: &'static str = "/var";
pub const ROW_SIZE: &'static str = "/var size";

pub const PASSWORD_SET: &'static str = "set";

pub const ENC_NONE: &'static str = "no encryption";
pub const ENC_TPM2: &'static str = "unlocked by this machine's TPM";
pub const ENC_PASSPHRASE: &'static str = "a passphrase at every boot";
pub const ENC_BOTH: &'static str = "the TPM and a passphrase";
pub const ENC_ANY_HOLDER: &'static str = "anyone holding the machine gets the TPM's answer";
pub const ENC_ONLY_YOU: &'static str = "only someone who knows the passphrase boots it";

pub const NO_LUKS_INITRAMFS: &'static str = "this image does not say its initramfs can open an encrypted root";
pub const NO_TPM: &'static str = "this machine has no TPM";

pub const LEAVE_PARTITION: &'static str = "leave unchanged";
pub const CUSTOM_ROOT: &'static str = "a layout needs one partition mounted at /";
pub const CUSTOM_DUPLICATE: &'static str = "two partitions are mounted at the same place";
pub const CUSTOM_OTHER_DISK: &'static str = "the layout was made for another disk";
pub const CUSTOM_ENCRYPTION: &'static str = "a layout somebody chose takes no new encryption";
pub const CUSTOM_OPEN_BOOT: &'static str = "/boot is read before anything can be opened";
pub const CUSTOM_KEEP_ESP: &'static str = "an EFI system partition is FAT";
pub const CUSTOM_KEEP_FILESYSTEM: &'static str = "the image cannot be installed onto this filesystem";
pub const CUSTOM_FORMAT_FILESYSTEM: &'static str = "the image cannot be installed onto this filesystem";

pub const KEY_PASSPHRASE: &'static str = "a passphrase";
pub const KEY_PASSPHRASE_COST: &'static str = "typed here, and asked for at every boot";
pub const KEY_FILE: &'static str = "a key file";
pub const KEY_FILE_COST: &'static str = "read from a path this live system can see";
pub const KEY_FILE_PATH: &'static str = "key file";
pub const KEY_FILE_MISSING: &'static str = "no file is there";

pub const OPENED_KEEP: &'static str = "keep what the headers hold";
pub const OPENED_TPM2: &'static str = "add a TPM2 token at first boot";
pub const OPENED_ADD_KEY: &'static str = "add a key file for the data volumes";
pub const OPENED_ROOT_KEYFILE: &'static str = "a root opened by a key file has nothing to read it from at boot";
pub const OPENED_KEYFILE_PLAIN: &'static str = "a key file is read from an encrypted root, and this root is not one";

pub const BOOT_TPM2: &'static str = "the TPM at boot";
pub const BOOT_PASSPHRASE: &'static str = "its passphrase at boot";
pub const BOOT_ADDED_KEY: &'static str = "a key added here";
pub const BOOT_KEYFILE: &'static str = "the key file the old system holds";

pub const DATA_HERE: &'static str = "a partition of this disk";
pub const DATA_ERASED: &'static str = "erased";
pub const DATA_KEPT: &'static str = "kept as it is";
pub const DATA_ENCRYPTED: &'static str = "encrypted with the root";
pub const DATA_UNENCRYPTED: &'static str = "a disk kept as it is stays unencrypted under an encrypted root";
pub const DATA_SAME_DISK: &'static str = "/var cannot be the disk the system goes on";

pub const INSTALL_ENCRYPTION: &'static str = "How should the disk be encrypted?";
pub const LUKS_PASSPHRASE: &'static str = "Passphrase for the encrypted disk";

pub const NO_MATCH_ROW: &'static str = "the two passwords differ";

/// A mount answer that keeps a partition's filesystem.
pub open spec fn keep_as_spec(target: Seq<char>) -> Seq<char> {
    "keep as "@ + target
}

/// A mount answer that opens a container.
pub open spec fn open_at_spec(target: Seq<char>) -> Seq<char> {
    "open it as "@ + target
}

/// A mount answer that erases a partition and makes a filesystem on it.
pub open spec fn format_at_spec(fstype: Seq<char>, target: Seq<char>) -> Seq<char> {
    "format as "@ + fstype + " at "@ + target
}

pub fn keep_as(target: &str) -> (r: String)
    ensures
        r@ == keep_as_spec(target@),
{
    cat("keep as ", target)
}

pub fn open_at(target: &str) -> (r: String)
    ensures
        r@ == open_at_spec(target@),
{
    cat("open it as ", target)
}

pub fn format_at(fstype: &str, target: &str) -> (r: String)
    ensures
        r@ == format_at_spec(fstype@, target@),
{
    cat4("format as ", fstype, " at ", target)
}

/// Another disk, and what becomes of it.
pub open spec fn on_disk_spec(disk: Seq<char>, how: Seq<char>) -> Seq<char> {
    disk + ", "@ + how
}

pub fn on_disk(disk: &str, how: &str) -> (r: String)
    ensures
        r@ == on_disk_spec(disk@, how@),
{
    cat3(disk, ", ", how)
}

/// What the form is still short of.
pub open spec fn still_needs_spec(missing: Seq<Seq<char>>) -> Seq<char> {
    "still needs "@ + join_spec(missing, ", "@)
}

pub fn still_needs(missing: &Vec<String>) -> (r: String)
    ensures
        r@ == still_needs_spec(crate::text::views(missing@)),
{
    let joined = join(missing, ", ");
    cat("still needs ", joined.as_str())
}

/// The question asked before a disk is erased.
pub open spec fn erasing_spec(disk: Seq<char>) -> Seq<char> {
    "everything on "@ + disk + " is about to be erased"@
}

pub fn erasing(disk: &str) -> (r: String)
    ensures
        r@ == erasing_spec(disk@),
{
    cat3("everything on ", disk, " is about to be erased")
}

/// What the automatic layout writes, row by row: the EFI system partition, a
/// separate `/boot` where the bootloader is grub2, a `/var` cut out of the
/// disk where a size was given, and the root over the rest.
pub open spec fn written_over_spec(
    bootloader: Seq<char>,
    filesystem: Seq<char>,
    size: Seq<char>,
    encrypted: bool,
) -> Seq<(Seq<char>, Seq<char>)> {
    let esp = seq![("esp"@, "2 GB  fat32"@)];
    let boot: Seq<(Seq<char>, Seq<char>)> = if bootloader == "grub2"@ {
        seq![("/boot"@, "2 GB  ext4"@)]
    } else {
        Seq::empty()
    };
    let var: Seq<(Seq<char>, Seq<char>)> = if size.len() > 0 {
        seq![("/var"@, size + "  "@ + filesystem)]
    } else {
        Seq::empty()
    };
    let root = if encrypted {
        "the rest  "@ + filesystem + ", encrypted"@
    } else {
        "the rest  "@ + filesystem
    };
    esp + boot + var + seq![("root"@, root)]
}

pub fn written_over(bootloader: &str, filesystem: &str, size: &str, encrypted: bool) -> (r: Vec<(String, String)>)
    ensures
        crate::model::asset::pair_views(r@) == written_over_spec(bootloader@, filesystem@, size@, encrypted),
{
    let mut rows: Vec<(String, String)> = Vec::new();
    rows.push((owned("esp"), owned("2 GB  fat32")));
    if crate::text::same(bootloader, "grub2") {
        rows.push((owned("/boot"), owned("2 GB  ext4")));
    }
    if size.unicode_len() > 0 {
        rows.push((owned("/var"), cat3(size, "  ", filesystem)));
    }
    if encrypted {
        rows.push((owned("root"), cat3("the rest  ", filesystem, ", encrypted")));
    } else {
        rows.push((owned("root"), cat("the rest  ", filesystem)));
    }
    proof {
        let spec = written_over_spec(bootloader@, filesystem@, size@, encrypted);
        assert(crate::model::asset::pair_views(rows@) =~= spec);
    }
    rows
}

/// The question that picks which module's key is meant.
pub open spec fn key_provider_spec(kind: Seq<char>) -> Seq<char> {
    "Which module's "@ + kind + " key?"@
}

pub fn key_provider(kind: &str) -> (r: String)
    ensures
        r@ == key_provider_spec(kind@),
{
    cat3("Which module's ", kind, " key?")
}

/// What opening a container at `target` costs.
pub open spec fn open_cost_spec(target: Seq<char>) -> Seq<char> {
    "decrypt it and mount what is inside at "@ + target
}

pub fn open_cost(target: &str) -> (r: String)
    ensures
        r@ == open_cost_spec(target@),
{
    cat("decrypt it and mount what is inside at ", target)
}

/// Why `/boot` is not the person's to place under a bootloader.
pub open spec fn custom_keep_boot_spec(bootloader: Seq<char>) -> Seq<char> {
    "with "@ + bootloader + ", /boot is laid out by the image"@
}

pub fn custom_keep_boot(bootloader: &str) -> (r: String)
    ensures
        r@ == custom_keep_boot_spec(bootloader@),
{
    cat3("with ", bootloader, ", /boot is laid out by the image")
}


pub const OPENED_TPM2_COST: &'static str = "this machine opens them without a passphrase once enrolled";
pub const OPENED_TPM2_HAS: &'static str = "a TPM2 token is already enrolled";
pub const OPENED_ADD_KEY_COST: &'static str = "a key file on the encrypted root opens them at boot";

/// One key slot as the opened row names it.
pub open spec fn slot_name(at: u32) -> Seq<char> {
    "slot "@ + crate::text::decimal_spec(at as nat)
}

/// What an opened header holds: its key slots by index, and the tokens
/// beside them.
pub open spec fn slots_said_spec(keys: Seq<u32>, tokens: Seq<Seq<char>>) -> Seq<char> {
    let slots = join_spec(keys.map_values(|k: u32| slot_name(k)), ", "@);
    if tokens.len() == 0 {
        slots
    } else {
        slots + "; tokens "@ + join_spec(tokens, ", "@)
    }
}

pub fn slots_said(keys: &Vec<u32>, tokens: &Vec<String>) -> (r: String)
    ensures
        r@ == slots_said_spec(keys@, crate::text::views(tokens@)),
{
    let mut names: Vec<String> = Vec::new();
    let mut i: usize = 0;
    while i < keys.len()
        invariant
            i <= keys@.len(),
            crate::text::views(names@) == keys@.take(i as int).map_values(|k: u32| slot_name(k)),
        decreases keys@.len() - i,
    {
        let name = cat("slot ", crate::text::decimal(keys[i] as u64).as_str());
        let ghost prior = names@;
        names.push(name);
        assert(crate::text::views(names@) =~= crate::text::views(prior).push(name@));
        assert(keys@.take(i as int + 1).map_values(|k: u32| slot_name(k)) =~= keys@.take(i as int).map_values(
            |k: u32| slot_name(k),
        ).push(slot_name(keys@[i as int])));
        i = i + 1;
    }
    assert(keys@.take(i as int) =~= keys@);
    let slots = join(&names, ", ");
    if tokens.len() == 0 {
        slots
    } else {
        cat3(slots.as_str(), "; tokens ", join(tokens, ", ").as_str())
    }
}

/// Why an opened row says nothing of a header.
pub open spec fn slots_unknown_spec(why: Seq<char>) -> Seq<char> {
    "its slots could not be read: "@ + why
}

pub fn slots_unknown(why: &str) -> (r: String)
    ensures
        r@ == slots_unknown_spec(why@),
{
    cat("its slots could not be read: ", why)
}

/// The question a `create key` with no kind puts.
pub const WHICH_KEY: &'static str = "Which key?";

/// The question for a module signing certificate's common name.
pub const KEY_CN: &'static str = "Common name for the certificate";

/// The question for the file a `set key` records.
pub const KEY_FROM: &'static str = "Path to the public half to record";

} // verus!
