//! The installer's decisions: what a payload root is, what each answer on the
//! form means, what a layout mounts and opens, and the text it writes into a
//! boot entry. Asking, drawing and touching disks are the program's.

use crate::copy;
use crate::text::{
    cat, cat3, ends_with, first_at, first_index, holds, is_digit, is_prefix, is_suffix, join,
    join_spec, lemma_first_at_unique, lines, lines_spec, owned, same, split_once, starts_with,
    strip_prefix, trim, trim_spec, views, words, words_spec,
};
use crate::ui::{field_value, Choice, Field};
use vstd::prelude::*;

verus! {

/// The document a payload root carries.
pub const RECIPE: &'static str = "install-recipe.json";

/// The label a payload partition carries, which is the whole rule for finding
/// a root nobody named.
pub const LABEL: &'static str = "TECT";

/// The encryption form that encrypts nothing.
pub const NONE: &'static str = "none";

/// The sentinel an answer carries for a container that is opened instead of
/// formatted. It is read out of an answer and never written into a recipe.
pub const OPEN: &'static str = "open";

/// The root `--from` defaults to: the directory the build's own documents
/// live in, which is where the media carries its recipe beside the manifest.
/// `manifest` is where the build writes its manifest.
pub fn media(manifest: &str) -> (r: String)
    ensures
        r@ == match crate::parent_spec(manifest@) {
            Some(p) => p,
            None => "/"@,
        },
{
    match crate::parent(manifest) {
        Some(p) => p,
        None => owned("/"),
    }
}

/// A payload: a recipe, and the fields of it a person is shown before they
/// agree to erase a disk.
pub struct Payload {
    pub recipe: String,
    /// The reference fisherman installs.
    pub image: String,
    /// The name the installed machine takes.
    pub hostname: String,
    /// The root filesystem, which the base family settles and no question
    /// offers.
    pub filesystem: String,
    /// `grub2` or `systemd`, which is what decides whether the layout has a
    /// separate `/boot` at all.
    pub bootloader: String,
    /// The declared UKI trust chain, empty for the existing boot path.
    pub boot: String,
    /// The built image proved that its initramfs carries a LUKS userspace
    /// driver.
    pub luks_initramfs: bool,
}

/// Which of the three cases a root is.
pub enum Found {
    /// Built bytes and the recipe for them: install, and no network.
    Image(Payload),
    /// A repository: the source, so it has to be built first.
    Repo(String),
    /// Neither. It keeps the root so the refusal can name where it looked.
    Nothing(String),
}

pub open spec fn repo_refusal(root: Seq<char>) -> Seq<char> {
    root + " is a repository, so there is nothing here to install yet\n\nhelp: `tect build` in it, then `tect installer --from <the built payload>`"@
}

pub open spec fn nothing_refusal(root: Seq<char>) -> Seq<char> {
    root + " holds no "@ + RECIPE@ + " and no "@ + crate::layout::REPO_FILE@
        + ", so it is neither a payload nor a repository"@
}

impl Found {
    /// The payload, or why this root has none. Asked before a person is asked
    /// for a disk to erase.
    pub fn payload(&self) -> (r: Result<&Payload, String>)
        ensures
            match *self {
                Found::Image(p) => r == Ok::<&Payload, String>(&p),
                Found::Repo(root) => r matches Err(e) && e@ == repo_refusal(root@),
                Found::Nothing(root) => r matches Err(e) && e@ == nothing_refusal(root@),
            },
    {
        match self {
            Found::Image(payload) => Ok(payload),
            Found::Repo(root) => Err(
                cat(
                    root.as_str(),
                    " is a repository, so there is nothing here to install yet\n\nhelp: `tect build` in it, then `tect installer --from <the built payload>`",
                ),
            ),
            Found::Nothing(root) => {
                let a = cat3(root.as_str(), " holds no ", RECIPE);
                let b = cat3(a.as_str(), " and no ", crate::layout::REPO_FILE);
                Err(cat(b.as_str(), ", so it is neither a payload nor a repository"))
            },
        }
    }
}

/// The non-empty lines, trimmed.
pub open spec fn trimmed_lines(ls: Seq<Seq<char>>) -> Seq<Seq<char>>
    decreases ls.len(),
{
    if ls.len() == 0 {
        Seq::empty()
    } else {
        let r = trimmed_lines(ls.drop_last());
        let t = trim_spec(ls.last());
        if t.len() > 0 {
            r.push(t)
        } else {
            r
        }
    }
}

/// The refusal of more than one labelled partition: picking wrong erases a
/// disk from the wrong image.
pub open spec fn many_labelled(devices: Seq<Seq<char>>) -> Seq<char> {
    crate::text::decimal_spec(devices.len()) + " partitions are labelled "@ + LABEL@
        + ", so which one to install from is not clear: "@ + join_spec(devices, ", "@)
        + "\n\nhelp: `tect installer --from <root>` names one outright"@
}

/// Which root to install from where no `--from` named one, from the
/// partitions labelled `TECT`: none is the media's own payload (`None`), one
/// is that partition, to be mounted, and more than one is refused.
pub fn labelled_root(devices: &Vec<String>) -> (r: Result<Option<String>, String>)
    ensures
        devices@.len() == 0 ==> r == Ok::<Option<String>, String>(None),
        devices@.len() == 1 ==> (r matches Ok(Some(d)) && d@ == devices@[0]@),
        devices@.len() > 1 ==> (r matches Err(e) && e@ == many_labelled(views(devices@))),
{
    if devices.len() == 0 {
        Ok(None)
    } else if devices.len() == 1 {
        Ok(Some(devices[0].clone()))
    } else {
        let count = crate::text::decimal(devices.len() as u64);
        let head = cat3(count.as_str(), " partitions are labelled ", LABEL);
        let listed = join(devices, ", ");
        let body = cat3(head.as_str(), ", so which one to install from is not clear: ", listed.as_str());
        Err(cat(body.as_str(), "\n\nhelp: `tect installer --from <root>` names one outright"))
    }
}

/// The devices `blkid` listed, one per line.
pub fn labelled(listed: &str) -> (r: Vec<String>)
    ensures
        views(r@) == trimmed_lines(lines_spec(listed@)),
{
    let ls = lines(listed);
    let mut out: Vec<String> = Vec::new();
    let mut i: usize = 0;
    while i < ls.len()
        invariant
            views(ls@) == lines_spec(listed@),
            i <= ls@.len(),
            views(out@) == trimmed_lines(views(ls@).take(i as int)),
        decreases ls@.len() - i,
    {
        assert(views(ls@).take(i as int + 1).drop_last() =~= views(ls@).take(i as int));
        assert(views(ls@).take(i as int + 1).last() == ls@[i as int]@);
        let t = trim(ls[i].as_str());
        if t.unicode_len() > 0 {
            let ghost prior = out@;
            out.push(t);
            assert(views(out@) =~= views(prior).push(t@));
        }
        i = i + 1;
    }
    assert(views(ls@).take(ls@.len() as int) =~= views(ls@));
    out
}

pub struct Encryption {
    pub kind: String,
    pub passphrase: String,
}

impl Encryption {
    /// The two forms named for a passphrase are the two that need one.
    pub fn wants_passphrase(kind: &str) -> (r: bool)
        ensures
            r == is_suffix("passphrase"@, kind@),
    {
        ends_with(kind, "passphrase")
    }
}

/// The four forms fisherman takes: the name it is written as, the description
/// the screen shows, and what that one costs.
pub open spec fn kinds_spec() -> Seq<(Seq<char>, Seq<char>, Seq<char>)> {
    seq![
        (NONE@, copy::ENC_NONE@, ""@),
        ("tpm2-luks"@, copy::ENC_TPM2@, copy::ENC_ANY_HOLDER@),
        ("luks-passphrase"@, copy::ENC_PASSPHRASE@, copy::ENC_ONLY_YOU@),
        ("tpm2-luks-passphrase"@, copy::ENC_BOTH@, copy::ENC_ANY_HOLDER@),
    ]
}

pub open spec fn table_view(t: Seq<(&'static str, &'static str, &'static str)>) -> Seq<(Seq<char>, Seq<char>, Seq<char>)> {
    t.map_values(|row: (&'static str, &'static str, &'static str)| (row.0@, row.1@, row.2@))
}

/// The four forms, in the order the screen offers them.
pub fn kinds_table() -> (r: Vec<(&'static str, &'static str, &'static str)>)
    ensures
        table_view(r@) == kinds_spec(),
{
    let r = vec![
        (NONE, copy::ENC_NONE, ""),
        ("tpm2-luks", copy::ENC_TPM2, copy::ENC_ANY_HOLDER),
        ("luks-passphrase", copy::ENC_PASSPHRASE, copy::ENC_ONLY_YOU),
        ("tpm2-luks-passphrase", copy::ENC_BOTH, copy::ENC_ANY_HOLDER),
    ];
    assert(table_view(r@) =~= kinds_spec());
    r
}

pub open spec fn kind_names() -> Seq<Seq<char>> {
    seq![NONE@, "tpm2-luks"@, "luks-passphrase"@, "tpm2-luks-passphrase"@]
}

/// What a kind no backend takes is refused with.
pub open spec fn unknown_kind(kind: Seq<char>) -> Seq<char> {
    "`"@ + kind + "` is not one of "@ + join_spec(kind_names(), ", "@)
}

/// A kind given by flag, as one of the four or refused by name.
pub fn named(kind: String) -> (r: Result<String, String>)
    ensures
        kind_names().contains(kind@) ==> r == Ok::<String, String>(kind),
        !kind_names().contains(kind@) ==> (r matches Err(e) && e@ == unknown_kind(kind@)),
{
    let names: Vec<String> = vec![owned(NONE), owned("tpm2-luks"), owned("luks-passphrase"), owned("tpm2-luks-passphrase")];
    assert(views(names@) =~= kind_names());
    let mut i: usize = 0;
    while i < names.len()
        invariant
            views(names@) == kind_names(),
            i <= names@.len(),
            forall|j: int| 0 <= j < i ==> kind_names()[j] != kind@,
        decreases names@.len() - i,
    {
        assert(views(names@)[i as int] == names@[i as int]@);
        if same(names[i].as_str(), kind.as_str()) {
            assert(kind_names()[i as int] == kind@);
            return Ok(kind);
        }
        i = i + 1;
    }
    proof {
        if kind_names().contains(kind@) {
            let w = choose|w: int| 0 <= w < kind_names().len() && #[trigger] kind_names()[w] == kind@;
            assert(kind_names()[w] != kind@);
        }
    }
    let listed = join(&names, ", ");
    let head = cat3("`", kind.as_str(), "` is not one of ");
    Err(cat(head.as_str(), listed.as_str()))
}

/// The name a description is written as; a label no row holds is nothing
/// chosen.
pub open spec fn written_spec(shown: Seq<char>) -> Seq<char> {
    if shown == copy::ENC_NONE@ {
        NONE@
    } else if shown == copy::ENC_TPM2@ {
        "tpm2-luks"@
    } else if shown == copy::ENC_PASSPHRASE@ {
        "luks-passphrase"@
    } else if shown == copy::ENC_BOTH@ {
        "tpm2-luks-passphrase"@
    } else {
        NONE@
    }
}

pub fn written(shown: &str) -> (r: &'static str)
    ensures
        r@ == written_spec(shown@),
{
    if same(shown, copy::ENC_NONE) {
        NONE
    } else if same(shown, copy::ENC_TPM2) {
        "tpm2-luks"
    } else if same(shown, copy::ENC_PASSPHRASE) {
        "luks-passphrase"
    } else if same(shown, copy::ENC_BOTH) {
        "tpm2-luks-passphrase"
    } else {
        NONE
    }
}

/// The description a name is shown as.
pub open spec fn shown_spec(kind: Seq<char>) -> Seq<char> {
    if kind == NONE@ {
        copy::ENC_NONE@
    } else if kind == "tpm2-luks"@ {
        copy::ENC_TPM2@
    } else if kind == "luks-passphrase"@ {
        copy::ENC_PASSPHRASE@
    } else if kind == "tpm2-luks-passphrase"@ {
        copy::ENC_BOTH@
    } else {
        copy::ENC_NONE@
    }
}

pub fn shown(kind: &str) -> (r: &'static str)
    ensures
        r@ == shown_spec(kind@),
{
    if same(kind, NONE) {
        copy::ENC_NONE
    } else if same(kind, "tpm2-luks") {
        copy::ENC_TPM2
    } else if same(kind, "luks-passphrase") {
        copy::ENC_PASSPHRASE
    } else if same(kind, "tpm2-luks-passphrase") {
        copy::ENC_BOTH
    } else {
        copy::ENC_NONE
    }
}

pub open spec fn choice_view(c: Choice) -> (Seq<char>, Seq<char>, bool) {
    (c.label@, c.detail@, c.available)
}

pub open spec fn choice_views(cs: Seq<Choice>) -> Seq<(Seq<char>, Seq<char>, bool)> {
    cs.map_values(|c: Choice| choice_view(c))
}

/// How one form is offered: refused where the image cannot open what it
/// makes, or where it needs a TPM the machine does not have.
pub open spec fn kind_row(row: (Seq<char>, Seq<char>, Seq<char>), tpm: bool, luks_initramfs: bool) -> (Seq<char>, Seq<char>, bool) {
    if row.0 != NONE@ && !luks_initramfs {
        (row.1, copy::NO_LUKS_INITRAMFS@, false)
    } else if !tpm && is_prefix("tpm2"@, row.0) {
        (row.1, copy::NO_TPM@, false)
    } else {
        (row.1, row.2, true)
    }
}

/// A `tpm2-` form on a machine with no TPM is shown and refuses the key that
/// would pick it: what it needs is the reason it is worth showing.
pub fn kinds(tpm: bool, luks_initramfs: bool) -> (r: Vec<Choice>)
    ensures
        choice_views(r@) == kinds_spec().map_values(
            |row: (Seq<char>, Seq<char>, Seq<char>)| kind_row(row, tpm, luks_initramfs),
        ),
{
    let table = kinds_table();
    let ghost want = kinds_spec().map_values(
        |row: (Seq<char>, Seq<char>, Seq<char>)| kind_row(row, tpm, luks_initramfs),
    );
    let mut out: Vec<Choice> = Vec::new();
    let mut i: usize = 0;
    while i < table.len()
        invariant
            table_view(table@) == kinds_spec(),
            i <= table@.len(),
            want == kinds_spec().map_values(
                |row: (Seq<char>, Seq<char>, Seq<char>)| kind_row(row, tpm, luks_initramfs),
            ),
            choice_views(out@) == want.take(i as int),
        decreases table@.len() - i,
    {
        let (name, label, detail) = table[i];
        assert(kinds_spec()[i as int] == (name@, label@, detail@));
        let choice = if !same(name, NONE) && !luks_initramfs {
            Choice::new(label, copy::NO_LUKS_INITRAMFS).unavailable()
        } else if !tpm && starts_with(name, "tpm2") {
            Choice::new(label, copy::NO_TPM).unavailable()
        } else {
            Choice::new(label, detail)
        };
        let ghost prior = out@;
        out.push(choice);
        assert(choice_views(out@) =~= choice_views(prior).push(choice_view(choice)));
        assert(want.take(i as int + 1) =~= want.take(i as int).push(want[i as int]));
        i = i + 1;
    }
    assert(want.take(i as int) =~= want);
    out
}

/// The GPT number of a partition device: its trailing digits.
pub open spec fn trailing_digits(s: Seq<char>) -> Seq<char>
    decreases s.len(),
{
    if s.len() > 0 && is_digit(s.last()) {
        trailing_digits(s.drop_last()).push(s.last())
    } else {
        Seq::empty()
    }
}

/// The trailing digits of `/dev/vda2`, `/dev/nvme0n1p2` and `/dev/mmcblk0p2`
/// alike.
pub fn partition_number(device: &str) -> (r: Result<String, String>)
    ensures
        trailing_digits(device@).len() > 0 ==> (r matches Ok(n) && n@ == trailing_digits(device@)),
        trailing_digits(device@).len() == 0 ==> (r matches Err(e) && e@ == device@ + " names no partition number"@),
{
    let cs = crate::text::chars_of(device);
    let mut k: usize = cs.len();
    assert(device@.take(k as int) =~= device@);
    assert(device@ + device@.skip(k as int) =~= device@);
    while k > 0 && crate::text::digit(cs[k - 1])
        invariant
            cs@ == device@,
            k <= cs@.len(),
            trailing_digits(device@) == trailing_digits(device@.take(k as int)) + device@.skip(k as int),
        decreases k,
    {
        assert(device@.take(k as int).drop_last() =~= device@.take(k as int - 1));
        assert(device@.skip(k as int - 1) =~= seq![device@[k as int - 1]] + device@.skip(k as int));
        k = k - 1;
    }
    proof {
        if k > 0 {
            assert(device@.take(k as int).last() == cs@[k as int - 1]);
        }
        assert(trailing_digits(device@.take(k as int)) =~= Seq::<char>::empty());
    }
    let n = cs.len();
    let number = crate::text::slice(device, k, n);
    assert(number@ =~= device@.skip(k as int));
    if number.unicode_len() == 0 {
        Err(cat(device, " names no partition number"))
    } else {
        Ok(number)
    }
}

/// Whether a line is a BLS options line that already carries `arg`.
pub open spec fn carries(line: Seq<char>, arg: Seq<char>) -> bool {
    is_prefix("options "@, line) && words_spec(line).contains(arg)
}

fn word_in(line: &str, arg: &str) -> (r: bool)
    ensures
        r == words_spec(line@).contains(arg@),
{
    let ws = words(line);
    let mut i: usize = 0;
    while i < ws.len()
        invariant
            views(ws@) == words_spec(line@),
            i <= ws@.len(),
            forall|j: int| 0 <= j < i ==> views(ws@)[j] != arg@,
        decreases ws@.len() - i,
    {
        assert(views(ws@)[i as int] == ws@[i as int]@);
        if same(ws[i].as_str(), arg) {
            return true;
        }
        i = i + 1;
    }
    proof {
        if words_spec(line@).contains(arg@) {
            let w = choose|w: int| 0 <= w < words_spec(line@).len() && #[trigger] words_spec(line@)[w] == arg@;
            assert(views(ws@)[w] != arg@);
        }
    }
    false
}

/// Whether the entry's options line already carries the argument.
pub fn boot_arg_named(raw: &str, arg: &str) -> (r: bool)
    ensures
        r == exists|i: int| 0 <= i < lines_spec(raw@).len() && carries(#[trigger] lines_spec(raw@)[i], arg@),
{
    let ls = lines(raw);
    let mut i: usize = 0;
    while i < ls.len()
        invariant
            views(ls@) == lines_spec(raw@),
            i <= ls@.len(),
            forall|j: int| 0 <= j < i ==> !carries(#[trigger] lines_spec(raw@)[j], arg@),
        decreases ls@.len() - i,
    {
        assert(views(ls@)[i as int] == ls@[i as int]@);
        if starts_with(ls[i].as_str(), "options ") && word_in(ls[i].as_str(), arg) {
            return true;
        }
        i = i + 1;
    }
    false
}

/// A line with the argument put on it, where it is the options line and does
/// not carry it yet.
pub open spec fn with_arg(line: Seq<char>, arg: Seq<char>) -> Seq<char> {
    if is_prefix("options "@, line) && !words_spec(line).contains(arg) {
        line + " "@ + arg
    } else {
        line
    }
}

/// The entry with the argument on its options line, and whether anything
/// changed.
pub open spec fn add_boot_arg_spec(raw: Seq<char>, arg: Seq<char>) -> (Seq<char>, bool) {
    let ls = lines_spec(raw).map_values(|l: Seq<char>| with_arg(l, arg));
    let all = if is_suffix("\n"@, raw) { ls.push(Seq::empty()) } else { ls };
    (
        join_spec(all, "\n"@),
        exists|i: int| 0 <= i < lines_spec(raw).len() && #[trigger] with_arg(lines_spec(raw)[i], arg) != lines_spec(raw)[i],
    )
}

/// One BLS entry with the argument on its options line, or the same text
/// where it is already there.
pub fn add_boot_arg(raw: &str, arg: &str) -> (r: (String, bool))
    ensures
        (r.0@, r.1) == add_boot_arg_spec(raw@, arg@),
{
    let ls = lines(raw);
    let ghost want = lines_spec(raw@).map_values(|l: Seq<char>| with_arg(l, arg@));
    let mut out: Vec<String> = Vec::new();
    let mut changed = false;
    let mut i: usize = 0;
    while i < ls.len()
        invariant
            views(ls@) == lines_spec(raw@),
            want == lines_spec(raw@).map_values(|l: Seq<char>| with_arg(l, arg@)),
            i <= ls@.len(),
            views(out@) == want.take(i as int),
            changed == exists|j: int| 0 <= j < i && #[trigger] with_arg(lines_spec(raw@)[j], arg@) != lines_spec(raw@)[j],
        decreases ls@.len() - i,
    {
        let line = ls[i].as_str();
        assert(views(ls@)[i as int] == line@);
        let ghost prior = out@;
        if starts_with(line, "options ") && !word_in(line, arg) {
            out.push(cat3(line, " ", arg));
            changed = true;
            proof {
                assert(with_arg(lines_spec(raw@)[i as int], arg@) != lines_spec(raw@)[i as int]) by {
                    reveal_strlit(" ");
                    assert(with_arg(line@, arg@).len() > line@.len());
                }
            }
        } else {
            out.push(owned(line));
            proof {
                assert(with_arg(lines_spec(raw@)[i as int], arg@) == lines_spec(raw@)[i as int]);
                if changed {
                    let j = choose|j: int| 0 <= j < i && #[trigger] with_arg(lines_spec(raw@)[j], arg@) != lines_spec(raw@)[j];
                    assert(0 <= j < i + 1);
                }
            }
        }
        assert(views(out@) =~= views(prior).push(want[i as int]));
        assert(want.take(i as int + 1) =~= want.take(i as int).push(want[i as int]));
        i = i + 1;
    }
    assert(want.take(i as int) =~= want);
    if ends_with(raw, "\n") {
        let ghost prior = out@;
        out.push(String::new());
        assert(views(out@) =~= views(prior).push(Seq::<char>::empty()));
    }
    (join(&out, "\n"), changed)
}


/// Where one partition mounts, and what it is formatted as.
#[derive(PartialEq, Debug)]
pub struct CustomMount {
    pub partition: String,
    pub target: String,
    pub fstype: String,
}

/// How a person opens a container: a passphrase typed here, or a key file
/// this live system can read. It is secret either way, so it is never drawn,
/// logged or written into a recipe.
#[derive(PartialEq)]
pub enum Key {
    Passphrase(String),
    File(String),
    /// A key read out of an old system, whose path is gone once the walk that
    /// found it unmounts.
    Data(Vec<u8>),
}

/// A key as plain values: which kind, and what it holds.
pub open spec fn key_view(k: Key) -> (int, Seq<char>, Seq<u8>) {
    match k {
        Key::Passphrase(p) => (0, p@, Seq::empty()),
        Key::File(p) => (1, p@, Seq::empty()),
        Key::Data(d) => (2, Seq::empty(), d@),
    }
}

impl Key {
    /// The same key, owned again.
    pub fn copy(&self) -> (r: Key)
        ensures
            key_view(r) == key_view(*self),
    {
        match self {
            Key::Passphrase(p) => Key::Passphrase(p.clone()),
            Key::File(p) => Key::File(p.clone()),
            Key::Data(d) => {
                let mut out: Vec<u8> = Vec::new();
                let mut i: usize = 0;
                while i < d.len()
                    invariant
                        i <= d@.len(),
                        out@ == d@.take(i as int),
                    decreases d@.len() - i,
                {
                    out.push(d[i]);
                    assert(out@ =~= d@.take(i as int + 1));
                    i = i + 1;
                }
                assert(out@ =~= d@);
                Key::Data(out)
            },
        }
    }
}

/// A container somebody asked to open, and where what is inside it mounts.
#[derive(PartialEq)]
pub struct LuksOpen {
    pub partition: String,
    pub target: String,
    pub key: Key,
}

/// One container the editor's answers name, before its key is known.
#[derive(PartialEq, Debug)]
pub struct Opening {
    pub partition: String,
    pub target: String,
}

/// What one partition's answer was: where it mounts, and how it is made ready.
#[derive(PartialEq, Debug)]
pub struct Mounted {
    pub target: String,
    pub fstype: String,
}

#[derive(PartialEq)]
pub struct CustomLayout {
    pub disk: String,
    pub mounts: Vec<CustomMount>,
    pub opens: Vec<LuksOpen>,
}

#[derive(PartialEq, Debug)]
pub struct Partition {
    pub device: String,
    pub size: String,
    pub fstype: String,
    pub label: String,
    pub parttype: String,
    /// What an old system's crypttab names the container by.
    pub uuid: String,
}

/// What one mount answer means, as its target and how it is made ready.
pub open spec fn mounted_spec(a: Seq<char>) -> Option<(Seq<char>, Seq<char>)> {
    if is_prefix("open it as "@, a) {
        Some((a.skip("open it as "@.len() as int), OPEN@))
    } else if is_prefix("keep as "@, a) {
        Some((a.skip("keep as "@.len() as int), "unformatted"@))
    } else if is_prefix("format as "@, a) {
        let rest = a.skip("format as "@.len() as int);
        if holds(rest, " at "@) {
            let i = first_index(rest, " at "@);
            Some((rest.skip(i + " at "@.len()), rest.take(i)))
        } else {
            None
        }
    } else {
        None
    }
}

pub open spec fn mounted_view(m: Option<Mounted>) -> Option<(Seq<char>, Seq<char>)> {
    match m {
        Some(m) => Some((m.target@, m.fstype@)),
        None => None,
    }
}

/// What one mount answer means, whichever of the editor's three forms it
/// takes. `leave unchanged` is not a mount and answers nothing.
pub fn mounted_answer(answer: &str) -> (r: Option<Mounted>)
    ensures
        mounted_view(r) == mounted_spec(answer@),
{
    if let Some(target) = strip_prefix(answer, "open it as ") {
        return Some(Mounted { target, fstype: owned(OPEN) });
    }
    if let Some(target) = strip_prefix(answer, "keep as ") {
        return Some(Mounted { target, fstype: owned("unformatted") });
    }
    match strip_prefix(answer, "format as ") {
        Some(rest) => match split_once(rest.as_str(), " at ") {
            Some((fstype, target)) => {
                proof {
                    let at = choose|at: int|
                        #![trigger first_at(rest@, " at "@, at)]
                        first_at(rest@, " at "@, at) && fstype@ == rest@.take(at) && target@ == rest@.skip(
                            at + " at "@.len(),
                        );
                    assert(holds(rest@, " at "@));
                    let f = first_index(rest@, " at "@);
                    assert(first_at(rest@, " at "@, f));
                    lemma_first_at_unique(rest@, " at "@, at, f);
                }
                Some(Mounted { target, fstype })
            },
            None => None,
        },
        None => None,
    }
}

/// The two halves of a layout as the editor's answers give them, over the
/// first `k` partitions: what fisherman mounts, and what has to be open first.
pub open spec fn layout_spec(parts: Seq<Partition>, answers: Seq<Seq<char>>, k: int) -> (Seq<(Seq<char>, Seq<char>, Seq<char>)>, Seq<(Seq<char>, Seq<char>)>)
    decreases k,
{
    if k <= 0 {
        (Seq::empty(), Seq::empty())
    } else {
        let (m, o) = layout_spec(parts, answers, k - 1);
        match mounted_spec(answers[k - 1]) {
            None => (m, o),
            Some((target, fstype)) => if fstype == OPEN@ {
                (m, o.push((parts[k - 1].device@, target)))
            } else {
                (m.push((parts[k - 1].device@, target, fstype)), o)
            },
        }
    }
}

pub open spec fn field_values(fields: Seq<Field>) -> Seq<Seq<char>> {
    fields.map_values(|f: Field| field_value(f))
}

pub open spec fn mount_views(ms: Seq<CustomMount>) -> Seq<(Seq<char>, Seq<char>, Seq<char>)> {
    ms.map_values(|m: CustomMount| (m.partition@, m.target@, m.fstype@))
}

pub open spec fn opening_views(os: Seq<Opening>) -> Seq<(Seq<char>, Seq<char>)> {
    os.map_values(|o: Opening| (o.partition@, o.target@))
}

pub open spec fn min(a: int, b: int) -> int {
    if a < b { a } else { b }
}

/// The two halves of a layout as the editor's answers give them: what
/// fisherman mounts, and the containers that have to be open before it can.
pub fn layout_from(partitions: &[Partition], fields: &[Field]) -> (r: (Vec<CustomMount>, Vec<Opening>))
    ensures
        (mount_views(r.0@), opening_views(r.1@)) == layout_spec(
            partitions@,
            field_values(fields@),
            min(partitions@.len() as int, fields@.len() as int),
        ),
{
    let mut mounts: Vec<CustomMount> = Vec::new();
    let mut openings: Vec<Opening> = Vec::new();
    let n = if partitions.len() < fields.len() { partitions.len() } else { fields.len() };
    let mut i: usize = 0;
    while i < n
        invariant
            n == min(partitions@.len() as int, fields@.len() as int),
            i <= n,
            (mount_views(mounts@), opening_views(openings@)) == layout_spec(partitions@, field_values(fields@), i as int),
        decreases n - i,
    {
        let value = fields[i].value();
        assert(field_values(fields@)[i as int] == value@);
        let ghost pm = mounts@;
        let ghost po = openings@;
        match mounted_answer(value.as_str()) {
            None => {},
            Some(answer) => {
                if same(answer.fstype.as_str(), OPEN) {
                    openings.push(Opening { partition: partitions[i].device.clone(), target: answer.target });
                    assert(opening_views(openings@) =~= opening_views(po).push((partitions@[i as int].device@, answer.target@)));
                } else {
                    let fstype = answer.fstype;
                    mounts.push(CustomMount { partition: partitions[i].device.clone(), target: answer.target, fstype });
                    assert(mount_views(mounts@) =~= mount_views(pm).push((partitions@[i as int].device@, answer.target@, fstype@)));
                }
            },
        }
        i = i + 1;
    }
    (mounts, openings)
}

/// The targets the answers mount at, in order.
pub open spec fn answer_targets(answers: Seq<Seq<char>>) -> Seq<Seq<char>>
    decreases answers.len(),
{
    if answers.len() == 0 {
        Seq::empty()
    } else {
        let r = answer_targets(answers.drop_last());
        match mounted_spec(answers.last()) {
            Some((target, _)) => r.push(target),
            None => r,
        }
    }
}

/// What a custom layout is short of: a root, and no two partitions at one
/// place.
pub open spec fn layout_short_spec(answers: Seq<Seq<char>>) -> Option<Seq<char>> {
    let targets = answer_targets(answers);
    if !targets.contains("/"@) {
        Some(copy::CUSTOM_ROOT@)
    } else if !targets.no_duplicates() {
        Some(copy::CUSTOM_DUPLICATE@)
    } else {
        None
    }
}

pub open spec fn string_opt_view(o: Option<String>) -> Option<Seq<char>> {
    match o {
        Some(s) => Some(s@),
        None => None,
    }
}

pub fn layout_short_of(fields: &[Field]) -> (r: Option<String>)
    ensures
        string_opt_view(r) == layout_short_spec(field_values(fields@)),
{
    let mut targets: Vec<String> = Vec::new();
    let mut i: usize = 0;
    while i < fields.len()
        invariant
            i <= fields@.len(),
            views(targets@) == answer_targets(field_values(fields@).take(i as int)),
        decreases fields@.len() - i,
    {
        let value = fields[i].value();
        assert(field_values(fields@).take(i as int + 1).drop_last() =~= field_values(fields@).take(i as int));
        assert(field_values(fields@).take(i as int + 1).last() == value@);
        match mounted_answer(value.as_str()) {
            Some(m) => {
                let ghost prior = targets@;
                targets.push(m.target);
                assert(views(targets@) =~= views(prior).push(targets@[targets@.len() - 1]@));
            },
            None => {},
        }
        i = i + 1;
    }
    assert(field_values(fields@).take(i as int) =~= field_values(fields@));
    let ghost ts = views(targets@);
    let mut has_root = false;
    let mut k: usize = 0;
    while k < targets.len()
        invariant
            ts == views(targets@),
            ts == answer_targets(field_values(fields@)),
            k <= targets@.len(),
            has_root == exists|j: int| 0 <= j < k && ts[j] == "/"@,
        decreases targets@.len() - k,
    {
        assert(ts[k as int] == targets@[k as int]@);
        if same(targets[k].as_str(), "/") {
            has_root = true;
        }
        k = k + 1;
    }
    if !has_root {
        proof {
            if ts.contains("/"@) {
                let w = choose|w: int| 0 <= w < ts.len() && #[trigger] ts[w] == "/"@;
                assert(ts[w] == "/"@);
            }
        }
        return Some(owned(copy::CUSTOM_ROOT));
    }
    proof {
        let w = choose|w: int| 0 <= w < k && ts[w] == "/"@;
        assert(ts[w] == "/"@);
        assert(ts.contains("/"@));
    }
    let mut at: usize = 0;
    while at < targets.len()
        invariant
            ts == views(targets@),
            at <= targets@.len(),
            ts == answer_targets(field_values(fields@)),
            ts.contains("/"@),
            forall|a: int, b: int| 0 <= a < b < at ==> ts[a] != ts[b],
        decreases targets@.len() - at,
    {
        let mut j: usize = 0;
        while j < at
            invariant
                ts == views(targets@),
                ts == answer_targets(field_values(fields@)),
                ts.contains("/"@),
                j <= at < targets@.len(),
                forall|a: int| 0 <= a < j ==> ts[a] != ts[at as int],
            decreases at - j,
        {
            assert(ts[j as int] == targets@[j as int]@);
            assert(ts[at as int] == targets@[at as int]@);
            if same(targets[j].as_str(), targets[at].as_str()) {
                proof {
                    assert(!ts.no_duplicates()) by {
                        assert(ts[j as int] == ts[at as int]);
                    }
                }
                return Some(owned(copy::CUSTOM_DUPLICATE));
            }
            j = j + 1;
        }
        at = at + 1;
    }
    proof {
        assert forall|a: int, b: int| 0 <= a < ts.len() && 0 <= b < ts.len() && a != b implies ts[a] != ts[b] by {
            if a < b {
                assert(ts[a] != ts[b]);
            } else {
                assert(ts[b] != ts[a]);
            }
        }
    }
    None
}

/// Whether a key can be used by the machine this layout installs. A key file
/// for a data volume is read at boot from the installed root, so it needs an
/// encrypted root; a passphrase is asked for at boot and lands nowhere.
pub fn usable_key(key: &Key, encrypted_root: bool) -> (r: bool)
    ensures
        r == (encrypted_root || key is Passphrase),
{
    encrypted_root || match key {
        Key::Passphrase(_) => true,
        _ => false,
    }
}

/// The two ways a container opens, and what each one costs the person. A key
/// file is drawn unpickable, with the reason, where `refused` says why.
pub fn key_methods(refused: Option<&str>) -> (r: Vec<Choice>)
    ensures
        r@.len() == 2,
        choice_view(r@[0]) == (copy::KEY_PASSPHRASE@, copy::KEY_PASSPHRASE_COST@, true),
        match refused {
            Some(why) => choice_view(r@[1]) == (copy::KEY_FILE@, why@, false),
            None => choice_view(r@[1]) == (copy::KEY_FILE@, copy::KEY_FILE_COST@, true),
        },
{
    let second = match refused {
        Some(why) => Choice::new(copy::KEY_FILE, why).unavailable(),
        None => Choice::new(copy::KEY_FILE, copy::KEY_FILE_COST),
    };
    vec![Choice::new(copy::KEY_PASSPHRASE, copy::KEY_PASSPHRASE_COST), second]
}

/// One of the two keys is asked for, never both.
pub fn key_asked(method: &str) -> (r: Vec<usize>)
    ensures
        method@ == copy::KEY_FILE@ ==> r@ == seq![0usize, 2usize],
        method@ != copy::KEY_FILE@ ==> r@ == seq![0usize, 1usize],
{
    if same(method, copy::KEY_FILE) {
        let r = vec![0, 2];
        assert(r@ =~= seq![0usize, 2usize]);
        r
    } else {
        let r = vec![0, 1];
        assert(r@ =~= seq![0usize, 1usize]);
        r
    }
}

/// The key the answers give: the file where the method is a key file, the
/// passphrase otherwise.
pub fn key_of(method: &str, passphrase: &str, path: &str) -> (r: Key)
    ensures
        method@ == copy::KEY_FILE@ ==> (r matches Key::File(p) && p@ == path@),
        method@ != copy::KEY_FILE@ ==> (r matches Key::Passphrase(p) && p@ == passphrase@),
{
    if same(method, copy::KEY_FILE) {
        Key::File(owned(path))
    } else {
        Key::Passphrase(owned(passphrase))
    }
}

/// What an old system's key opens, and where the old system mounted it.
pub struct OldKey {
    /// The mount point the old fstab gives it, empty where it says nothing.
    pub target: String,
    /// The key itself, proved against the container.
    pub key: Key,
}

/// What looking for the old system's keys came back with: the key proved for
/// each container, and for the rest what stopped the walk.
pub struct Discovered {
    pub found: Vec<(String, OldKey)>,
    pub why: Vec<(String, String)>,
}

pub open spec fn found_devices(found: Seq<(String, OldKey)>) -> Seq<Seq<char>> {
    found.map_values(|f: (String, OldKey)| f.0@)
}

pub open spec fn why_devices(why: Seq<(String, String)>) -> Seq<Seq<char>> {
    why.map_values(|w: (String, String)| w.0@)
}

impl Discovered {
    /// Nothing found, and nothing to say about it.
    pub fn default() -> (r: Discovered)
        ensures
            r.found@.len() == 0,
            r.why@.len() == 0,
    {
        Discovered { found: Vec::new(), why: Vec::new() }
    }

    /// The key the old system holds for one container.
    pub fn key(&self, partition: &str) -> (r: Option<&Key>)
        ensures
            match crate::text::position(found_devices(self.found@), partition@) {
                Some(i) => r == Some(&self.found@[i].1.key),
                None => r is None,
            },
    {
        let mut i: usize = 0;
        while i < self.found.len()
            invariant
                i <= self.found@.len(),
                forall|j: int| 0 <= j < i ==> found_devices(self.found@)[j] != partition@,
            decreases self.found@.len() - i,
        {
            if same(self.found[i].0.as_str(), partition) {
                proof {
                    crate::text::lemma_position(found_devices(self.found@), partition@, i as int);
                }
                return Some(&self.found[i].1.key);
            }
            i = i + 1;
        }
        proof {
            crate::text::lemma_position(found_devices(self.found@), partition@, i as int);
        }
        None
    }

    /// What stopped the walk for one container.
    pub fn why(&self, partition: &str) -> (r: Option<&str>)
        ensures
            match crate::text::position(why_devices(self.why@), partition@) {
                Some(i) => r matches Some(w) && w@ == self.why@[i].1@,
                None => r is None,
            },
    {
        let mut i: usize = 0;
        while i < self.why.len()
            invariant
                i <= self.why@.len(),
                forall|j: int| 0 <= j < i ==> why_devices(self.why@)[j] != partition@,
            decreases self.why@.len() - i,
        {
            if same(self.why[i].0.as_str(), partition) {
                proof {
                    crate::text::lemma_position(why_devices(self.why@), partition@, i as int);
                }
                return Some(self.why[i].1.as_str());
            }
            i = i + 1;
        }
        proof {
            crate::text::lemma_position(why_devices(self.why@), partition@, i as int);
        }
        None
    }
}


/// What the person chose on the row that replaces the encryption kinds once
/// the layout opens a container.
#[derive(Clone, Copy, PartialEq, Eq, Structural, Debug)]
pub enum Opened {
    /// What the header already holds.
    Keep,
    /// A first-boot enrollment adds a TPM2 token to every opened container.
    Tpm2,
    /// A data volume that would ask for a passphrase at every boot instead
    /// gets a key file added to its header.
    AddKey,
}

pub open spec fn opened_of(shown: Seq<char>) -> Opened {
    if shown == copy::OPENED_TPM2@ {
        Opened::Tpm2
    } else if shown == copy::OPENED_ADD_KEY@ {
        Opened::AddKey
    } else {
        Opened::Keep
    }
}

pub open spec fn opened_label(o: Opened) -> Seq<char> {
    match o {
        Opened::Keep => copy::OPENED_KEEP@,
        Opened::Tpm2 => copy::OPENED_TPM2@,
        Opened::AddKey => copy::OPENED_ADD_KEY@,
    }
}

impl Opened {
    pub fn of(shown: &str) -> (r: Opened)
        ensures
            r == opened_of(shown@),
    {
        if same(shown, copy::OPENED_TPM2) {
            Opened::Tpm2
        } else if same(shown, copy::OPENED_ADD_KEY) {
            Opened::AddKey
        } else {
            Opened::Keep
        }
    }

    pub fn label(self) -> (r: &'static str)
        ensures
            r@ == opened_label(self),
    {
        match self {
            Opened::Keep => copy::OPENED_KEEP,
            Opened::Tpm2 => copy::OPENED_TPM2,
            Opened::AddKey => copy::OPENED_ADD_KEY,
        }
    }
}

/// How the installed machine opens one container it did not re-key.
pub open spec fn at_boot_spec(target: Seq<char>, key: Key, opened: Opened) -> Seq<char> {
    if opened == Opened::Tpm2 {
        copy::BOOT_TPM2@
    } else if target == "/"@ {
        if key is Passphrase {
            copy::BOOT_PASSPHRASE@
        } else {
            copy::OPENED_ROOT_KEYFILE@
        }
    } else if key is Passphrase {
        if opened == Opened::AddKey {
            copy::BOOT_ADDED_KEY@
        } else {
            copy::BOOT_PASSPHRASE@
        }
    } else {
        copy::BOOT_KEYFILE@
    }
}

/// The ladder, taken from the top: the keyfile the old system holds is
/// carried to the new root, a passphrase is asked for at boot, and a key added
/// here is what a data volume gets instead when the person wants it
/// unattended.
pub fn at_boot(open: &LuksOpen, opened: Opened) -> (r: &'static str)
    ensures
        r@ == at_boot_spec(open.target@, open.key, opened),
{
    if opened == Opened::Tpm2 {
        return copy::BOOT_TPM2;
    }
    let passphrase = match open.key {
        Key::Passphrase(_) => true,
        _ => false,
    };
    if same(open.target.as_str(), "/") {
        return if passphrase { copy::BOOT_PASSPHRASE } else { copy::OPENED_ROOT_KEYFILE };
    }
    if passphrase {
        if opened == Opened::AddKey {
            copy::BOOT_ADDED_KEY
        } else {
            copy::BOOT_PASSPHRASE
        }
    } else {
        copy::BOOT_KEYFILE
    }
}

pub open spec fn open_targets(opens: Seq<LuksOpen>) -> Seq<Seq<char>> {
    opens.map_values(|o: LuksOpen| o.target@)
}

/// The mapper name the container opened `at`-th gets.
pub open spec fn mapper_name(at: int) -> Seq<char> {
    "tect-"@ + crate::text::decimal_spec((at + 1) as nat)
}

impl CustomLayout {
    /// Whether a container this layout opens is the root.
    pub fn opens_the_root(&self) -> (r: bool)
        ensures
            r == open_targets(self.opens@).contains("/"@),
    {
        let mut i: usize = 0;
        while i < self.opens.len()
            invariant
                i <= self.opens@.len(),
                forall|j: int| 0 <= j < i ==> open_targets(self.opens@)[j] != "/"@,
            decreases self.opens@.len() - i,
        {
            if same(self.opens[i].target.as_str(), "/") {
                assert(open_targets(self.opens@)[i as int] == "/"@);
                return true;
            }
            i = i + 1;
        }
        proof {
            if open_targets(self.opens@).contains("/"@) {
                let w = choose|w: int| 0 <= w < open_targets(self.opens@).len() && #[trigger] open_targets(self.opens@)[w] == "/"@;
                assert(open_targets(self.opens@)[w] != "/"@);
            }
        }
        false
    }

    /// The mapper name each opened container gets, in the order they are
    /// opened: `cryptsetup` takes the bare name and fisherman the path.
    pub fn mappers(&self) -> (r: Vec<(String, &LuksOpen)>)
        ensures
            r@.len() == self.opens@.len(),
            forall|i: int| 0 <= i < r@.len() ==> (#[trigger] r@[i]).0@ == mapper_name(i) && *r@[i].1 == self.opens@[i],
    {
        let mut out: Vec<(String, &LuksOpen)> = Vec::new();
        let mut i: usize = 0;
        while i < self.opens.len()
            invariant
                i <= self.opens@.len(),
                out@.len() == i,
                forall|j: int| 0 <= j < i ==> (#[trigger] out@[j]).0@ == mapper_name(j) && *out@[j].1 == self.opens@[j],
            decreases self.opens@.len() - i,
        {
            let number = crate::text::decimal((i + 1) as u64);
            out.push((cat("tect-", number.as_str()), &self.opens[i]));
            i = i + 1;
        }
        out
    }

    /// What a partition's answer already was, for the editor opened a second
    /// time: an answer that is still there keeps what it carried.
    pub fn answer(&self, partition: &Partition) -> (r: Option<Mounted>)
        ensures
            mounted_view(r) == layout_answer(*self, partition.device@),
    {
        let mut i: usize = 0;
        while i < self.mounts.len()
            invariant
                i <= self.mounts@.len(),
                forall|j: int| 0 <= j < i ==> mount_partitions(self.mounts@)[j] != partition.device@,
            decreases self.mounts@.len() - i,
        {
            if same(self.mounts[i].partition.as_str(), partition.device.as_str()) {
                proof {
                    crate::text::lemma_position(mount_partitions(self.mounts@), partition.device@, i as int);
                }
                return Some(Mounted { target: self.mounts[i].target.clone(), fstype: self.mounts[i].fstype.clone() });
            }
            i = i + 1;
        }
        proof {
            crate::text::lemma_position(mount_partitions(self.mounts@), partition.device@, i as int);
        }
        let mut k: usize = 0;
        while k < self.opens.len()
            invariant
                k <= self.opens@.len(),
                crate::text::position(mount_partitions(self.mounts@), partition.device@) is None,
                forall|j: int| 0 <= j < k ==> open_partitions(self.opens@)[j] != partition.device@,
            decreases self.opens@.len() - k,
        {
            if same(self.opens[k].partition.as_str(), partition.device.as_str()) {
                proof {
                    crate::text::lemma_position(open_partitions(self.opens@), partition.device@, k as int);
                }
                return Some(Mounted { target: self.opens[k].target.clone(), fstype: owned(OPEN) });
            }
            k = k + 1;
        }
        proof {
            crate::text::lemma_position(open_partitions(self.opens@), partition.device@, k as int);
        }
        None
    }
}

pub open spec fn mount_partitions(ms: Seq<CustomMount>) -> Seq<Seq<char>> {
    ms.map_values(|m: CustomMount| m.partition@)
}

pub open spec fn open_partitions(os: Seq<LuksOpen>) -> Seq<Seq<char>> {
    os.map_values(|o: LuksOpen| o.partition@)
}

/// What a layout already answered for a partition: its mount, else its
/// opening.
pub open spec fn layout_answer(layout: CustomLayout, device: Seq<char>) -> Option<(Seq<char>, Seq<char>)> {
    match crate::text::position(mount_partitions(layout.mounts@), device) {
        Some(i) => Some((layout.mounts@[i].target@, layout.mounts@[i].fstype@)),
        None => match crate::text::position(open_partitions(layout.opens@), device) {
            Some(i) => Some((layout.opens@[i].target@, OPEN@)),
            None => None,
        },
    }
}

/// Where an opened container appears once it is open.
pub fn mapper_path(name: &str) -> (r: String)
    ensures
        r@ == "/dev/mapper/"@ + name@,
{
    cat("/dev/mapper/", name)
}

/// `s` with each `/` a `-`, once the leading ones are gone.
pub fn crypttab_name(target: &str) -> (r: String)
    ensures
        r@ == crate::text::swap_char(crate::layout::trim_start_char(target@, '/'), '/', '-'),
{
    let trimmed = crate::layout::trim_start_char_exec(target, '/');
    crate::text::replace_char(trimmed.as_str(), '/', '-')
}

/// Whether a filesystem type is FAT.
pub fn is_fat(fstype: &str) -> (r: bool)
    ensures
        r == (fstype@ == "vfat"@ || fstype@ == "fat"@ || fstype@ == "fat32"@),
{
    same(fstype, "vfat") || same(fstype, "fat") || same(fstype, "fat32")
}

/// The parts of a partition a row shows, the empty ones left out, two spaces
/// apart.
pub open spec fn partition_label_spec(p: Partition) -> Seq<char> {
    join_spec(
        seq![p.device@, p.size@, p.fstype@, p.label@].filter(|s: Seq<char>| s.len() > 0),
        "  "@,
    )
}

pub fn partition_label(partition: &Partition) -> (r: String)
    ensures
        r@ == partition_label_spec(*partition),
{
    let ghost parts = seq![partition.device@, partition.size@, partition.fstype@, partition.label@];
    let mut kept: Vec<String> = Vec::new();
    if partition.device.unicode_len() > 0 {
        kept.push(partition.device.clone());
    }
    if partition.size.unicode_len() > 0 {
        kept.push(partition.size.clone());
    }
    if partition.fstype.unicode_len() > 0 {
        kept.push(partition.fstype.clone());
    }
    if partition.label.unicode_len() > 0 {
        kept.push(partition.label.clone());
    }
    proof {
        let pred = |s: Seq<char>| s.len() > 0;
        reveal_with_fuel(Seq::filter, 5);
        assert(parts.drop_last().drop_last().drop_last().drop_last() =~= Seq::<Seq<char>>::empty());
        assert(parts.drop_last().drop_last().drop_last() =~= seq![partition.device@]);
        assert(parts.drop_last().drop_last() =~= seq![partition.device@, partition.size@]);
        assert(parts.drop_last() =~= seq![partition.device@, partition.size@, partition.fstype@]);
        assert(views(kept@) =~= parts.filter(pred));
    }
    join(&kept, "  ")
}

/// Where `/home` goes: a partition cut out of the install disk, a whole disk
/// of its own, or neither.
pub struct Data {
    /// The whole disk, empty where `/var` is not one.
    pub disk: String,
    /// What to cut out of the install disk, empty where none is.
    pub size: String,
    /// Mount the disk as it is. Off formats it, which erases a second disk.
    pub keep: bool,
}

impl Data {
    /// `/var` going nowhere.
    pub fn default() -> (r: Data)
        ensures
            r.disk@.len() == 0,
            r.size@.len() == 0,
            !r.keep,
    {
        Data { disk: String::new(), size: String::new(), keep: false }
    }

    /// Whether `/var` is going anywhere at all.
    pub fn wanted(&self) -> (r: bool)
        ensures
            r == (self.disk@.len() > 0 || self.size@.len() > 0),
    {
        self.disk.unicode_len() > 0 || self.size.unicode_len() > 0
    }
}

/// The answer the `/var` row holds, read back off its own label.
pub open spec fn chose_spec(shown: Seq<char>, size: Seq<char>) -> (Seq<char>, Seq<char>, bool) {
    if shown == copy::DATA_HERE@ {
        (Seq::empty(), size, false)
    } else if is_suffix(", "@ + copy::DATA_KEPT@, shown) {
        (shown.take(shown.len() - (", "@ + copy::DATA_KEPT@).len()), Seq::empty(), true)
    } else if is_suffix(", "@ + copy::DATA_ERASED@, shown) {
        (shown.take(shown.len() - (", "@ + copy::DATA_ERASED@).len()), Seq::empty(), false)
    } else {
        (Seq::empty(), Seq::empty(), false)
    }
}

pub open spec fn data_view(d: Data) -> (Seq<char>, Seq<char>, bool) {
    (d.disk@, d.size@, d.keep)
}

pub fn chose(shown: &str, size: &str) -> (r: Data)
    ensures
        data_view(r) == chose_spec(shown@, size@),
{
    if same(shown, copy::DATA_HERE) {
        return Data { disk: String::new(), size: owned(size), keep: false };
    }
    let kept = cat(", ", copy::DATA_KEPT);
    if let Some(disk) = crate::text::strip_suffix(shown, kept.as_str()) {
        return Data { disk, size: String::new(), keep: true };
    }
    let erased = cat(", ", copy::DATA_ERASED);
    if let Some(disk) = crate::text::strip_suffix(shown, erased.as_str()) {
        return Data { disk, size: String::new(), keep: false };
    }
    Data::default()
}

/// What the summary says the `/var` answer was.
pub open spec fn data_said_spec(d: Data, encrypted: bool) -> Seq<char> {
    let said = if d.disk@.len() == 0 && d.size@.len() == 0 {
        copy::NONE@
    } else if d.disk@.len() == 0 {
        copy::DATA_HERE@
    } else {
        copy::on_disk_spec(d.disk@, if d.keep { copy::DATA_KEPT@ } else { copy::DATA_ERASED@ })
    };
    if encrypted && (d.disk@.len() > 0 || d.size@.len() > 0) {
        said + ", "@ + copy::DATA_ENCRYPTED@
    } else {
        said
    }
}

pub fn data_said(data: &Data, encrypted: bool) -> (r: String)
    ensures
        r@ == data_said_spec(*data, encrypted),
{
    let said = if data.disk.unicode_len() == 0 && data.size.unicode_len() == 0 {
        owned(copy::NONE)
    } else if data.disk.unicode_len() == 0 {
        owned(copy::DATA_HERE)
    } else {
        copy::on_disk(data.disk.as_str(), if data.keep { copy::DATA_KEPT } else { copy::DATA_ERASED })
    };
    if encrypted && data.wanted() {
        cat3(said.as_str(), ", ", copy::DATA_ENCRYPTED)
    } else {
        said
    }
}

/// The form's rows, by position.
pub const ROW_DISK: usize = 0;
pub const ROW_LAYOUT: usize = 1;
pub const ROW_HOSTNAME: usize = 2;
pub const ROW_ACCOUNT: usize = 3;
pub const ROW_PASSWORD: usize = 4;
pub const ROW_CONFIRM: usize = 5;
pub const ROW_ENCRYPTION: usize = 6;
pub const ROW_PASSPHRASE: usize = 7;
pub const ROW_DATA: usize = 8;
pub const ROW_SIZE: usize = 9;

/// Whether row `row` of the form is a question.
pub open spec fn is_asked(row: int, wants: bool, sized: bool, custom: bool) -> bool {
    &&& (row != ROW_PASSPHRASE || wants)
    &&& (!custom || (row != ROW_DATA && row != ROW_SIZE))
    &&& (custom || row != ROW_SIZE || sized)
}

/// The rows below `k` that are questions, ascending.
pub open spec fn asked_below(k: int, wants: bool, sized: bool, custom: bool) -> Seq<usize>
    decreases k,
{
    if k <= 0 {
        Seq::empty()
    } else {
        let r = asked_below(k - 1, wants, sized, custom);
        if is_asked(k - 1, wants, sized, custom) {
            r.push((k - 1) as usize)
        } else {
            r
        }
    }
}

/// Which rows are questions. The passphrase is one only for the two
/// encryption forms named for one, and the size only where `/var` is cut out
/// of this disk.
pub fn asked(fields: &[Field], custom: bool) -> (r: Vec<usize>)
    requires
        fields@.len() > ROW_SIZE,
    ensures
        r@ == asked_below(
            fields@.len() as int,
            is_suffix("passphrase"@, written_spec(field_value(fields@[ROW_ENCRYPTION as int]))),
            field_value(fields@[ROW_DATA as int]) == copy::DATA_HERE@,
            custom,
        ),
{
    let enc = fields[ROW_ENCRYPTION].value();
    let wants = Encryption::wants_passphrase(written(enc.as_str()));
    let data = fields[ROW_DATA].value();
    let sized = same(data.as_str(), copy::DATA_HERE);
    let mut out: Vec<usize> = Vec::new();
    let mut row: usize = 0;
    while row < fields.len()
        invariant
            row <= fields@.len(),
            out@ == asked_below(row as int, wants, sized, custom),
        decreases fields@.len() - row,
    {
        if (row != ROW_PASSPHRASE || wants) && (!custom || (row != ROW_DATA && row != ROW_SIZE)) && (custom
            || row != ROW_SIZE || sized) {
            out.push(row);
        }
        row = row + 1;
    }
    out
}


/// What the flags gave, which the first pass reads and a re-ask does not: a
/// field asked again opens on the answer it has, not on the flag that seeded
/// it.
#[derive(Default)]
pub struct Given {
    pub disk: Option<String>,
    pub hostname: Option<String>,
    pub user: Option<String>,
    pub password: Option<String>,
    pub encryption: Option<String>,
    pub passphrase: Option<String>,
}

/// The person's half, which nothing derives and no flag defaults.
pub struct Answers {
    pub disk: String,
    pub hostname: String,
    pub user: String,
    pub password: String,
    pub encryption: Encryption,
    pub data: Data,
    pub layout: Option<CustomLayout>,
    /// What the row replacing the encryption kinds answered, once the layout
    /// opens a container.
    pub opened: Opened,
}

/// The row a kept or formatted mount shows as.
pub open spec fn mount_row(m: CustomMount) -> (Seq<char>, Seq<char>) {
    if m.fstype@ == "unformatted"@ {
        (m.target@, m.partition@ + "  kept"@)
    } else {
        (m.target@, m.partition@ + "  format as "@ + m.fstype@)
    }
}

/// The row an opened container shows as: which partition, and how the
/// installed machine opens it.
pub open spec fn open_row(o: LuksOpen, opened: Opened) -> (Seq<char>, Seq<char>) {
    (o.target@, o.partition@ + "  opened; "@ + at_boot_spec(o.target@, o.key, opened))
}

/// What the confirmation is asked over.
pub open spec fn summary_spec(a: Answers, p: Payload) -> Seq<(Seq<char>, Seq<char>)> {
    let encrypted = a.encryption.kind@ != NONE@;
    let head = seq![
        (copy::ROW_DISK@, a.disk@),
        (copy::ROW_HOSTNAME@, a.hostname@),
        (copy::ROW_ACCOUNT@, a.user@),
        (copy::ROW_PASSWORD@, copy::PASSWORD_SET@),
        (copy::ROW_ENCRYPTION@, shown_spec(a.encryption.kind@)),
    ];
    match a.layout {
        None => head.push((copy::ROW_DATA@, data_said_spec(a.data, encrypted))) + copy::written_over_spec(
            p.bootloader@,
            p.filesystem@,
            a.data.size@,
            encrypted,
        ),
        Some(layout) => {
            let chain: Seq<(Seq<char>, Seq<char>)> = if p.boot@.len() > 0 {
                seq![("boot chain"@, p.boot@)]
            } else {
                Seq::empty()
            };
            head + layout.mounts@.map_values(|m: CustomMount| mount_row(m)) + layout.opens@.map_values(
                |o: LuksOpen| open_row(o, a.opened),
            ) + chain
        },
    }
}

impl Answers {
    /// What the confirmation is asked over: the answers, with the password as
    /// the one value that cannot read back as itself, and what the disk is
    /// about to be cut into.
    pub fn summary(&self, payload: &Payload) -> (r: Vec<(String, String)>)
        ensures
            crate::model::asset::pair_views(r@) == summary_spec(*self, *payload),
    {
        let encrypted = !same(self.encryption.kind.as_str(), NONE);
        let mut rows: Vec<(String, String)> = Vec::new();
        rows.push((owned(copy::ROW_DISK), self.disk.clone()));
        rows.push((owned(copy::ROW_HOSTNAME), self.hostname.clone()));
        rows.push((owned(copy::ROW_ACCOUNT), self.user.clone()));
        rows.push((owned(copy::ROW_PASSWORD), owned(copy::PASSWORD_SET)));
        rows.push((owned(copy::ROW_ENCRYPTION), owned(shown(self.encryption.kind.as_str()))));
        let ghost head = crate::model::asset::pair_views(rows@);
        match &self.layout {
            None => {
                rows.push((owned(copy::ROW_DATA), data_said(&self.data, encrypted)));
                let ghost with_data = crate::model::asset::pair_views(rows@);
                let over = copy::written_over(
                    payload.bootloader.as_str(),
                    payload.filesystem.as_str(),
                    self.data.size.as_str(),
                    encrypted,
                );
                let mut k: usize = 0;
                while k < over.len()
                    invariant
                        k <= over@.len(),
                        crate::model::asset::pair_views(rows@) == with_data + crate::model::asset::pair_views(
                            over@,
                        ).take(k as int),
                    decreases over@.len() - k,
                {
                    let ghost prior = rows@;
                    rows.push((over[k].0.clone(), over[k].1.clone()));
                    assert(crate::model::asset::pair_views(rows@) =~= crate::model::asset::pair_views(prior).push(
                        (over@[k as int].0@, over@[k as int].1@),
                    ));
                    assert(crate::model::asset::pair_views(over@).take(k as int + 1) =~= crate::model::asset::pair_views(
                        over@,
                    ).take(k as int).push((over@[k as int].0@, over@[k as int].1@)));
                    k = k + 1;
                }
                assert(crate::model::asset::pair_views(over@).take(k as int) =~= crate::model::asset::pair_views(
                    over@,
                ));
                assert(crate::model::asset::pair_views(rows@) =~= summary_spec(*self, *payload));
            },
            Some(layout) => {
                let ghost mounts = layout.mounts@.map_values(|m: CustomMount| mount_row(m));
                let mut k: usize = 0;
                while k < layout.mounts.len()
                    invariant
                        k <= layout.mounts@.len(),
                        mounts == layout.mounts@.map_values(|m: CustomMount| mount_row(m)),
                        crate::model::asset::pair_views(rows@) == head + mounts.take(k as int),
                    decreases layout.mounts@.len() - k,
                {
                    let m = &layout.mounts[k];
                    let how = if same(m.fstype.as_str(), "unformatted") {
                        cat(m.partition.as_str(), "  kept")
                    } else {
                        cat3(m.partition.as_str(), "  format as ", m.fstype.as_str())
                    };
                    let ghost prior = rows@;
                    rows.push((m.target.clone(), how));
                    assert(crate::model::asset::pair_views(rows@) =~= crate::model::asset::pair_views(prior).push(
                        mount_row(*m),
                    ));
                    assert(mounts.take(k as int + 1) =~= mounts.take(k as int).push(mounts[k as int]));
                    k = k + 1;
                }
                assert(mounts.take(k as int) =~= mounts);
                let ghost opens = layout.opens@.map_values(|o: LuksOpen| open_row(o, self.opened));
                let mut k: usize = 0;
                while k < layout.opens.len()
                    invariant
                        k <= layout.opens@.len(),
                        opens == layout.opens@.map_values(|o: LuksOpen| open_row(o, self.opened)),
                        crate::model::asset::pair_views(rows@) == head + mounts + opens.take(k as int),
                    decreases layout.opens@.len() - k,
                {
                    let o = &layout.opens[k];
                    let how = cat3(o.partition.as_str(), "  opened; ", at_boot(o, self.opened));
                    let ghost prior = rows@;
                    rows.push((o.target.clone(), how));
                    assert(crate::model::asset::pair_views(rows@) =~= crate::model::asset::pair_views(prior).push(
                        open_row(*o, self.opened),
                    ));
                    assert(opens.take(k as int + 1) =~= opens.take(k as int).push(opens[k as int]));
                    k = k + 1;
                }
                assert(opens.take(k as int) =~= opens);
                let ghost before_chain = rows@;
                if payload.boot.unicode_len() > 0 {
                    rows.push((owned("boot chain"), payload.boot.clone()));
                    assert(crate::model::asset::pair_views(rows@) =~= crate::model::asset::pair_views(before_chain).push(
                        ("boot chain"@, payload.boot@),
                    ));
                } else {
                    assert(crate::model::asset::pair_views(rows@) =~= crate::model::asset::pair_views(before_chain) + Seq::<(Seq<char>, Seq<char>)>::empty());
                }
                assert(crate::model::asset::pair_views(rows@) =~= summary_spec(*self, *payload));
            },
        }
        rows
    }
}

/// The key a container already has: the one the held layout carries for the
/// same partition and target.
pub open spec fn held_key(held: Option<CustomLayout>, o: Opening) -> Option<Key> {
    match held {
        Some(layout) => match crate::text::first_true(same_opening(layout.opens@, o)) {
            Some(i) => Some(layout.opens@[i].key),
            None => None,
        },
        None => None,
    }
}

/// Which of the held openings are for the same partition and target.
pub open spec fn same_opening(opens: Seq<LuksOpen>, o: Opening) -> Seq<bool> {
    opens.map_values(|l: LuksOpen| l.partition@ == o.partition@ && l.target@ == o.target@)
}

/// Whether an opening's key can be used where the root is or is not
/// encrypted: the root's own key always, another's where it is a passphrase
/// or the root is encrypted.
pub open spec fn usable_for(o: Opening, key: Key, encrypted_root: bool) -> bool {
    o.target@ == "/"@ || encrypted_root || key is Passphrase
}

/// The key an opening gets without asking: the carried one, else the one the
/// old system holds, where either is usable.
pub open spec fn preset_key(o: Opening, held: Option<CustomLayout>, found: Discovered, encrypted_root: bool) -> Option<Key> {
    let carried = held_key(held, o);
    let old = match crate::text::position(found_devices(found.found@), o.partition@) {
        Some(i) => Some(found.found@[i].1.key),
        None => None,
    };
    if carried is Some && usable_for(o, carried->0, encrypted_root) {
        carried
    } else if old is Some && usable_for(o, old->0, encrypted_root) {
        old
    } else {
        None
    }
}

pub open spec fn opening_targets(os: Seq<Opening>) -> Seq<Seq<char>> {
    os.map_values(|o: Opening| o.target@)
}

fn held_find<'a>(layout: &'a CustomLayout, o: &Opening) -> (r: Option<&'a Key>)
    ensures
        match crate::text::first_true(same_opening(layout.opens@, *o)) {
            Some(i) => r == Some(&layout.opens@[i].key),
            None => r is None,
        },
{
    let ghost marks = same_opening(layout.opens@, *o);
    let mut i: usize = 0;
    while i < layout.opens.len()
        invariant
            i <= layout.opens@.len(),
            marks == same_opening(layout.opens@, *o),
            forall|j: int| 0 <= j < i ==> !marks[j],
        decreases layout.opens@.len() - i,
    {
        let l = &layout.opens[i];
        assert(marks[i as int] == (l.partition@ == o.partition@ && l.target@ == o.target@));
        if same(l.partition.as_str(), o.partition.as_str()) && same(l.target.as_str(), o.target.as_str()) {
            proof {
                crate::text::lemma_first_true(marks, i as int);
            }
            return Some(&layout.opens[i].key);
        }
        i = i + 1;
    }
    proof {
        crate::text::lemma_first_true(marks, i as int);
    }
    None
}


/// What stopped the walk for a container, where something did.
pub open spec fn why_for(found: Discovered, partition: Seq<char>) -> Option<Seq<char>> {
    match crate::text::position(why_devices(found.why@), partition) {
        Some(i) => Some(found.why@[i].1@),
        None => None,
    }
}

pub open spec fn layout_opt(held: Option<&CustomLayout>) -> Option<CustomLayout> {
    match held {
        Some(l) => Some(*l),
        None => None,
    }
}

/// Whether the openings encrypt the root.
pub open spec fn encrypts_root(openings: Seq<Opening>) -> bool {
    opening_targets(openings).contains("/"@)
}

/// The key the person gave for opening `o`, had `ask` been asked.
pub open spec fn asked_for<F: Fn(&Opening, Option<&str>, bool) -> Result<Key, String>>(
    ask: F,
    o: &Opening,
    found: Discovered,
    plain_root: bool,
    answer: Result<Key, String>,
) -> bool {
    exists|w: Option<&str>|
        crate::prompt::opt_view(w) == why_for(found, o.partition@) && #[trigger] ask.ensures((o, w, plain_root), answer)
}

/// A key for every container the answers name. One the held layout already
/// carries keeps it, and one the old system holds is taken without a screen;
/// either only where it is usable. The rest are asked for through `ask`,
/// which is given the opening, what stopped the walk for it, and whether the
/// root is plain.
#[verifier::rlimit(50)]
pub fn opens_from<F: Fn(&Opening, Option<&str>, bool) -> Result<Key, String>>(
    openings: &[Opening],
    held: Option<&CustomLayout>,
    found: &Discovered,
    ask: F,
) -> (r: Result<Vec<LuksOpen>, String>)
    requires
        forall|o: &Opening, w: Option<&str>, p: bool| #[trigger] ask.requires((o, w, p)),
    ensures
        match r {
            Ok(opens) => opens@.len() == openings@.len() && forall|i: int|
                0 <= i < openings@.len() ==> {
                    &&& (#[trigger] opens@[i]).partition@ == openings@[i].partition@
                    &&& opens@[i].target@ == openings@[i].target@
                    &&& match preset_key(openings@[i], layout_opt(held), *found, encrypts_root(openings@)) {
                        Some(k) => key_view(opens@[i].key) == key_view(k),
                        None => asked_for(ask, &openings@[i], *found, !encrypts_root(openings@), Ok(opens@[i].key)),
                    }
                },
            Err(e) => exists|i: int|
                0 <= i < openings@.len() && preset_key(#[trigger] openings@[i], layout_opt(held), *found, encrypts_root(openings@))
                    is None && asked_for(ask, &openings@[i], *found, !encrypts_root(openings@), Err(e)),
        },
{
    let mut encrypted_root = false;
    let mut i: usize = 0;
    while i < openings.len()
        invariant
            i <= openings@.len(),
            encrypted_root == exists|j: int| 0 <= j < i && opening_targets(openings@)[j] == "/"@,
        decreases openings@.len() - i,
    {
        assert(opening_targets(openings@)[i as int] == openings@[i as int].target@);
        if same(openings[i].target.as_str(), "/") {
            encrypted_root = true;
        }
        i = i + 1;
    }
    proof {
        if encrypted_root {
            let j = choose|j: int| 0 <= j < i && opening_targets(openings@)[j] == "/"@;
            assert(opening_targets(openings@)[j] == "/"@);
        }
        if encrypts_root(openings@) {
            let j = choose|j: int| 0 <= j < opening_targets(openings@).len() && #[trigger] opening_targets(openings@)[j] == "/"@;
            assert(opening_targets(openings@)[j] == "/"@);
        }
    }
    assert(encrypted_root == encrypts_root(openings@));
    let mut opens: Vec<LuksOpen> = Vec::new();
    let mut i: usize = 0;
    while i < openings.len()
        invariant
            i <= openings@.len(),
            encrypted_root == encrypts_root(openings@),
            forall|o: &Opening, w: Option<&str>, p: bool| #[trigger] ask.requires((o, w, p)),
            opens@.len() == i,
            forall|j: int|
                0 <= j < i ==> {
                    &&& (#[trigger] opens@[j]).partition@ == openings@[j].partition@
                    &&& opens@[j].target@ == openings@[j].target@
                    &&& match preset_key(openings@[j], layout_opt(held), *found, encrypts_root(openings@)) {
                        Some(k) => key_view(opens@[j].key) == key_view(k),
                        None => asked_for(ask, &openings@[j], *found, !encrypts_root(openings@), Ok(opens@[j].key)),
                    }
                },
        decreases openings@.len() - i,
    {
        let opening = &openings[i];
        let root_here = same(opening.target.as_str(), "/");
        let carried: Option<&Key> = match held {
            Some(layout) => held_find(layout, opening),
            None => None,
        };
        let carried_ok = match carried {
            Some(k) => root_here || usable_key(k, encrypted_root),
            None => false,
        };
        let old = found.key(opening.partition.as_str());
        let old_ok = match old {
            Some(k) => root_here || usable_key(k, encrypted_root),
            None => false,
        };
        let key = if carried_ok {
            carried.unwrap().copy()
        } else if old_ok {
            old.unwrap().copy()
        } else {
            let why = found.why(opening.partition.as_str());
            let answer = ask(opening, why, !encrypted_root);
            match answer {
                Ok(k) => {
                    assert(asked_for(ask, opening, *found, !encrypted_root, Ok::<Key, String>(k)));
                    k
                },
                Err(e) => {
                    assert(asked_for(ask, opening, *found, !encrypted_root, Err::<Key, String>(e)));
                    return Err(e);
                },
            }
        };
        let ghost prior = opens@;
        let made = LuksOpen { partition: opening.partition.clone(), target: opening.target.clone(), key };
        opens.push(made);
        proof {
            assert(opens@[i as int] == made);
            assert forall|j: int| 0 <= j < i implies #[trigger] opens@[j] == prior[j] by {}
        }
        i = i + 1;
    }
    Ok(opens)
}


/// The kind the encryption step settles on before any passphrase is asked
/// for: the flag's, else none where nobody can be asked, else the one picked.
pub open spec fn chosen_kind(given: Option<String>, p: crate::prompt::Prompt, tpm: bool, luks_initramfs: bool) -> Result<Seq<char>, Seq<char>> {
    match given {
        Some(k) => if kind_names().contains(k@) {
            Ok(k@)
        } else {
            Err(unknown_kind(k@))
        },
        None => if !p.ask {
            Ok(NONE@)
        } else {
            let labels = kinds_spec().map_values(
                |row: (Seq<char>, Seq<char>, Seq<char>)| kind_row(row, tpm, luks_initramfs).0,
            );
            match crate::prompt::choose_spec(p, copy::INSTALL_ENCRYPTION@, labels) {
                Ok(Some(at)) => Ok(kinds_spec()[at].0),
                Ok(None) => Ok(NONE@),
                Err(e) => Err(e),
            }
        },
    }
}

/// The encryption where there is no form. `tpm` is whether this machine has
/// a TPM, which decides whether the `tpm2-` forms can be picked.
pub fn ask_encryption(
    given: Option<String>,
    passphrase: Option<String>,
    prompt: &mut crate::prompt::Prompt,
    luks_initramfs: bool,
    tpm: bool,
) -> (r: Result<Encryption, String>)
    ensures
        match chosen_kind(given, *old(prompt), tpm, luks_initramfs) {
            Err(e) => r matches Err(f) && f@ == e,
            Ok(kind) => if kind != NONE@ && !luks_initramfs {
                r matches Err(f) && f@ == copy::NO_LUKS_INITRAMFS@
            } else if !is_suffix("passphrase"@, kind) {
                r matches Ok(enc) && enc.kind@ == kind && enc.passphrase@.len() == 0
            } else {
                r matches Ok(enc) ==> enc.kind@ == kind
            },
        },
{
    let ghost start = *prompt;
    let kind: String = match given {
        Some(k) => named(k)?,
        None => if !prompt.asks() {
            owned(NONE)
        } else {
            let options = kinds(tpm, luks_initramfs);
            proof {
                let labels = kinds_spec().map_values(
                    |row: (Seq<char>, Seq<char>, Seq<char>)| kind_row(row, tpm, luks_initramfs).0,
                );
                let rows = kinds_spec().map_values(
                    |row: (Seq<char>, Seq<char>, Seq<char>)| kind_row(row, tpm, luks_initramfs),
                );
                assert(choice_views(options@) == rows);
                assert(choice_views(options@).len() == options@.len());
                assert(options@.len() == 4);
                assert(crate::ui::choice_labels(options@) =~= labels) by {
                    assert forall|i: int| 0 <= i < options@.len() implies crate::ui::choice_labels(options@)[i] == labels[i] by {
                        assert(choice_views(options@)[i] == choice_view(options@[i]));
                        assert(rows[i] == kind_row(kinds_spec()[i], tpm, luks_initramfs));
                        assert(labels[i] == kind_row(kinds_spec()[i], tpm, luks_initramfs).0);
                    }
                }
            }
            match prompt.choose_from(copy::INSTALL_ENCRYPTION, options.as_slice())? {
                Some(at) => {
                    let table = kinds_table();
                    assert(table_view(table@)[at as int] == kinds_spec()[at as int]);
                    owned(table[at].0)
                },
                None => owned(NONE),
            }
        },
    };
    if !same(kind.as_str(), NONE) && !luks_initramfs {
        return Err(owned(copy::NO_LUKS_INITRAMFS));
    }
    let secret = if Encryption::wants_passphrase(kind.as_str()) {
        prompt.text(passphrase, copy::LUKS_PASSPHRASE, "--passphrase", None)?
    } else {
        String::new()
    };
    Ok(Encryption { kind, passphrase: secret })
}


/// The filesystems the image installs onto.
pub open spec fn linux_fs(fstype: Seq<char>) -> bool {
    fstype == "ext3"@ || fstype == "ext4"@ || fstype == "xfs"@ || fstype == "btrfs"@
}

fn is_linux_fs(fstype: &str) -> (r: bool)
    ensures
        r == linux_fs(fstype@),
{
    same(fstype, "ext3") || same(fstype, "ext4") || same(fstype, "xfs") || same(fstype, "btrfs")
}

/// The rows one mount point offers a partition: open it, keep it, or format
/// it, each refused with the reason where the partition or the image rules
/// it out.
pub open spec fn target_rows(
    fstype: Seq<char>,
    target: Seq<char>,
    format: Seq<char>,
    bootloader: Seq<char>,
    luks_initramfs: bool,
) -> Seq<(Seq<char>, Seq<char>, bool)> {
    let open: Seq<(Seq<char>, Seq<char>, bool)> = if fstype == "crypto_LUKS"@ && target != "/boot/efi"@ {
        seq![
            if target == "/"@ && !luks_initramfs {
                (copy::open_at_spec(target), copy::NO_LUKS_INITRAMFS@, false)
            } else if target == "/boot"@ && bootloader == "systemd"@ {
                (copy::open_at_spec(target), copy::custom_keep_boot_spec(bootloader), false)
            } else if target == "/boot"@ {
                (copy::open_at_spec(target), copy::CUSTOM_OPEN_BOOT@, false)
            } else {
                (copy::open_at_spec(target), copy::open_cost_spec(target), true)
            },
        ]
    } else {
        Seq::empty()
    };
    let keep: Seq<(Seq<char>, Seq<char>, bool)> = if fstype.len() > 0 && fstype != "crypto_LUKS"@ {
        seq![
            if target == "/boot"@ && (bootloader == "systemd"@ || fstype != "ext4"@) {
                (copy::keep_as_spec(target), copy::custom_keep_boot_spec(bootloader), false)
            } else if target == "/boot/efi"@ && !(fstype == "vfat"@ || fstype == "fat"@ || fstype == "fat32"@) {
                (copy::keep_as_spec(target), copy::CUSTOM_KEEP_ESP@, false)
            } else if (target == "/"@ || target == "/var"@) && !linux_fs(fstype) {
                (copy::keep_as_spec(target), copy::CUSTOM_KEEP_FILESYSTEM@, false)
            } else {
                (copy::keep_as_spec(target), "preserve its filesystem"@, true)
            },
        ]
    } else {
        Seq::empty()
    };
    let erase = if target == "/boot"@ && bootloader == "systemd"@ {
        (copy::format_at_spec(format, target), copy::custom_keep_boot_spec(bootloader), false)
    } else if (target == "/"@ || target == "/var"@) && !linux_fs(format) {
        (copy::format_at_spec(format, target), copy::CUSTOM_FORMAT_FILESYSTEM@, false)
    } else {
        (copy::format_at_spec(format, target), "erase this partition"@, true)
    };
    open + keep + seq![erase]
}

/// Every answer the editor offers one partition.
pub open spec fn mount_choices_spec(fstype: Seq<char>, filesystem: Seq<char>, bootloader: Seq<char>, luks_initramfs: bool) -> Seq<(Seq<char>, Seq<char>, bool)> {
    seq![(copy::LEAVE_PARTITION@, ""@, true)] + target_rows(fstype, "/"@, filesystem, bootloader, luks_initramfs)
        + target_rows(fstype, "/boot"@, "ext4"@, bootloader, luks_initramfs) + target_rows(
        fstype,
        "/boot/efi"@,
        "fat32"@,
        bootloader,
        luks_initramfs,
    ) + target_rows(fstype, "/var"@, filesystem, bootloader, luks_initramfs)
}

fn push_target_rows(
    out: &mut Vec<Choice>,
    fstype: &str,
    target: &str,
    format: &str,
    bootloader: &str,
    luks_initramfs: bool,
)
    ensures
        choice_views(final(out)@) == choice_views(old(out)@) + target_rows(fstype@, target@, format@, bootloader@, luks_initramfs),
{
    let ghost start = choice_views(out@);
    let is_root = same(target, "/");
    let is_boot = same(target, "/boot");
    let is_esp = same(target, "/boot/efi");
    let is_var = same(target, "/var");
    let systemd = same(bootloader, "systemd");
    let luks = same(fstype, "crypto_LUKS");
    if luks && !is_esp {
        let label = copy::open_at(target);
        let row = if is_root && !luks_initramfs {
            Choice::new(label.as_str(), copy::NO_LUKS_INITRAMFS).unavailable()
        } else if is_boot && systemd {
            let why = copy::custom_keep_boot(bootloader);
            Choice::new(label.as_str(), why.as_str()).unavailable()
        } else if is_boot {
            Choice::new(label.as_str(), copy::CUSTOM_OPEN_BOOT).unavailable()
        } else {
            let cost = copy::open_cost(target);
            Choice::new(label.as_str(), cost.as_str())
        };
        let ghost prior = out@;
        out.push(row);
        assert(choice_views(out@) =~= choice_views(prior).push(choice_view(row)));
    }
    let ghost after_open = choice_views(out@);
    if fstype.unicode_len() > 0 && !luks {
        let label = copy::keep_as(target);
        let row = if is_boot && (systemd || !same(fstype, "ext4")) {
            let why = copy::custom_keep_boot(bootloader);
            Choice::new(label.as_str(), why.as_str()).unavailable()
        } else if is_esp && !is_fat(fstype) {
            Choice::new(label.as_str(), copy::CUSTOM_KEEP_ESP).unavailable()
        } else if (is_root || is_var) && !is_linux_fs(fstype) {
            Choice::new(label.as_str(), copy::CUSTOM_KEEP_FILESYSTEM).unavailable()
        } else {
            Choice::new(label.as_str(), "preserve its filesystem")
        };
        let ghost prior = out@;
        out.push(row);
        assert(choice_views(out@) =~= choice_views(prior).push(choice_view(row)));
    }
    let ghost after_keep = choice_views(out@);
    let label = copy::format_at(format, target);
    let row = if is_boot && systemd {
        let why = copy::custom_keep_boot(bootloader);
        Choice::new(label.as_str(), why.as_str()).unavailable()
    } else if (is_root || is_var) && !is_linux_fs(format) {
        Choice::new(label.as_str(), copy::CUSTOM_FORMAT_FILESYSTEM).unavailable()
    } else {
        Choice::new(label.as_str(), "erase this partition")
    };
    let ghost prior = out@;
    out.push(row);
    assert(choice_views(out@) =~= choice_views(prior).push(choice_view(row)));
    assert(choice_views(out@) =~= start + target_rows(fstype@, target@, format@, bootloader@, luks_initramfs));
}

/// Every answer the editor offers one partition: leave it, and for each of
/// `/`, `/boot`, `/boot/efi` and `/var`, the ways it could be made that mount.
pub fn mount_choices(partition: &Partition, filesystem: &str, bootloader: &str, luks_initramfs: bool) -> (r: Vec<Choice>)
    ensures
        choice_views(r@) == mount_choices_spec(partition.fstype@, filesystem@, bootloader@, luks_initramfs),
{
    let mut choices: Vec<Choice> = Vec::new();
    let leave = Choice::new(copy::LEAVE_PARTITION, "");
    choices.push(leave);
    assert(choice_views(choices@) =~= seq![(copy::LEAVE_PARTITION@, ""@, true)]);
    let fstype = partition.fstype.as_str();
    push_target_rows(&mut choices, fstype, "/", filesystem, bootloader, luks_initramfs);
    push_target_rows(&mut choices, fstype, "/boot", "ext4", bootloader, luks_initramfs);
    push_target_rows(&mut choices, fstype, "/boot/efi", "fat32", bootloader, luks_initramfs);
    push_target_rows(&mut choices, fstype, "/var", filesystem, bootloader, luks_initramfs);
    choices
}

/// The rows `/var` offers: nowhere, a partition of this disk, and every other
/// disk formatted or kept, the kept ones refused under an encrypted root.
pub open spec fn data_rows_spec(disk: Seq<char>, found: Seq<(String, String)>, encrypted: bool) -> Seq<(Seq<char>, Seq<char>, bool)>
    decreases found.len(),
{
    if found.len() == 0 {
        seq![(copy::NONE@, ""@, true), (copy::DATA_HERE@, ""@, true)]
    } else {
        let r = data_rows_spec(disk, found.drop_last(), encrypted);
        let (other, detail) = (found.last().0@, found.last().1@);
        if other == disk {
            r
        } else {
            r.push((copy::on_disk_spec(other, copy::DATA_ERASED@), detail, true)).push(
                if encrypted {
                    (copy::on_disk_spec(other, copy::DATA_KEPT@), copy::DATA_UNENCRYPTED@, false)
                } else {
                    (copy::on_disk_spec(other, copy::DATA_KEPT@), detail, true)
                },
            )
        }
    }
}

/// Where `/home` goes: a partition of the install disk, another whole disk
/// formatted or mounted as it is, or neither.
pub fn data_rows(disk: &str, found: &[(String, String)], encrypted: bool) -> (r: Vec<Choice>)
    ensures
        choice_views(r@) == data_rows_spec(disk@, found@, encrypted),
{
    let mut rows: Vec<Choice> = Vec::new();
    rows.push(Choice::new(copy::NONE, ""));
    rows.push(Choice::new(copy::DATA_HERE, ""));
    assert(choice_views(rows@) =~= data_rows_spec(disk@, found@.take(0), encrypted));
    let mut i: usize = 0;
    while i < found.len()
        invariant
            i <= found@.len(),
            choice_views(rows@) == data_rows_spec(disk@, found@.take(i as int), encrypted),
        decreases found@.len() - i,
    {
        assert(found@.take(i as int + 1).drop_last() =~= found@.take(i as int));
        assert(found@.take(i as int + 1).last() == found@[i as int]);
        let other = found[i].0.as_str();
        let detail = found[i].1.as_str();
        if !same(other, disk) {
            let erased = copy::on_disk(other, copy::DATA_ERASED);
            let kept = copy::on_disk(other, copy::DATA_KEPT);
            let first = Choice::new(erased.as_str(), detail);
            let second = if encrypted {
                Choice::new(kept.as_str(), copy::DATA_UNENCRYPTED).unavailable()
            } else {
                Choice::new(kept.as_str(), detail)
            };
            let ghost prior = rows@;
            rows.push(first);
            rows.push(second);
            assert(choice_views(rows@) =~= choice_views(prior).push(choice_view(first)).push(choice_view(second)));
        }
        i = i + 1;
    }
    assert(found@.take(i as int) =~= found@);
    rows
}

/// The device the installed root is on: the mapper of an opened `/`, or the
/// partition a mount answer put at `/`.
pub open spec fn root_device_spec(layout: CustomLayout) -> Option<Seq<char>> {
    match crate::text::position(open_targets(layout.opens@), "/"@) {
        Some(i) => Some("/dev/mapper/"@ + mapper_name(i)),
        None => match crate::text::position(layout.mounts@.map_values(|m: CustomMount| m.target@), "/"@) {
            Some(i) => Some(layout.mounts@[i].partition@),
            None => None,
        },
    }
}

pub fn root_device(layout: &CustomLayout) -> (r: Option<String>)
    ensures
        string_opt_view(r) == root_device_spec(*layout),
{
    let mappers = layout.mappers();
    let mut i: usize = 0;
    while i < mappers.len()
        invariant
            i <= mappers@.len(),
            mappers@.len() == layout.opens@.len(),
            forall|j: int| 0 <= j < mappers@.len() ==> (#[trigger] mappers@[j]).0@ == mapper_name(j) && *mappers@[j].1 == layout.opens@[j],
            forall|j: int| 0 <= j < i ==> open_targets(layout.opens@)[j] != "/"@,
        decreases mappers@.len() - i,
    {
        assert(open_targets(layout.opens@)[i as int] == mappers@[i as int].1.target@);
        if same(mappers[i].1.target.as_str(), "/") {
            proof {
                crate::text::lemma_position(open_targets(layout.opens@), "/"@, i as int);
            }
            return Some(mapper_path(mappers[i].0.as_str()));
        }
        i = i + 1;
    }
    proof {
        crate::text::lemma_position(open_targets(layout.opens@), "/"@, i as int);
    }
    let ghost targets = layout.mounts@.map_values(|m: CustomMount| m.target@);
    let mut k: usize = 0;
    while k < layout.mounts.len()
        invariant
            k <= layout.mounts@.len(),
            targets == layout.mounts@.map_values(|m: CustomMount| m.target@),
            crate::text::position(open_targets(layout.opens@), "/"@) is None,
            forall|j: int| 0 <= j < k ==> targets[j] != "/"@,
        decreases layout.mounts@.len() - k,
    {
        assert(targets[k as int] == layout.mounts@[k as int].target@);
        if same(layout.mounts[k].target.as_str(), "/") {
            proof {
                crate::text::lemma_position(targets, "/"@, k as int);
            }
            return Some(layout.mounts[k].partition.clone());
        }
        k = k + 1;
    }
    proof {
        crate::text::lemma_position(targets, "/"@, k as int);
    }
    None
}


/// Whether a container opened at `/` is opened by anything but a passphrase.
pub open spec fn root_keyfile(opens: Seq<LuksOpen>) -> bool {
    exists|i: int| 0 <= i < opens.len() && #[trigger] opens[i].target@ == "/"@ && !(opens[i].key is Passphrase)
}

/// What a held layout refuses on the form as it stands.
pub open spec fn layout_refusal(l: CustomLayout, vals: Seq<Seq<char>>, luks_initramfs: bool) -> Option<Seq<char>> {
    let opens_root = open_targets(l.opens@).contains("/"@);
    if l.disk@ != vals[ROW_DISK as int] {
        Some(copy::CUSTOM_OTHER_DISK@)
    } else if opens_root && !luks_initramfs {
        Some(copy::NO_LUKS_INITRAMFS@)
    } else if written_spec(vals[ROW_ENCRYPTION as int]) != NONE@ {
        Some(copy::CUSTOM_ENCRYPTION@)
    } else if root_keyfile(l.opens@) {
        Some(copy::OPENED_ROOT_KEYFILE@)
    } else if !opens_root && opened_of(vals[ROW_ENCRYPTION as int]) != Opened::Keep {
        Some(copy::OPENED_KEYFILE_PLAIN@)
    } else {
        None
    }
}

/// `name` where `missing` holds, nothing otherwise.
pub open spec fn if_missing(missing: bool, name: Seq<char>) -> Seq<Seq<char>> {
    if missing {
        seq![name]
    } else {
        Seq::empty()
    }
}

/// The rows a value is still owed on, in the form's order.
pub open spec fn needed(vals: Seq<Seq<char>>, wants: bool) -> Seq<Seq<char>> {
    if_missing(vals[ROW_DISK as int].len() == 0, copy::ROW_DISK@)
        + if_missing(vals[ROW_ACCOUNT as int].len() == 0, copy::ROW_ACCOUNT@)
        + if_missing(vals[ROW_PASSWORD as int].len() == 0, copy::ROW_PASSWORD@)
        + if_missing(wants && vals[ROW_PASSPHRASE as int].len() == 0, copy::ROW_PASSPHRASE@)
        + if_missing(vals[ROW_DATA as int] == copy::DATA_HERE@ && vals[ROW_SIZE as int].len() == 0, copy::ROW_SIZE@)
}

/// What the form is still short of, over the rows' values: the two halves of
/// the password disagreeing, what a held layout refuses, encryption without
/// an initramfs that opens it, a `/var` the encrypted root leaves plain or
/// that is the install disk itself, and then every value still owed.
pub open spec fn short_spec(vals: Seq<Seq<char>>, layout: Option<CustomLayout>, luks_initramfs: bool) -> Option<Seq<char>> {
    let enc = written_spec(vals[ROW_ENCRYPTION as int]);
    let d = if layout is Some {
        (Seq::<char>::empty(), Seq::<char>::empty(), false)
    } else {
        chose_spec(vals[ROW_DATA as int], vals[ROW_SIZE as int])
    };
    if vals[ROW_PASSWORD as int].len() > 0 && vals[ROW_PASSWORD as int] != vals[ROW_CONFIRM as int] {
        Some(copy::NO_MATCH_ROW@)
    } else if layout is Some && layout_refusal(layout->0, vals, luks_initramfs) is Some {
        layout_refusal(layout->0, vals, luks_initramfs)
    } else if enc != NONE@ && !luks_initramfs {
        Some(copy::NO_LUKS_INITRAMFS@)
    } else if enc != NONE@ && (d.0.len() > 0 || d.1.len() > 0) && d.2 {
        Some(copy::DATA_UNENCRYPTED@)
    } else if d.0.len() > 0 && d.0 == vals[ROW_DISK as int] {
        Some(copy::DATA_SAME_DISK@)
    } else if needed(vals, is_suffix("passphrase"@, enc)).len() == 0 {
        None
    } else {
        Some(copy::still_needs_spec(needed(vals, is_suffix("passphrase"@, enc))))
    }
}

fn opens_root_by_key(opens: &Vec<LuksOpen>) -> (r: bool)
    ensures
        r == root_keyfile(opens@),
{
    let mut i: usize = 0;
    while i < opens.len()
        invariant
            i <= opens@.len(),
            forall|j: int| 0 <= j < i ==> !(#[trigger] opens@[j].target@ == "/"@ && !(opens@[j].key is Passphrase)),
        decreases opens@.len() - i,
    {
        let passphrase = match &opens[i].key {
            Key::Passphrase(_) => true,
            _ => false,
        };
        if same(opens[i].target.as_str(), "/") && !passphrase {
            return true;
        }
        i = i + 1;
    }
    false
}

fn refused_by_layout(l: &CustomLayout, fields: &[Field], luks_initramfs: bool) -> (r: Option<String>)
    requires
        fields@.len() > ROW_SIZE,
    ensures
        string_opt_view(r) == layout_refusal(*l, field_values(fields@), luks_initramfs),
{
    let ghost vals = field_values(fields@);
    let disk = fields[ROW_DISK].value();
    let enc = fields[ROW_ENCRYPTION].value();
    assert(vals[ROW_DISK as int] == disk@ && vals[ROW_ENCRYPTION as int] == enc@);
    let opens_root = l.opens_the_root();
    if !same(l.disk.as_str(), disk.as_str()) {
        Some(owned(copy::CUSTOM_OTHER_DISK))
    } else if opens_root && !luks_initramfs {
        Some(owned(copy::NO_LUKS_INITRAMFS))
    } else if !same(written(enc.as_str()), NONE) {
        Some(owned(copy::CUSTOM_ENCRYPTION))
    } else if opens_root_by_key(&l.opens) {
        Some(owned(copy::OPENED_ROOT_KEYFILE))
    } else if !opens_root && Opened::of(enc.as_str()) != Opened::Keep {
        Some(owned(copy::OPENED_KEYFILE_PLAIN))
    } else {
        None
    }
}

/// What the form is still short of, which is what `Install` says while it is
/// unpickable: the values nothing derives and no default covers, plus that
/// both halves of the password agree.
#[verifier::spinoff_prover]
#[verifier::rlimit(40)]
pub fn short_of(fields: &[Field], layout: Option<&CustomLayout>, luks_initramfs: bool) -> (r: Option<String>)
    requires
        fields@.len() > ROW_SIZE,
    ensures
        string_opt_view(r) == short_spec(field_values(fields@), layout_opt(layout), luks_initramfs),
{
    let ghost vals = field_values(fields@);
    let disk = fields[ROW_DISK].value();
    let account = fields[ROW_ACCOUNT].value();
    let password = fields[ROW_PASSWORD].value();
    let confirm = fields[ROW_CONFIRM].value();
    let enc = fields[ROW_ENCRYPTION].value();
    let passphrase = fields[ROW_PASSPHRASE].value();
    let data_row = fields[ROW_DATA].value();
    let size = fields[ROW_SIZE].value();
    assert(vals[ROW_DISK as int] == disk@ && vals[ROW_ACCOUNT as int] == account@ && vals[ROW_PASSWORD as int] == password@
        && vals[ROW_CONFIRM as int] == confirm@ && vals[ROW_ENCRYPTION as int] == enc@ && vals[ROW_PASSPHRASE as int]
        == passphrase@ && vals[ROW_DATA as int] == data_row@ && vals[ROW_SIZE as int] == size@);
    if password.unicode_len() > 0 && !same(password.as_str(), confirm.as_str()) {
        return Some(owned(copy::NO_MATCH_ROW));
    }
    if let Some(l) = layout {
        match refused_by_layout(l, fields, luks_initramfs) {
            Some(why) => return Some(why),
            None => {},
        }
    }
    let kind = written(enc.as_str());
    if !same(kind, NONE) && !luks_initramfs {
        return Some(owned(copy::NO_LUKS_INITRAMFS));
    }
    let data = match layout {
        Some(_) => Data::default(),
        None => chose(data_row.as_str(), size.as_str()),
    };
    if !same(kind, NONE) && data.wanted() && data.keep {
        return Some(owned(copy::DATA_UNENCRYPTED));
    }
    if data.disk.unicode_len() > 0 && same(data.disk.as_str(), disk.as_str()) {
        return Some(owned(copy::DATA_SAME_DISK));
    }
    let wants = Encryption::wants_passphrase(kind);
    let mut missing: Vec<String> = Vec::new();
    if disk.unicode_len() == 0 {
        missing.push(owned(copy::ROW_DISK));
    }
    let ghost m1 = views(missing@);
    if account.unicode_len() == 0 {
        missing.push(owned(copy::ROW_ACCOUNT));
    }
    let ghost m2 = views(missing@);
    if password.unicode_len() == 0 {
        missing.push(owned(copy::ROW_PASSWORD));
    }
    let ghost m3 = views(missing@);
    if wants && passphrase.unicode_len() == 0 {
        missing.push(owned(copy::ROW_PASSPHRASE));
    }
    let ghost m4 = views(missing@);
    if same(data_row.as_str(), copy::DATA_HERE) && size.unicode_len() == 0 {
        missing.push(owned(copy::ROW_SIZE));
    }
    proof {
        let w = is_suffix("passphrase"@, kind@);
        assert(m1 =~= if_missing(vals[ROW_DISK as int].len() == 0, copy::ROW_DISK@));
        assert(m2 =~= m1 + if_missing(vals[ROW_ACCOUNT as int].len() == 0, copy::ROW_ACCOUNT@));
        assert(m3 =~= m2 + if_missing(vals[ROW_PASSWORD as int].len() == 0, copy::ROW_PASSWORD@));
        assert(m4 =~= m3 + if_missing(w && vals[ROW_PASSPHRASE as int].len() == 0, copy::ROW_PASSPHRASE@));
        assert(views(missing@) =~= m4 + if_missing(
            vals[ROW_DATA as int] == copy::DATA_HERE@ && vals[ROW_SIZE as int].len() == 0,
            copy::ROW_SIZE@,
        ));
        assert(views(missing@) == needed(vals, w));
    }
    if missing.len() == 0 {
        None
    } else {
        Some(copy::still_needs(&missing))
    }
}


/// What one container's header holds: its key slots by index, and the token
/// types beside them.
pub struct Slots {
    pub keys: Vec<u32>,
    pub tokens: Vec<String>,
}

pub open spec fn has_tpm2_spec(s: Slots) -> bool {
    views(s.tokens@).contains("systemd-tpm2"@)
}

impl Slots {
    pub fn has_tpm2(&self) -> (r: bool)
        ensures
            r == has_tpm2_spec(*self),
    {
        let mut i: usize = 0;
        while i < self.tokens.len()
            invariant
                i <= self.tokens@.len(),
                forall|j: int| 0 <= j < i ==> views(self.tokens@)[j] != "systemd-tpm2"@,
            decreases self.tokens@.len() - i,
        {
            if same(self.tokens[i].as_str(), "systemd-tpm2") {
                assert(views(self.tokens@)[i as int] == "systemd-tpm2"@);
                return true;
            }
            i = i + 1;
        }
        false
    }
}

/// What the keep row says of one header, read or not.
pub open spec fn header_said(r: Result<Slots, String>) -> Seq<char> {
    match r {
        Ok(s) => copy::slots_said_spec(s.keys@, views(s.tokens@)),
        Err(why) => copy::slots_unknown_spec(why@),
    }
}

pub open spec fn keep_detail(read: Seq<Result<Slots, String>>) -> Seq<char> {
    if read.len() == 0 {
        Seq::empty()
    } else {
        join_spec(read.map_values(|r: Result<Slots, String>| header_said(r)), "; "@)
    }
}

/// Why the first header that could not be read was not, from `k` on.
pub open spec fn first_unread(read: Seq<Result<Slots, String>>, k: int) -> Option<Seq<char>>
    decreases read.len() - k,
{
    if k < 0 || k >= read.len() {
        None
    } else {
        match read[k] {
            Err(why) => Some(why@),
            Ok(_) => first_unread(read, k + 1),
        }
    }
}

pub open spec fn enrolled_header(r: Result<Slots, String>) -> bool {
    match r {
        Ok(s) => has_tpm2_spec(s),
        Err(_) => false,
    }
}

pub open spec fn any_enrolled(read: Seq<Result<Slots, String>>) -> bool {
    exists|i: int| 0 <= i < read.len() && enrolled_header(#[trigger] read[i])
}

/// A container a key file could be added to: a data volume opened by a
/// passphrase.
pub open spec fn takes_key_file(o: LuksOpen) -> bool {
    o.target@ != "/"@ && o.key is Passphrase
}

/// The first container from `k` on that a key file could be added to.
pub open spec fn add_from(opens: Seq<LuksOpen>, k: int) -> Option<int>
    decreases opens.len() - k,
{
    if k < 0 || k >= opens.len() {
        None
    } else if takes_key_file(opens[k]) {
        Some(k)
    } else {
        add_from(opens, k + 1)
    }
}

proof fn lemma_add_from_in(opens: Seq<LuksOpen>, j: int)
    requires
        0 <= j,
    ensures
        add_from(opens, j) matches Some(k) ==> j <= k < opens.len() && takes_key_file(opens[k]),
    decreases opens.len() - j,
{
    if j < opens.len() && !takes_key_file(opens[j]) {
        lemma_add_from_in(opens, j + 1);
    }
}

/// The TPM2 row: refused without a TPM, without an encrypted root to stage
/// its key in, where a header could not be read, where one already has a
/// token, and where the root is opened by a key file.
pub open spec fn tpm_row(tpm: bool, encrypted_root: bool, unread: Option<Seq<char>>, enrolled: bool, keyfile_root: bool) -> (
    Seq<char>,
    Seq<char>,
    bool,
) {
    if !tpm {
        (copy::OPENED_TPM2@, copy::NO_TPM@, false)
    } else if !encrypted_root {
        (copy::OPENED_TPM2@, copy::OPENED_KEYFILE_PLAIN@, false)
    } else if unread is Some {
        (copy::OPENED_TPM2@, unread->0, false)
    } else if enrolled {
        (copy::OPENED_TPM2@, copy::OPENED_TPM2_HAS@, false)
    } else if keyfile_root {
        (copy::OPENED_TPM2@, copy::OPENED_ROOT_KEYFILE@, false)
    } else {
        (copy::OPENED_TPM2@, copy::OPENED_TPM2_COST@, true)
    }
}

/// The key-file row, for the container it would be added to.
pub open spec fn add_row(encrypted_root: bool, header: Result<Slots, String>) -> (Seq<char>, Seq<char>, bool) {
    let detail = match header {
        Ok(s) => copy::OPENED_ADD_KEY_COST@ + "; "@ + crate::text::decimal_spec(s.keys@.len()) + " slots now"@,
        Err(_) => copy::OPENED_ADD_KEY_COST@,
    };
    if encrypted_root {
        (copy::OPENED_ADD_KEY@, detail, true)
    } else {
        (copy::OPENED_ADD_KEY@, copy::OPENED_KEYFILE_PLAIN@, false)
    }
}

/// The same row, refused because the image cannot open the root.
pub open spec fn no_initramfs(row: (Seq<char>, Seq<char>, bool)) -> (Seq<char>, Seq<char>, bool) {
    (row.0, copy::NO_LUKS_INITRAMFS@, false)
}

/// What the row holds once containers are open, given what each one's header
/// was read as, in the layout's order.
pub open spec fn opened_rows_spec(layout: CustomLayout, read: Seq<Result<Slots, String>>, tpm: bool, luks_initramfs: bool) -> Seq<
    (Seq<char>, Seq<char>, bool),
> {
    let encrypted_root = open_targets(layout.opens@).contains("/"@);
    let keyfile_root = root_keyfile(layout.opens@);
    let keep = if keyfile_root {
        (copy::OPENED_KEEP@, copy::OPENED_ROOT_KEYFILE@, false)
    } else {
        (copy::OPENED_KEEP@, keep_detail(read), true)
    };
    let base = seq![keep, tpm_row(tpm, encrypted_root, first_unread(read, 0), any_enrolled(read), keyfile_root)];
    let rows = match add_from(layout.opens@, 0) {
        Some(k) => base.push(add_row(encrypted_root, read[k])),
        None => base,
    };
    if encrypted_root && !luks_initramfs {
        rows.map_values(|r: (Seq<char>, Seq<char>, bool)| no_initramfs(r))
    } else {
        rows
    }
}

fn keep_said(read: &[Result<Slots, String>]) -> (r: String)
    ensures
        r@ == keep_detail(read@),
{
    if read.len() == 0 {
        return String::new();
    }
    let mut parts: Vec<String> = Vec::new();
    let mut i: usize = 0;
    while i < read.len()
        invariant
            i <= read@.len(),
            views(parts@) == read@.take(i as int).map_values(|r: Result<Slots, String>| header_said(r)),
        decreases read@.len() - i,
    {
        let said = match &read[i] {
            Ok(s) => copy::slots_said(&s.keys, &s.tokens),
            Err(why) => copy::slots_unknown(why.as_str()),
        };
        let ghost prior = parts@;
        parts.push(said);
        assert(views(parts@) =~= views(prior).push(said@));
        assert(read@.take(i as int + 1).map_values(|r: Result<Slots, String>| header_said(r)) =~= read@.take(
            i as int,
        ).map_values(|r: Result<Slots, String>| header_said(r)).push(header_said(read@[i as int])));
        i = i + 1;
    }
    assert(read@.take(i as int) =~= read@);
    join(&parts, "; ")
}

fn unread_why(read: &[Result<Slots, String>]) -> (r: Option<String>)
    ensures
        string_opt_view(r) == first_unread(read@, 0),
{
    let mut i: usize = 0;
    while i < read.len()
        invariant
            i <= read@.len(),
            first_unread(read@, 0) == first_unread(read@, i as int),
        decreases read@.len() - i,
    {
        match &read[i] {
            Err(why) => return Some(why.clone()),
            Ok(_) => {},
        }
        i = i + 1;
    }
    None
}

fn enrolled_any(read: &[Result<Slots, String>]) -> (r: bool)
    ensures
        r == any_enrolled(read@),
{
    let mut i: usize = 0;
    while i < read.len()
        invariant
            i <= read@.len(),
            forall|j: int| 0 <= j < i ==> !enrolled_header(#[trigger] read@[j]),
        decreases read@.len() - i,
    {
        match &read[i] {
            Ok(s) => if s.has_tpm2() {
                assert(enrolled_header(read@[i as int]));
                return true;
            },
            Err(_) => {},
        }
        i = i + 1;
    }
    false
}

fn first_data_volume(opens: &Vec<LuksOpen>) -> (r: Option<usize>)
    ensures
        match add_from(opens@, 0) {
            Some(k) => r == Some(k as usize),
            None => r is None,
        },
{
    let mut i: usize = 0;
    while i < opens.len()
        invariant
            i <= opens@.len(),
            add_from(opens@, 0) == add_from(opens@, i as int),
        decreases opens@.len() - i,
    {
        let passphrase = match &opens[i].key {
            Key::Passphrase(_) => true,
            _ => false,
        };
        if !same(opens[i].target.as_str(), "/") && passphrase {
            return Some(i);
        }
        i = i + 1;
    }
    None
}

/// What the row holds once containers are open: their headers' slots, and
/// the two additions worth offering. `read` is each opened container's
/// header as it was read, in the layout's order; a header that could not be
/// read leaves its additions refused with the reason rather than aborting
/// the form.
pub fn opened_rows(layout: &CustomLayout, read: &[Result<Slots, String>], tpm: bool, luks_initramfs: bool) -> (r: Vec<Choice>)
    requires
        read@.len() == layout.opens@.len(),
    ensures
        choice_views(r@) == opened_rows_spec(*layout, read@, tpm, luks_initramfs),
{
    let encrypted_root = layout.opens_the_root();
    let keyfile_root = opens_root_by_key(&layout.opens);
    let said = keep_said(read);
    let keep = if keyfile_root {
        Choice::new(copy::OPENED_KEEP, copy::OPENED_ROOT_KEYFILE).unavailable()
    } else {
        Choice::new(copy::OPENED_KEEP, said.as_str())
    };
    let unread = unread_why(read);
    let enrolled = enrolled_any(read);
    let tpm_choice = if !tpm {
        Choice::new(copy::OPENED_TPM2, copy::NO_TPM).unavailable()
    } else if !encrypted_root {
        Choice::new(copy::OPENED_TPM2, copy::OPENED_KEYFILE_PLAIN).unavailable()
    } else if let Some(why) = unread {
        Choice::new(copy::OPENED_TPM2, why.as_str()).unavailable()
    } else if enrolled {
        Choice::new(copy::OPENED_TPM2, copy::OPENED_TPM2_HAS).unavailable()
    } else if keyfile_root {
        Choice::new(copy::OPENED_TPM2, copy::OPENED_ROOT_KEYFILE).unavailable()
    } else {
        Choice::new(copy::OPENED_TPM2, copy::OPENED_TPM2_COST)
    };
    let mut rows: Vec<Choice> = Vec::new();
    rows.push(keep);
    rows.push(tpm_choice);
    let ghost base = choice_views(rows@);
    proof {
        let er = open_targets(layout.opens@).contains("/"@);
        assert(choice_view(keep) == (if keyfile_root {
            (copy::OPENED_KEEP@, copy::OPENED_ROOT_KEYFILE@, false)
        } else {
            (copy::OPENED_KEEP@, keep_detail(read@), true)
        }));
        assert(choice_view(tpm_choice) == tpm_row(tpm, er, first_unread(read@, 0), any_enrolled(read@), keyfile_root));
        assert(base =~= seq![choice_view(keep), choice_view(tpm_choice)]);
        lemma_add_from_in(layout.opens@, 0);
    }
    match first_data_volume(&layout.opens) {
        Some(k) => {
            let detail = match &read[k] {
                Ok(s) => cat3(copy::OPENED_ADD_KEY_COST, "; ", cat(crate::text::decimal(s.keys.len() as u64).as_str(), " slots now").as_str()),
                Err(_) => owned(copy::OPENED_ADD_KEY_COST),
            };
            let row = if encrypted_root {
                Choice::new(copy::OPENED_ADD_KEY, detail.as_str())
            } else {
                Choice::new(copy::OPENED_ADD_KEY, copy::OPENED_KEYFILE_PLAIN).unavailable()
            };
            rows.push(row);
            assert(choice_view(row) == add_row(encrypted_root, read@[k as int]));
            assert(choice_views(rows@) =~= base.push(choice_view(row)));
        },
        None => {},
    }
    let ghost kept = choice_views(rows@);
    if encrypted_root && !luks_initramfs {
        let mut out: Vec<Choice> = Vec::new();
        let mut i: usize = 0;
        while i < rows.len()
            invariant
                i <= rows@.len(),
                kept == choice_views(rows@),
                choice_views(out@) == kept.take(i as int).map_values(|r: (Seq<char>, Seq<char>, bool)| no_initramfs(r)),
            decreases rows@.len() - i,
        {
            let row = Choice::new(rows[i].label.as_str(), copy::NO_LUKS_INITRAMFS).unavailable();
            let ghost prior = out@;
            out.push(row);
            assert(choice_views(out@) =~= choice_views(prior).push(choice_view(row)));
            assert(kept.take(i as int + 1).map_values(|r: (Seq<char>, Seq<char>, bool)| no_initramfs(r)) =~= kept.take(
                i as int,
            ).map_values(|r: (Seq<char>, Seq<char>, bool)| no_initramfs(r)).push(no_initramfs(kept[i as int])));
            i = i + 1;
        }
        assert(kept.take(i as int) =~= kept);
        out
    } else {
        rows
    }
}


/// The first row from `k` on that carries `label`.
pub open spec fn label_from(rows: Seq<(Seq<char>, Seq<char>, bool)>, label: Seq<char>, k: int) -> Option<usize>
    decreases rows.len() - k,
{
    if k < 0 || k >= rows.len() {
        None
    } else if rows[k].0 == label {
        Some(k as usize)
    } else {
        label_from(rows, label, k + 1)
    }
}

/// Which of `kind_names` is `kind`.
pub open spec fn kind_at(kind: Seq<char>) -> Option<usize> {
    if kind == NONE@ {
        Some(0)
    } else if kind == "tpm2-luks"@ {
        Some(1)
    } else if kind == "luks-passphrase"@ {
        Some(2)
    } else if kind == "tpm2-luks-passphrase"@ {
        Some(3)
    } else {
        None
    }
}

/// The rows and the chosen one of the encryption row: the opened headers
/// once the layout opens a container, keeping the answer `held` had where
/// that is still offered and keeping what is there otherwise; the kinds
/// before that, with the one `held` was written as.
pub open spec fn encryption_row_spec(
    layout: Option<CustomLayout>,
    held: Seq<char>,
    read: Seq<Result<Slots, String>>,
    tpm: bool,
    luks_initramfs: bool,
) -> (Seq<(Seq<char>, Seq<char>, bool)>, Option<usize>) {
    if layout is Some && layout->0.opens@.len() > 0 {
        let rows = opened_rows_spec(layout->0, read, tpm, luks_initramfs);
        let at = match label_from(rows, opened_label(opened_of(held)), 0) {
            Some(i) => Some(i),
            None => label_from(rows, copy::OPENED_KEEP@, 0),
        };
        (rows, at)
    } else {
        (
            kinds_spec().map_values(|row: (Seq<char>, Seq<char>, Seq<char>)| kind_row(row, tpm, luks_initramfs)),
            kind_at(written_spec(held)),
        )
    }
}

fn position_of(rows: &Vec<Choice>, label: &str) -> (r: Option<usize>)
    ensures
        r == label_from(choice_views(rows@), label@, 0),
{
    let ghost cv = choice_views(rows@);
    let mut i: usize = 0;
    while i < rows.len()
        invariant
            i <= rows@.len(),
            cv == choice_views(rows@),
            label_from(cv, label@, 0) == label_from(cv, label@, i as int),
        decreases rows@.len() - i,
    {
        assert(cv[i as int].0 == rows@[i as int].label@);
        if same(rows[i].label.as_str(), label) {
            return Some(i);
        }
        i = i + 1;
    }
    None
}

/// The encryption row, which is the kinds until the layout opens a container
/// and what the opened headers hold after that. `held` is the row being
/// replaced, so a layout edited again keeps the answer it had; `read` is
/// each opened container's header, as `opened_rows` takes them.
pub fn encryption_row(
    layout: Option<&CustomLayout>,
    held: &Field,
    read: &[Result<Slots, String>],
    tpm: bool,
    luks_initramfs: bool,
) -> (r: Field)
    requires
        layout matches Some(l) ==> read@.len() == l.opens@.len(),
    ensures
        r.kind == crate::ui::Kind::Pick,
        r.label@ == copy::ROW_ENCRYPTION@,
        (choice_views(r.choices@), r.chosen) == encryption_row_spec(
            layout_opt(layout),
            field_value(*held),
            read@,
            tpm,
            luks_initramfs,
        ),
{
    let value = held.value();
    match layout {
        Some(l) => if l.opens.len() > 0 {
            let chosen = Opened::of(value.as_str());
            let rows = opened_rows(l, read, tpm, luks_initramfs);
            let at = match position_of(&rows, chosen.label()) {
                Some(i) => Some(i),
                None => position_of(&rows, copy::OPENED_KEEP),
            };
            return Field::pick(copy::ROW_ENCRYPTION, rows, at);
        },
        None => {},
    }
    let kind = written(value.as_str());
    let at = if same(kind, NONE) {
        Some(0)
    } else if same(kind, "tpm2-luks") {
        Some(1)
    } else if same(kind, "luks-passphrase") {
        Some(2)
    } else if same(kind, "tpm2-luks-passphrase") {
        Some(3)
    } else {
        None
    };
    Field::pick(copy::ROW_ENCRYPTION, kinds(tpm, luks_initramfs), at)
}


/// The first option from `k` on that can be picked and carries `label`.
pub open spec fn offered_from(options: Seq<(Seq<char>, Seq<char>, bool)>, label: Seq<char>, k: int) -> Option<usize>
    decreases options.len() - k,
{
    if k < 0 || k >= options.len() {
        None
    } else if options[k].2 && options[k].0 == label {
        Some(k as usize)
    } else {
        offered_from(options, label, k + 1)
    }
}

/// The answer a container's row opens on where the old system held its key.
pub open spec fn default_at_spec(found: Seq<(String, OldKey)>, device: Seq<char>, options: Seq<(Seq<char>, Seq<char>, bool)>) -> Option<usize> {
    match crate::text::position(found_devices(found), device) {
        None => None,
        Some(i) => if found[i].1.target@.len() == 0 {
            None
        } else {
            offered_from(options, copy::open_at_spec(found[i].1.target@), 0)
        },
    }
}

impl Discovered {
    /// The answer a container's row opens on where the old system held its
    /// key: the mount point the old fstab gives it, and nothing where the
    /// fstab does not name one or names one the editor does not offer.
    /// `None` leaves the row on `leave unchanged`, because opening a
    /// container as `/` on a guess is how the new system lands on the old
    /// `/var`.
    pub fn default_at(&self, partition: &Partition, options: &[Choice]) -> (r: Option<usize>)
        ensures
            r == default_at_spec(self.found@, partition.device@, choice_views(options@)),
    {
        let mut i: usize = 0;
        while i < self.found.len()
            invariant
                i <= self.found@.len(),
                forall|j: int| 0 <= j < i ==> found_devices(self.found@)[j] != partition.device@,
            decreases self.found@.len() - i,
        {
            if same(self.found[i].0.as_str(), partition.device.as_str()) {
                proof {
                    crate::text::lemma_position(found_devices(self.found@), partition.device@, i as int);
                }
                let target = &self.found[i].1.target;
                if target.unicode_len() == 0 {
                    return None;
                }
                let want = copy::open_at(target.as_str());
                let ghost cv = choice_views(options@);
                assert(default_at_spec(self.found@, partition.device@, cv) == offered_from(cv, want@, 0));
                let mut k: usize = 0;
                while k < options.len()
                    invariant
                        k <= options@.len(),
                        cv == choice_views(options@),
                        default_at_spec(self.found@, partition.device@, cv) == offered_from(cv, want@, 0),
                        offered_from(cv, want@, 0) == offered_from(cv, want@, k as int),
                    decreases options@.len() - k,
                {
                    assert(cv[k as int] == choice_view(options@[k as int]));
                    if options[k].available && same(options[k].label.as_str(), want.as_str()) {
                        return Some(k);
                    }
                    k = k + 1;
                }
                return None;
            }
            i = i + 1;
        }
        proof {
            crate::text::lemma_position(found_devices(self.found@), partition.device@, i as int);
        }
        None
    }
}

/// What a failure says once a key was added: the slot is in the header and
/// the key file that would have used it may not be written, so the machine's
/// way back is the key it had before.
pub open spec fn naming_added_spec(err: Seq<char>, added: Seq<Seq<char>>) -> Seq<char> {
    if added.len() == 0 {
        err
    } else {
        err + "; a key was added to "@ + join_spec(added, ", "@) + " and the install did not finish"@
    }
}

pub fn naming_added(err: String, added: &Vec<String>) -> (r: String)
    ensures
        r@ == naming_added_spec(err@, views(added@)),
{
    if added.len() == 0 {
        err
    } else {
        cat3(cat(err.as_str(), "; a key was added to ").as_str(), join(added, ", ").as_str(), " and the install did not finish")
    }
}

/// An EFI system partition: FAT, with the ESP's GPT type or its MBR one.
pub open spec fn is_esp_spec(p: Partition) -> bool {
    (p.fstype@ == "vfat"@ || p.fstype@ == "fat"@ || p.fstype@ == "fat32"@) && (crate::text::same_ignoring_case(
        p.parttype@,
        "c12a7328-f81f-11d2-ba4b-00a0c93ec93b"@,
    ) || crate::text::same_ignoring_case(p.parttype@, "0xef"@))
}

pub fn is_esp(partition: &Partition) -> (r: bool)
    ensures
        r == is_esp_spec(*partition),
{
    is_fat(partition.fstype.as_str()) && (crate::text::eq_ignore_case(
        partition.parttype.as_str(),
        "c12a7328-f81f-11d2-ba4b-00a0c93ec93b",
    ) || crate::text::eq_ignore_case(partition.parttype.as_str(), "0xef"))
}

/// How the walk mounts a filesystem it reads: read-only, and without
/// replaying a journal where the filesystem keeps one.
pub fn mount_options(fstype: &str) -> (r: &'static str)
    ensures
        r@ == (if linux_fs(fstype@) {
            "ro,norecovery"@
        } else {
            "ro"@
        }),
{
    if is_linux_fs(fstype) {
        "ro,norecovery"
    } else {
        "ro"
    }
}

impl Answers {
    /// The answers the form holds. Only reached where `short_of` is empty,
    /// so every value here is one somebody typed or chose.
    pub fn of(fields: &[Field], layout: Option<CustomLayout>) -> (r: Answers)
        requires
            fields@.len() > ROW_SIZE,
        ensures
            ({
                let vals = field_values(fields@);
                &&& r.disk@ == vals[ROW_DISK as int]
                &&& r.hostname@ == vals[ROW_HOSTNAME as int]
                &&& r.user@ == vals[ROW_ACCOUNT as int]
                &&& r.password@ == vals[ROW_PASSWORD as int]
                &&& r.encryption.kind@ == written_spec(vals[ROW_ENCRYPTION as int])
                &&& r.encryption.passphrase@ == vals[ROW_PASSPHRASE as int]
                &&& data_view(r.data) == (if layout is Some {
                    (Seq::<char>::empty(), Seq::<char>::empty(), false)
                } else {
                    chose_spec(vals[ROW_DATA as int], vals[ROW_SIZE as int])
                })
                &&& r.opened == (if layout matches Some(l) && l.opens@.len() > 0 {
                    opened_of(vals[ROW_ENCRYPTION as int])
                } else {
                    Opened::Keep
                })
                &&& r.layout == layout
            }),
    {
        let ghost vals = field_values(fields@);
        let enc = fields[ROW_ENCRYPTION].value();
        let data_row = fields[ROW_DATA].value();
        let size = fields[ROW_SIZE].value();
        assert(vals[ROW_ENCRYPTION as int] == enc@ && vals[ROW_DATA as int] == data_row@ && vals[ROW_SIZE as int] == size@);
        let data = match &layout {
            Some(_) => Data::default(),
            None => chose(data_row.as_str(), size.as_str()),
        };
        let opened = match &layout {
            Some(l) => if l.opens.len() > 0 {
                Opened::of(enc.as_str())
            } else {
                Opened::Keep
            },
            None => Opened::Keep,
        };
        let disk = fields[ROW_DISK].value();
        let hostname = fields[ROW_HOSTNAME].value();
        let user = fields[ROW_ACCOUNT].value();
        let password = fields[ROW_PASSWORD].value();
        let passphrase = fields[ROW_PASSPHRASE].value();
        Answers {
            disk,
            hostname,
            user,
            password,
            encryption: Encryption { kind: owned(written(enc.as_str())), passphrase },
            data,
            layout,
            opened,
        }
    }
}


/// The name a crypttab line opens: its first field, empty for a blank line.
pub open spec fn first_word(line: Seq<char>) -> Seq<char> {
    if words_spec(line).len() > 0 {
        words_spec(line)[0]
    } else {
        Seq::empty()
    }
}

/// The lines of an old crypttab this install leaves alone: every one whose
/// name is not one of `ours`.
pub open spec fn kept_lines(held: Seq<Seq<char>>, ours: Seq<Seq<char>>) -> Seq<Seq<char>>
    decreases held.len(),
{
    if held.len() == 0 {
        Seq::empty()
    } else {
        kept_lines(held.drop_last(), ours) + if ours.contains(first_word(held.last())) {
            Seq::empty()
        } else {
            seq![held.last()]
        }
    }
}

pub open spec fn pair_firsts(v: Seq<(String, String)>) -> Seq<Seq<char>> {
    v.map_values(|p: (String, String)| p.0@)
}

pub open spec fn pair_seconds(v: Seq<(String, String)>) -> Seq<Seq<char>> {
    v.map_values(|p: (String, String)| p.1@)
}

/// The installed system's crypttab: what was already there, minus any line
/// for a name this install decides, plus this install's lines; nothing where
/// that is no line at all, so a deployment with no crypttab does not gain an
/// empty one.
pub open spec fn merged_spec(held: Seq<char>, lines: Seq<(String, String)>) -> Option<Seq<char>> {
    let out = kept_lines(lines_spec(held), pair_firsts(lines)) + pair_seconds(lines);
    if out.len() == 0 {
        None
    } else {
        Some(join_spec(out, "\n"@) + "\n"@)
    }
}

proof fn lemma_kept_lines(held: Seq<Seq<char>>, ours: Seq<Seq<char>>)
    ensures
        forall|i: int| 0 <= i < kept_lines(held, ours).len() ==> !ours.contains(first_word(#[trigger] kept_lines(held, ours)[i]))
            && held.contains(kept_lines(held, ours)[i]),
        forall|h: Seq<char>| #[trigger] held.contains(h) && !ours.contains(first_word(h)) ==> kept_lines(held, ours).contains(h),
    decreases held.len(),
{
    if held.len() > 0 {
        let front = held.drop_last();
        lemma_kept_lines(front, ours);
        let pre = kept_lines(front, ours);
        let k = kept_lines(held, ours);
        assert forall|i: int| 0 <= i < k.len() implies !ours.contains(first_word(#[trigger] k[i])) && held.contains(k[i]) by {
            if i < pre.len() {
                assert(k[i] == pre[i]);
                let j = choose|j: int| 0 <= j < front.len() && front[j] == pre[i];
                assert(held[j] == front[j]);
            } else {
                assert(k[i] == held.last());
                assert(held[held.len() - 1] == held.last());
            }
        }
        assert forall|h: Seq<char>| #[trigger] held.contains(h) && !ours.contains(first_word(h)) implies k.contains(h) by {
            let j = choose|j: int| 0 <= j < held.len() && held[j] == h;
            let tail = if ours.contains(first_word(held.last())) { Seq::<Seq<char>>::empty() } else { seq![held.last()] };
            assert(k == pre + tail);
            if j < held.len() - 1 {
                assert(front[j] == h);
                assert(front.contains(h));
                assert(pre.contains(h));
                let w = choose|w: int| 0 <= w < pre.len() && pre[w] == h;
                assert(k[w] == h);
            } else {
                assert(k[pre.len() as int] == h);
            }
        }
    }
}

/// The merged crypttab keeps every line of the old one that opens a name
/// this install does not write, drops every line that opens one it does, and
/// ends with this install's own lines, so each name it writes is opened on
/// its line and on no old one. With nothing kept and nothing written there
/// is no crypttab at all.
pub proof fn lemma_merge_replaces_the_names_written(held: Seq<char>, lines: Seq<(String, String)>)
    ensures
        ({
            let old = lines_spec(held);
            let ours = pair_firsts(lines);
            match merged_spec(held, lines) {
                Some(text) => exists|out: Seq<Seq<char>>|
                    #![trigger join_spec(out, "\n"@)]
                    text == join_spec(out, "\n"@) + "\n"@ && out.len() >= lines.len() && out.skip(out.len() - lines.len())
                        == pair_seconds(lines) && (forall|i: int|
                        0 <= i < out.len() - lines.len() ==> !ours.contains(first_word(#[trigger] out[i])) && old.contains(out[i]))
                        && (forall|h: Seq<char>|
                        #[trigger] old.contains(h) && !ours.contains(first_word(h)) ==> out.take(out.len() - lines.len()).contains(h)),
                None => lines.len() == 0 && forall|h: Seq<char>| #[trigger] old.contains(h) ==> ours.contains(first_word(h)),
            }
        }),
{
    let old = lines_spec(held);
    let ours = pair_firsts(lines);
    lemma_kept_lines(old, ours);
    let k = kept_lines(old, ours);
    let out = k + pair_seconds(lines);
    assert(out.skip(out.len() - lines.len()) =~= pair_seconds(lines));
    assert(out.take(out.len() - lines.len()) =~= k);
    assert forall|i: int| 0 <= i < out.len() - lines.len() implies !ours.contains(first_word(#[trigger] out[i])) && old.contains(out[i]) by {
        assert(out[i] == k[i]);
    }
    match merged_spec(held, lines) {
        Some(text) => {
            assert(text == join_spec(out, "\n"@) + "\n"@);
        },
        None => {
            assert forall|h: Seq<char>| #[trigger] old.contains(h) implies ours.contains(first_word(h)) by {
                if !ours.contains(first_word(h)) {
                    assert(k.contains(h));
                }
            }
        },
    }
}

pub fn merge_crypttab(held: &str, lines: &Vec<(String, String)>) -> (r: Option<String>)
    ensures
        string_opt_view(r) == merged_spec(held@, lines@),
{
    let mut ours: Vec<String> = Vec::new();
    let mut i: usize = 0;
    while i < lines.len()
        invariant
            i <= lines@.len(),
            views(ours@) == pair_firsts(lines@).take(i as int),
        decreases lines@.len() - i,
    {
        let ghost before = views(ours@);
        ours.push(lines[i].0.clone());
        assert(views(ours@) =~= before.push(lines@[i as int].0@));
        assert(pair_firsts(lines@).take(i as int + 1) =~= pair_firsts(lines@).take(i as int).push(lines@[i as int].0@));
        i = i + 1;
    }
    assert(pair_firsts(lines@).take(i as int) =~= pair_firsts(lines@));
    let held_lines = crate::text::lines(held);
    let mut out: Vec<String> = Vec::new();
    let mut k: usize = 0;
    while k < held_lines.len()
        invariant
            k <= held_lines@.len(),
            views(held_lines@) == lines_spec(held@),
            views(ours@) == pair_firsts(lines@),
            views(out@) == kept_lines(views(held_lines@).take(k as int), pair_firsts(lines@)),
        decreases held_lines@.len() - k,
    {
        assert(views(held_lines@).take(k as int + 1).drop_last() =~= views(held_lines@).take(k as int));
        assert(views(held_lines@).take(k as int + 1).last() == held_lines@[k as int]@);
        let ws = words(held_lines[k].as_str());
        let name = if ws.len() > 0 {
            owned(ws[0].as_str())
        } else {
            String::new()
        };
        assert(name@ == first_word(held_lines@[k as int]@));
        let ghost before = views(out@);
        if !crate::layout::listed(ours.as_slice(), name.as_str()) {
            out.push(held_lines[k].clone());
            assert(views(out@) =~= before.push(held_lines@[k as int]@));
        }
        k = k + 1;
    }
    assert(views(held_lines@).take(k as int) =~= views(held_lines@));
    let ghost kept = views(out@);
    let mut j: usize = 0;
    while j < lines.len()
        invariant
            j <= lines@.len(),
            views(out@) == kept + pair_seconds(lines@).take(j as int),
        decreases lines@.len() - j,
    {
        let ghost before = views(out@);
        out.push(lines[j].1.clone());
        assert(views(out@) =~= before.push(lines@[j as int].1@));
        assert(pair_seconds(lines@).take(j as int + 1) =~= pair_seconds(lines@).take(j as int).push(lines@[j as int].1@));
        j = j + 1;
    }
    assert(pair_seconds(lines@).take(j as int) =~= pair_seconds(lines@));
    if out.len() == 0 {
        None
    } else {
        Some(cat(join(&out, "\n").as_str(), "\n"))
    }
}

} // verus!
