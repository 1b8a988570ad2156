//! What an old system's `/etc/crypttab` and `/etc/fstab` say: the containers
//! it opened, where each one's key is, and where it mounted them. Reading the
//! files and the keys they name is the program's.

use crate::install::Partition;
use crate::text::{
    cat, eq_ignore_case, is_prefix, lines, same_ignoring_case, lines_spec, owned, same, split, split_spec,
    starts_with, strip_prefix, trim, trim_spec, views, words, words_spec,
};
use vstd::prelude::*;

verus! {

/// Where one crypttab line says a container's key is, before any of it is
/// read.
#[derive(Debug, PartialEq, Eq)]
pub enum KeySource {
    /// A path inside the old system that named it.
    Inside(String),
    /// The systemd default for the volume's name, inside the old root:
    /// `/etc/cryptsetup-keys.d/<name>.key`.
    Default,
    /// A path on another filesystem, which the old system names by an
    /// fstab-style device spec.
    OnDevice { device: String, path: String },
    /// A path the old system waits for at boot (`keyfile-timeout=`), which is
    /// how removable media is read late rather than by a device spec.
    Waited,
    /// A keyscript this installer cannot run.
    Unreadable,
}

/// One line of an old system's `/etc/crypttab`.
#[derive(Debug, PartialEq, Eq)]
pub struct Crypttab {
    /// The name the container is opened as, which is what `/dev/mapper/<name>`
    /// in the old fstab refers to.
    pub name: String,
    /// The container itself, as the line says it: `UUID=<uuid>`, a by-uuid
    /// symlink, or a device path.
    pub device: String,
    pub key: KeySource,
}

/// A key source as plain values: its kind, then the device and the path
/// where it has them.
pub enum SourceV {
    Inside(Seq<char>),
    Default,
    OnDevice(Seq<char>, Seq<char>),
    Waited,
    Unreadable,
}

pub open spec fn source_view(k: KeySource) -> SourceV {
    match k {
        KeySource::Inside(p) => SourceV::Inside(p@),
        KeySource::Default => SourceV::Default,
        KeySource::OnDevice { device, path } => SourceV::OnDevice(device@, path@),
        KeySource::Waited => SourceV::Waited,
        KeySource::Unreadable => SourceV::Unreadable,
    }
}

pub open spec fn entry_view(e: Crypttab) -> (Seq<char>, Seq<char>, SourceV) {
    (e.name@, e.device@, source_view(e.key))
}

/// Whether something names a block device: a path, or one of the fstab-style
/// specs.
pub open spec fn device_spec_spec(said: Seq<char>) -> bool {
    is_prefix("/dev/"@, said) || is_prefix("UUID="@, said) || is_prefix("PARTUUID="@, said) || is_prefix(
        "LABEL="@,
        said,
    )
}

pub fn device_spec(said: &str) -> (r: bool)
    ensures
        r == device_spec_spec(said@),
{
    starts_with(said, "/dev/") || starts_with(said, "UUID=") || starts_with(said, "PARTUUID=") || starts_with(said, "LABEL=")
}

/// What comes before the first `c`: all of `s` where there is none.
pub open spec fn before_char(s: Seq<char>, c: char) -> Seq<char>
    decreases s.len(),
{
    if s.len() == 0 {
        s
    } else if s[0] == c {
        Seq::empty()
    } else {
        seq![s[0]] + before_char(s.skip(1), c)
    }
}

/// `str::split_once` on one character.
pub open spec fn split_once_spec(s: Seq<char>, c: char) -> Option<(Seq<char>, Seq<char>)> {
    if s.contains(c) {
        Some((before_char(s, c), s.skip(before_char(s, c).len() as int + 1)))
    } else {
        None
    }
}

proof fn lemma_before_char(s: Seq<char>, c: char, i: int)
    requires
        0 <= i <= s.len(),
        forall|j: int| 0 <= j < i ==> s[j] != c,
        i == s.len() || s[i] == c,
    ensures
        before_char(s, c) == s.take(i),
    decreases i,
{
    if i > 0 {
        lemma_before_char(s.skip(1), c, i - 1);
        assert(s.take(i) =~= seq![s[0]] + s.skip(1).take(i - 1));
    } else if s.len() > 0 {
        assert(s.take(0) =~= Seq::<char>::empty());
    }
}

/// Where the first `c` in `s` is, or its length where there is none.
fn first_of(s: &Vec<char>, c: char) -> (r: usize)
    ensures
        r <= s@.len(),
        forall|j: int| 0 <= j < r ==> s@[j] != c,
        r == s@.len() || s@[r as int] == c,
{
    let mut i: usize = 0;
    while i < s.len()
        invariant
            i <= s@.len(),
            forall|j: int| 0 <= j < i ==> s@[j] != c,
        decreases s@.len() - i,
    {
        if s[i] == c {
            return i;
        }
        i = i + 1;
    }
    i
}

/// The text before the first `c`.
pub fn before(s: &str, c: char) -> (r: String)
    ensures
        r@ == before_char(s@, c),
{
    let cs = crate::text::chars_of(s);
    let i = first_of(&cs, c);
    proof {
        lemma_before_char(s@, c, i as int);
    }
    crate::text::slice(s, 0, i)
}

/// The text around the first `c`.
pub fn split_once_char(s: &str, c: char) -> (r: Option<(String, String)>)
    ensures
        match split_once_spec(s@, c) {
            Some((a, b)) => r matches Some((x, y)) && x@ == a && y@ == b,
            None => r is None,
        },
{
    let cs = crate::text::chars_of(s);
    let i = first_of(&cs, c);
    proof {
        lemma_before_char(s@, c, i as int);
    }
    if i == cs.len() {
        assert(!s@.contains(c));
        None
    } else {
        assert(s@.contains(c));
        let a = crate::text::slice(s, 0, i);
        let b = crate::text::slice(s, i + 1, cs.len());
        assert(b@ =~= s@.skip(i + 1));
        Some((a, b))
    }
}

/// A `path:device` third field, where the path is relative to that device's
/// filesystem root, or `device:path[:timeout]` as Debian's `passdev` writes
/// it. The half that names a device is the device; the other is the path.
pub open spec fn on_device_spec(said: Seq<char>, passdev: bool) -> Option<SourceV> {
    match split_once_spec(said, ':') {
        None => None,
        Some((first, rest)) => if device_spec_spec(first) {
            Some(SourceV::OnDevice(first, before_char(rest, ':')))
        } else if !passdev && device_spec_spec(rest) {
            Some(SourceV::OnDevice(rest, first))
        } else {
            None
        },
    }
}

pub fn on_device(said: &str, passdev: bool) -> (r: Option<KeySource>)
    ensures
        match on_device_spec(said@, passdev) {
            Some(v) => r matches Some(k) && source_view(k) == v,
            None => r is None,
        },
{
    let (first, rest) = match split_once_char(said, ':') {
        Some(p) => p,
        None => return None,
    };
    if device_spec(first.as_str()) {
        let path = before(rest.as_str(), ':');
        Some(KeySource::OnDevice { device: first, path })
    } else if !passdev && device_spec(rest.as_str()) {
        Some(KeySource::OnDevice { device: rest, path: first })
    } else {
        None
    }
}

/// The first of `pieces` that starts with `p`, with `p` taken off.
pub open spec fn first_stripped(pieces: Seq<Seq<char>>, p: Seq<char>) -> Option<Seq<char>>
    decreases pieces.len(),
{
    if pieces.len() == 0 {
        None
    } else if is_prefix(p, pieces[0]) {
        Some(pieces[0].skip(p.len() as int))
    } else {
        first_stripped(pieces.skip(1), p)
    }
}

/// Whether any of `pieces` starts with `p`.
pub open spec fn any_prefixed(pieces: Seq<Seq<char>>, p: Seq<char>) -> bool {
    exists|i: int| 0 <= i < pieces.len() && is_prefix(p, #[trigger] pieces[i])
}

/// The word at `i`, or `fallback` where the line has fewer words.
pub open spec fn word_or(ws: Seq<Seq<char>>, i: int, fallback: Seq<char>) -> Seq<char> {
    if i < ws.len() {
        ws[i]
    } else {
        fallback
    }
}

/// Where a line's key is, from its third field and its options.
pub open spec fn key_spec(field: Seq<char>, options: Seq<char>) -> SourceV {
    let pieces = split_spec(options, ',');
    match first_stripped(pieces, "keyscript="@) {
        Some(script) => if split_spec(script, '/').last() == "passdev"@ {
            match on_device_spec(field, true) {
                Some(k) => k,
                None => SourceV::Unreadable,
            }
        } else {
            SourceV::Unreadable
        },
        None => if field == "none"@ || field == "-"@ {
            SourceV::Default
        } else {
            match on_device_spec(field, false) {
                Some(k) => k,
                None => if any_prefixed(pieces, "keyfile-timeout="@) {
                    SourceV::Waited
                } else {
                    SourceV::Inside(field)
                },
            }
        },
    }
}

/// One crypttab line: nothing for a comment, a blank line or a line with
/// fewer than two fields.
pub open spec fn line_spec(line: Seq<char>) -> Option<(Seq<char>, Seq<char>, SourceV)> {
    let ws = words_spec(trim_spec(before_char(line, '#')));
    if ws.len() < 2 {
        None
    } else {
        Some((ws[0], ws[1], key_spec(word_or(ws, 2, "none"@), word_or(ws, 3, Seq::empty()))))
    }
}

/// Every line of a crypttab that opens something, in order.
pub open spec fn entries_spec(ls: Seq<Seq<char>>) -> Seq<(Seq<char>, Seq<char>, SourceV)>
    decreases ls.len(),
{
    if ls.len() == 0 {
        Seq::empty()
    } else {
        let before = entries_spec(ls.drop_last());
        match line_spec(ls.last()) {
            Some(e) => before.push(e),
            None => before,
        }
    }
}

fn first_stripped_exec(pieces: &Vec<String>, p: &str) -> (r: Option<String>)
    ensures
        match first_stripped(views(pieces@), p@) {
            Some(s) => r matches Some(x) && x@ == s,
            None => r is None,
        },
{
    let mut i: usize = 0;
    assert(views(pieces@).skip(0) =~= views(pieces@));
    while i < pieces.len()
        invariant
            i <= pieces@.len(),
            first_stripped(views(pieces@), p@) == first_stripped(views(pieces@).skip(i as int), p@),
        decreases pieces@.len() - i,
    {
        let ghost rest = views(pieces@).skip(i as int);
        assert(rest[0] == pieces@[i as int]@);
        assert(rest.skip(1) =~= views(pieces@).skip(i as int + 1));
        match strip_prefix(pieces[i].as_str(), p) {
            Some(s) => return Some(s),
            None => {},
        }
        i = i + 1;
    }
    None
}

fn any_prefixed_exec(pieces: &Vec<String>, p: &str) -> (r: bool)
    ensures
        r == any_prefixed(views(pieces@), p@),
{
    let mut i: usize = 0;
    while i < pieces.len()
        invariant
            i <= pieces@.len(),
            forall|j: int| 0 <= j < i ==> !is_prefix(p@, #[trigger] views(pieces@)[j]),
        decreases pieces@.len() - i,
    {
        if starts_with(pieces[i].as_str(), p) {
            assert(is_prefix(p@, views(pieces@)[i as int]));
            return true;
        }
        i = i + 1;
    }
    false
}

fn key_of(field: &str, options: &str) -> (r: KeySource)
    ensures
        source_view(r) == key_spec(field@, options@),
{
    let pieces = split(options, ',');
    match first_stripped_exec(&pieces, "keyscript=") {
        Some(script) => {
            let parts = split(script.as_str(), '/');
            proof {
                crate::text::lemma_split_nonempty(script@, '/');
            }
            if same(parts[parts.len() - 1].as_str(), "passdev") {
                match on_device(field, true) {
                    Some(k) => k,
                    None => KeySource::Unreadable,
                }
            } else {
                KeySource::Unreadable
            }
        },
        None => {
            if same(field, "none") || same(field, "-") {
                KeySource::Default
            } else {
                match on_device(field, false) {
                    Some(k) => k,
                    None => if any_prefixed_exec(&pieces, "keyfile-timeout=") {
                        KeySource::Waited
                    } else {
                        KeySource::Inside(owned(field))
                    },
                }
            }
        },
    }
}

fn line_of(line: &str) -> (r: Option<Crypttab>)
    ensures
        match line_spec(line@) {
            Some(e) => r matches Some(x) && entry_view(x) == e,
            None => r is None,
        },
{
    let kept = before(line, '#');
    let t = trim(kept.as_str());
    let ws = words(t.as_str());
    if ws.len() < 2 {
        return None;
    }
    let field = if ws.len() > 2 {
        owned(ws[2].as_str())
    } else {
        owned("none")
    };
    let options = if ws.len() > 3 {
        owned(ws[3].as_str())
    } else {
        String::new()
    };
    let key = key_of(field.as_str(), options.as_str());
    Some(Crypttab { name: owned(ws[0].as_str()), device: owned(ws[1].as_str()), key })
}

/// The lines of `/etc/crypttab`, as the volumes they open and where their
/// keys are. A line naming a mechanism this installer cannot read keeps its
/// name, so the reason can say so rather than staying silent.
pub fn crypttabs(raw: &str) -> (r: Vec<Crypttab>)
    ensures
        r@.map_values(|e: Crypttab| entry_view(e)) == entries_spec(lines_spec(raw@)),
{
    let ls = lines(raw);
    let mut found: Vec<Crypttab> = Vec::new();
    let mut i: usize = 0;
    while i < ls.len()
        invariant
            i <= ls@.len(),
            views(ls@) == lines_spec(raw@),
            found@.map_values(|e: Crypttab| entry_view(e)) == entries_spec(views(ls@).take(i as int)),
        decreases ls@.len() - i,
    {
        let ghost before_view = found@.map_values(|e: Crypttab| entry_view(e));
        assert(views(ls@).take(i as int + 1).drop_last() =~= views(ls@).take(i as int));
        assert(views(ls@).take(i as int + 1).last() == ls@[i as int]@);
        match line_of(ls[i].as_str()) {
            Some(e) => {
                found.push(e);
                assert(found@.map_values(|e: Crypttab| entry_view(e)) =~= before_view.push(entry_view(found@.last())));
            },
            None => {},
        }
        i = i + 1;
    }
    assert(views(ls@).take(i as int) =~= views(ls@));
    found
}

/// Whether a crypttab line names this container: by its LUKS uuid, by the
/// by-uuid symlink to it, or by the device path itself.
pub open spec fn names_spec(said: Seq<char>, container: Partition) -> bool {
    if is_prefix("UUID="@, said) {
        container.uuid@.len() > 0 && same_ignoring_case(said.skip(5), container.uuid@)
    } else if is_prefix("/dev/disk/by-uuid/"@, said) {
        container.uuid@.len() > 0 && same_ignoring_case(said.skip(18), container.uuid@)
    } else {
        said == container.device@
    }
}

pub fn names(entry: &Crypttab, container: &Partition) -> (r: bool)
    ensures
        r == names_spec(entry.device@, *container),
{
    let said = entry.device.as_str();
    proof {
        reveal_strlit("UUID=");
        reveal_strlit("/dev/disk/by-uuid/");
    }
    if let Some(uuid) = strip_prefix(said, "UUID=") {
        return container.uuid.unicode_len() > 0 && eq_ignore_case(uuid.as_str(), container.uuid.as_str());
    }
    if let Some(uuid) = strip_prefix(said, "/dev/disk/by-uuid/") {
        return container.uuid.unicode_len() > 0 && eq_ignore_case(uuid.as_str(), container.uuid.as_str());
    }
    same(said, container.device.as_str())
}

/// Where the old system mounted a container, by the mapper name its crypttab
/// gave it: the second field of the first fstab line whose first field is
/// `/dev/mapper/<name>`. Empty where the old fstab does not say.
pub open spec fn mount_of(line: Seq<char>, mapper: Seq<char>) -> Option<Seq<char>> {
    let ws = words_spec(trim_spec(before_char(line, '#')));
    if ws.len() >= 2 && ws[0] == mapper {
        Some(ws[1])
    } else {
        None
    }
}

pub open spec fn target_in(ls: Seq<Seq<char>>, mapper: Seq<char>) -> Seq<char>
    decreases ls.len(),
{
    if ls.len() == 0 {
        Seq::empty()
    } else {
        match mount_of(ls[0], mapper) {
            Some(t) => t,
            None => target_in(ls.skip(1), mapper),
        }
    }
}

pub fn fstab_target(raw: &str, name: &str) -> (r: String)
    ensures
        r@ == target_in(lines_spec(raw@), "/dev/mapper/"@ + name@),
{
    let mapper = cat("/dev/mapper/", name);
    let ls = lines(raw);
    let mut i: usize = 0;
    assert(views(ls@).skip(0) =~= views(ls@));
    while i < ls.len()
        invariant
            i <= ls@.len(),
            views(ls@) == lines_spec(raw@),
            mapper@ == "/dev/mapper/"@ + name@,
            target_in(lines_spec(raw@), mapper@) == target_in(views(ls@).skip(i as int), mapper@),
        decreases ls@.len() - i,
    {
        let ghost rest = views(ls@).skip(i as int);
        assert(rest[0] == ls@[i as int]@);
        assert(rest.skip(1) =~= views(ls@).skip(i as int + 1));
        let kept = before(ls[i].as_str(), '#');
        let t = trim(kept.as_str());
        let ws = words(t.as_str());
        if ws.len() >= 2 && same(ws[0].as_str(), mapper.as_str()) {
            assert(mount_of(rest[0], mapper@) == Some(ws@[1]@));
            assert(rest.len() > 0);
            assert(target_in(rest, mapper@) == ws@[1]@);
            return owned(ws[1].as_str());
        }
        i = i + 1;
    }
    assert(views(ls@).skip(i as int) =~= Seq::<Seq<char>>::empty());
    String::new()
}

} // verus!
