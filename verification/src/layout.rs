//! Where everything sits in a repository, stated once. The shape is the tool's
//! own and is not configurable: every repository looking alike is what lets a
//! stranger read one, and what lets a diagnostic name a path outright.
//!
//! Paths are plain strings here, joined the way `Path::join` joins them.

use crate::text::{cat, cat3, ends_with, is_prefix, is_suffix, owned, same, starts_with, strip_suffix};
use vstd::prelude::*;

verus! {

/// Vendored and authored modules, one directory apiece.
pub const MODULES: &'static str = "modules";
/// Everything the tool writes and `verify` byte-compares. Tracked.
pub const GENERATED: &'static str = "generated";
/// Local exports, caches and scratch. Ignored, and nothing here is read back
/// as a declaration.
pub const OUT: &'static str = "out";
/// Repository key material: committed public halves and ignored private halves.
pub const KEYS: &'static str = "keys";
pub const PUBLIC_KEYS: &'static str = "public";
pub const PRIVATE_KEYS: &'static str = "private";

/// A module's overlay tree, staged into the image by the collector.
pub const OVERLAY: &'static str = "files";

/// GitHub's path, not this repository's choice.
pub const WORKFLOW_DIR: &'static str = ".github/workflows";

/// Repo context, not an image, and the file whose presence marks a root.
pub const REPO_FILE: &'static str = "repo.kdl";
/// An image file with no name in front of it.
pub const IMAGE_FILE: &'static str = "image.kdl";
/// What names the rest. The name in front is decorative.
pub const IMAGE_SUFFIX: &'static str = ".image.kdl";
/// What a module declares about itself.
pub const MODULE_FILE: &'static str = "module.kdl";
/// What `copy module` writes beside a vendored module.kdl, never into it.
pub const RECORD_FILE: &'static str = "provenance.kdl";

/// Where the `tect` build stage copies the binary from.
pub const MOUNTED: &'static str = "out/tect";
/// Where a fetched collection is unpacked.
pub const SOURCES_CACHE: &'static str = "out/sources";
/// What a fetched tree hashed to.
pub const STAMPS: &'static str = "out/remote-modules";

/// What the generated Containerfile is called.
pub const CONTAINERFILE: &'static str = "Containerfile";

/// The one directory under `generated/` that belongs to no image.
pub const LIB: &'static str = "lib";

/// Mandatory access control policy a module ships: which directory holds it,
/// what marks a file in there as policy, and the capability that says the
/// image has that MAC.
pub struct Policy {
    pub dir: &'static str,
    /// The suffix a policy source carries, or nothing where the filename is
    /// itself the identifier.
    pub ext: Option<&'static str>,
    pub capability: &'static str,
}

/// SELinux: `selinux/*.te`.
pub fn selinux() -> (r: Policy)
    ensures
        r.dir@ == "selinux"@,
        r.ext matches Some(e) && e@ == "te"@,
        r.capability@ == "selinux-policy"@,
{
    Policy { dir: "selinux", ext: Some("te"), capability: "selinux-policy" }
}

/// AppArmor names a profile by its filename, so nothing is stripped and no
/// suffix is expected.
pub fn apparmor() -> (r: Policy)
    ensures
        r.dir@ == "apparmor"@,
        r.ext is None,
        r.capability@ == "apparmor-policy"@,
{
    Policy { dir: "apparmor", ext: None, capability: "apparmor-policy" }
}

/// Whether a file named `name` in the policy directory is policy.
pub open spec fn policy_takes(ext: Option<&'static str>, name: Seq<char>) -> bool {
    match ext {
        Some(e) => is_suffix("."@ + e@, name),
        None => true,
    }
}

impl Policy {
    /// Whether a file named `name` in this policy's directory is a source of
    /// it.
    pub fn takes(&self, name: &str) -> (r: bool)
        ensures
            r == policy_takes(self.ext, name@),
    {
        match self.ext {
            Some(ext) => {
                let dotted = cat(".", ext);
                ends_with(name, dotted.as_str())
            },
            None => true,
        }
    }

    /// The policy sources one module ships, sorted so two runs emit the same
    /// script: of `names`, the regular files in its policy directory, the
    /// ones this policy takes. A subdirectory is not a profile.
    pub fn files(&self, names: &Vec<String>) -> (r: Vec<String>)
        ensures
            crate::text::ascending(crate::text::views(r@)),
            forall|x: Seq<char>| #[trigger] crate::text::views(r@).contains(x) <==> (crate::text::views(names@).contains(x)
                && policy_takes(self.ext, x)),
    {
        let mut kept: Vec<String> = Vec::new();
        let mut i: usize = 0;
        while i < names.len()
            invariant
                i <= names@.len(),
                forall|x: Seq<char>| #[trigger] crate::text::views(kept@).contains(x) <==> (crate::text::views(names@).take(
                    i as int,
                ).contains(x) && policy_takes(self.ext, x)),
            decreases names@.len() - i,
        {
            let ghost before = crate::text::views(kept@);
            let ghost seen = crate::text::views(names@).take(i as int);
            let ghost next = crate::text::views(names@).take(i as int + 1);
            assert(next =~= seen.push(names@[i as int]@));
            if self.takes(names[i].as_str()) {
                kept.push(names[i].clone());
                assert(crate::text::views(kept@) =~= before.push(names@[i as int]@));
                assert forall|x: Seq<char>| #[trigger] crate::text::views(kept@).contains(x) <==> (next.contains(x)
                    && policy_takes(self.ext, x)) by {
                    if next.contains(x) && x != names@[i as int]@ {
                        let k = choose|k: int| 0 <= k < next.len() && next[k] == x;
                        assert(seen[k] == x);
                    }
                    if seen.contains(x) {
                        let k = choose|k: int| 0 <= k < seen.len() && seen[k] == x;
                        assert(next[k] == x);
                    }
                    if before.contains(x) {
                        let k = choose|k: int| 0 <= k < before.len() && before[k] == x;
                        assert(crate::text::views(kept@)[k] == x);
                    }
                    if crate::text::views(kept@).contains(x) && x != names@[i as int]@ {
                        let k = choose|k: int| 0 <= k < crate::text::views(kept@).len() && crate::text::views(kept@)[k] == x;
                        assert(before[k] == x);
                    }
                    if x == names@[i as int]@ {
                        assert(next[i as int] == x);
                        assert(crate::text::views(kept@)[before.len() as int] == x);
                    }
                }
            } else {
                assert forall|x: Seq<char>| #[trigger] crate::text::views(kept@).contains(x) <==> (next.contains(x)
                    && policy_takes(self.ext, x)) by {
                    if next.contains(x) && x != names@[i as int]@ {
                        let k = choose|k: int| 0 <= k < next.len() && next[k] == x;
                        assert(seen[k] == x);
                    }
                    if seen.contains(x) {
                        let k = choose|k: int| 0 <= k < seen.len() && seen[k] == x;
                        assert(next[k] == x);
                    }
                }
            }
            i = i + 1;
        }
        assert(crate::text::views(names@).take(i as int) =~= crate::text::views(names@));
        crate::text::sorted_distinct(&kept)
    }
}

/// The gated directory names, widest first, each with the families it is
/// taken on.
pub open spec fn family_table() -> Seq<(Seq<char>, Seq<Seq<char>>)> {
    seq![
        ("deb"@, seq!["debian"@, "ubuntu"@]),
        ("fedora"@, seq!["fedora"@]),
        ("debian"@, seq!["debian"@]),
        ("ubuntu"@, seq!["ubuntu"@]),
    ]
}

/// The gated directories taken on `family`, among those `present`, in table
/// order.
pub open spec fn family_dirs_spec(present: Seq<Seq<char>>, family: Seq<char>) -> Seq<Seq<char>> {
    family_table().filter(
        |row: (Seq<char>, Seq<Seq<char>>)| row.1.contains(family) && present.contains(row.0),
    ).map_values(|row: (Seq<char>, Seq<Seq<char>>)| row.0)
}

pub(crate) fn listed(present: &[String], name: &str) -> (r: bool)
    ensures
        r == crate::text::views(present@).contains(name@),
{
    let mut i: usize = 0;
    while i < present.len()
        invariant
            i <= present@.len(),
            forall|j: int| 0 <= j < i ==> present@[j]@ != name@,
        decreases present@.len() - i,
    {
        if same(present[i].as_str(), name) {
            assert(crate::text::views(present@)[i as int] == name@);
            return true;
        }
        i = i + 1;
    }
    proof {
        if crate::text::views(present@).contains(name@) {
            let j = choose|j: int| 0 <= j < present@.len() && crate::text::views(present@)[j] == name@;
            assert(present@[j]@ == name@);
        }
    }
    false
}

/// The ones this module ships for this family, in the order they are taken.
/// `present` names the directories the module holds. Empty where the image
/// declares no family, so a repository that never names one is never asked to.
pub fn family_dirs(present: &[String], family: &str) -> (r: Vec<&'static str>)
    ensures
        r@.map_values(|s: &'static str| s@) == family_dirs_spec(crate::text::views(present@), family@),
{
    let ghost p = crate::text::views(present@);
    let ghost t = family_table();
    let deb = (same(family, "debian") || same(family, "ubuntu")) && listed(present, "deb");
    let fedora = same(family, "fedora") && listed(present, "fedora");
    let debian = same(family, "debian") && listed(present, "debian");
    let ubuntu = same(family, "ubuntu") && listed(present, "ubuntu");
    let mut out: Vec<&'static str> = Vec::new();
    if deb {
        out.push("deb");
    }
    if fedora {
        out.push("fedora");
    }
    if debian {
        out.push("debian");
    }
    if ubuntu {
        out.push("ubuntu");
    }
    proof {
        reveal_with_fuel(Seq::filter, 5);
        let pred = |row: (Seq<char>, Seq<Seq<char>>)| row.1.contains(family@) && p.contains(row.0);
        assert(t.len() == 4);
        assert(seq!["debian"@, "ubuntu"@].contains(family@) <==> (family@ == "debian"@ || family@ == "ubuntu"@)) by {
            if family@ == "ubuntu"@ {
                assert(seq!["debian"@, "ubuntu"@][1] == "ubuntu"@);
            }
            if family@ == "debian"@ {
                assert(seq!["debian"@, "ubuntu"@][0] == "debian"@);
            }
        }
        assert(seq!["fedora"@].contains(family@) <==> family@ == "fedora"@) by {
            if family@ == "fedora"@ {
                assert(seq!["fedora"@][0] == "fedora"@);
            }
        }
        assert(seq!["debian"@].contains(family@) <==> family@ == "debian"@) by {
            if family@ == "debian"@ {
                assert(seq!["debian"@][0] == "debian"@);
            }
        }
        assert(seq!["ubuntu"@].contains(family@) <==> family@ == "ubuntu"@) by {
            if family@ == "ubuntu"@ {
                assert(seq!["ubuntu"@][0] == "ubuntu"@);
            }
        }
        assert(t.take(1).filter(pred) =~= t.take(0).filter(pred) + (if pred(t[0]) { seq![t[0]] } else { Seq::empty() })) by {
            assert(t.take(1).drop_last() =~= t.take(0));
        }
        assert(t.take(2).drop_last() =~= t.take(1));
        assert(t.take(3).drop_last() =~= t.take(2));
        assert(t.take(4).drop_last() =~= t.take(3));
        assert(t.take(4) =~= t);
        assert(t.take(0) =~= Seq::<(Seq<char>, Seq<Seq<char>>)>::empty());
        assert(out@.map_values(|s: &'static str| s@) =~= family_dirs_spec(p, family@));
    }
    out
}

/// Whether a root file holds images. An allowlist rather than "everything but
/// repo.kdl", so a root `.kdl` that is neither is reported instead of parsed.
pub fn is_image_file(name: &str) -> (r: bool)
    ensures
        r == (name@ == IMAGE_FILE@ || is_suffix(IMAGE_SUFFIX@, name@)),
{
    same(name, IMAGE_FILE) || ends_with(name, IMAGE_SUFFIX)
}

/// `s` with every trailing `p` taken off.
pub open spec fn trim_end_matches(s: Seq<char>, p: Seq<char>) -> Seq<char>
    decreases s.len(),
{
    if p.len() > 0 && is_suffix(p, s) {
        trim_end_matches(s.take(s.len() - p.len()), p)
    } else {
        s
    }
}

pub fn trim_end_exec(s: &str, p: &str) -> (r: String)
    ensures
        r@ == trim_end_matches(s@, p@),
    decreases s@.len(),
{
    if p.unicode_len() > 0 {
        match strip_suffix(s, p) {
            Some(rest) => trim_end_exec(rest.as_str(), p),
            None => owned(s),
        }
    } else {
        owned(s)
    }
}

/// `s` with every leading `c` taken off.
pub open spec fn trim_start_char(s: Seq<char>, c: char) -> Seq<char>
    decreases s.len(),
{
    if s.len() > 0 && s[0] == c {
        trim_start_char(s.skip(1), c)
    } else {
        s
    }
}

pub fn trim_start_char_exec(s: &str, c: char) -> (r: String)
    ensures
        r@ == trim_start_char(s@, c),
{
    let cs = crate::text::chars_of(s);
    let mut i: usize = 0;
    assert(s@.skip(0) =~= s@);
    while i < cs.len() && cs[i] == c
        invariant
            cs@ == s@,
            i <= cs@.len(),
            trim_start_char(s@, c) == trim_start_char(s@.skip(i as int), c),
        decreases cs@.len() - i,
    {
        assert(s@.skip(i as int).skip(1) =~= s@.skip(i as int + 1));
        i = i + 1;
    }
    let n = cs.len();
    crate::text::slice(s, i, n)
}

/// What a misnamed root `.kdl` would have to be called, for the diagnostic that
/// reports one.
pub fn as_image_file(name: &str) -> (r: String)
    ensures
        r@ == trim_end_matches(name@, ".kdl"@) + IMAGE_SUFFIX@,
{
    let stem = trim_end_exec(name, ".kdl");
    cat(stem.as_str(), IMAGE_SUFFIX)
}

/// `Path::join` on plain strings: an absolute `rest` replaces `base`, and a
/// separator goes between them where `base` does not end in one.
pub open spec fn join_path(base: Seq<char>, rest: Seq<char>) -> Seq<char> {
    if rest.len() > 0 && rest[0] == '/' {
        rest
    } else if base.len() == 0 {
        rest
    } else if base.last() == '/' {
        base + rest
    } else {
        base + "/"@ + rest
    }
}

pub fn join_path_exec(base: &str, rest: &str) -> (r: String)
    ensures
        r@ == join_path(base@, rest@),
{
    proof {
        reveal_strlit("/");
    }
    if starts_with(rest, "/") {
        assert(rest@.take(1)[0] == rest@[0]);
        return owned(rest);
    }
    proof {
        if rest@.len() > 0 && rest@[0] == '/' {
            assert(rest@.take(1) =~= "/"@);
        }
    }
    let n = base.unicode_len();
    if n == 0 {
        owned(rest)
    } else if ends_with(base, "/") {
        assert(base@.skip(base@.len() - 1)[0] == base@.last());
        cat(base, rest)
    } else {
        proof {
            if base@.last() == '/' {
                assert(base@.skip(base@.len() - 1) =~= "/"@);
            }
        }
        cat3(base, "/", rest)
    }
}

pub fn modules(root: &str) -> (r: String)
    ensures
        r@ == join_path(root@, MODULES@),
{
    join_path_exec(root, MODULES)
}

/// One module's directory, by its path relative to `modules/`.
pub fn module(root: &str, dir: &str) -> (r: String)
    ensures
        r@ == join_path(join_path(root@, MODULES@), dir@),
{
    let m = modules(root);
    join_path_exec(m.as_str(), dir)
}

/// Where a public half declared at `path` lives.
pub open spec fn public_key_spec(root: Seq<char>, path: Seq<char>) -> Seq<char> {
    join_path(join_path(join_path(root, KEYS@), PUBLIC_KEYS@), trim_start_char(path, '/'))
}

/// Where a private half named `name` lives.
pub open spec fn private_key_spec(root: Seq<char>, name: Seq<char>) -> Seq<char> {
    join_path(join_path(join_path(root, KEYS@), PRIVATE_KEYS@), name)
}

pub fn public_key(root: &str, path: &str) -> (r: String)
    ensures
        r@ == public_key_spec(root@, path@),
{
    let k = join_path_exec(root, KEYS);
    let p = join_path_exec(k.as_str(), PUBLIC_KEYS);
    let rel = trim_start_char_exec(path, '/');
    join_path_exec(p.as_str(), rel.as_str())
}

pub fn private_key(root: &str, name: &str) -> (r: String)
    ensures
        r@ == private_key_spec(root@, name@),
{
    let k = join_path_exec(root, KEYS);
    let p = join_path_exec(k.as_str(), PRIVATE_KEYS);
    join_path_exec(p.as_str(), name)
}

/// The module.kdl inside it, which is the file that declares it exists.
pub fn manifest(root: &str, dir: &str) -> (r: String)
    ensures
        r@ == join_path(join_path(join_path(root@, MODULES@), dir@), MODULE_FILE@),
{
    let m = module(root, dir);
    join_path_exec(m.as_str(), MODULE_FILE)
}

pub fn generated(root: &str) -> (r: String)
    ensures
        r@ == join_path(root@, GENERATED@),
{
    join_path_exec(root, GENERATED)
}

/// Everything `generate` writes for one image, under a directory of its own.
pub fn generated_image(id: &str) -> (r: String)
    ensures
        r@ == join_path(GENERATED@, id@),
{
    join_path_exec(GENERATED, id)
}

pub fn out(root: &str) -> (r: String)
    ensures
        r@ == join_path(root@, OUT@),
{
    join_path_exec(root, OUT)
}

/// Whether a file's metadata says it holds anything: `len` is its length,
/// where it could be read.
pub fn nonempty(len: Option<u64>) -> (r: bool)
    ensures
        r == (len matches Some(n) && n > 0),
{
    match len {
        Some(n) => n > 0,
        None => false,
    }
}

/// `s` with every trailing `c` taken off.
pub open spec fn trim_end_char(s: Seq<char>, c: char) -> Seq<char>
    decreases s.len(),
{
    if s.len() > 0 && s.last() == c {
        trim_end_char(s.drop_last(), c)
    } else {
        s
    }
}

pub fn trim_end_char_exec(s: &str, c: char) -> (r: String)
    ensures
        r@ == trim_end_char(s@, c),
{
    let cs = crate::text::chars_of(s);
    let mut k: usize = cs.len();
    assert(s@.take(k as int) =~= s@);
    while k > 0 && cs[k - 1] == c
        invariant
            cs@ == s@,
            k <= cs@.len(),
            trim_end_char(s@, c) == trim_end_char(s@.take(k as int), c),
        decreases k,
    {
        assert(s@.take(k as int).drop_last() =~= s@.take(k as int - 1));
        k = k - 1;
    }
    crate::text::slice(s, 0, k)
}

} // verus!
