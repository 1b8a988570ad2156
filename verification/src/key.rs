//! `create key <kind>` and `set key <kind>`: which key a module declares, what
//! a recorded public half has to look like, and the text that follows one.
//! Generating keys and writing them are the program's.

use crate::copy;
use crate::model::module::Key as Declared;
use crate::model::remote::REMOTE_DIR;
use crate::prompt::{given_text, Prompt};
use crate::text::{
    cat, cat3, cat4, cat5, is_alnum, is_prefix, join, join_spec, lines, lines_spec, owned, same,
    starts_with, to_upper, trim, trim_spec, upper_spec, views, words, words_spec,
};
use vstd::prelude::*;

verus! {

/// `String::from_utf8_lossy`: the bytes as text, each malformed sequence one
/// U+FFFD.
pub uninterp spec fn utf8_lossy(bytes: Seq<u8>) -> Seq<char>;

/// `String::from_utf8_lossy`, whose whole result is a function of the bytes.
#[verifier::external_body]
fn lossy(bytes: &[u8]) -> (r: String)
    ensures
        r@ == utf8_lossy(bytes@),
{
    String::from_utf8_lossy(bytes).into_owned()
}

/// What a recorded public half is, for each generator.
pub open spec fn wanted_spec(generator: Seq<char>, format: Seq<char>) -> Seq<char> {
    if generator == "cosign"@ {
        "a PEM public key"@
    } else if generator == "ssh-keygen"@ {
        "an OpenSSH public key line"@
    } else if format == "der"@ {
        "a DER certificate"@
    } else {
        "a "@ + upper_spec(format) + " certificate"@
    }
}

/// Whether the first word of an OpenSSH line names a key type.
pub open spec fn ssh_kind(text: Seq<char>) -> bool {
    let ws = words_spec(text);
    ws.len() > 0 && (is_prefix("ssh-"@, ws[0]) || is_prefix("ecdsa-"@, ws[0]) || is_prefix("sk-"@, ws[0]))
}

/// Whether the bytes are the public half the declaration describes.
pub open spec fn holds_spec(generator: Seq<char>, format: Seq<char>, bytes: Seq<u8>) -> bool {
    let text = utf8_lossy(bytes);
    if generator == "cosign"@ {
        is_prefix("-----BEGIN PUBLIC KEY-----"@, text)
    } else if generator == "ssh-keygen"@ {
        ssh_kind(text)
    } else if format == "der"@ {
        bytes.len() > 0 && bytes[0] == 0x30u8
    } else {
        is_prefix("-----BEGIN CERTIFICATE-----"@, text)
    }
}

/// The refusal of a file that is not the public half.
pub open spec fn not_held(kind: Seq<char>, generator: Seq<char>, wanted: Seq<char>) -> Seq<char> {
    "`key \""@ + kind + "\"` is written by `"@ + generator + "`, so the public half it records is "@
        + wanted + ", and this file is not one"@
}

/// An OpenSSH public key line is recorded for an `ssh-keygen` key exactly
/// when its first word names an OpenSSH key type: one starting `ssh-`,
/// `ecdsa-` or `sk-`.
pub proof fn lemma_ssh_lines_by_key_type(format: Seq<char>, bytes: Seq<u8>)
    ensures
        holds_spec("ssh-keygen"@, format, bytes) <==> (words_spec(utf8_lossy(bytes)).len() > 0 && {
            let first = words_spec(utf8_lossy(bytes))[0];
            ||| is_prefix("ecdsa-"@, first)
            ||| is_prefix("ssh-"@, first)
            ||| is_prefix("sk-"@, first)
        }),
{
    reveal_strlit("ssh-keygen");
    reveal_strlit("cosign");
    assert("ssh-keygen"@ != "cosign"@) by {
        assert("ssh-keygen"@[1] != "cosign"@[1]);
    }
}

/// A cosign key records a PEM public key; an openssl key in DER form records
/// bytes opening an ASN.1 sequence (0x30), and in any other form a PEM
/// certificate.
pub proof fn lemma_other_halves_by_form(format: Seq<char>, bytes: Seq<u8>)
    ensures
        holds_spec("cosign"@, format, bytes) <==> utf8_lossy(bytes).len() >= 26
            && utf8_lossy(bytes).take(26) == "-----BEGIN PUBLIC KEY-----"@,
        holds_spec("openssl"@, "der"@, bytes) <==> (bytes.len() > 0 && bytes[0] == 0x30u8),
        format != "der"@ ==> (holds_spec("openssl"@, format, bytes) <==> utf8_lossy(bytes).len() >= 27
            && utf8_lossy(bytes).take(27) == "-----BEGIN CERTIFICATE-----"@),
{
    reveal_strlit("ssh-keygen");
    reveal_strlit("cosign");
    reveal_strlit("openssl");
    reveal_strlit("-----BEGIN PUBLIC KEY-----");
    reveal_strlit("-----BEGIN CERTIFICATE-----");
    assert("openssl"@ != "cosign"@) by {
        assert("openssl"@[0] != "cosign"@[0]);
    }
    assert("openssl"@ != "ssh-keygen"@) by {
        assert("openssl"@[0] != "ssh-keygen"@[0]);
    }
}

/// Whether a file is the public half the declaration describes. A key recorded
/// in the wrong form is a build that fails a long way from here, so the shape
/// is read now rather than trusted.
pub fn holds(declared: &Declared, bytes: &[u8]) -> (r: Result<(), String>)
    ensures
        holds_spec(declared.generator@, declared.format@, bytes@) ==> r is Ok,
        !holds_spec(declared.generator@, declared.format@, bytes@) ==> (r matches Err(e) && e@ == not_held(
            declared.kind@,
            declared.generator@,
            wanted_spec(declared.generator@, declared.format@),
        )),
{
    let text = lossy(bytes);
    let generator = declared.generator.as_str();
    let format = declared.format.as_str();
    let (ok, wanted) = if same(generator, "cosign") {
        (starts_with(text.as_str(), "-----BEGIN PUBLIC KEY-----"), owned("a PEM public key"))
    } else if same(generator, "ssh-keygen") {
        let ws = words(text.as_str());
        let ok = if ws.len() > 0 {
            assert(views(ws@)[0] == ws@[0]@);
            starts_with(ws[0].as_str(), "ssh-") || starts_with(ws[0].as_str(), "ecdsa-") || starts_with(
                ws[0].as_str(),
                "sk-",
            )
        } else {
            false
        };
        (ok, owned("an OpenSSH public key line"))
    } else if same(format, "der") {
        (bytes.len() > 0 && bytes[0] == 0x30u8, owned("a DER certificate"))
    } else {
        let up = to_upper(format);
        (starts_with(text.as_str(), "-----BEGIN CERTIFICATE-----"), cat3("a ", up.as_str(), " certificate"))
    };
    if ok {
        Ok(())
    } else {
        let head = cat5("`key \"", declared.kind.as_str(), "\"` is written by `", generator, "`, so the public half it records is ");
        Err(cat3(head.as_str(), wanted.as_str(), ", and this file is not one"))
    }
}

/// The characters a common name may hold.
pub open spec fn cn_char(c: char) -> bool {
    is_alnum(c) || c == ' ' || c == '-' || c == '.' || c == '_'
}

/// How many bytes a character takes in UTF-8.
pub open spec fn utf8_width(c: char) -> int {
    if (c as u32) < 0x80 {
        1
    } else if (c as u32) < 0x800 {
        2
    } else if (c as u32) < 0x10000 {
        3
    } else {
        4
    }
}

/// How many bytes the text takes in UTF-8, which is what `str::len` counts.
pub open spec fn utf8_len(s: Seq<char>) -> int
    decreases s.len(),
{
    if s.len() == 0 {
        0
    } else {
        utf8_len(s.drop_last()) + utf8_width(s.last())
    }
}

pub proof fn lemma_utf8_len_grows(s: Seq<char>, i: int)
    requires
        0 <= i <= s.len(),
    ensures
        utf8_len(s.take(i)) <= utf8_len(s),
    decreases s.len() - i,
{
    if i < s.len() {
        lemma_utf8_len_grows(s, i + 1);
        assert(s.take(i + 1).drop_last() =~= s.take(i));
    } else {
        assert(s.take(i) =~= s);
    }
}

/// A text never takes fewer than no bytes.
pub proof fn lemma_utf8_len_nonneg(s: Seq<char>)
    ensures
        utf8_len(s) >= 0,
    decreases s.len(),
{
    if s.len() > 0 {
        lemma_utf8_len_nonneg(s.drop_last());
    }
}

/// Whether the text takes 64 bytes or fewer.
fn short_enough(s: &str) -> (r: bool)
    ensures
        r == (utf8_len(s@) <= 64),
{
    let cs = crate::text::chars_of(s);
    let mut total: u64 = 0;
    let mut i: usize = 0;
    while i < cs.len()
        invariant
            cs@ == s@,
            i <= cs@.len(),
            total == utf8_len(s@.take(i as int)),
            total <= 64,
        decreases cs@.len() - i,
    {
        let c = cs[i];
        let w: u64 = if (c as u32) < 0x80 {
            1
        } else if (c as u32) < 0x800 {
            2
        } else if (c as u32) < 0x10000 {
            3
        } else {
            4
        };
        assert(s@.take(i as int + 1).drop_last() =~= s@.take(i as int));
        assert(s@.take(i as int + 1).last() == c);
        if total + w > 64 {
            proof {
                lemma_utf8_len_grows(s@, i as int + 1);
            }
            return false;
        }
        total = total + w;
        i = i + 1;
    }
    assert(s@.take(i as int) =~= s@);
    true
}

/// A common name that survives being written into an openssl config as it is.
pub open spec fn usable_spec(cn: Seq<char>) -> bool {
    &&& cn.len() > 0
    &&& utf8_len(cn) <= 64
    &&& trim_spec(cn) == cn
    &&& forall|i: int| 0 <= i < cn.len() ==> cn_char(#[trigger] cn[i])
}

/// A common name that survives being written into an openssl config as it is:
/// up to 64 bytes of letters, digits, spaces, dashes, dots and underscores,
/// with nothing to trim.
pub fn usable(cn: &str) -> (r: Result<&str, String>)
    ensures
        usable_spec(cn@) ==> r == Ok::<&str, String>(cn),
        !usable_spec(cn@) ==> (r matches Err(e) && e@ == "`"@ + cn@
            + "` is not a usable common name: up to 64 letters, digits, spaces, dashes, dots and underscores"@),
{
    let cs = crate::text::chars_of(cn);
    let mut all = true;
    let mut i: usize = 0;
    while i < cs.len()
        invariant
            cs@ == cn@,
            i <= cs@.len(),
            all == forall|j: int| 0 <= j < i ==> cn_char(#[trigger] cn@[j]),
        decreases cs@.len() - i,
    {
        let c = cs[i];
        if !(crate::text::alnum(c) || c == ' ' || c == '-' || c == '.' || c == '_') {
            all = false;
        }
        i = i + 1;
    }
    let trimmed = trim(cn);
    let ok = cs.len() > 0 && short_enough(cn) && same(trimmed.as_str(), cn) && all;
    if ok {
        Ok(cn)
    } else {
        Err(cat3(
            "`",
            cn,
            "` is not a usable common name: up to 64 letters, digits, spaces, dashes, dots and underscores",
        ))
    }
}

/// The openssl config a module signing certificate is made with: `keyUsage`
/// and `codeSigning` are what the kernel checks, and what shim accepts as a
/// MOK.
pub open spec fn module_signing_spec(cn: Seq<char>) -> Seq<char> {
    "[req]\ndistinguished_name = dn\nprompt = no\nx509_extensions = ext\n\n[dn]\nCN = "@ + cn
        + "\n\n[ext]\nbasicConstraints = critical,CA:FALSE\nkeyUsage = digitalSignature\nextendedKeyUsage = codeSigning\nsubjectKeyIdentifier = hash\n"@
}

pub fn module_signing(cn: &str) -> (r: String)
    ensures
        r@ == module_signing_spec(cn@),
{
    cat3(
        "[req]\ndistinguished_name = dn\nprompt = no\nx509_extensions = ext\n\n[dn]\nCN = ",
        cn,
        "\n\n[ext]\nbasicConstraints = critical,CA:FALSE\nkeyUsage = digitalSignature\nextendedKeyUsage = codeSigning\nsubjectKeyIdentifier = hash\n",
    )
}

/// A `.gitignore` line as the directory it names: trimmed, then without its
/// leading and trailing slashes.
pub open spec fn ignore_target(line: Seq<char>) -> Seq<char> {
    crate::layout::trim_end_char(crate::layout::trim_start_char(trim_spec(line), '/'), '/')
}

/// Whether a `.gitignore` covers every private half, however the line is
/// spelled.
pub open spec fn ignores_private_spec(text: Seq<char>) -> bool {
    exists|i: int| 0 <= i < lines_spec(text).len() && ignore_target(#[trigger] lines_spec(text)[i]) == "keys/private"@
}

pub fn ignores_private(text: &str) -> (r: bool)
    ensures
        r == ignores_private_spec(text@),
{
    let ls = lines(text);
    let mut i: usize = 0;
    while i < ls.len()
        invariant
            views(ls@) == lines_spec(text@),
            i <= ls@.len(),
            forall|j: int| 0 <= j < i ==> ignore_target(#[trigger] lines_spec(text@)[j]) != "keys/private"@,
        decreases ls@.len() - i,
    {
        assert(views(ls@)[i as int] == ls@[i as int]@);
        let t = trim(ls[i].as_str());
        let a = crate::layout::trim_start_char_exec(t.as_str(), '/');
        let b = crate::layout::trim_end_char_exec(a.as_str(), '/');
        if same(b.as_str(), "keys/private") {
            return true;
        }
        i = i + 1;
    }
    false
}

/// The kinds this repository declares, as the refusal lists them.
pub open spec fn listed_spec(kinds: Seq<Seq<char>>) -> Seq<char> {
    join_spec(kinds, ", "@)
}

pub fn listed(kinds: &Vec<String>) -> (r: String)
    ensures
        r@ == listed_spec(views(kinds@)),
{
    join(kinds, ", ")
}

/// Nothing in the repository and nothing in its collections declares the
/// kind. `kinds` are the ones declared here.
pub open spec fn undeclared_spec(kind: Seq<char>, kinds: Seq<Seq<char>>) -> Seq<char> {
    let noun = if kind.len() == 0 { "a signing key"@ } else { "a "@ + kind + " key"@ };
    if kinds.len() == 0 {
        "no module in this repository declares "@ + noun
            + ".\n\nKeys come from modules: image signing from a module carrying the cosign public key, Secure Boot from a kernel module carrying a MOK certificate. Import one and run this again."@
    } else {
        "no module in this repository declares "@ + noun + ".\n\nThe keys declared here are "@ + listed_spec(kinds)
            + ". Import a module carrying one and run this again."@
    }
}

pub fn undeclared(kind: &str, kinds: &Vec<String>) -> (r: String)
    ensures
        r@ == undeclared_spec(kind@, views(kinds@)),
{
    let noun = if kind.unicode_len() == 0 {
        owned("a signing key")
    } else {
        cat3("a ", kind, " key")
    };
    if kinds.len() == 0 {
        cat3(
            "no module in this repository declares ",
            noun.as_str(),
            ".\n\nKeys come from modules: image signing from a module carrying the cosign public key, Secure Boot from a kernel module carrying a MOK certificate. Import one and run this again.",
        )
    } else {
        let all = listed(kinds);
        let head = cat4(
            "no module in this repository declares ",
            noun.as_str(),
            ".\n\nThe keys declared here are ",
            all.as_str(),
        );
        cat(head.as_str(), ". Import a module carrying one and run this again.")
    }
}

/// A declaring module's directory as a person names it: a fetched one without
/// the directory fetched trees land in.
pub open spec fn dir_named(dir: Seq<char>) -> Seq<char> {
    if is_prefix(REMOTE_DIR@ + "/"@, dir) {
        dir.skip((REMOTE_DIR@ + "/"@).len() as int)
    } else {
        dir
    }
}

pub open spec fn declaring_dirs(declaring: Seq<(String, Declared)>) -> Seq<Seq<char>> {
    declaring.map_values(|d: (String, Declared)| dir_named(d.0@))
}

/// What picking the declaring module answers with.
pub open spec fn provider_spec(dirs: Seq<Seq<char>>, kind: Seq<char>, given: Option<Seq<char>>, p: crate::prompt::Prompt) -> Result<int, Seq<char>> {
    match given {
        Some(g) => match crate::text::position(dirs, g) {
            Some(i) => Ok(i),
            None => Err("`modules/"@ + g + "` does not declare `key \""@ + kind + "\"`"@),
        },
        None => if dirs.len() == 1 {
            Ok(0)
        } else {
            match crate::prompt::choose_spec(p, copy::key_provider_spec(kind), dirs) {
                Ok(Some(i)) => Ok(i),
                Ok(None) => Err("the "@ + kind + " key is declared by "@ + join_spec(dirs, ", "@)
                    + "; name one with `--module`"@),
                Err(e) => Err(e),
            }
        },
    }
}

fn named_dir(dir: &str) -> (r: String)
    ensures
        r@ == dir_named(dir@),
{
    let prefix = cat(REMOTE_DIR, "/");
    match crate::text::strip_prefix(dir, prefix.as_str()) {
        Some(rest) => rest,
        None => owned(dir),
    }
}

/// Which module declares the key, where more than one declares the kind.
pub fn provider(
    declaring: &[(String, Declared)],
    kind: &str,
    given: Option<String>,
    prompt: &mut crate::prompt::Prompt,
) -> (r: Result<usize, String>)
    ensures
        match provider_spec(
            declaring_dirs(declaring@),
            kind@,
            match given {
                Some(g) => Some(g@),
                None => None,
            },
            *old(prompt),
        ) {
            Ok(i) => r matches Ok(k) && k as int == i,
            Err(e) => r matches Err(f) && f@ == e,
        },
{
    let mut dirs: Vec<String> = Vec::new();
    let mut i: usize = 0;
    while i < declaring.len()
        invariant
            i <= declaring@.len(),
            views(dirs@) == declaring_dirs(declaring@).take(i as int),
        decreases declaring@.len() - i,
    {
        let ghost prior = dirs@;
        dirs.push(named_dir(declaring[i].0.as_str()));
        assert(views(dirs@) =~= views(prior).push(dir_named(declaring@[i as int].0@)));
        assert(declaring_dirs(declaring@).take(i as int + 1) =~= declaring_dirs(declaring@).take(i as int).push(
            dir_named(declaring@[i as int].0@),
        ));
        i = i + 1;
    }
    assert(declaring_dirs(declaring@).take(i as int) =~= declaring_dirs(declaring@));
    let ghost ds = views(dirs@);
    assert(ds == declaring_dirs(declaring@));
    match &given {
        Some(g) => {
            let mut k: usize = 0;
            while k < dirs.len()
                invariant
                    ds == views(dirs@),
                    ds == declaring_dirs(declaring@),
                    given == Some(*g),
                    k <= dirs@.len(),
                    forall|j: int| 0 <= j < k ==> ds[j] != g@,
                decreases dirs@.len() - k,
            {
                assert(ds[k as int] == dirs@[k as int]@);
                if same(dirs[k].as_str(), g.as_str()) {
                    proof {
                        crate::text::lemma_position(ds, g@, k as int);
                    }
                    return Ok(k);
                }
                k = k + 1;
            }
            proof {
                crate::text::lemma_position(ds, g@, k as int);
            }
            Err(cat5("`modules/", g.as_str(), "` does not declare `key \"", kind, "\"`"))
        },
        None => {
            if dirs.len() == 1 {
                return Ok(0);
            }
            let mut options: Vec<crate::ui::Choice> = Vec::new();
            let mut k: usize = 0;
            while k < dirs.len()
                invariant
                    ds == views(dirs@),
                    ds == declaring_dirs(declaring@),
                    k <= dirs@.len(),
                    crate::ui::choice_labels(options@) == ds.take(k as int),
                decreases dirs@.len() - k,
            {
                let ghost prior = options@;
                options.push(crate::ui::Choice::new(dirs[k].as_str(), ""));
                assert(crate::ui::choice_labels(options@) =~= crate::ui::choice_labels(prior).push(dirs@[k as int]@));
                assert(ds.take(k as int + 1) =~= ds.take(k as int).push(ds[k as int]));
                k = k + 1;
            }
            assert(ds.take(k as int) =~= ds);
            let question = copy::key_provider(kind);
            match prompt.choose_from(question.as_str(), options.as_slice())? {
                Some(at) => Ok(at),
                None => {
                    let all = join(&dirs, ", ");
                    let head = cat4("the ", kind, " key is declared by ", all.as_str());
                    Err(cat(head.as_str(), "; name one with `--module`"))
                },
            }
        },
    }
}

/// A path as shown to a person: relative to the repository where it is inside
/// it.
pub open spec fn shown_spec(root: Seq<char>, path: Seq<char>) -> Seq<char> {
    if path == root {
        Seq::empty()
    } else if is_prefix(root + "/"@, path) {
        path.skip(root.len() as int + 1)
    } else {
        path
    }
}

pub fn shown(root: &str, path: &str) -> (r: String)
    ensures
        r@ == shown_spec(root@, path@),
{
    if same(path, root) {
        return String::new();
    }
    let prefix = cat(root, "/");
    proof {
        reveal_strlit("/");
    }
    match crate::text::strip_prefix(path, prefix.as_str()) {
        Some(rest) => rest,
        None => owned(path),
    }
}

/// What a key is not usable without, one follow-up per generator.
pub open spec fn next_spec(generator: Seq<char>, public: Seq<char>, private: Seq<char>) -> Seq<char> {
    if generator == "ssh-keygen"@ {
        "\nthe private half is yours and is not the repository's: nothing in a build reads it,\nand the public half is what the image ships.\n\nnext:\n  commit "@
            + public + "\n  ssh -i "@ + private + " into a machine built from this image\n"@
    } else if generator == "cosign"@ {
        "\nthe key carries no password, which is what the build workflow decrypts it with.\n\nnext:\n  commit "@
            + public + "\n  gh secret set SIGNING_SECRET < "@ + private + "\n"@
    } else {
        "\nnext:\n  commit "@ + public + "\n  gh secret set MOK_PRIVKEY < "@ + private + "\n  MOK_KEY_PATH="@
            + private
            + " is what a local build reads it from\n\nevery machine that boots this image enrols the certificate once, and\nuntil it does the modules signed with it will not load:\n  sudo mokutil --import "@
            + public
            + "\n  it asks for a one-time password; reboot, choose Enroll MOK, and\n  give the same password\n"@
    }
}

/// What the key is not usable without, which is prose and therefore the
/// tool's rather than the manifest's. `public` and `private` are where the
/// halves went, as shown.
pub fn next(generator: &str, public: &str, private: &str) -> (r: String)
    ensures
        r@ == next_spec(generator@, public@, private@),
{
    if same(generator, "ssh-keygen") {
        let a = cat4(
            "\nthe private half is yours and is not the repository's: nothing in a build reads it,\nand the public half is what the image ships.\n\nnext:\n  commit ",
            public,
            "\n  ssh -i ",
            private,
        );
        cat(a.as_str(), " into a machine built from this image\n")
    } else if same(generator, "cosign") {
        let a = cat4(
            "\nthe key carries no password, which is what the build workflow decrypts it with.\n\nnext:\n  commit ",
            public,
            "\n  gh secret set SIGNING_SECRET < ",
            private,
        );
        cat(a.as_str(), "\n")
    } else {
        let a = cat4("\nnext:\n  commit ", public, "\n  gh secret set MOK_PRIVKEY < ", private);
        let b = cat4(
            a.as_str(),
            "\n  MOK_KEY_PATH=",
            private,
            " is what a local build reads it from\n\nevery machine that boots this image enrols the certificate once, and\nuntil it does the modules signed with it will not load:\n  sudo mokutil --import ",
        );
        cat3(
            b.as_str(),
            public,
            "\n  it asks for a one-time password; reboot, choose Enroll MOK, and\n  give the same password\n",
        )
    }
}

/// A key already on disk is never replaced: the private half cannot be
/// recovered.
pub open spec fn overwrites(path: Seq<char>) -> Seq<char> {
    path + " holds a key already, and a key is never overwritten; move it aside first"@
}

/// Whether the file at `path` may be written: `len` is its length where its
/// metadata could be read. The zero-byte file a module ships as a
/// placeholder holds no key.
pub fn unwritten(path: &str, len: Option<u64>) -> (r: Result<(), String>)
    ensures
        (len matches Some(n) && n > 0) ==> (r matches Err(e) && e@ == overwrites(path@)),
        !(len matches Some(n) && n > 0) ==> r is Ok,
{
    if crate::layout::nonempty(len) {
        Err(cat(path, " holds a key already, and a key is never overwritten; move it aside first"))
    } else {
        Ok(())
    }
}

/// The generators whose keys come without a certificate.
pub open spec fn certless(generator: Seq<char>) -> bool {
    generator == "cosign"@ || generator == "ssh-keygen"@
}

/// The generator set up to make a module signing certificate.
pub open spec fn signs_modules(generator: Seq<char>, profile: Option<Seq<char>>) -> bool {
    generator == "openssl"@ && profile == Some("module-signing"@)
}

pub open spec fn no_certificate(generator: Seq<char>) -> Seq<char> {
    "`--cn` is a certificate's common name, and `"@ + generator + "` writes no certificate"@
}

pub open spec fn no_profile(generator: Seq<char>, kind: Seq<char>) -> Seq<char> {
    "`"@ + generator + "` generates a key for a profile, and `key \""@ + kind + "\"` names none; `generator \""@
        + generator + "\" profile=\"module-signing\"` is the one it has"@
}

pub open spec fn profile_view(p: Option<String>) -> Option<Seq<char>> {
    match p {
        Some(s) => Some(s@),
        None => None,
    }
}

/// Whether the key's certificate needs a common name: none for a generator
/// that writes no certificate, which refuses `--cn`; one for the openssl
/// generator set up for module signing; any other generator and profile is
/// refused.
pub fn wants_cn(declared: &Declared, cn_given: bool) -> (r: Result<bool, String>)
    ensures
        certless(declared.generator@) && cn_given ==> (r matches Err(e) && e@ == no_certificate(declared.generator@)),
        certless(declared.generator@) && !cn_given ==> r == Ok::<bool, String>(false),
        signs_modules(declared.generator@, profile_view(declared.profile)) ==> r == Ok::<bool, String>(true),
        !certless(declared.generator@) && !signs_modules(declared.generator@, profile_view(declared.profile))
            ==> (r matches Err(e) && e@ == no_profile(declared.generator@, declared.kind@)),
{
    let g = declared.generator.as_str();
    proof {
        reveal_strlit("cosign");
        reveal_strlit("ssh-keygen");
        reveal_strlit("openssl");
    }
    if same(g, "cosign") || same(g, "ssh-keygen") {
        if cn_given {
            return Err(cat3("`--cn` is a certificate's common name, and `", g, "` writes no certificate"));
        }
        return Ok(false);
    }
    let profiled = match &declared.profile {
        Some(p) => same(p.as_str(), "module-signing"),
        None => false,
    };
    if same(g, "openssl") && profiled {
        Ok(true)
    } else {
        let head = cat5("`", g, "` generates a key for a profile, and `key \"", declared.kind.as_str(), "\"` names none; `generator \"");
        Err(cat3(head.as_str(), g, "\" profile=\"module-signing\"` is the one it has"))
    }
}

/// The common name the enrolment prompt offers: the repository's name, or the
/// tool's where the repository has none.
pub open spec fn default_cn(named: Option<Seq<char>>) -> Seq<char> {
    match named {
        Some(n) => n + " Secure Boot"@,
        None => "tectonic Secure Boot"@,
    }
}

fn default_cn_exec(named: Option<&str>) -> (r: String)
    ensures
        r@ == default_cn(crate::prompt::opt_view(named)),
{
    match named {
        Some(n) => cat(n, " Secure Boot"),
        None => owned("tectonic Secure Boot"),
    }
}

/// Why a common name cannot be used.
pub open spec fn unusable(cn: Seq<char>) -> Seq<char> {
    "`"@ + cn + "` is not a usable common name: up to 64 letters, digits, spaces, dashes, dots and underscores"@
}

/// What the common name answered comes to: itself where it is usable, else
/// its refusal; a failure to answer stays that failure.
pub open spec fn cn_checked(answer: Result<Seq<char>, Seq<char>>) -> Result<Seq<char>, Seq<char>> {
    match answer {
        Ok(c) => if usable_spec(c) { Ok(c) } else { Err(unusable(c)) },
        Err(e) => Err(e),
    }
}

/// One key to create: what its module declares, where each half of it goes,
/// and the certificate's common name for the generator that writes one.
pub struct Key {
    pub declared: Declared,
    pub public: String,
    pub private: String,
    pub cn: Option<String>,
}

impl Key {
    /// The key `declared` describes, put where this repository at `root` keeps
    /// keys. `lens` are the lengths of the files already at the public and the
    /// private path, where their metadata could be read; `named` is what the
    /// repository is named after.
    pub fn collect(
        root: &str,
        declared: Declared,
        lens: (Option<u64>, Option<u64>),
        cn: Option<String>,
        named: Option<&str>,
        prompt: &mut Prompt,
    ) -> (r: Result<Key, String>)
        ensures
            ({
                let public = crate::layout::public_key_spec(root@, declared.public@);
                let private = crate::layout::private_key_spec(root@, declared.private@);
                let g = declared.generator@;
                let asks = signs_modules(g, profile_view(declared.profile));
                &&& (r matches Ok(k) ==> k.declared == declared && k.public@ == public && k.private@ == private)
                &&& (lens.0 matches Some(n) && n > 0) ==> (r matches Err(e) && e@ == overwrites(public))
                &&& !(lens.0 matches Some(n) && n > 0) && (lens.1 matches Some(n) && n > 0) ==> (r matches Err(e)
                    && e@ == overwrites(private))
                &&& !(lens.0 matches Some(n) && n > 0) && !(lens.1 matches Some(n) && n > 0) ==> {
                    &&& certless(g) && cn is Some ==> (r matches Err(e) && e@ == no_certificate(g))
                    &&& certless(g) && cn is None ==> (r matches Ok(k) && k.cn is None)
                    &&& !certless(g) && !asks ==> (r matches Err(e) && e@ == no_profile(g, declared.kind@))
                    &&& asks ==> (r matches Ok(k) ==> (k.cn matches Some(c) && usable_spec(c@)))
                    &&& asks && given_text(cn) ==> (usable_spec(cn->0@) <==> r is Ok)
                    &&& asks && given_text(cn) && r is Ok ==> (r matches Ok(k) && k.cn matches Some(c) && c@ == cn->0@)
                    &&& asks && !given_text(cn) && !old(prompt).ask ==> (usable_spec(default_cn(crate::prompt::opt_view(named)))
                        <==> (r matches Ok(k) && k.cn matches Some(c) && c@ == default_cn(crate::prompt::opt_view(named))))
                    &&& asks ==> match cn_checked(crate::prompt::text_spec(
                        *old(prompt),
                        cn,
                        copy::KEY_CN@,
                        "`--cn`"@,
                        Some(default_cn(crate::prompt::opt_view(named))),
                    )) {
                        Ok(c) => r matches Ok(k) && k.cn matches Some(v) && v@ == c,
                        Err(e) => r matches Err(f) && f@ == e,
                    }
                }
                &&& !(asks && !given_text(cn) && !(lens.0 matches Some(n) && n > 0) && !(lens.1 matches Some(n) && n > 0))
                    ==> final(prompt).at == old(prompt).at
            }),
            final(prompt).ask == old(prompt).ask,
            final(prompt).script == old(prompt).script,
    {
        let public = crate::layout::public_key(root, declared.public.as_str());
        let private = crate::layout::private_key(root, declared.private.as_str());
        match unwritten(public.as_str(), lens.0) {
            Err(e) => return Err(e),
            Ok(()) => {},
        }
        match unwritten(private.as_str(), lens.1) {
            Err(e) => return Err(e),
            Ok(()) => {},
        }
        let given = cn.is_some();
        let asks = match wants_cn(&declared, given) {
            Err(e) => return Err(e),
            Ok(b) => b,
        };
        if !asks {
            return Ok(Key { declared, public, private, cn: None });
        }
        let shown = default_cn_exec(named);
        let text = match prompt.text(cn, copy::KEY_CN, "`--cn`", Some(shown.as_str())) {
            Err(e) => return Err(e),
            Ok(t) => t,
        };
        match usable(text.as_str()) {
            Err(e) => Err(e),
            Ok(_) => Ok(Key { declared, public, private, cn: Some(text) }),
        }
    }
}

/// A public half the person already holds, to be recorded where the module
/// says it goes: the file it comes from and the place it goes to. Only that
/// half, which is the only one a repository ever commits.
pub struct Recorded {
    pub from: String,
    pub public: String,
}

impl Recorded {
    /// The place `declared`'s public half goes in the repository at `root`,
    /// refused where a key is there already (`len` is the length of what is
    /// there), and then the file it comes from. The place is looked at first,
    /// so a key already there is said so before a path is typed out. Whether
    /// the file holds such a half is `holds`, once it has been read.
    pub fn collect(
        root: &str,
        declared: &Declared,
        len: Option<u64>,
        from: Option<String>,
        prompt: &mut Prompt,
    ) -> (r: Result<Recorded, String>)
        ensures
            ({
                let public = crate::layout::public_key_spec(root@, declared.public@);
                &&& (len matches Some(n) && n > 0) ==> (r matches Err(e) && e@ == overwrites(public)
                    && final(prompt).at == old(prompt).at)
                &&& (r matches Ok(k) ==> k.public@ == public)
                &&& !(len matches Some(n) && n > 0) && given_text(from) ==> (r matches Ok(k) && k.from@ == from->0@
                    && final(prompt).at == old(prompt).at)
                &&& !(len matches Some(n) && n > 0) && !given_text(from) && !old(prompt).ask ==> (r matches Err(e)
                    && e@ == crate::prompt::settled(Seq::empty(), None, "`--from`"@, copy::KEY_FROM@)->Err_0)
            }),
            final(prompt).ask == old(prompt).ask,
            final(prompt).script == old(prompt).script,
    {
        let public = crate::layout::public_key(root, declared.public.as_str());
        match unwritten(public.as_str(), len) {
            Err(e) => return Err(e),
            Ok(()) => {},
        }
        match prompt.text(from, copy::KEY_FROM, "`--from`", None) {
            Err(e) => Err(e),
            Ok(path) => Ok(Recorded { from: path, public }),
        }
    }
}

/// The refusal of a key command that named no kind and picked none.
pub open spec fn unnamed(command: Seq<char>, kinds: Seq<Seq<char>>) -> Seq<char> {
    "`tect "@ + command + " <kind>` names which key; this repository declares "@ + listed_spec(kinds)
}

/// Which key, where the command named none: one of the `kinds` this
/// repository declares, as picked.
pub fn which(command: &str, kinds: &Vec<String>, prompt: &mut Prompt) -> (r: Result<String, String>)
    ensures
        kinds@.len() == 0 ==> (r matches Err(e) && e@ == undeclared_spec(Seq::empty(), views(kinds@))
            && final(prompt).at == old(prompt).at),
        kinds@.len() > 0 ==> match crate::prompt::choose_spec(*old(prompt), copy::WHICH_KEY@, views(kinds@)) {
            Ok(Some(i)) => r matches Ok(k) && k@ == kinds@[i]@,
            Ok(None) => r matches Err(e) && e@ == unnamed(command@, views(kinds@)),
            Err(e) => r matches Err(f) && f@ == e,
        },
        final(prompt).ask == old(prompt).ask,
        final(prompt).script == old(prompt).script,
{
    if kinds.len() == 0 {
        proof {
            reveal_strlit("");
        }
        return Err(undeclared("", kinds));
    }
    let mut options: Vec<crate::ui::Choice> = Vec::new();
    let mut k: usize = 0;
    while k < kinds.len()
        invariant
            k <= kinds@.len(),
            crate::ui::choice_labels(options@) == views(kinds@).take(k as int),
        decreases kinds@.len() - k,
    {
        let ghost prior = options@;
        options.push(crate::ui::Choice::new(kinds[k].as_str(), ""));
        assert(crate::ui::choice_labels(options@) =~= crate::ui::choice_labels(prior).push(kinds@[k as int]@));
        assert(views(kinds@).take(k as int + 1) =~= views(kinds@).take(k as int).push(kinds@[k as int]@));
        k = k + 1;
    }
    assert(views(kinds@).take(k as int) =~= views(kinds@));
    match prompt.choose_from(copy::WHICH_KEY, options.as_slice()) {
        Err(e) => Err(e),
        Ok(Some(at)) => Ok(kinds[at].clone()),
        Ok(None) => {
            let all = listed(kinds);
            Err(cat4("`tect ", command, " <kind>` names which key; this repository declares ", all.as_str()))
        },
    }
}

} // verus!
