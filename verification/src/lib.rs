//! `tect`'s library: the repository model, the readers that build it, and
//! everything resolved from it.

pub mod block;
pub mod copy;
pub mod crypttab;
pub mod diag;
pub mod form;
pub mod install;
pub mod json;
pub mod key;
pub mod layout;
pub mod model;
pub mod module;
pub mod order;
pub mod parse;
pub mod prompt;
pub mod provenance;
pub mod recipe;
pub mod text;
pub mod ui;

use crate::diag::{at_v, bare, help_v, Issue, IssueV, Issues, Source, Span};
use crate::key::{utf8_len, utf8_width};
use crate::layout::trim_end_char;
use crate::model::image::List;
use crate::parse::list::Listing;
use crate::text::{cat, cat3, is_prefix, join, join_spec, lines, lines_spec, owned, same, strip_prefix, views};
use vstd::prelude::*;

verus! {

/// What `run` performs. The commands reached through the repository.
#[derive(Clone, Copy, Debug, PartialEq, Eq, Structural)]
pub enum Command {
    Plan,
    Check,
    Generate,
    Verify,
    Section,
    Graph,
    GraphJson,
    Summary,
    Sbom,
    Why,
    WhyJson,
}

/// What a command's one argument names.
#[derive(Clone, Copy, Debug, PartialEq, Eq, Structural)]
pub enum Arg {
    Image,
    Target,
    Module,
}

/// The command a word names. `GraphJson` and `WhyJson` are the ones
/// `--format` picks rather than a word.
pub open spec fn command_of(word: Seq<char>) -> Option<Command> {
    if word == "plan"@ {
        Some(Command::Plan)
    } else if word == "check"@ {
        Some(Command::Check)
    } else if word == "generate"@ {
        Some(Command::Generate)
    } else if word == "verify"@ {
        Some(Command::Verify)
    } else if word == "section"@ {
        Some(Command::Section)
    } else if word == "graph"@ {
        Some(Command::Graph)
    } else if word == "summary"@ {
        Some(Command::Summary)
    } else if word == "sbom"@ {
        Some(Command::Sbom)
    } else if word == "why"@ {
        Some(Command::Why)
    } else {
        None
    }
}

/// What a command takes after its word, for the ones that take anything.
pub open spec fn arg_of(c: Command) -> Option<Arg> {
    match c {
        Command::Section => Some(Arg::Image),
        Command::Summary | Command::Sbom => Some(Arg::Target),
        Command::Why | Command::WhyJson => Some(Arg::Module),
        _ => None,
    }
}

impl Command {
    /// The word that names it.
    pub fn parse(word: &str) -> (r: Option<Command>)
        ensures
            r == command_of(word@),
    {
        if same(word, "plan") {
            Some(Command::Plan)
        } else if same(word, "check") {
            Some(Command::Check)
        } else if same(word, "generate") {
            Some(Command::Generate)
        } else if same(word, "verify") {
            Some(Command::Verify)
        } else if same(word, "section") {
            Some(Command::Section)
        } else if same(word, "graph") {
            Some(Command::Graph)
        } else if same(word, "summary") {
            Some(Command::Summary)
        } else if same(word, "sbom") {
            Some(Command::Sbom)
        } else if same(word, "why") {
            Some(Command::Why)
        } else {
            None
        }
    }

    /// What it takes after the command word, for the ones that take anything.
    pub fn arg(self) -> (r: Option<Arg>)
        ensures
            r == arg_of(self),
    {
        match self {
            Command::Section => Some(Arg::Image),
            Command::Summary | Command::Sbom => Some(Arg::Target),
            Command::Why | Command::WhyJson => Some(Arg::Module),
            _ => None,
        }
    }
}

/// Where the last `/` in `s` is, where there is one.
pub open spec fn last_slash(s: Seq<char>) -> Option<int>
    decreases s.len(),
{
    if s.len() == 0 {
        None
    } else if s.last() == '/' {
        Some(s.len() - 1)
    } else {
        last_slash(s.drop_last())
    }
}

proof fn lemma_last_slash(s: Seq<char>)
    ensures
        last_slash(s) matches Some(k) ==> 0 <= k < s.len(),
        last_slash(s) matches Some(k) ==> (s.last() != '/' ==> k < s.len() - 1),
    decreases s.len(),
{
    if s.len() > 0 && s.last() != '/' {
        lemma_last_slash(s.drop_last());
    }
}

/// How much of a path comes before its body: the root `/`, or a leading `.`
/// that is a component of its own (`.` alone, or `./` first).
pub open spec fn prefix_len(s: Seq<char>) -> int {
    if s.len() > 0 && s[0] == '/' {
        1
    } else if s.len() == 1 && s[0] == '.' {
        1
    } else if s.len() >= 2 && s[0] == '.' && s[1] == '/' {
        1
    } else {
        0
    }
}

/// `s` without what ends its body and is no component: trailing separators,
/// and `.` pieces past the prefix, which `Path` skips.
pub open spec fn trim_junk(s: Seq<char>, pl: int) -> Seq<char>
    decreases s.len(),
{
    if pl < 0 || s.len() <= pl {
        s
    } else if s.last() == '/' {
        trim_junk(s.drop_last(), pl)
    } else if s.last() == '.' && (s.len() - 1 == pl || s[s.len() - 2] == '/') {
        trim_junk(s.drop_last(), pl)
    } else {
        s
    }
}

proof fn lemma_trim_junk(s: Seq<char>, pl: int)
    ensures
        trim_junk(s, pl).len() <= s.len(),
        trim_junk(s, pl) == s.take(trim_junk(s, pl).len() as int),
        0 <= pl ==> (s.len() <= pl || trim_junk(s, pl).len() >= pl),
    decreases s.len(),
{
    if pl < 0 || s.len() <= pl {
        assert(s.take(s.len() as int) =~= s);
    } else if s.last() == '/' || (s.last() == '.' && (s.len() - 1 == pl || s[s.len() - 2] == '/')) {
        lemma_trim_junk(s.drop_last(), pl);
        let t = trim_junk(s.drop_last(), pl);
        assert(s.drop_last().take(t.len() as int) =~= s.take(t.len() as int));
    } else {
        assert(s.take(s.len() as int) =~= s);
    }
}

/// `Path::parent`: the path without its last component, where components
/// are what `Path::components` reads (runs between separators, a `.` past
/// the start skipped, `..` kept). `/` for a component of the root, `.` for
/// one after a leading `./`, empty for a lone relative one or for `.`
/// itself; none for the root or an empty path.
pub open spec fn parent_spec(s: Seq<char>) -> Option<Seq<char>> {
    let pl = prefix_len(s);
    let t = trim_junk(s, pl);
    if t.len() <= pl {
        if pl == 1 && s[0] == '.' {
            Some(Seq::empty())
        } else {
            None
        }
    } else {
        let k = match last_slash(t) {
            Some(k) => if k >= pl {
                k
            } else {
                pl
            },
            None => pl,
        };
        Some(trim_junk(t.take(k), pl))
    }
}

proof fn lemma_parent_shorter(s: Seq<char>)
    ensures
        parent_spec(s) matches Some(p) ==> p.len() < s.len(),
{
    let pl = prefix_len(s);
    let t = trim_junk(s, pl);
    lemma_trim_junk(s, pl);
    lemma_last_slash(t);
    if t.len() > pl {
        let k = match last_slash(t) {
            Some(k) => if k >= pl {
                k
            } else {
                pl
            },
            None => pl,
        };
        lemma_trim_junk(t.take(k), pl);
    }
}

/// `Path::ancestors`: the path, then each parent in turn.
pub open spec fn ancestors_spec(s: Seq<char>) -> Seq<Seq<char>>
    decreases s.len(),
{
    match parent_spec(s) {
        Some(p) => if p.len() < s.len() {
            seq![s] + ancestors_spec(p)
        } else {
            seq![s]
        },
        None => seq![s],
    }
}

fn last_slash_exec(s: &Vec<char>) -> (r: Option<usize>)
    ensures
        match last_slash(s@) {
            Some(k) => r == Some(k as usize),
            None => r is None,
        },
{
    let mut k: usize = s.len();
    assert(s@.take(k as int) =~= s@);
    while k > 0 && s[k - 1] != '/'
        invariant
            k <= s@.len(),
            last_slash(s@) == last_slash(s@.take(k as int)),
        decreases k,
    {
        assert(s@.take(k as int).drop_last() =~= s@.take(k as int - 1));
        k = k - 1;
    }
    proof {
        assert(s@.take(s@.len() as int) =~= s@);
    }
    if k == 0 {
        assert(s@.take(0) =~= Seq::<char>::empty());
        None
    } else {
        Some(k - 1)
    }
}

/// How far `trim_junk` leaves the first `upto` characters.
fn junk_end(cs: &Vec<char>, upto: usize, pl: usize) -> (r: usize)
    requires
        upto <= cs@.len(),
    ensures
        r <= upto,
        trim_junk(cs@.take(upto as int), pl as int) == cs@.take(r as int),
{
    let mut m: usize = upto;
    while m > pl && (cs[m - 1] == '/' || (cs[m - 1] == '.' && (m - 1 == pl || cs[m - 2] == '/')))
        invariant
            m <= upto <= cs@.len(),
            trim_junk(cs@.take(upto as int), pl as int) == trim_junk(cs@.take(m as int), pl as int),
        decreases m,
    {
        assert(cs@.take(m as int).drop_last() =~= cs@.take(m - 1));
        assert(cs@.take(m as int).last() == cs@[m - 1]);
        proof {
            if m >= 2 {
                assert(cs@.take(m as int)[m - 2] == cs@[m - 2]);
            }
        }
        m = m - 1;
    }
    proof {
        if m > pl {
            assert(cs@.take(m as int).last() == cs@[m - 1]);
            if m >= 2 {
                assert(cs@.take(m as int)[m - 2] == cs@[m - 2]);
            }
        }
    }
    m
}

/// `Path::parent`.
pub fn parent(s: &str) -> (r: Option<String>)
    ensures
        match parent_spec(s@) {
            Some(p) => r matches Some(q) && q@ == p,
            None => r is None,
        },
{
    let cs = crate::text::chars_of(s);
    let n = cs.len();
    let pl: usize = if n > 0 && cs[0] == '/' {
        1
    } else if n == 1 && cs[0] == '.' {
        1
    } else if n >= 2 && cs[0] == '.' && cs[1] == '/' {
        1
    } else {
        0
    };
    proof {
        reveal_strlit(".");
        assert(pl as int == prefix_len(s@));
        assert(cs@.take(n as int) =~= s@);
    }
    let tl = junk_end(&cs, n, pl);
    if tl <= pl {
        if pl == 1 && cs[0] == '.' {
            return Some(String::new());
        }
        return None;
    }
    let t = crate::text::slice(s, 0, tl);
    assert(t@ =~= cs@.take(tl as int));
    let tc = crate::text::chars_of(t.as_str());
    proof {
        lemma_last_slash(t@);
    }
    let k: usize = match last_slash_exec(&tc) {
        Some(k) => if k >= pl {
            k
        } else {
            pl
        },
        None => pl,
    };
    let end = junk_end(&tc, k, pl);
    let head = crate::text::slice(s, 0, end);
    proof {
        assert(tc@.take(end as int) =~= s@.take(end as int));
        assert(head@ =~= tc@.take(end as int));
    }
    Some(head)
}

/// The nearest directory at or above `from` that `has_repo` says holds a
/// repo.kdl: the first ancestor it answers yes for.
pub fn find_root(from: &str, has_repo: impl Fn(&str) -> bool) -> (r: Option<String>)
    requires
        forall|x: &str| #[trigger] has_repo.requires((x,)),
    ensures
        match r {
            Some(d) => exists|i: int|
                0 <= i < ancestors_spec(from@).len() && #[trigger] ancestors_spec(from@)[i] == d@
                    && answered(has_repo, d@, true) && forall|j: int|
                    0 <= j < i ==> answered(has_repo, #[trigger] ancestors_spec(from@)[j], false),
            None => forall|j: int|
                0 <= j < ancestors_spec(from@).len() ==> answered(has_repo, #[trigger] ancestors_spec(from@)[j], false),
        },
{
    let mut dir = crate::text::owned(from);
    let ghost skipped: Seq<Seq<char>> = Seq::empty();
    loop
        invariant
            forall|x: &str| #[trigger] has_repo.requires((x,)),
            ancestors_spec(from@) == skipped + ancestors_spec(dir@),
            forall|j: int| 0 <= j < skipped.len() ==> answered(has_repo, #[trigger] skipped[j], false),
        decreases dir@.len(),
    {
        let here = has_repo(dir.as_str());
        proof {
            assert(answered(has_repo, dir@, here));
            lemma_parent_shorter(dir@);
        }
        if here {
            proof {
                assert(ancestors_spec(dir@)[0] == dir@);
                assert(ancestors_spec(from@)[skipped.len() as int] == dir@);
                assert forall|j: int| 0 <= j < skipped.len() implies answered(has_repo, #[trigger] ancestors_spec(from@)[j], false) by {
                    assert(ancestors_spec(from@)[j] == skipped[j]);
                }
            }
            return Some(dir);
        }
        match parent(dir.as_str()) {
            Some(p) => {
                proof {
                    assert(ancestors_spec(dir@) == seq![dir@] + ancestors_spec(p@));
                    assert(skipped + ancestors_spec(dir@) =~= skipped.push(dir@) + ancestors_spec(p@));
                    skipped = skipped.push(dir@);
                }
                dir = p;
            },
            None => {
                proof {
                    assert(ancestors_spec(dir@) == seq![dir@]);
                    let all = ancestors_spec(from@);
                    assert forall|j: int| 0 <= j < all.len() implies answered(has_repo, #[trigger] all[j], false) by {
                        if j < skipped.len() {
                            assert(all[j] == skipped[j]);
                        } else {
                            assert(all[j] == dir@);
                        }
                    }
                }
                return None;
            },
        }
    }
}

/// Whether `has_repo` can answer `said` for the directory `dir`.
pub open spec fn answered<F: Fn(&str) -> bool>(has_repo: F, dir: Seq<char>, said: bool) -> bool {
    exists|x: &str| x@ == dir && #[trigger] has_repo.ensures((x,), said)
}

/// The files read, for the line a failure ends with: the root where nothing
/// was read.
pub open spec fn context_spec(files: Seq<Seq<char>>, root: Seq<char>) -> Seq<char> {
    if files.len() == 0 {
        root
    } else {
        join_spec(files, ", "@)
    }
}

fn context(list: &List, root: &str) -> (r: String)
    ensures
        r@ == context_spec(views(list.files@), root@),
{
    if list.files.len() == 0 {
        owned(root)
    } else {
        join(&list.files, ", ")
    }
}

/// What the repository declares, without loading a module manifest: enough
/// for anything that only needs a name. `listing` is the root's `.kdl` files
/// as `List::load` takes them.
pub fn declarations(root: &str, listing: Result<Vec<(String, Result<String, String>)>, String>) -> (r: (List, Issues, String))
    ensures
        r.2@ == context_spec(views(r.0.files@), root@),
{
    let (list, issues) = List::load(root, listing);
    let c = context(&list, root);
    (list, issues, c)
}

/// How many bytes a text takes, which is what a span counts.
fn byte_len(s: &str) -> (r: usize)
    requires
        utf8_len(s@) <= usize::MAX,
    ensures
        r == utf8_len(s@),
{
    let cs = crate::text::chars_of(s);
    let mut total: usize = 0;
    let mut i: usize = 0;
    while i < cs.len()
        invariant
            cs@ == s@,
            i <= cs@.len(),
            utf8_len(s@) <= usize::MAX,
            total == utf8_len(s@.take(i as int)),
        decreases cs@.len() - i,
    {
        let c = cs[i];
        let w: usize = if (c as u32) < 0x80 {
            1
        } else if (c as u32) < 0x800 {
            2
        } else if (c as u32) < 0x10000 {
            3
        } else {
            4
        };
        assert(s@.take(i as int + 1).drop_last() =~= s@.take(i as int));
        assert(s@.take(i as int + 1).last() == c);
        assert(w == utf8_width(c));
        proof {
            crate::key::lemma_utf8_len_grows(s@, i as int + 1);
        }
        total = total + w;
        i = i + 1;
    }
    assert(s@.take(i as int) =~= s@);
    total
}

/// Where two texts' lines first differ: the first line that is not the same
/// in both, or that one of them does not have.
pub open spec fn diff_index(t: Seq<Seq<char>>, o: Seq<Seq<char>>, k: int) -> int
    decreases t.len() - k,
{
    if 0 <= k < t.len() && k < o.len() && t[k] == o[k] {
        diff_index(t, o, k + 1)
    } else {
        k
    }
}

/// Where line `k` of `t` starts, in bytes, each line before it ending in one
/// line feed.
pub open spec fn line_offset(t: Seq<Seq<char>>, k: int) -> int
    decreases k,
{
    if k <= 0 {
        0
    } else {
        line_offset(t, k - 1) + utf8_len(t[k - 1]) + 1
    }
}

/// The first line `found` and `generated` differ on, as its span in `found`
/// and what was generated in its place.
pub open spec fn difference_spec(found: Seq<char>, generated: Seq<char>) -> (Span, Seq<char>) {
    let t = lines_spec(found);
    let o = lines_spec(generated);
    let k = diff_index(t, o, 0);
    (
        Span { offset: line_offset(t, k) as usize, len: if k < t.len() { utf8_len(t[k]) as usize } else { 0 } },
        if k < o.len() {
            "generated: "@ + o[k]
        } else {
            "generated: nothing, the file ends above"@
        },
    )
}

proof fn lemma_line_offset_nonneg(t: Seq<Seq<char>>, k: int)
    ensures
        line_offset(t, k) >= 0,
    decreases k,
{
    if k > 0 {
        lemma_line_offset_nonneg(t, k - 1);
        crate::key::lemma_utf8_len_nonneg(t[k - 1]);
    }
}

proof fn lemma_line_offset_grows(t: Seq<Seq<char>>, i: int, j: int)
    requires
        0 <= i <= j,
    ensures
        line_offset(t, i) <= line_offset(t, j),
        line_offset(t, i) >= 0,
    decreases j,
{
    lemma_line_offset_nonneg(t, i);
    if j > i {
        lemma_line_offset_grows(t, i, j - 1);
        crate::key::lemma_utf8_len_nonneg(t[j - 1]);
    }
}

/// Where two texts first differ, in `found`. The bytes of `found`'s lines,
/// each with its line feed, fit in a `usize`.
fn difference(found: &str, generated: &str) -> (r: (Span, String))
    requires
        line_offset(lines_spec(found@), lines_spec(found@).len() as int) <= usize::MAX,
    ensures
        r.0 == difference_spec(found@, generated@).0,
        r.1@ == difference_spec(found@, generated@).1,
{
    let theirs = lines(found);
    let ours = lines(generated);
    let ghost t = views(theirs@);
    let ghost o = views(ours@);
    let mut offset: usize = 0;
    let mut k: usize = 0;
    while k < theirs.len() && k < ours.len() && same(theirs[k].as_str(), ours[k].as_str())
        invariant
            t == views(theirs@),
            o == views(ours@),
            t == lines_spec(found@),
            o == lines_spec(generated@),
            k <= t.len(),
            diff_index(t, o, 0) == diff_index(t, o, k as int),
            offset == line_offset(t, k as int),
            line_offset(t, t.len() as int) <= usize::MAX,
        decreases t.len() - k,
    {
        assert(t[k as int] == theirs@[k as int]@);
        proof {
            lemma_line_offset_grows(t, k as int + 1, t.len() as int);
            crate::key::lemma_utf8_len_nonneg(t[k as int]);
        }
        let n = byte_len(theirs[k].as_str());
        offset = offset + n + 1;
        k = k + 1;
    }
    assert(diff_index(t, o, k as int) == k as int);
    let len: usize = if k < theirs.len() {
        assert(t[k as int] == theirs@[k as int]@);
        proof {
            lemma_line_offset_grows(t, k as int + 1, t.len() as int);
            crate::key::lemma_utf8_len_nonneg(t[k as int]);
            lemma_line_offset_grows(t, 0, k as int);
        }
        byte_len(theirs[k].as_str())
    } else {
        0
    };
    let label = if k < ours.len() {
        assert(o[k as int] == ours@[k as int]@);
        cat("generated: ", ours[k].as_str())
    } else {
        owned("generated: nothing, the file ends above")
    };
    (Span::new(offset, len), label)
}

pub open spec fn regenerate_help() -> Seq<char> {
    "run `tect generate` and commit what it writes"@
}

/// What one generated artifact raises against what is committed at its
/// path: nothing there, or not the same text.
pub open spec fn artifact_issues(name: Seq<char>, generated: Seq<char>, found: Option<Seq<char>>) -> Seq<IssueV> {
    match found {
        None => seq![help_v(bare("`"@ + name + "` is not there"@, name), regenerate_help())],
        Some(f) => if f == generated {
            Seq::empty()
        } else {
            let (span, label) = difference_spec(f, generated);
            seq![help_v(at_v(bare("`"@ + name + "` is not what this repository generates"@, name), span, label), regenerate_help())]
        },
    }
}

pub open spec fn artifacts_issues(files: Seq<(Seq<char>, Seq<char>)>, found: Seq<Option<Seq<char>>>) -> Seq<IssueV>
    decreases files.len(),
{
    if files.len() == 0 || found.len() < files.len() {
        Seq::empty()
    } else {
        artifacts_issues(files.drop_last(), found.take(files.len() - 1)) + artifact_issues(
            files.last().0,
            files.last().1,
            found[files.len() - 1],
        )
    }
}

/// One issue for each committed file under `generated/` that nothing
/// generates.
pub open spec fn orphan_issues(committed: Seq<Seq<char>>, emitted: Seq<Seq<char>>) -> Seq<IssueV>
    decreases committed.len(),
{
    if committed.len() == 0 {
        Seq::empty()
    } else {
        let r = orphan_issues(committed.drop_last(), emitted);
        let p = committed.last();
        if emitted.contains(p) {
            r
        } else {
            r.push(help_v(bare("nothing generates `"@ + p + "`"@, p), "delete it, or declare what it belongs to"@))
        }
    }
}

pub open spec fn file_pairs(files: Seq<(String, String)>) -> Seq<(Seq<char>, Seq<char>)> {
    files.map_values(|f: (String, String)| (f.0@, f.1@))
}

pub open spec fn found_views(found: Seq<Option<String>>) -> Seq<Option<Seq<char>>> {
    found.map_values(|f: Option<String>| match f {
        Some(t) => Some(t@),
        None => None,
    })
}

/// What generation produced (each file's path relative to the root, and
/// its text), against what is committed: `found` holds what each of those
/// paths holds, nothing where there is no file, and `committed` every file
/// under `generated/`, by its path relative to the root.
pub fn verify(files: &Vec<(String, String)>, found: &Vec<Option<String>>, committed: &Vec<String>, issues: &mut Issues)
    requires
        found@.len() == files@.len(),
        forall|i: int|
            0 <= i < found@.len() ==> (#[trigger] found@[i] matches Some(t) ==> line_offset(lines_spec(t@), lines_spec(t@).len() as int)
                <= usize::MAX),
    ensures
        final(issues)@ == old(issues)@ + artifacts_issues(file_pairs(files@), found_views(found@)) + orphan_issues(
            views(committed@),
            file_pairs(files@).map_values(|f: (Seq<char>, Seq<char>)| f.0),
        ),
{
    let ghost start = issues@;
    let ghost fp = file_pairs(files@);
    let ghost fv = found_views(found@);
    let mut i: usize = 0;
    assert(issues@ =~= start + artifacts_issues(fp.take(0), fv.take(0)));
    while i < files.len()
        invariant
            fp == file_pairs(files@),
            fv == found_views(found@),
            found@.len() == files@.len(),
            forall|j: int|
                0 <= j < found@.len() ==> (#[trigger] found@[j] matches Some(t) ==> line_offset(lines_spec(t@), lines_spec(t@).len() as int)
                    <= usize::MAX),
            i <= files@.len(),
            issues@ == start + artifacts_issues(fp.take(i as int), fv.take(i as int)),
        decreases files@.len() - i,
    {
        assert(fp.take(i as int + 1).drop_last() =~= fp.take(i as int));
        assert(fv.take(i as int + 1).take(i as int) =~= fv.take(i as int));
        assert(fp.take(i as int + 1).last() == (files@[i as int].0@, files@[i as int].1@));
        assert(fv.take(i as int + 1)[i as int] == fv[i as int]);
        let name = files[i].0.as_str();
        let generated = files[i].1.as_str();
        match &found[i] {
            None => {
                issues.push(Issue::new(cat3("`", name, "` is not there"), &Source::new(name, "")).help(owned("run `tect generate` and commit what it writes")));
            },
            Some(text) => {
                if !same(text.as_str(), generated) {
                    let (span, line) = difference(text.as_str(), generated);
                    issues.push(
                        Issue::new(cat3("`", name, "` is not what this repository generates"), &Source::new(name, text.as_str())).at(span, line).help(
                            owned("run `tect generate` and commit what it writes"),
                        ),
                    );
                }
            },
        }
        assert(issues@ =~= start + artifacts_issues(fp.take(i as int + 1), fv.take(i as int + 1)));
        i = i + 1;
    }
    assert(fp.take(i as int) =~= fp);
    assert(fv.take(i as int) =~= fv);
    let ghost mid = issues@;
    let ghost emitted = fp.map_values(|f: (Seq<char>, Seq<char>)| f.0);
    let ghost tv = views(committed@);
    let mut k: usize = 0;
    assert(issues@ =~= mid + orphan_issues(tv.take(0), emitted));
    while k < committed.len()
        invariant
            tv == views(committed@),
            emitted == file_pairs(files@).map_values(|f: (Seq<char>, Seq<char>)| f.0),
            k <= committed@.len(),
            issues@ == mid + orphan_issues(tv.take(k as int), emitted),
        decreases committed@.len() - k,
    {
        assert(tv.take(k as int + 1).drop_last() =~= tv.take(k as int));
        assert(tv.take(k as int + 1).last() == committed@[k as int]@);
        let p = committed[k].as_str();
        let mut emitted_here = false;
        let mut j: usize = 0;
        while j < files.len()
            invariant
                emitted == file_pairs(files@).map_values(|f: (Seq<char>, Seq<char>)| f.0),
                j <= files@.len(),
                emitted_here == emitted.take(j as int).contains(p@),
            decreases files@.len() - j,
        {
            let ghost taken = emitted.take(j as int);
            assert(emitted[j as int] == files@[j as int].0@);
            assert(emitted.take(j as int + 1) =~= taken.push(files@[j as int].0@));
            let hit = same(files[j].0.as_str(), p);
            assert(emitted.take(j as int + 1).contains(p@) == (taken.contains(p@) || hit)) by {
                let t2 = emitted.take(j as int + 1);
                if taken.contains(p@) {
                    let w = choose|w: int| 0 <= w < taken.len() && taken[w] == p@;
                    assert(t2[w] == p@);
                }
                if hit {
                    assert(t2[j as int] == p@);
                }
                if t2.contains(p@) {
                    let w = choose|w: int| 0 <= w < t2.len() && t2[w] == p@;
                    if w < j {
                        assert(taken[w] == p@);
                    }
                }
            }
            if hit {
                emitted_here = true;
            }
            j = j + 1;
        }
        assert(emitted.take(j as int) =~= emitted);
        if !emitted_here {
            issues.push(Issue::new(cat3("nothing generates `", p, "`"), &Source::new(p, "")).help(owned("delete it, or declare what it belongs to")));
        }
        assert(issues@ =~= mid + orphan_issues(tv.take(k as int + 1), emitted));
        k = k + 1;
    }
    assert(tv.take(k as int) =~= tv);
}

/// The directory `--root` names anywhere among the words, from `at` on:
/// the word after `--root`, or what follows `--root=`.
pub open spec fn root_from(words: Seq<Seq<char>>, at: int) -> Option<Seq<char>>
    decreases words.len() - at,
{
    if at < 0 || at >= words.len() {
        None
    } else if words[at] == "--root"@ {
        if at + 1 < words.len() {
            Some(words[at + 1])
        } else {
            None
        }
    } else if is_prefix("--root="@, words[at]) {
        Some(words[at].skip("--root="@.len() as int))
    } else {
        root_from(words, at + 1)
    }
}

pub fn root_anywhere(words: &Vec<String>) -> (r: Option<String>)
    ensures
        match r {
            Some(d) => root_from(views(words@), 0) == Some(d@),
            None => root_from(views(words@), 0) is None,
        },
{
    let ghost ws = views(words@);
    let mut at: usize = 0;
    while at < words.len()
        invariant
            ws == views(words@),
            at <= words@.len(),
            root_from(ws, 0) == root_from(ws, at as int),
        decreases words@.len() - at,
    {
        assert(ws[at as int] == words@[at as int]@);
        let w = words[at].as_str();
        if same(w, "--root") {
            if at + 1 < words.len() {
                assert(ws[at as int + 1] == words@[at as int + 1]@);
                return Some(words[at + 1].clone());
            }
            return None;
        }
        match strip_prefix(w, "--root=") {
            Some(value) => {
                return Some(value);
            },
            None => {},
        }
        at = at + 1;
    }
    None
}

/// Whether `-h` or `--help` comes before any command word (only `--root`
/// and its value, and `--no-tui`, may stand before it), and if so the root
/// named anywhere.
pub open spec fn help_from(words: Seq<Seq<char>>, at: int) -> Option<Option<Seq<char>>>
    decreases words.len() - at,
{
    if at < 0 || at >= words.len() {
        None
    } else {
        let w = words[at];
        if w == "-h"@ || w == "--help"@ {
            Some(root_from(words, 0))
        } else if w == "--root"@ {
            if at + 2 < words.len() {
                help_from(words, at + 2)
            } else {
                None
            }
        } else if is_prefix("--root="@, w) || w == "--no-tui"@ {
            help_from(words, at + 1)
        } else {
            None
        }
    }
}

pub fn help_requested(words: &Vec<String>) -> (r: Option<Option<String>>)
    ensures
        match help_from(views(words@), 0) {
            Some(Some(d)) => r matches Some(Some(v)) && v@ == d,
            Some(None) => r == Some(None::<String>),
            None => r is None,
        },
{
    let ghost ws = views(words@);
    let mut at: usize = 0;
    while at < words.len()
        invariant
            ws == views(words@),
            help_from(ws, 0) == help_from(ws, at as int),
        decreases words@.len() - at,
    {
        assert(ws[at as int] == words@[at as int]@);
        let w = words[at].as_str();
        if same(w, "-h") || same(w, "--help") {
            return Some(root_anywhere(words));
        } else if same(w, "--root") {
            if words.len() - at <= 2 {
                return None;
            }
            at = at + 2;
        } else if starts_with_root(w) || same(w, "--no-tui") {
            at = at + 1;
        } else {
            return None;
        }
    }
    None
}

fn starts_with_root(w: &str) -> (r: bool)
    ensures
        r == is_prefix("--root="@, w@),
{
    crate::text::starts_with(w, "--root=")
}


/// What a command's argument names, by the kind of thing it takes: a target
/// for `summary` and `sbom`, a module for `why`, an image for the rest.
pub open spec fn image_arg(command: Command, arg: Option<Seq<char>>) -> Option<Seq<char>> {
    match arg_of(command) {
        Some(Arg::Target) | Some(Arg::Module) => None,
        _ => arg,
    }
}

pub open spec fn target_arg(command: Command, arg: Option<Seq<char>>) -> Option<Seq<char>> {
    match arg_of(command) {
        Some(Arg::Target) => arg,
        _ => None,
    }
}

/// Whether a command answers about the default image or target when it is
/// given none.
pub open spec fn needs_default(command: Command, arg: Option<Seq<char>>) -> bool {
    match command {
        Command::Summary | Command::Sbom => arg is None,
        Command::Graph | Command::GraphJson | Command::Section => arg is None,
        Command::Plan => true,
        _ => false,
    }
}

pub open spec fn fork_issue(name: Seq<char>, repo_file: Seq<char>) -> IssueV {
    help_v(
        bare("`"@ + name + "` no longer matches the record it was imported with"@, repo_file),
        "`audit { enforce #true }` makes a fork an error; re-import it, or drop the `provenance.kdl` beside its manifest to own the module outright"@,
    )
}

pub open spec fn fork_issues(names: Seq<Seq<char>>, repo_file: Seq<char>) -> Seq<IssueV> {
    names.map_values(|n: Seq<char>| fork_issue(n, repo_file))
}

/// The default target of `list`, its image being image `i`, as it is named.
pub open spec fn shown_spec_default(list: List, i: int) -> Seq<char> {
    crate::model::image::shown_spec(
        list.images@[i].id@,
        match crate::model::image::default_flavour_spec(list.images@[i].flavours@) {
            Some(f) => f,
            None => crate::model::image::NO_FLAVOUR@,
        },
    )
}

pub open spec fn opt_str(o: Option<&str>) -> Option<Seq<char>> {
    match o {
        Some(s) => Some(s@),
        None => None,
    }
}

/// What a command raises before it runs, and what it runs on: a fork
/// `check` finds where the repository enforces its audit, an image or a
/// target the repository does not declare (with the ones it does), and no
/// default where the command needs one; then the target it answers about
/// and the image, the one named or the default.
pub open spec fn command_issues_spec(command: Command, arg: Option<Seq<char>>, list: List, modified: Seq<Seq<char>>) -> Seq<IssueV> {
    let repo = list.repo_src.name@;
    let ids = crate::model::image::image_ids(list.images@);
    let targets = crate::model::image::shown_all(crate::model::image::targets_spec(list.images@));
    let forks = if list.audit_enforce && command == Command::Check {
        fork_issues(modified, repo)
    } else {
        Seq::empty()
    };
    let unknown_image = match image_arg(command, arg) {
        Some(id) => if ids.contains(id) {
            Seq::empty()
        } else {
            seq![help_v(bare("`"@ + id + "` is not a declared image"@, repo), "images: "@ + join_spec(ids, ", "@))]
        },
        None => Seq::empty(),
    };
    let unknown_target = match target_arg(command, arg) {
        Some(t) => if targets.contains(t) {
            Seq::empty()
        } else {
            seq![help_v(bare("`"@ + t + "` is not a build target"@, repo), "targets: "@ + join_spec(targets, ", "@))]
        },
        None => Seq::empty(),
    };
    let no_default = if needs_default(command, arg) && list.images@.len() > 1 && list.default_image_id is None {
        seq![crate::model::image::no_default_issue(list.images@.len() as nat, list.images@[0].id@, repo)]
    } else {
        Seq::empty()
    };
    forks + unknown_image + unknown_target + no_default
}

fn joined_ids(list: &List) -> (r: Vec<String>)
    ensures
        views(r@) == crate::model::image::image_ids(list.images@),
{
    let mut out: Vec<String> = Vec::new();
    let mut i: usize = 0;
    while i < list.images.len()
        invariant
            i <= list.images@.len(),
            views(out@) == crate::model::image::image_ids(list.images@).take(i as int),
        decreases list.images@.len() - i,
    {
        let ghost before = views(out@);
        out.push(list.images[i].id.clone());
        assert(views(out@) =~= before.push(list.images@[i as int].id@));
        assert(crate::model::image::image_ids(list.images@).take(i as int + 1) =~= crate::model::image::image_ids(
            list.images@,
        ).take(i as int).push(list.images@[i as int].id@));
        i = i + 1;
    }
    assert(crate::model::image::image_ids(list.images@).take(i as int) =~= crate::model::image::image_ids(list.images@));
    out
}

fn target_names(list: &List) -> (r: Vec<String>)
    ensures
        views(r@) == crate::model::image::shown_all(crate::model::image::targets_spec(list.images@)),
{
    let targets = list.targets();
    let ghost want = crate::model::image::shown_all(crate::model::image::targets_spec(list.images@));
    let mut out: Vec<String> = Vec::new();
    let mut i: usize = 0;
    while i < targets.len()
        invariant
            i <= targets@.len(),
            crate::model::image::target_views(targets@) == crate::model::image::targets_spec(list.images@),
            want == crate::model::image::shown_all(crate::model::image::targets_spec(list.images@)),
            views(out@) == want.take(i as int),
        decreases targets@.len() - i,
    {
        let ghost before = views(out@);
        let name = targets[i].to_string();
        out.push(name);
        assert(crate::model::image::target_views(targets@)[i as int] == (targets@[i as int].image@, targets@[i as int].flavour@));
        assert(views(out@) =~= before.push(want[i as int]));
        assert(want.take(i as int + 1) =~= want.take(i as int).push(want[i as int]));
        i = i + 1;
    }
    assert(want.take(i as int) =~= want);
    out
}

fn position_of(names: &Vec<String>, name: &str) -> (r: Option<usize>)
    ensures
        match crate::text::position(views(names@), name@) {
            Some(i) => r matches Some(k) && k as int == i,
            None => r is None,
        },
{
    let mut i: usize = 0;
    while i < names.len()
        invariant
            i <= names@.len(),
            forall|j: int| 0 <= j < i ==> views(names@)[j] != name@,
        decreases names@.len() - i,
    {
        if same(names[i].as_str(), name) {
            proof {
                crate::text::lemma_position(views(names@), name@, i as int);
            }
            return Some(i);
        }
        i = i + 1;
    }
    proof {
        crate::text::lemma_position(views(names@), name@, i as int);
    }
    None
}

fn raise_forks(command: Command, list: &List, modified: &Vec<String>, issues: &mut Issues)
    ensures
        final(issues)@ == old(issues)@ + if list.audit_enforce && command == Command::Check {
            fork_issues(views(modified@), list.repo_src.name@)
        } else {
            Seq::empty()
        },
{
    let ghost start = issues@;
    if list.audit_enforce && command == Command::Check {
        let mut i: usize = 0;
        while i < modified.len()
            invariant
                i <= modified@.len(),
                issues@ == start + fork_issues(views(modified@).take(i as int), list.repo_src.name@),
            decreases modified@.len() - i,
        {
            issues.push(
                Issue::new(cat3("`", modified[i].as_str(), "` no longer matches the record it was imported with"), &list.repo_src).help(
                    owned(
                        "`audit { enforce #true }` makes a fork an error; re-import it, or drop the `provenance.kdl` beside its manifest to own the module outright",
                    ),
                ),
            );
            assert(issues@ =~= start + fork_issues(views(modified@).take(i as int + 1), list.repo_src.name@));
            i = i + 1;
        }
        assert(views(modified@).take(i as int) =~= views(modified@));
    } else {
        assert(issues@ =~= start + Seq::<IssueV>::empty());
    }
}

#[verifier::spinoff_prover]
#[verifier::rlimit(30)]
fn image_chosen(image: Option<&str>, list: &List, issues: &mut Issues) -> (r: Option<usize>)
    ensures
        final(issues)@ == old(issues)@ + match opt_str(image) {
            Some(id) => if crate::model::image::image_ids(list.images@).contains(id) {
                Seq::empty()
            } else {
                seq![
                    help_v(
                        bare("`"@ + id + "` is not a declared image"@, list.repo_src.name@),
                        "images: "@ + join_spec(crate::model::image::image_ids(list.images@), ", "@),
                    ),
                ]
            },
            None => Seq::<IssueV>::empty(),
        },
        match opt_str(image) {
            Some(id) => match crate::text::position(crate::model::image::image_ids(list.images@), id) {
                Some(i) => r == Some(i as usize),
                None => r is None,
            },
            None => match crate::model::image::default_image_index(*list) {
                Some(i) => r == Some(i as usize),
                None => r is None,
            },
        },
{
    let ghost start = issues@;
    let ids = joined_ids(list);
    match image {
        Some(id) => {
            let one = position_of(&ids, id);
            proof {
                crate::text::lemma_position_found(views(ids@), id@);
            }
            if one.is_none() {
                issues.push(Issue::new(cat3("`", id, "` is not a declared image"), &list.repo_src).help(cat("images: ", join(&ids, ", ").as_str())));
            } else {
                assert(issues@ =~= start + Seq::<IssueV>::empty());
            }
            one
        },
        None => {
            assert(issues@ =~= start + Seq::<IssueV>::empty());
            default_index(list, &ids)
        },
    }
}

fn default_index(list: &List, ids: &Vec<String>) -> (r: Option<usize>)
    requires
        views(ids@) == crate::model::image::image_ids(list.images@),
    ensures
        match crate::model::image::default_image_index(*list) {
            Some(i) => r == Some(i as usize),
            None => r is None,
        },
{
    match &list.default_image_id {
        Some(id) => {
            let one = position_of(ids, id.as_str());
            proof {
                crate::text::lemma_position_found(views(ids@), id@);
            }
            one
        },
        None => if list.images.len() == 1 {
            Some(0)
        } else {
            None
        },
    }
}

fn target_checked(target: Option<&str>, list: &List, issues: &mut Issues)
    ensures
        final(issues)@ == old(issues)@ + match opt_str(target) {
            Some(t) => if crate::model::image::shown_all(crate::model::image::targets_spec(list.images@)).contains(t) {
                Seq::empty()
            } else {
                seq![
                    help_v(
                        bare("`"@ + t + "` is not a build target"@, list.repo_src.name@),
                        "targets: "@ + join_spec(crate::model::image::shown_all(crate::model::image::targets_spec(list.images@)), ", "@),
                    ),
                ]
            },
            None => Seq::<IssueV>::empty(),
        },
{
    let ghost start = issues@;
    match target {
        Some(t) => {
            let names = target_names(list);
            proof {
                crate::text::lemma_position_found(views(names@), t@);
            }
            if position_of(&names, t).is_none() {
                issues.push(Issue::new(cat3("`", t, "` is not a build target"), &list.repo_src).help(cat("targets: ", join(&names, ", ").as_str())));
            } else {
                assert(issues@ =~= start + Seq::<IssueV>::empty());
            }
        },
        None => {
            assert(issues@ =~= start + Seq::<IssueV>::empty());
        },
    }
}

/// What a command raises about its argument and the repository before it
/// runs, the image it runs on (the one named, else the default) and the
/// target it answers about (the one named, else the default). `modified`
/// is every imported module that no longer matches its record, which only
/// `check` looks for.
pub fn command_issues(command: Command, arg: Option<&str>, list: &List, modified: &Vec<String>) -> (r: (
    Issues,
    Option<usize>,
    Option<String>,
))
    ensures
        r.0@ == command_issues_spec(command, opt_str(arg), *list, views(modified@)),
        match image_arg(command, opt_str(arg)) {
            Some(id) => match crate::text::position(crate::model::image::image_ids(list.images@), id) {
                Some(i) => r.1 == Some(i as usize),
                None => r.1 is None,
            },
            None => match crate::model::image::default_image_index(*list) {
                Some(i) => r.1 == Some(i as usize),
                None => r.1 is None,
            },
        },
        match target_arg(command, opt_str(arg)) {
            Some(t) => r.2 matches Some(x) && x@ == t,
            None => match crate::model::image::default_image_index(*list) {
                Some(i) => r.2 matches Some(x) && x@ == shown_spec_default(*list, i),
                None => r.2 is None,
            },
        },
{
    let mut issues = Issues::new();
    raise_forks(command, list, modified, &mut issues);
    let (image, target): (Option<&str>, Option<&str>) = match command.arg() {
        Some(Arg::Target) => (None, arg),
        Some(Arg::Module) => (None, None),
        _ => (arg, None),
    };
    assert(opt_str(image) == image_arg(command, opt_str(arg)));
    assert(opt_str(target) == target_arg(command, opt_str(arg)));
    let one = image_chosen(image, list, &mut issues);
    target_checked(target, list, &mut issues);
    let needs = match command {
        Command::Summary | Command::Sbom => arg.is_none(),
        Command::Graph | Command::GraphJson | Command::Section => arg.is_none(),
        Command::Plan => true,
        _ => false,
    };
    let ghost before = issues@;
    if needs {
        match list.no_default() {
            Some(issue) => issues.push(issue),
            None => {},
        }
    }
    assert(issues@ =~= command_issues_spec(command, opt_str(arg), *list, views(modified@)));
    let chosen = match target {
        Some(t) => Some(owned(t)),
        None => match list.default_target() {
            Some(d) => Some(d.to_string()),
            None => None,
        },
    };
    (issues, one, chosen)
}

} // verus!
