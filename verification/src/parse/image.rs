//! The `image` node: what an image calls itself, builds on, and is made of.

use crate::diag::{at_v, bare, help_v, Issue, IssueV, Issues, Source, Span};
use crate::model::image::{flavour_names, is_name, is_name_spec, Base, Decl, Entry, Flavour, Image};
use crate::model::options::Value;
use crate::parse::asset::{opt_str, pin_spec, pin_view, read_pin, PinV};
use crate::parse::options::set_views;
use crate::parse::kdl::KNode;
use crate::parse::options::{args, args_spec};
use crate::parse::{
    as_bool, bool_arg, check_path, child, child_spec, first_value, flag, kids, kids_spec, path_issue, prop, prop_spec,
    string_arg, string_arg_spec, string_args, string_args_spec, text, text_spec, unnamed, boolean_spec,
};
use crate::text::{cat, cat3, first_true, is_prefix, join, join_spec, lower_spec, owned, replace_char, same, swap_char, to_lower, views};
use vstd::prelude::*;

verus! {

pub type DeclV = (Seq<char>, Span);

pub open spec fn image_decl_views(ds: Seq<Decl>) -> Seq<DeclV> {
    ds.map_values(|d: Decl| (d.name@, d.span))
}

/// Every `name "a" "b"` among some children, as declarations pointing at
/// the child that made them.
pub open spec fn decls_spec(kids: Seq<KNode>, name: Seq<char>) -> Seq<DeclV>
    decreases kids.len(),
{
    if kids.len() == 0 {
        Seq::empty()
    } else {
        let r = decls_spec(kids.drop_last(), name);
        let c = kids.last();
        if c.name@ == name {
            r + string_args_spec(c.entries@).map_values(|v: Seq<char>| (v, c.name_span))
        } else {
            r
        }
    }
}

fn decls(node: &KNode, name: &str) -> (r: Vec<Decl>)
    ensures
        image_decl_views(r@) == decls_spec(kids_spec(*node), name@),
{
    let ks = kids(node);
    let mut out: Vec<Decl> = Vec::new();
    let mut i: usize = 0;
    assert(ks@.take(0) =~= Seq::<KNode>::empty());
    assert(image_decl_views(out@) =~= Seq::<DeclV>::empty());
    while i < ks.len()
        invariant
            ks@ == kids_spec(*node),
            i <= ks@.len(),
            image_decl_views(out@) == decls_spec(ks@.take(i as int), name@),
        decreases ks@.len() - i,
    {
        assert(ks@.take(i as int + 1).drop_last() =~= ks@.take(i as int));
        assert(ks@.take(i as int + 1).last() == ks@[i as int]);
        let c = &ks[i];
        if same(c.name.as_str(), name) {
            let vs = string_args(c);
            let ghost base = image_decl_views(out@);
            let ghost all = vs@.map_values(|s: &str| s@);
            let mut k: usize = 0;
            while k < vs.len()
                invariant
                    all == vs@.map_values(|s: &str| s@),
                    k <= vs@.len(),
                    image_decl_views(out@) == base + all.take(k as int).map_values(|v: Seq<char>| (v, c.name_span)),
                decreases vs@.len() - k,
            {
                let ghost prior = out@;
                out.push(Decl { name: owned(vs[k]), span: c.name_span });
                assert(image_decl_views(out@) =~= image_decl_views(prior).push((all[k as int], c.name_span)));
                assert(all.take(k as int + 1).map_values(|v: Seq<char>| (v, c.name_span)) =~= all.take(k as int).map_values(
                    |v: Seq<char>| (v, c.name_span),
                ).push((all[k as int], c.name_span)));
                k = k + 1;
            }
            assert(all.take(k as int) =~= all);
        }
        i = i + 1;
    }
    assert(ks@.take(i as int) =~= ks@);
    out
}

pub open spec fn bool_arg_spec(n: KNode) -> Option<bool> {
    match first_value(n.entries@, unnamed(n.entries@)) {
        Some(v) => as_bool(v),
        None => None,
    }
}

/// A base as plain values: the image reference, the family, what it
/// provides, the paths it guarantees, whether it is signed, and where.
pub type BaseV = (Seq<char>, Seq<char>, Seq<DeclV>, Seq<DeclV>, bool, Span);

pub open spec fn base_view(b: Base) -> BaseV {
    (b.image@, b.family@, image_decl_views(b.provides@), image_decl_views(b.provides_files@), b.signed, b.span)
}

/// One issue for each guaranteed path that is not absolute.
pub open spec fn base_path_issues(ds: Seq<DeclV>, source: Seq<char>) -> Seq<IssueV>
    decreases ds.len(),
{
    if ds.len() == 0 {
        Seq::empty()
    } else {
        let r = base_path_issues(ds.drop_last(), source);
        let d = ds.last();
        if is_prefix("/"@, d.0) {
            r
        } else {
            r.push(path_issue(d.0, d.1, source))
        }
    }
}

/// What a `base` node gives, and what it raises.
pub open spec fn base_spec(node: KNode, source: Seq<char>) -> (Option<BaseV>, Seq<IssueV>) {
    match string_arg_spec(node) {
        None => (None, Seq::empty()),
        Some(image) => {
            let files = decls_spec(kids_spec(node), "provides-file"@);
            let signed = match child_spec(node, "signed"@) {
                Some(c) => match bool_arg_spec(c) {
                    Some(b) => b,
                    None => false,
                },
                None => false,
            };
            (
                Some((image, text_spec(node, "family"@), decls_spec(kids_spec(node), "provides"@), files, signed, node.name_span)),
                base_path_issues(files, source),
            )
        },
    }
}

/// `base "quay.io/fedora/fedora-bootc:44" { family "fedora" }`
pub fn parse_base(node: &KNode, src: &Source, issues: &mut Issues) -> (r: Option<Base>)
    ensures
        match base_spec(*node, src.name@).0 {
            Some(b) => r matches Some(v) && base_view(v) == b,
            None => r is None,
        },
        final(issues)@ == old(issues)@ + base_spec(*node, src.name@).1,
{
    let ghost start = issues@;
    let image = match string_arg(node) {
        Some(i) => i,
        None => {
            assert(issues@ =~= start + Seq::<IssueV>::empty());
            return None;
        },
    };
    let provides = decls(node, "provides");
    let files = decls(node, "provides-file");
    let signed = match child(node, "signed") {
        Some(c) => match bool_arg(c) {
            Some(b) => b,
            None => false,
        },
        None => false,
    };
    let ghost fv = image_decl_views(files@);
    let mut i: usize = 0;
    assert(fv.take(0) =~= Seq::<DeclV>::empty());
    assert(issues@ =~= start + base_path_issues(fv.take(0), src.name@));
    while i < files.len()
        invariant
            fv == image_decl_views(files@),
            i <= files@.len(),
            issues@ == start + base_path_issues(fv.take(i as int), src.name@),
        decreases files@.len() - i,
    {
        assert(fv.take(i as int + 1).drop_last() =~= fv.take(i as int));
        assert(fv.take(i as int + 1).last() == (files@[i as int].name@, files@[i as int].span));
        check_path(files[i].name.as_str(), files[i].span, src, issues);
        assert(issues@ =~= start + base_path_issues(fv.take(i as int + 1), src.name@));
        i = i + 1;
    }
    assert(fv.take(i as int) =~= fv);
    Some(Base { image: owned(image), family: text(node, "family"), provides, provides_files: files, signed, span: node.name_span })
}

/// The id an image is published under, and what it raises: derived from
/// `name` when none is declared (lowercased, spaces as dashes), and held to
/// what an image tag may be either way.
#[verifier::opaque]
pub open spec fn id_spec(id: Seq<char>, name: Seq<char>, span: Span, source: Seq<char>) -> (Seq<char>, Seq<IssueV>) {
    if id.len() == 0 {
        let derived = swap_char(lower_spec(name), ' ', '-');
        if name.len() > 0 && !is_name_spec(derived) {
            (
                Seq::empty(),
                seq![
                    help_v(
                        at_v(bare("`"@ + name + "` does not derive a usable image name"@, source), span, "no `id`, and `name` does not lowercase into one"@),
                        "declare `id \"something\"`: lowercase letters, digits and dashes, starting with a letter"@,
                    ),
                ],
            )
        } else {
            (derived, Seq::empty())
        }
    } else if !is_name_spec(id) {
        (
            id,
            seq![
                help_v(
                    at_v(bare("invalid image name `"@ + id + "`"@, source), span, "must be lowercase letters, digits and dashes, starting with a letter"@),
                    "it becomes an image tag, a cache tag and the default hostname, all of which restrict it"@,
                ),
            ],
        )
    } else {
        (id, Seq::empty())
    }
}

pub fn check_id(id: &str, name: &str, span: Span, src: &Source, issues: &mut Issues) -> (r: String)
    ensures
        r@ == id_spec(id@, name@, span, src.name@).0,
        final(issues)@ == old(issues)@ + id_spec(id@, name@, span, src.name@).1,
{
    reveal(id_spec);
    let ghost start = issues@;
    if id.unicode_len() == 0 {
        let lowered = to_lower(name);
        let derived = replace_char(lowered.as_str(), ' ', '-');
        if name.unicode_len() > 0 && !is_name(derived.as_str()) {
            issues.push(
                Issue::new(cat3("`", name, "` does not derive a usable image name"), src).at(span, owned("no `id`, and `name` does not lowercase into one")).help(
                    owned("declare `id \"something\"`: lowercase letters, digits and dashes, starting with a letter"),
                ),
            );
            assert(issues@ =~= start + id_spec(id@, name@, span, src.name@).1);
            return String::new();
        }
        assert(issues@ =~= start + Seq::<IssueV>::empty());
        derived
    } else {
        if !is_name(id) {
            issues.push(
                Issue::new(cat3("invalid image name `", id, "`"), src).at(span, owned("must be lowercase letters, digits and dashes, starting with a letter")).help(
                    owned("it becomes an image tag, a cache tag and the default hostname, all of which restrict it"),
                ),
            );
            assert(issues@ =~= start + id_spec(id@, name@, span, src.name@).1);
        } else {
            assert(issues@ =~= start + Seq::<IssueV>::empty());
        }
        owned(id)
    }
}

pub type FlavourV = (Seq<char>, bool, bool, Span);

pub open spec fn flavour_view(f: Flavour) -> FlavourV {
    (f.name@, f.default, f.pr_build, f.span)
}

/// The first flavour already declared under that name.
pub open spec fn flavour_at(done: Seq<FlavourV>, name: Seq<char>) -> Option<int> {
    first_true(done.map_values(|f: FlavourV| f.0 == name))
}

/// What a name that cannot be a flavour raises.
pub open spec fn flavour_name_issues(name: Seq<char>, span: Span, source: Seq<char>) -> Seq<IssueV> {
    if !is_name_spec(name) {
        seq![
            help_v(
                at_v(bare("invalid flavour name `"@ + name + "`"@, source), span, "must be lowercase letters, digits and dashes, starting with a letter"@),
                "a flavour name reaches an image name, a cache tag and a build arg, all of which restrict it"@,
            ),
        ]
    } else if name == "none"@ {
        seq![
            help_v(
                at_v(bare("`none` is reserved"@, source), span, "not usable as a flavour name"@),
                "`none` names the ungated build, which is published unsuffixed and needs no declaration"@,
            ),
        ]
    } else {
        Seq::empty()
    }
}

/// One child of `flavours` onto the flavours declared before it.
pub open spec fn flavour_step(done: Seq<FlavourV>, node: KNode, source: Seq<char>) -> (Seq<FlavourV>, Seq<IssueV>) {
    let name = node.name@;
    let span = node.name_span;
    let f = (name, boolean_spec(node, "default"@) == Some(true), boolean_spec(node, "pr-build"@) == Some(true), span);
    let named = flavour_name_issues(name, span, source);
    match flavour_at(done, name) {
        Some(d) => (
            done,
            named + seq![
                at_v(at_v(bare("flavour `"@ + name + "` is declared twice"@, source), done[d].3, "first here"@), span, "and again here"@),
            ],
        ),
        None => (done.push(f), named),
    }
}

pub open spec fn flavours_spec(kids: Seq<KNode>, source: Seq<char>) -> (Seq<FlavourV>, Seq<IssueV>)
    decreases kids.len(),
{
    if kids.len() == 0 {
        (Seq::empty(), Seq::empty())
    } else {
        let (fs, is) = flavours_spec(kids.drop_last(), source);
        let (fs2, is2) = flavour_step(fs, kids.last(), source);
        (fs2, is + is2)
    }
}

fn find_flavour(done: &Vec<Flavour>, name: &str) -> (r: Option<usize>)
    ensures
        match flavour_at(done@.map_values(|f: Flavour| flavour_view(f)), name@) {
            Some(i) => r matches Some(j) && j as int == i && j < done@.len(),
            None => r is None,
        },
{
    let ghost marks = done@.map_values(|f: Flavour| flavour_view(f)).map_values(|f: FlavourV| f.0 == name@);
    let mut i: usize = 0;
    while i < done.len()
        invariant
            marks == done@.map_values(|f: Flavour| flavour_view(f)).map_values(|f: FlavourV| f.0 == name@),
            i <= done@.len(),
            forall|j: int| 0 <= j < i ==> !marks[j],
        decreases done@.len() - i,
    {
        if same(done[i].name.as_str(), name) {
            proof {
                crate::text::lemma_first_true(marks, i as int);
            }
            return Some(i);
        }
        i = i + 1;
    }
    proof {
        crate::text::lemma_first_true(marks, i as int);
    }
    None
}

fn add_flavour(node: &KNode, done: &mut Vec<Flavour>, src: &Source, issues: &mut Issues)
    ensures
        final(done)@.map_values(|f: Flavour| flavour_view(f)) == flavour_step(old(done)@.map_values(|f: Flavour| flavour_view(f)), *node, src.name@).0,
        final(issues)@ == old(issues)@ + flavour_step(old(done)@.map_values(|f: Flavour| flavour_view(f)), *node, src.name@).1,
{
    let ghost start = issues@;
    let ghost prior = done@;
    let name = node.name.as_str();
    let span = node.name_span;
    if !is_name(name) {
        issues.push(
            Issue::new(cat3("invalid flavour name `", name, "`"), src).at(span, owned("must be lowercase letters, digits and dashes, starting with a letter")).help(
                owned("a flavour name reaches an image name, a cache tag and a build arg, all of which restrict it"),
            ),
        );
    } else if same(name, "none") {
        issues.push(
            Issue::new(owned("`none` is reserved"), src).at(span, owned("not usable as a flavour name")).help(
                owned("`none` names the ungated build, which is published unsuffixed and needs no declaration"),
            ),
        );
    }
    assert(issues@ =~= start + flavour_name_issues(name@, span, src.name@));
    match find_flavour(done, name) {
        Some(d) => {
            issues.push(Issue::new(cat3("flavour `", name, "` is declared twice"), src).at(done[d].span, owned("first here")).at(span, owned("and again here")));
            assert(issues@ =~= start + flavour_step(prior.map_values(|f: Flavour| flavour_view(f)), *node, src.name@).1);
        },
        None => {
            done.push(Flavour { name: owned(name), default: flag(node, "default"), pr_build: flag(node, "pr-build"), span });
            assert(done@.map_values(|f: Flavour| flavour_view(f)) =~= prior.map_values(|f: Flavour| flavour_view(f)).push(
                flavour_view(done@.last()),
            ));
        },
    }
}

/// `flavours { desktop default=#true; nvidia pr-build=#true }`
pub fn parse_flavours(block: &KNode, src: &Source, issues: &mut Issues) -> (r: Vec<Flavour>)
    ensures
        r@.map_values(|f: Flavour| flavour_view(f)) == flavours_spec(kids_spec(*block), src.name@).0,
        final(issues)@ == old(issues)@ + flavours_spec(kids_spec(*block), src.name@).1,
{
    let ghost start = issues@;
    let ks = kids(block);
    let mut done: Vec<Flavour> = Vec::new();
    let mut i: usize = 0;
    assert(ks@.take(0) =~= Seq::<KNode>::empty());
    assert(done@.map_values(|f: Flavour| flavour_view(f)) =~= Seq::<FlavourV>::empty());
    assert(issues@ =~= start + Seq::<IssueV>::empty());
    while i < ks.len()
        invariant
            ks@ == kids_spec(*block),
            i <= ks@.len(),
            done@.map_values(|f: Flavour| flavour_view(f)) == flavours_spec(ks@.take(i as int), src.name@).0,
            issues@ == start + flavours_spec(ks@.take(i as int), src.name@).1,
        decreases ks@.len() - i,
    {
        assert(ks@.take(i as int + 1).drop_last() =~= ks@.take(i as int));
        assert(ks@.take(i as int + 1).last() == ks@[i as int]);
        add_flavour(&ks[i], &mut done, src, issues);
        i = i + 1;
    }
    assert(ks@.take(i as int) =~= ks@);
    done
}

/// Where the flavours marked default are, in order (`pr` false), or those
/// marked to build for a pull request (`pr` true).
pub open spec fn marked_spans(fs: Seq<FlavourV>, pr: bool) -> Seq<Span>
    decreases fs.len(),
{
    if fs.len() == 0 {
        Seq::empty()
    } else {
        let r = marked_spans(fs.drop_last(), pr);
        let f = fs.last();
        if (if pr { f.2 } else { f.1 }) {
            r.push(f.3)
        } else {
            r
        }
    }
}

/// What more than one default, or more than one pull-request flavour,
/// raises: one issue pointing at each of them.
#[verifier::opaque]
pub open spec fn flavours_check_spec(fs: Seq<FlavourV>, source: Seq<char>) -> Seq<IssueV> {
    let defaults = marked_spans(fs, false);
    let prs = marked_spans(fs, true);
    let d: Seq<IssueV> = if defaults.len() >= 2 {
        seq![
            IssueV {
                message: "more than one flavour is marked `default=#true`"@,
                source,
                labels: defaults.map_values(|s: Span| (s, "marked default"@)),
                help: None,
            },
        ]
    } else {
        Seq::empty()
    };
    let p: Seq<IssueV> = if prs.len() > 1 {
        seq![
            IssueV {
                message: "more than one flavour is marked `pr-build=#true`"@,
                source,
                labels: prs.map_values(|s: Span| (s, "marked pr-build"@)),
                help: Some("a pull request builds one flavour, for half the runner time"@),
            },
        ]
    } else {
        Seq::empty()
    };
    d + p
}

fn spans_marked(fs: &Vec<Flavour>, pr: bool) -> (r: Vec<Span>)
    ensures
        r@ == marked_spans(fs@.map_values(|f: Flavour| flavour_view(f)), pr),
{
    let ghost fv = fs@.map_values(|f: Flavour| flavour_view(f));
    let mut out: Vec<Span> = Vec::new();
    let mut i: usize = 0;
    assert(fv.take(0) =~= Seq::<FlavourV>::empty());
    while i < fs.len()
        invariant
            fv == fs@.map_values(|f: Flavour| flavour_view(f)),
            i <= fs@.len(),
            out@ == marked_spans(fv.take(i as int), pr),
        decreases fs@.len() - i,
    {
        assert(fv.take(i as int + 1).drop_last() =~= fv.take(i as int));
        assert(fv.take(i as int + 1).last() == flavour_view(fs@[i as int]));
        let hit = if pr { fs[i].pr_build } else { fs[i].default };
        if hit {
            out.push(fs[i].span);
        }
        i = i + 1;
    }
    assert(fv.take(i as int) =~= fv);
    out
}

fn marked_issue(message: &str, spans: &Vec<Span>, label: &str, src: &Source) -> (r: Issue)
    ensures
        r@ == (IssueV { message: message@, source: src.name@, labels: spans@.map_values(|s: Span| (s, label@)), help: None }),
{
    let mut issue = Issue::new(owned(message), src);
    let mut i: usize = 0;
    assert(issue@.labels =~= spans@.take(0).map_values(|s: Span| (s, label@)));
    while i < spans.len()
        invariant
            i <= spans@.len(),
            issue@.message == message@,
            issue@.source == src.name@,
            issue@.help is None,
            issue@.labels == spans@.take(i as int).map_values(|s: Span| (s, label@)),
        decreases spans@.len() - i,
    {
        issue = issue.at(spans[i], owned(label));
        assert(spans@.take(i as int + 1).map_values(|s: Span| (s, label@)) =~= spans@.take(i as int).map_values(|s: Span| (s, label@)).push(
            (spans@[i as int], label@),
        ));
        i = i + 1;
    }
    assert(spans@.take(i as int) =~= spans@);
    issue
}

/// More than one default flavour, or more than one built for a pull
/// request, is one issue each.
pub fn check_flavours(fs: &Vec<Flavour>, src: &Source, issues: &mut Issues)
    ensures
        final(issues)@ == old(issues)@ + flavours_check_spec(fs@.map_values(|f: Flavour| flavour_view(f)), src.name@),
{
    reveal(flavours_check_spec);
    let ghost start = issues@;
    let defaults = spans_marked(fs, false);
    if defaults.len() >= 2 {
        issues.push(marked_issue("more than one flavour is marked `default=#true`", &defaults, "marked default", src));
    }
    let prs = spans_marked(fs, true);
    if prs.len() > 1 {
        let issue = marked_issue("more than one flavour is marked `pr-build=#true`", &prs, "marked pr-build", src);
        issues.push(issue.help(owned("a pull request builds one flavour, for half the runner time")));
    }
    assert(issues@ =~= start + flavours_check_spec(fs@.map_values(|f: Flavour| flavour_view(f)), src.name@));
}

pub type SetV = (Seq<char>, Seq<Value>, Span);

/// An entry as plain values: its path, the flavour it is listed under, the
/// variant it picks, the options it sets, its pin, and where it is.
pub type EntryV = (Seq<char>, Option<Seq<char>>, Option<Seq<char>>, Seq<SetV>, Option<PinV>, Span);

pub open spec fn entry_view(e: Entry) -> EntryV {
    (
        e.path@,
        opt_str(e.flavour),
        opt_str(e.variant),
        set_views(e.options@),
        match e.remote {
            Some(p) => Some(pin_view(p)),
            None => None,
        },
        e.span,
    )
}

/// The first entry listed at that path under that flavour.
pub open spec fn listed_at(done: Seq<EntryV>, path: Seq<char>, flavour: Option<Seq<char>>) -> Option<int> {
    first_true(listed_marks(done, path, flavour))
}

pub open spec fn listed_marks(done: Seq<EntryV>, path: Seq<char>, flavour: Option<Seq<char>>) -> Seq<bool> {
    done.map_values(|e: EntryV| e.0 == path && e.1 == flavour)
}

/// An entry's children: the options it sets, in order, and its `source`
/// pin; a second `source` raises an issue.
pub open spec fn entry_kids(kids: Seq<KNode>, path: Seq<char>, source: Seq<char>) -> (Seq<SetV>, Option<PinV>, Seq<IssueV>)
    decreases kids.len(),
{
    if kids.len() == 0 {
        (Seq::empty(), None, Seq::empty())
    } else {
        let (os, pin, is) = entry_kids(kids.drop_last(), path, source);
        let c = kids.last();
        if c.name@ == "source"@ {
            match pin {
                Some(p) => (
                    os,
                    pin,
                    is.push(at_v(at_v(bare("`"@ + path + "` is pinned twice"@, source), p.5, "first here"@), c.name_span, "and again here"@)),
                ),
                None => (os, Some(pin_spec(c)), is),
            }
        } else {
            (os.push((c.name@, args_spec(c.entries@), c.name_span)), pin, is)
        }
    }
}

/// What one `module` entry gives, listed under `flavour` after `done`, and
/// what it raises.
pub open spec fn entry_spec(node: KNode, flavour: Option<Seq<char>>, done: Seq<EntryV>, source: Seq<char>) -> (Option<EntryV>, Seq<IssueV>) {
    match string_arg_spec(node) {
        None => (None, Seq::empty()),
        Some(path) => match listed_at(done, path, flavour) {
            Some(d) => (
                None,
                seq![
                    help_v(
                        at_v(at_v(bare("`"@ + path + "` is listed twice"@, source), done[d].5, "first here"@), node.name_span, "and again here"@),
                        "a module builds once per flavour it is listed under"@,
                    ),
                ],
            ),
            None => {
                let (os, pin, is) = entry_kids(kids_spec(node), path, source);
                let named: Seq<IssueV> = if pin is Some && !is_name_spec(path) {
                    seq![
                        help_v(
                            at_v(bare("invalid module name `"@ + path + "`"@, source), node.name_span, "must be lowercase letters, digits and dashes, starting with a letter"@),
                            "a pinned module is fetched into modules/.remote/<name>, so its name is one path segment rather than a path"@,
                        ),
                    ]
                } else {
                    Seq::empty()
                };
                (Some((path, flavour, prop_spec(node, "variant"@), os, pin, node.name_span)), is + named)
            },
        },
    }
}

fn find_listed(done: &Vec<Entry>, path: &str, flavour: &Option<String>) -> (r: Option<usize>)
    ensures
        match listed_at(done@.map_values(|e: Entry| entry_view(e)), path@, opt_str(*flavour)) {
            Some(i) => r matches Some(j) && j as int == i && j < done@.len(),
            None => r is None,
        },
{
    let ghost marks = listed_marks(done@.map_values(|e: Entry| entry_view(e)), path@, opt_str(*flavour));
    let mut i: usize = 0;
    while i < done.len()
        invariant
            marks == listed_marks(done@.map_values(|e: Entry| entry_view(e)), path@, opt_str(*flavour)),
            i <= done@.len(),
            forall|j: int| 0 <= j < i ==> !marks[j],
        decreases done@.len() - i,
    {
        let e = &done[i];
        let same_flavour = match (&e.flavour, flavour) {
            (Some(a), Some(b)) => same(a.as_str(), b.as_str()),
            (None, None) => true,
            _ => false,
        };
        assert(same_flavour == (opt_str(e.flavour) == opt_str(*flavour)));
        let same_path = same(e.path.as_str(), path);
        assert(marks[i as int] == (same_path && same_flavour));
        if same_path && same_flavour {
            proof {
                crate::text::lemma_first_true(marks, i as int);
            }
            return Some(i);
        }
        i = i + 1;
    }
    proof {
        crate::text::lemma_first_true(marks, i as int);
    }
    None
}

fn read_entry_kids(node: &KNode, path: &str, src: &Source, issues: &mut Issues) -> (r: (Vec<(String, Vec<Value>, Span)>, Option<crate::provenance::Evidence>))
    ensures
        set_views(r.0@) == entry_kids(kids_spec(*node), path@, src.name@).0,
        match entry_kids(kids_spec(*node), path@, src.name@).1 {
            Some(p) => r.1 matches Some(e) && pin_view(e) == p,
            None => r.1 is None,
        },
        final(issues)@ == old(issues)@ + entry_kids(kids_spec(*node), path@, src.name@).2,
{
    let ghost start = issues@;
    let ks = kids(node);
    let mut options: Vec<(String, Vec<Value>, Span)> = Vec::new();
    let mut pin: Option<crate::provenance::Evidence> = None;
    let mut i: usize = 0;
    assert(ks@.take(0) =~= Seq::<KNode>::empty());
    assert(set_views(options@) =~= Seq::<SetV>::empty());
    assert(issues@ =~= start + Seq::<IssueV>::empty());
    while i < ks.len()
        invariant
            ks@ == kids_spec(*node),
            i <= ks@.len(),
            set_views(options@) == entry_kids(ks@.take(i as int), path@, src.name@).0,
            match entry_kids(ks@.take(i as int), path@, src.name@).1 {
                Some(p) => pin matches Some(e) && pin_view(e) == p,
                None => pin is None,
            },
            issues@ == start + entry_kids(ks@.take(i as int), path@, src.name@).2,
        decreases ks@.len() - i,
    {
        assert(ks@.take(i as int + 1).drop_last() =~= ks@.take(i as int));
        assert(ks@.take(i as int + 1).last() == ks@[i as int]);
        let c = &ks[i];
        if same(c.name.as_str(), "source") {
            match &pin {
                Some(p) => {
                    issues.push(Issue::new(cat3("`", path, "` is pinned twice"), src).at(p.span, owned("first here")).at(c.name_span, owned("and again here")));
                },
                None => {
                    pin = Some(read_pin(c));
                },
            }
        } else {
            let ghost prior = options@;
            options.push((c.name.clone(), args(c), c.name_span));
            assert(set_views(options@) =~= set_views(prior).push((c.name@, args_spec(c.entries@), c.name_span)));
        }
        i = i + 1;
    }
    assert(ks@.take(i as int) =~= ks@);
    (options, pin)
}

/// `module "core/flatpak" variant="lean" { fonts "A" }`, listed under
/// `flavour` after the entries `done`.
pub fn parse_entry(node: &KNode, flavour: Option<String>, done: &Vec<Entry>, src: &Source, issues: &mut Issues) -> (r: Option<Entry>)
    ensures
        match entry_spec(*node, opt_str(flavour), done@.map_values(|e: Entry| entry_view(e)), src.name@).0 {
            Some(e) => r matches Some(v) && entry_view(v) == e && v.source is None && v.module is None,
            None => r is None,
        },
        final(issues)@ == old(issues)@ + entry_spec(*node, opt_str(flavour), done@.map_values(|e: Entry| entry_view(e)), src.name@).1,
{
    let ghost start = issues@;
    let path = match string_arg(node) {
        Some(p) => p,
        None => {
            assert(issues@ =~= start + Seq::<IssueV>::empty());
            return None;
        },
    };
    match find_listed(done, path, &flavour) {
        Some(d) => {
            issues.push(
                Issue::new(cat3("`", path, "` is listed twice"), src).at(done[d].span, owned("first here")).at(node.name_span, owned("and again here")).help(
                    owned("a module builds once per flavour it is listed under"),
                ),
            );
            assert(issues@ =~= start + entry_spec(*node, opt_str(flavour), done@.map_values(|e: Entry| entry_view(e)), src.name@).1);
            return None;
        },
        None => {},
    }
    let (options, pin) = read_entry_kids(node, path, src, issues);
    if pin.is_some() && !is_name(path) {
        issues.push(
            Issue::new(cat3("invalid module name `", path, "`"), src).at(node.name_span, owned("must be lowercase letters, digits and dashes, starting with a letter")).help(
                owned("a pinned module is fetched into modules/.remote/<name>, so its name is one path segment rather than a path"),
            ),
        );
    }
    assert(issues@ =~= start + entry_spec(*node, opt_str(flavour), done@.map_values(|e: Entry| entry_view(e)), src.name@).1);
    let variant = match prop(node, "variant") {
        Some(v) => Some(owned(v)),
        None => None,
    };
    Some(Entry { source: None, path: owned(path), flavour, variant, options, remote: pin, span: node.name_span, module: None })
}

/// The `module` entries inside a `flavour "f"` block, onto `done`.
pub open spec fn inner_spec(kids: Seq<KNode>, f: Seq<char>, done: Seq<EntryV>, source: Seq<char>) -> (Seq<EntryV>, Seq<IssueV>)
    decreases kids.len(),
{
    if kids.len() == 0 {
        (done, Seq::empty())
    } else {
        let (es, is) = inner_spec(kids.drop_last(), f, done, source);
        let (es2, is2) = inner_step(es, kids.last(), f, source);
        (es2, is + is2)
    }
}

/// One child of a flavour block onto the entries before it: an entry gated
/// to that flavour, or nothing.
pub open spec fn inner_step(es: Seq<EntryV>, k: KNode, f: Seq<char>, source: Seq<char>) -> (Seq<EntryV>, Seq<IssueV>) {
    if k.name@ == "module"@ {
        let (e, eis) = entry_spec(k, Some(f), es, source);
        match e {
            Some(v) => (es.push(v), eis),
            None => (es, eis),
        }
    } else {
        (es, Seq::empty())
    }
}

pub open spec fn undeclared_issue(f: Seq<char>, declared: Seq<Seq<char>>, span: Span, source: Seq<char>) -> IssueV {
    help_v(
        at_v(bare("`"@ + f + "` is not a declared flavour"@, source), span, "no such flavour"@),
        if declared.len() == 0 {
            "no flavours are declared; add a `flavours` block above"@
        } else {
            "declared flavours: "@ + join_spec(declared, ", "@)
        },
    )
}

/// One child of `modules` onto the entries before it: an ungated entry, or
/// a flavour block and the entries it gates.
pub open spec fn modules_step(done: Seq<EntryV>, node: KNode, declared: Seq<Seq<char>>, source: Seq<char>) -> (Seq<EntryV>, Seq<IssueV>) {
    if node.name@ == "module"@ {
        let (e, eis) = entry_spec(node, None, done, source);
        match e {
            Some(v) => (done.push(v), eis),
            None => (done, eis),
        }
    } else if node.name@ == "flavour"@ {
        match string_arg_spec(node) {
            None => (done, Seq::empty()),
            Some(f) => {
                let undeclared: Seq<IssueV> = if declared.contains(f) {
                    Seq::empty()
                } else {
                    seq![undeclared_issue(f, declared, node.name_span, source)]
                };
                let (es, is) = inner_spec(kids_spec(node), f, done, source);
                (es, undeclared + is)
            },
        }
    } else {
        (done, Seq::empty())
    }
}

pub open spec fn modules_spec(kids: Seq<KNode>, declared: Seq<Seq<char>>, source: Seq<char>) -> (Seq<EntryV>, Seq<IssueV>)
    decreases kids.len(),
{
    if kids.len() == 0 {
        (Seq::empty(), Seq::empty())
    } else {
        let (es, is) = modules_spec(kids.drop_last(), declared, source);
        let (es2, is2) = modules_step(es, kids.last(), declared, source);
        (es2, is + is2)
    }
}

/// Entries as a list reads them: no collection and no module loaded yet.
pub open spec fn unread(es: Seq<Entry>) -> bool {
    forall|i: int| 0 <= i < es.len() ==> (#[trigger] es[i]).source is None && es[i].module is None
}

fn add_entry(node: &KNode, flavour: Option<String>, done: &mut Vec<Entry>, src: &Source, issues: &mut Issues)
    requires
        unread(old(done)@),
    ensures
        unread(final(done)@),
        final(done)@.map_values(|e: Entry| entry_view(e)) == (match entry_spec(*node, opt_str(flavour), old(done)@.map_values(|e: Entry| entry_view(e)), src.name@).0 {
            Some(v) => old(done)@.map_values(|e: Entry| entry_view(e)).push(v),
            None => old(done)@.map_values(|e: Entry| entry_view(e)),
        }),
        final(issues)@ == old(issues)@ + entry_spec(*node, opt_str(flavour), old(done)@.map_values(|e: Entry| entry_view(e)), src.name@).1,
{
    let ghost prior = done@;
    match parse_entry(node, flavour, done, src, issues) {
        Some(e) => {
            done.push(e);
            assert(done@.map_values(|e: Entry| entry_view(e)) =~= prior.map_values(|e: Entry| entry_view(e)).push(entry_view(done@.last())));
        },
        None => {},
    }
}

#[verifier::rlimit(40)]
fn add_gated(node: &KNode, f: &str, done: &mut Vec<Entry>, src: &Source, issues: &mut Issues)
    requires
        unread(old(done)@),
    ensures
        unread(final(done)@),
        final(done)@.map_values(|e: Entry| entry_view(e)) == inner_spec(kids_spec(*node), f@, old(done)@.map_values(|e: Entry| entry_view(e)), src.name@).0,
        final(issues)@ == old(issues)@ + inner_spec(kids_spec(*node), f@, old(done)@.map_values(|e: Entry| entry_view(e)), src.name@).1,
{
    let ghost start = issues@;
    let ghost d0 = done@.map_values(|e: Entry| entry_view(e));
    let ks = kids(node);
    let mut i: usize = 0;
    assert(ks@.take(0) =~= Seq::<KNode>::empty());
    assert(issues@ =~= start + Seq::<IssueV>::empty());
    while i < ks.len()
        invariant
            ks@ == kids_spec(*node),
            i <= ks@.len(),
            unread(done@),
            done@.map_values(|e: Entry| entry_view(e)) == inner_spec(ks@.take(i as int), f@, d0, src.name@).0,
            issues@ == start + inner_spec(ks@.take(i as int), f@, d0, src.name@).1,
        decreases ks@.len() - i,
    {
        assert(ks@.take(i as int + 1).drop_last() =~= ks@.take(i as int));
        assert(ks@.take(i as int + 1).last() == ks@[i as int]);
        let ghost before = issues@;
        let ghost es = done@.map_values(|e: Entry| entry_view(e));
        if same(ks[i].name.as_str(), "module") {
            let gate = Some(owned(f));
            assert(opt_str(gate) == Some(f@));
            add_entry(&ks[i], gate, done, src, issues);
        } else {
            assert(issues@ =~= before + Seq::<IssueV>::empty());
        }
        assert(done@.map_values(|e: Entry| entry_view(e)) == inner_step(es, ks@[i as int], f@, src.name@).0);
        assert(issues@ == before + inner_step(es, ks@[i as int], f@, src.name@).1);
        i = i + 1;
    }
    assert(ks@.take(i as int) =~= ks@);
}

fn add_modules_child(node: &KNode, flavours: &Vec<Flavour>, done: &mut Vec<Entry>, src: &Source, issues: &mut Issues)
    requires
        unread(old(done)@),
    ensures
        unread(final(done)@),
        final(done)@.map_values(|e: Entry| entry_view(e)) == modules_step(old(done)@.map_values(|e: Entry| entry_view(e)), *node, flavour_names(flavours@), src.name@).0,
        final(issues)@ == old(issues)@ + modules_step(old(done)@.map_values(|e: Entry| entry_view(e)), *node, flavour_names(flavours@), src.name@).1,
{
    let ghost start = issues@;
    if same(node.name.as_str(), "module") {
        add_entry(node, None, done, src, issues);
    } else if same(node.name.as_str(), "flavour") {
        let f = match string_arg(node) {
            Some(f) => f,
            None => {
                assert(issues@ =~= start + Seq::<IssueV>::empty());
                return;
            },
        };
        let mut names: Vec<String> = Vec::new();
        let mut k: usize = 0;
        let mut known = false;
        assert(views(names@) =~= flavour_names(flavours@).take(0));
        while k < flavours.len()
            invariant
                k <= flavours@.len(),
                views(names@) == flavour_names(flavours@).take(k as int),
                known == flavour_names(flavours@).take(k as int).contains(f@),
            decreases flavours@.len() - k,
        {
            let ghost prior = names@;
            let ghost taken = flavour_names(flavours@).take(k as int);
            let n = owned(flavours[k].name.as_str());
            if same(n.as_str(), f) {
                known = true;
            }
            names.push(n);
            assert(views(names@) =~= views(prior).push(flavours@[k as int].name@));
            assert(flavour_names(flavours@).take(k as int + 1) =~= taken.push(flavours@[k as int].name@));
            assert(flavour_names(flavours@).take(k as int + 1).contains(f@) == (taken.contains(f@) || flavours@[k as int].name@ == f@)) by {
                let t2 = flavour_names(flavours@).take(k as int + 1);
                if taken.contains(f@) {
                    let j = choose|j: int| 0 <= j < taken.len() && taken[j] == f@;
                    assert(t2[j] == f@);
                }
                if flavours@[k as int].name@ == f@ {
                    assert(t2[k as int] == f@);
                }
                if t2.contains(f@) {
                    let j = choose|j: int| 0 <= j < t2.len() && t2[j] == f@;
                    if j < k {
                        assert(taken[j] == f@);
                    }
                }
            }
            k = k + 1;
        }
        assert(flavour_names(flavours@).take(k as int) =~= flavour_names(flavours@));
        if !known {
            let help = if names.len() == 0 {
                owned("no flavours are declared; add a `flavours` block above")
            } else {
                cat("declared flavours: ", join(&names, ", ").as_str())
            };
            issues.push(Issue::new(cat3("`", f, "` is not a declared flavour"), src).at(node.name_span, owned("no such flavour")).help(help));
        }
        let ghost mid = issues@;
        add_gated(node, f, done, src, issues);
        assert(issues@ =~= start + modules_step(old(done)@.map_values(|e: Entry| entry_view(e)), *node, flavour_names(flavours@), src.name@).1);
    } else {
        assert(issues@ =~= start + Seq::<IssueV>::empty());
    }
}

#[verifier::spinoff_prover]
#[verifier::rlimit(40)]
/// `modules { module "core/flatpak"; flavour "desktop" { module "..." } }`
pub fn parse_modules(block: &KNode, flavours: &Vec<Flavour>, src: &Source, issues: &mut Issues) -> (r: Vec<Entry>)
    ensures
        unread(r@),
        r@.map_values(|e: Entry| entry_view(e)) == modules_spec(kids_spec(*block), flavour_names(flavours@), src.name@).0,
        final(issues)@ == old(issues)@ + modules_spec(kids_spec(*block), flavour_names(flavours@), src.name@).1,
{
    let ghost start = issues@;
    let ks = kids(block);
    let mut done: Vec<Entry> = Vec::new();
    let mut i: usize = 0;
    assert(ks@.take(0) =~= Seq::<KNode>::empty());
    assert(done@.map_values(|e: Entry| entry_view(e)) =~= Seq::<EntryV>::empty());
    assert(issues@ =~= start + Seq::<IssueV>::empty());
    while i < ks.len()
        invariant
            ks@ == kids_spec(*block),
            i <= ks@.len(),
            unread(done@),
            done@.map_values(|e: Entry| entry_view(e)) == modules_spec(ks@.take(i as int), flavour_names(flavours@), src.name@).0,
            issues@ == start + modules_spec(ks@.take(i as int), flavour_names(flavours@), src.name@).1,
        decreases ks@.len() - i,
    {
        assert(ks@.take(i as int + 1).drop_last() =~= ks@.take(i as int));
        assert(ks@.take(i as int + 1).last() == ks@[i as int]);
        add_modules_child(&ks[i], flavours, &mut done, src, issues);
        i = i + 1;
    }
    assert(ks@.take(i as int) =~= ks@);
    done
}

#[verifier::opaque]
pub open spec fn base_part(node: KNode, source: Seq<char>) -> (Option<BaseV>, Seq<IssueV>) {
    match child_spec(node, "base"@) {
        Some(b) => base_spec(b, source),
        None => (None, Seq::empty()),
    }
}

#[verifier::opaque]
pub open spec fn flavours_part(node: KNode, source: Seq<char>) -> (Seq<FlavourV>, Seq<IssueV>) {
    match child_spec(node, "flavours"@) {
        Some(f) => flavours_spec(kids_spec(f), source),
        None => (Seq::empty(), Seq::empty()),
    }
}

#[verifier::opaque]
pub open spec fn modules_part(node: KNode, fs: Seq<FlavourV>, source: Seq<char>) -> (Seq<EntryV>, Seq<IssueV>) {
    match child_spec(node, "modules"@) {
        Some(m) => modules_spec(kids_spec(m), fs.map_values(|f: FlavourV| f.0), source),
        None => (Seq::empty(), Seq::empty()),
    }
}

/// Everything an `image` node raises, in order: its base, its flavours, its
/// entries, its id, and its flavours' marks.
pub open spec fn image_raised(node: KNode, source: Seq<char>) -> Seq<IssueV> {
    let fs = flavours_part(node, source).0;
    base_part(node, source).1 + flavours_part(node, source).1 + modules_part(node, fs, source).1 + id_spec(
        text_spec(node, "id"@),
        text_spec(node, "name"@),
        node.name_span,
        source,
    ).1 + flavours_check_spec(fs, source)
}

fn read_base(node: &KNode, src: &Source, issues: &mut Issues) -> (r: Option<Base>)
    ensures
        match base_part(*node, src.name@).0 {
            Some(b) => r matches Some(v) && base_view(v) == b,
            None => r is None,
        },
        final(issues)@ == old(issues)@ + base_part(*node, src.name@).1,
{
    reveal(base_part);
    match child(node, "base") {
        Some(b) => parse_base(b, src, issues),
        None => {
            assert(issues@ =~= old(issues)@ + Seq::<IssueV>::empty());
            None
        },
    }
}

fn read_flavours(node: &KNode, src: &Source, issues: &mut Issues) -> (r: Vec<Flavour>)
    ensures
        r@.map_values(|f: Flavour| flavour_view(f)) == flavours_part(*node, src.name@).0,
        final(issues)@ == old(issues)@ + flavours_part(*node, src.name@).1,
{
    reveal(flavours_part);
    match child(node, "flavours") {
        Some(f) => parse_flavours(f, src, issues),
        None => {
            assert(issues@ =~= old(issues)@ + Seq::<IssueV>::empty());
            let r: Vec<Flavour> = Vec::new();
            assert(r@.map_values(|f: Flavour| flavour_view(f)) =~= Seq::<FlavourV>::empty());
            r
        },
    }
}

fn read_entries(node: &KNode, flavours: &Vec<Flavour>, src: &Source, issues: &mut Issues) -> (r: Vec<Entry>)
    ensures
        unread(r@),
        r@.map_values(|e: Entry| entry_view(e)) == modules_part(*node, flavours@.map_values(|f: Flavour| flavour_view(f)), src.name@).0,
        final(issues)@ == old(issues)@ + modules_part(*node, flavours@.map_values(|f: Flavour| flavour_view(f)), src.name@).1,
{
    reveal(modules_part);
    assert(flavour_names(flavours@) =~= flavours@.map_values(|f: Flavour| flavour_view(f)).map_values(|f: FlavourV| f.0));
    match child(node, "modules") {
        Some(m) => parse_modules(m, flavours, src, issues),
        None => {
            assert(issues@ =~= old(issues)@ + Seq::<IssueV>::empty());
            let r: Vec<Entry> = Vec::new();
            assert(r@.map_values(|e: Entry| entry_view(e)) =~= Seq::<EntryV>::empty());
            r
        },
    }
}

/// An image as plain values: id, name, pretty name, url, issues url, base,
/// flavours, entries, where it is declared, and the file.
pub type ImageV = (Seq<char>, Seq<char>, Seq<char>, Seq<char>, Seq<char>, Option<BaseV>, Seq<FlavourV>, Seq<EntryV>, Span, Seq<char>);

pub open spec fn image_view(i: Image) -> ImageV {
    (
        i.id@,
        i.name@,
        i.pretty_name@,
        i.url@,
        i.issues_url@,
        match i.base {
            Some(b) => Some(base_view(b)),
            None => None,
        },
        i.flavours@.map_values(|f: Flavour| flavour_view(f)),
        i.entries@.map_values(|e: Entry| entry_view(e)),
        i.span,
        i.src.name@,
    )
}

/// What an `image` node in the file `source` reads as.
pub open spec fn image_facts(node: KNode, source: Seq<char>) -> ImageV {
    (
        id_spec(text_spec(node, "id"@), text_spec(node, "name"@), node.name_span, source).0,
        text_spec(node, "name"@),
        text_spec(node, "pretty-name"@),
        text_spec(node, "url"@),
        text_spec(node, "issues-url"@),
        base_part(node, source).0,
        flavours_part(node, source).0,
        modules_part(node, flavours_part(node, source).0, source).0,
        node.name_span,
        source,
    )
}

#[verifier::spinoff_prover]
#[verifier::rlimit(80)]
/// `image { name "Tectonic"; base "..." { family "fedora" }; modules { ... } }`
pub fn parse_image(node: &KNode, src: &Source, issues: &mut Issues) -> (r: Image)
    ensures
        r.src.name@ == src.name@ && r.src.text@ == src.text@,
        r.id@ == id_spec(text_spec(*node, "id"@), text_spec(*node, "name"@), node.name_span, src.name@).0,
        r.name@ == text_spec(*node, "name"@),
        r.pretty_name@ == text_spec(*node, "pretty-name"@),
        r.url@ == text_spec(*node, "url"@),
        r.issues_url@ == text_spec(*node, "issues-url"@),
        match base_part(*node, src.name@).0 {
            Some(b) => r.base matches Some(v) && base_view(v) == b,
            None => r.base is None,
        },
        r.flavours@.map_values(|f: Flavour| flavour_view(f)) == flavours_part(*node, src.name@).0,
        r.entries@.map_values(|e: Entry| entry_view(e)) == modules_part(*node, flavours_part(*node, src.name@).0, src.name@).0,
        unread(r.entries@),
        r.span == node.name_span,
        image_view(r) == image_facts(*node, src.name@),
        final(issues)@ == old(issues)@ + image_raised(*node, src.name@),
{
    let ghost start = issues@;
    let base = read_base(node, src, issues);
    let flavours = read_flavours(node, src, issues);
    let entries = read_entries(node, &flavours, src, issues);
    let name = text(node, "name");
    let declared = text(node, "id");
    let id = check_id(declared.as_str(), name.as_str(), node.name_span, src, issues);
    check_flavours(&flavours, src, issues);
    assert(issues@ =~= start + image_raised(*node, src.name@));
    Image {
        src: src.copy(),
        id,
        name,
        pretty_name: text(node, "pretty-name"),
        url: text(node, "url"),
        issues_url: text(node, "issues-url"),
        description: String::new(),
        keywords: Vec::new(),
        logo_url: String::new(),
        conforms: String::new(),
        base,
        flavours,
        entries,
        suppressed: Vec::new(),
        span: node.name_span,
    }
}

/// No two flavours share a name.
pub open spec fn unique_flavours(fs: Seq<FlavourV>) -> bool {
    forall|i: int, j: int| 0 <= i < j < fs.len() ==> fs[i].0 != fs[j].0
}

/// A `flavours` block declares each flavour once: a second under one name
/// is dropped.
pub proof fn lemma_flavours_unique(kids: Seq<KNode>, source: Seq<char>)
    ensures
        unique_flavours(flavours_spec(kids, source).0),
    decreases kids.len(),
{
    if kids.len() > 0 {
        lemma_flavours_unique(kids.drop_last(), source);
        let fs = flavours_spec(kids.drop_last(), source).0;
        let node = kids.last();
        if flavour_at(fs, node.name@) is None {
            let marks = fs.map_values(|f: FlavourV| f.0 == node.name@);
            assert forall|j: int| 0 <= j < fs.len() implies fs[j].0 != node.name@ by {
                if fs[j].0 == node.name@ {
                    assert(marks[j]);
                }
            }
            let f = (node.name@, boolean_spec(node, "default"@) == Some(true), boolean_spec(node, "pr-build"@) == Some(true), node.name_span);
            let out = fs.push(f);
            assert forall|i: int, j: int| 0 <= i < j < out.len() implies out[i].0 != out[j].0 by {
                if j == fs.len() {
                    assert(out[i] == fs[i]);
                }
            }
        }
    }
}

/// No module is listed twice under one flavour (or twice ungated).
pub open spec fn unique_entries(es: Seq<EntryV>) -> bool {
    forall|i: int, j: int| 0 <= i < j < es.len() ==> !(es[i].0 == es[j].0 && es[i].1 == es[j].1)
}

proof fn lemma_entry_keeps_unique(es: Seq<EntryV>, node: KNode, flavour: Option<Seq<char>>, source: Seq<char>)
    requires
        unique_entries(es),
    ensures
        match entry_spec(node, flavour, es, source).0 {
            Some(v) => unique_entries(es.push(v)),
            None => true,
        },
{
    match entry_spec(node, flavour, es, source).0 {
        Some(v) => {
            let marks = listed_marks(es, v.0, flavour);
            assert(listed_at(es, v.0, flavour) is None);
            assert(v.1 == flavour);
            assert forall|j: int| 0 <= j < es.len() implies !(es[j].0 == v.0 && es[j].1 == v.1) by {
                if es[j].0 == v.0 && es[j].1 == v.1 {
                    assert(marks[j]);
                }
            }
            let out = es.push(v);
            assert forall|i: int, j: int| 0 <= i < j < out.len() implies !(out[i].0 == out[j].0 && out[i].1 == out[j].1) by {
                if j == es.len() {
                    assert(out[i] == es[i]);
                }
            }
        },
        None => {},
    }
}

proof fn lemma_inner_unique(kids: Seq<KNode>, f: Seq<char>, done: Seq<EntryV>, source: Seq<char>)
    requires
        unique_entries(done),
    ensures
        unique_entries(inner_spec(kids, f, done, source).0),
    decreases kids.len(),
{
    if kids.len() > 0 {
        lemma_inner_unique(kids.drop_last(), f, done, source);
        let es = inner_spec(kids.drop_last(), f, done, source).0;
        if kids.last().name@ == "module"@ {
            lemma_entry_keeps_unique(es, kids.last(), Some(f), source);
        }
    }
}

/// An image lists each module once under each flavour it is gated to, and
/// once ungated: a second listing is dropped.
pub proof fn lemma_entries_unique(kids: Seq<KNode>, declared: Seq<Seq<char>>, source: Seq<char>)
    ensures
        unique_entries(modules_spec(kids, declared, source).0),
    decreases kids.len(),
{
    if kids.len() > 0 {
        lemma_entries_unique(kids.drop_last(), declared, source);
        let es = modules_spec(kids.drop_last(), declared, source).0;
        let node = kids.last();
        if node.name@ == "module"@ {
            lemma_entry_keeps_unique(es, node, None, source);
        } else if node.name@ == "flavour"@ {
            match string_arg_spec(node) {
                Some(f) => lemma_inner_unique(kids_spec(node), f, es, source),
                None => {},
            }
        }
    }
}

} // verus!
