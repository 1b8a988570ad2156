//! module.kdl: the module author's file, node by node.

use crate::diag::{at_v, bare, help_v, Issue, IssueV, Issues, Source, Span};
use crate::model::module::{decl_names, Collect, Contribution, Coverage, Decl, FileMode, Key, PackageGroup, VerifyException};
use crate::parse::kdl::{kdl_document, parse_kdl, KEntry, KNode, KValue};
use crate::parse::{node_names, boolean, boolean_spec, as_integer, child, child_spec, first_value, int_prop, string_arg, string_arg_spec, as_string, capability_issue, check_capability, kids, kids_spec, named, prop, prop_span, prop_spec, str_view, string_args, string_args_spec};
use crate::text::{first_true, split, split_spec, slice};
use crate::layout::listed;
use crate::parse::is_name_spec;
use crate::text::{cat5, join, join_spec, contains_char, has_char, alnum, cat, cat3, cat4, chars_of, is_alnum, is_prefix, owned, same, starts_with, views};
use vstd::prelude::*;

verus! {

/// The base families this repository knows how to build on.
pub open spec fn is_family(s: Seq<char>) -> bool {
    s == "fedora"@ || s == "debian"@ || s == "ubuntu"@
}

fn family(s: &str) -> (r: bool)
    ensures
        r == is_family(s@),
{
    same(s, "fedora") || same(s, "debian") || same(s, "ubuntu")
}

/// What a package name or repo ID may hold: letters, digits and `._+:-`.
pub open spec fn is_token_char(c: char) -> bool {
    is_alnum(c) || c == '.' || c == '_' || c == '+' || c == ':' || c == '-'
}

/// Why a package name or repo ID is not safe to emit, or nothing when it is.
pub open spec fn bad_token_spec(v: Seq<char>) -> Option<Seq<char>> {
    if v.len() == 0 {
        Some("is empty"@)
    } else if v[0] == '-' {
        Some("starts with a dash"@)
    } else if exists|i: int| 0 <= i < v.len() && !is_token_char(#[trigger] v[i]) {
        Some("has a character that is not allowed"@)
    } else {
        None
    }
}

pub fn bad_token(value: &str) -> (r: Option<&'static str>)
    ensures
        match r {
            Some(s) => bad_token_spec(value@) == Some(s@),
            None => bad_token_spec(value@) is None,
        },
{
    let cs = chars_of(value);
    if cs.len() == 0 {
        return Some("is empty");
    }
    if cs[0] == '-' {
        return Some("starts with a dash");
    }
    let mut i: usize = 0;
    while i < cs.len()
        invariant
            cs@ == value@,
            i <= cs@.len(),
            value@.len() > 0 && value@[0] != '-',
            forall|j: int| 0 <= j < i ==> is_token_char(#[trigger] value@[j]),
        decreases cs@.len() - i,
    {
        let c = cs[i];
        if !(alnum(c) || c == '.' || c == '_' || c == '+' || c == ':' || c == '-') {
            assert(!is_token_char(value@[i as int]));
            assert(exists|j: int| 0 <= j < value@.len() && !is_token_char(#[trigger] value@[j]));
            return Some("has a character that is not allowed");
        }
        i = i + 1;
    }
    None
}

/// An issue at one place.
pub open spec fn note(message: Seq<char>, source: Seq<char>, span: Span, label: Seq<char>) -> IssueV {
    at_v(bare(message, source), span, label)
}

pub open spec fn family_issue(family: Seq<char>, span: Span, source: Seq<char>) -> IssueV {
    help_v(
        note("unknown base family `"@ + family + "`"@, source, span, "not a family this repository builds on"@),
        "known families: fedora, debian, ubuntu"@,
    )
}

/// One issue for each name that is not a family, in order.
pub open spec fn family_issues(names: Seq<Seq<char>>, span: Span, source: Seq<char>) -> Seq<IssueV>
    decreases names.len(),
{
    if names.len() == 0 {
        Seq::empty()
    } else {
        let r = family_issues(names.drop_last(), span, source);
        if is_family(names.last()) {
            r
        } else {
            r.push(family_issue(names.last(), span, source))
        }
    }
}

fn raise_family(family: &str, span: Span, src: &Source, issues: &mut Issues)
    ensures
        final(issues)@ == old(issues)@.push(family_issue(family@, span, src.name@)),
{
    issues.push(
        Issue::new(cat3("unknown base family `", family, "`"), src).at(span, owned("not a family this repository builds on")).help(
            owned("known families: fedora, debian, ubuntu"),
        ),
    );
}

/// `supports "fedora"`: every family named, each one that is not a family
/// raising an issue and kept all the same.
pub fn parse_supports(node: &KNode, src: &Source, issues: &mut Issues) -> (r: Vec<String>)
    ensures
        views(r@) == string_args_spec(node.entries@),
        final(issues)@ == old(issues)@ + family_issues(string_args_spec(node.entries@), node.name_span, src.name@),
{
    let names = string_args(node);
    let ghost start = issues@;
    let ghost all = names@.map_values(|s: &str| s@);
    let mut out: Vec<String> = Vec::new();
    let mut i: usize = 0;
    while i < names.len()
        invariant
            all == names@.map_values(|s: &str| s@),
            i <= names@.len(),
            views(out@) == all.take(i as int),
            issues@ == start + family_issues(all.take(i as int), node.name_span, src.name@),
        decreases names@.len() - i,
    {
        let f = names[i];
        assert(all.take(i as int + 1).drop_last() =~= all.take(i as int));
        assert(all.take(i as int + 1).last() == f@);
        if !family(f) {
            raise_family(f, node.name_span, src, issues);
        }
        out.push(owned(f));
        assert(views(out@) =~= all.take(i as int + 1));
        assert(issues@ =~= start + family_issues(all.take(i as int + 1), node.name_span, src.name@));
        i = i + 1;
    }
    assert(all.take(i as int) =~= all);
    out
}

/// Declarations of the given names, all at one place.
pub open spec fn decls_at(decls: Seq<Decl>, names: Seq<Seq<char>>, span: Span) -> bool {
    decl_names(decls) == names && forall|i: int| 0 <= i < decls.len() ==> (#[trigger] decls[i]).span == span
}

/// One issue for each name that is not a capability name, in order.
pub open spec fn capability_issues(names: Seq<Seq<char>>, span: Span, source: Seq<char>) -> Seq<IssueV>
    decreases names.len(),
{
    if names.len() == 0 {
        Seq::empty()
    } else {
        let r = capability_issues(names.drop_last(), span, source);
        if is_name_spec(names.last()) {
            r
        } else {
            r.push(capability_issue(names.last(), span, source))
        }
    }
}

/// `provides "a" "b"`, and `requires` and `after`, which carry the same list.
pub fn parse_capabilities(node: &KNode, src: &Source, issues: &mut Issues) -> (r: Vec<Decl>)
    ensures
        decls_at(r@, string_args_spec(node.entries@), node.name_span),
        final(issues)@ == old(issues)@ + capability_issues(string_args_spec(node.entries@), node.name_span, src.name@),
{
    let names = string_args(node);
    let ghost start = issues@;
    let ghost all = names@.map_values(|s: &str| s@);
    let mut out: Vec<Decl> = Vec::new();
    assert(decl_names(out@) =~= all.take(0));
    let mut i: usize = 0;
    while i < names.len()
        invariant
            all == names@.map_values(|s: &str| s@),
            i <= names@.len(),
            decls_at(out@, all.take(i as int), node.name_span),
            issues@ == start + capability_issues(all.take(i as int), node.name_span, src.name@),
        decreases names@.len() - i,
    {
        let c = names[i];
        assert(all.take(i as int + 1).drop_last() =~= all.take(i as int));
        assert(all.take(i as int + 1).last() == c@);
        check_capability(c, node.name_span, src, issues);
        let ghost prior = out@;
        out.push(Decl { name: owned(c), span: node.name_span });
        assert(decl_names(out@) =~= decl_names(prior).push(c@));
        assert(decl_names(out@) =~= all.take(i as int + 1));
        assert(issues@ =~= start + capability_issues(all.take(i as int + 1), node.name_span, src.name@));
        i = i + 1;
    }
    assert(all.take(i as int) =~= all);
    out
}

pub open spec fn relative_issue(path: Seq<char>, span: Span, source: Seq<char>) -> IssueV {
    note("`"@ + path + "` is not an absolute path"@, source, span, "an exact path in the image"@)
}

/// One issue for each path that does not start at the root, in order.
pub open spec fn relative_issues(paths: Seq<Seq<char>>, span: Span, source: Seq<char>) -> Seq<IssueV>
    decreases paths.len(),
{
    if paths.len() == 0 {
        Seq::empty()
    } else {
        let r = relative_issues(paths.drop_last(), span, source);
        if is_prefix("/"@, paths.last()) {
            r
        } else {
            r.push(relative_issue(paths.last(), span, source))
        }
    }
}

/// `provides-file "/usr/bin/x"`, and `requires-file` and `overrides`, which
/// have the same shape: every path is declared, and each one that is not
/// absolute raises an issue.
pub fn parse_paths(node: &KNode, src: &Source, issues: &mut Issues) -> (r: Vec<Decl>)
    ensures
        decls_at(r@, string_args_spec(node.entries@), node.name_span),
        final(issues)@ == old(issues)@ + relative_issues(string_args_spec(node.entries@), node.name_span, src.name@),
{
    let names = string_args(node);
    let ghost start = issues@;
    let ghost all = names@.map_values(|s: &str| s@);
    let mut out: Vec<Decl> = Vec::new();
    assert(decl_names(out@) =~= all.take(0));
    let mut i: usize = 0;
    while i < names.len()
        invariant
            all == names@.map_values(|s: &str| s@),
            i <= names@.len(),
            decls_at(out@, all.take(i as int), node.name_span),
            issues@ == start + relative_issues(all.take(i as int), node.name_span, src.name@),
        decreases names@.len() - i,
    {
        let p = names[i];
        assert(all.take(i as int + 1).drop_last() =~= all.take(i as int));
        assert(all.take(i as int + 1).last() == p@);
        if !starts_with(p, "/") {
            issues.push(Issue::new(cat3("`", p, "` is not an absolute path"), src).at(node.name_span, owned("an exact path in the image")));
        }
        let ghost prior = out@;
        out.push(Decl { name: owned(p), span: node.name_span });
        assert(decl_names(out@) =~= decl_names(prior).push(p@));
        assert(decl_names(out@) =~= all.take(i as int + 1));
        assert(issues@ =~= start + relative_issues(all.take(i as int + 1), node.name_span, src.name@));
        i = i + 1;
    }
    assert(all.take(i as int) =~= all);
    out
}


pub const TOKEN_HELP: &'static str = "package names and repo IDs are emitted straight into the RUN line, so they are limited to letters, digits and . _ + : -; anything else belongs in module.sh, where it can be quoted deliberately";

/// Where the first property `key` of a node sits.
pub open spec fn prop_span_spec(n: KNode, key: Seq<char>) -> Option<Span> {
    match first_true(named(n.entries@, key)) {
        Some(i) => Some(n.entries@[i].span),
        None => None,
    }
}

/// `lead` is what the message opens with, up to the value's backtick.
pub open spec fn token_issue(lead: Seq<char>, value: Seq<char>, problem: Seq<char>, span: Span, source: Seq<char>) -> IssueV {
    help_v(note(lead + value + "` "@ + problem, source, span, "would not survive the RUN line"@), TOKEN_HELP@)
}

/// The package names among a family entry's arguments, and what the others
/// raise: an argument that is no string, or no safe token.
pub open spec fn package_scan(entries: Seq<KEntry>, source: Seq<char>) -> (Seq<Seq<char>>, Seq<IssueV>)
    decreases entries.len(),
{
    if entries.len() == 0 {
        (Seq::empty(), Seq::empty())
    } else {
        let (ps, is) = package_scan(entries.drop_last(), source);
        let e = entries.last();
        if e.name is Some {
            (ps, is)
        } else {
            match as_string(e.value) {
                None => (
                    ps,
                    is.push(help_v(note("a package name has to be a string"@, source, e.span, "not a string"@), "quote it: `fedora \"7zip\"`"@)),
                ),
                Some(v) => match bad_token_spec(v) {
                    Some(problem) => (ps, is.push(token_issue("package name `"@, v, problem, e.span, source))),
                    None => (ps.push(v), is),
                },
            }
        }
    }
}

fn scan_packages(child: &KNode, src: &Source, issues: &mut Issues) -> (r: Vec<String>)
    ensures
        views(r@) == package_scan(child.entries@, src.name@).0,
        final(issues)@ == old(issues)@ + package_scan(child.entries@, src.name@).1,
{
    let ghost start = issues@;
    let ghost es = child.entries@;
    let mut out: Vec<String> = Vec::new();
    let mut i: usize = 0;
    assert(es.take(0) =~= Seq::<KEntry>::empty());
    assert(views(out@) =~= Seq::<Seq<char>>::empty());
    assert(issues@ =~= start + Seq::<IssueV>::empty());
    while i < child.entries.len()
        invariant
            es == child.entries@,
            i <= es.len(),
            views(out@) == package_scan(es.take(i as int), src.name@).0,
            issues@ == start + package_scan(es.take(i as int), src.name@).1,
        decreases es.len() - i,
    {
        let e = &child.entries[i];
        assert(es.take(i as int + 1).drop_last() =~= es.take(i as int));
        assert(es.take(i as int + 1).last() == es[i as int]);
        let ghost prior = out@;
        if e.name.is_none() {
            match &e.value {
                KValue::String(v) => match bad_token(v.as_str()) {
                    Some(problem) => {
                        issues.push(
                            Issue::new(cat4("package name `", v.as_str(), "` ", problem), src).at(e.span, owned("would not survive the RUN line")).help(
                                owned(TOKEN_HELP),
                            ),
                        );
                    },
                    None => {
                        out.push(v.clone());
                        assert(views(out@) =~= views(prior).push(v@));
                    },
                },
                _ => {
                    issues.push(
                        Issue::new(owned("a package name has to be a string"), src).at(e.span, owned("not a string")).help(
                            owned("quote it: `fedora \"7zip\"`"),
                        ),
                    );
                },
            }
        }
        assert(issues@ =~= start + package_scan(es.take(i as int + 1), src.name@).1);
        i = i + 1;
    }
    assert(es.take(i as int) =~= es);
    out
}

pub open spec fn opt_view(o: Option<String>) -> Option<Seq<char>> {
    match o {
        Some(s) => Some(s@),
        None => None,
    }
}

/// A package group as plain values.
pub open spec fn group_view(g: PackageGroup) -> (Seq<char>, Seq<Seq<char>>, Option<Seq<char>>, Span) {
    (g.family@, views(g.packages@), opt_view(g.enablerepo), g.span)
}

pub type GroupV = (Seq<char>, Seq<Seq<char>>, Option<Seq<char>>, Span);

/// What `enablerepo=` on a family entry gives, and what it raises.
pub open spec fn repo_spec(child: KNode, family: Seq<char>, source: Seq<char>) -> (Option<Seq<char>>, Seq<IssueV>) {
    match prop_span_spec(child, "enablerepo"@) {
        None => (None, Seq::empty()),
        Some(span) => if family != "fedora"@ {
            (
                None,
                seq![
                    help_v(
                        note("`enablerepo` is Fedora-only, not `"@ + family + "`"@, source, span, "no repo to enable on this family"@),
                        "only Fedora groups take `enablerepo`; a Debian or Ubuntu group installs from the base image's configured sources"@,
                    ),
                ],
            )
        } else {
            match prop_spec(child, "enablerepo"@) {
                Some(repo) if repo.len() > 0 => match bad_token_spec(repo) {
                    Some(problem) => (None, seq![token_issue("repo ID `"@, repo, problem, span, source)]),
                    None => (Some(repo), Seq::empty()),
                },
                _ => (None, seq![note("`enablerepo` needs a repo ID string"@, source, span, "not a string"@)]),
            }
        },
    }
}

/// What one family entry of `packages` gives, and what it raises.
pub open spec fn group_spec(child: KNode, source: Seq<char>) -> (Option<GroupV>, Seq<IssueV>) {
    let family = child.name@;
    if family.len() == 0 {
        (
            None,
            seq![
                help_v(
                    note("a family name is required inside `packages`"@, source, child.name_span, "empty name"@),
                    "`packages { fedora \"pkg1\" \"pkg2\" }`"@,
                ),
            ],
        )
    } else if !is_family(family) {
        (None, seq![family_issue(family, child.name_span, source)])
    } else {
        let (ps, is) = package_scan(child.entries@, source);
        if ps.len() == 0 {
            (None, is.push(note("`"@ + family + "` has no packages listed"@, source, child.name_span, "nothing to install"@)))
        } else {
            let (repo, ris) = repo_spec(child, family, source);
            (Some((family, ps, repo, child.name_span)), is + ris)
        }
    }
}

/// Every family entry of `packages`, in order.
pub open spec fn packages_spec(kids: Seq<KNode>, source: Seq<char>) -> (Seq<GroupV>, Seq<IssueV>)
    decreases kids.len(),
{
    if kids.len() == 0 {
        (Seq::empty(), Seq::empty())
    } else {
        let (gs, is) = packages_spec(kids.drop_last(), source);
        let (g, gis) = group_spec(kids.last(), source);
        match g {
            Some(v) => (gs.push(v), is + gis),
            None => (gs, is + gis),
        }
    }
}

fn parse_repo(child: &KNode, family: &str, src: &Source, issues: &mut Issues) -> (r: Option<String>)
    ensures
        opt_view(r) == repo_spec(*child, family@, src.name@).0,
        final(issues)@ == old(issues)@ + repo_spec(*child, family@, src.name@).1,
{
    let ghost start = issues@;
    let span = match prop_span(child, "enablerepo") {
        Some(span) => span,
        None => {
            assert(issues@ =~= start + Seq::<IssueV>::empty());
            return None;
        },
    };
    if !same(family, "fedora") {
        issues.push(
            Issue::new(cat3("`enablerepo` is Fedora-only, not `", family, "`"), src).at(span, owned("no repo to enable on this family")).help(
                owned(
                    "only Fedora groups take `enablerepo`; a Debian or Ubuntu group installs from the base image's configured sources",
                ),
            ),
        );
        assert(issues@ =~= start + repo_spec(*child, family@, src.name@).1);
        return None;
    }
    match prop(child, "enablerepo") {
        Some(repo) if repo.unicode_len() > 0 => match bad_token(repo) {
            Some(problem) => {
                issues.push(
                    Issue::new(cat4("repo ID `", repo, "` ", problem), src).at(span, owned("would not survive the RUN line")).help(
                        owned(TOKEN_HELP),
                    ),
                );
                assert(issues@ =~= start + repo_spec(*child, family@, src.name@).1);
                None
            },
            None => {
                assert(issues@ =~= start + Seq::<IssueV>::empty());
                Some(owned(repo))
            },
        },
        _ => {
            issues.push(Issue::new(owned("`enablerepo` needs a repo ID string"), src).at(span, owned("not a string")));
            assert(issues@ =~= start + repo_spec(*child, family@, src.name@).1);
            None
        },
    }
}

fn parse_group(child: &KNode, src: &Source, issues: &mut Issues) -> (r: Option<PackageGroup>)
    ensures
        match group_spec(*child, src.name@).0 {
            Some(g) => r matches Some(v) && group_view(v) == g,
            None => r is None,
        },
        final(issues)@ == old(issues)@ + group_spec(*child, src.name@).1,
{
    let ghost start = issues@;
    let family = child.name.as_str();
    if family.unicode_len() == 0 {
        issues.push(
            Issue::new(owned("a family name is required inside `packages`"), src).at(child.name_span, owned("empty name")).help(
                owned("`packages { fedora \"pkg1\" \"pkg2\" }`"),
            ),
        );
        assert(issues@ =~= start + group_spec(*child, src.name@).1);
        return None;
    }
    if !crate::parse::module::family(family) {
        raise_family(family, child.name_span, src, issues);
        assert(issues@ =~= start + group_spec(*child, src.name@).1);
        return None;
    }
    let packages = scan_packages(child, src, issues);
    if packages.len() == 0 {
        issues.push(Issue::new(cat3("`", family, "` has no packages listed"), src).at(child.name_span, owned("nothing to install")));
        return None;
    }
    let enablerepo = parse_repo(child, family, src, issues);
    assert(issues@ =~= start + group_spec(*child, src.name@).1);
    Some(PackageGroup { family: owned(family), packages, enablerepo, span: child.name_span })
}

/// `packages { fedora "pkg1" "pkg2" }`: each child names a base family and
/// carries the package names as arguments.
pub fn parse_packages(node: &KNode, src: &Source, issues: &mut Issues) -> (r: Vec<PackageGroup>)
    ensures
        r@.map_values(|g: PackageGroup| group_view(g)) == packages_spec(kids_spec(*node), src.name@).0,
        final(issues)@ == old(issues)@ + packages_spec(kids_spec(*node), src.name@).1,
{
    let ks = kids(node);
    let ghost start = issues@;
    let mut out: Vec<PackageGroup> = Vec::new();
    let mut i: usize = 0;
    assert(ks@.take(0) =~= Seq::<KNode>::empty());
    assert(out@.map_values(|g: PackageGroup| group_view(g)) =~= Seq::<GroupV>::empty());
    assert(issues@ =~= start + Seq::<IssueV>::empty());
    while i < ks.len()
        invariant
            ks@ == kids_spec(*node),
            i <= ks@.len(),
            out@.map_values(|g: PackageGroup| group_view(g)) == packages_spec(ks@.take(i as int), src.name@).0,
            issues@ == start + packages_spec(ks@.take(i as int), src.name@).1,
        decreases ks@.len() - i,
    {
        assert(ks@.take(i as int + 1).drop_last() =~= ks@.take(i as int));
        assert(ks@.take(i as int + 1).last() == ks@[i as int]);
        let ghost prior = out@;
        match parse_group(&ks[i], src, issues) {
            Some(g) => {
                out.push(g);
                assert(out@.map_values(|g: PackageGroup| group_view(g)) =~= prior.map_values(|g: PackageGroup| group_view(g)).push(
                    group_view(out@.last()),
                ));
            },
            None => {},
        }
        assert(issues@ =~= start + packages_spec(ks@.take(i as int + 1), src.name@).1);
        i = i + 1;
    }
    assert(ks@.take(i as int) =~= ks@);
    out
}

/// The arguments among a node's entries, in order.
pub open spec fn args_of(entries: Seq<KEntry>) -> Seq<KEntry>
    decreases entries.len(),
{
    if entries.len() == 0 {
        Seq::empty()
    } else if entries.last().name is None {
        args_of(entries.drop_last()).push(entries.last())
    } else {
        args_of(entries.drop_last())
    }
}

fn arguments(node: &KNode) -> (r: Vec<&KEntry>)
    ensures
        r@.map_values(|e: &KEntry| *e) == args_of(node.entries@),
{
    let ghost es = node.entries@;
    let mut out: Vec<&KEntry> = Vec::new();
    let mut i: usize = 0;
    assert(out@.map_values(|e: &KEntry| *e) =~= args_of(es.take(0)));
    while i < node.entries.len()
        invariant
            es == node.entries@,
            i <= es.len(),
            out@.map_values(|e: &KEntry| *e) == args_of(es.take(i as int)),
        decreases es.len() - i,
    {
        assert(es.take(i as int + 1).drop_last() =~= es.take(i as int));
        assert(es.take(i as int + 1).last() == es[i as int]);
        let ghost prior = out@;
        if node.entries[i].name.is_none() {
            out.push(&node.entries[i]);
            assert(out@.map_values(|e: &KEntry| *e) =~= prior.map_values(|e: &KEntry| *e).push(es[i as int]));
        }
        i = i + 1;
    }
    assert(es.take(i as int) =~= es);
    out
}

/// A path as it lands in the image: from the root, with no empty, `.` or
/// `..` step.
pub open spec fn normal_overlay_path(p: Seq<char>) -> bool {
    is_prefix("/"@, p) && forall|i: int|
        1 <= i < split_spec(p, '/').len() ==> {
            let part = #[trigger] split_spec(p, '/')[i];
            part.len() > 0 && part != "."@ && part != ".."@
        }
}

pub open spec fn is_octal_digit(c: char) -> bool {
    '0' <= c <= '7'
}

pub open spec fn octal_value(s: Seq<char>) -> int
    decreases s.len(),
{
    if s.len() == 0 {
        0
    } else {
        octal_value(s.drop_last()) * 8 + (s.last() as int - '0' as int)
    }
}

proof fn lemma_octal_grows(s: Seq<char>, i: int, j: int)
    requires
        0 <= i <= j <= s.len(),
        forall|k: int| 0 <= k < s.len() ==> is_octal_digit(#[trigger] s[k]),
    ensures
        octal_value(s.take(j)) >= octal_value(s.take(i)),
        octal_value(s.take(j)) >= 0,
    decreases j,
{
    if j > 0 {
        assert(s.take(j).drop_last() =~= s.take(j - 1));
        assert(s.take(j).last() == s[j - 1]);
        if i < j {
            lemma_octal_grows(s, i, j - 1);
        } else {
            lemma_octal_grows(s, 0, j - 1);
        }
    } else {
        assert(s.take(0) =~= Seq::<char>::empty());
    }
}

/// What `mode "/etc/example.conf" "0644"` gives, and what it raises.
/// `shipped` is every file the module directory holds, by its path in it.
pub open spec fn mode_spec(node: KNode, module: Seq<char>, shipped: Seq<Seq<char>>, source: Seq<char>) -> (Option<(Seq<char>, u32)>, Seq<IssueV>) {
    let args = args_of(node.entries@);
    if args.len() != 2 {
        (
            None,
            seq![
                help_v(
                    note("`mode` needs one path and one octal file mode"@, source, node.name_span, "incomplete"@),
                    "`mode \"/etc/example.conf\" \"0644\"`"@,
                ),
            ],
        )
    } else {
        match (as_string(args[0].value), as_string(args[1].value)) {
            (None, _) => (None, seq![note("a mode path has to be a string"@, source, args[0].span, "not a string"@)]),
            (Some(_), None) => (
                None,
                seq![help_v(note("a file mode has to be an octal string"@, source, args[1].span, "not a string"@), "quote it: `\"0440\"`"@)],
            ),
            (Some(path), Some(given)) => if !normal_overlay_path(path) {
                (
                    None,
                    seq![
                        help_v(
                            note("`"@ + path + "` is not a normal absolute overlay path"@, source, args[0].span, "not a file path under `files/`"@),
                            "name the path exactly as it lands in the image, such as `/etc/example.conf`"@,
                        ),
                    ],
                )
            } else if given.len() == 0 || exists|k: int| 0 <= k < given.len() && !is_octal_digit(#[trigger] given[k]) {
                (
                    None,
                    seq![
                        help_v(
                            note("`"@ + given + "` is not an octal file mode"@, source, args[1].span, "use only digits 0 through 7"@),
                            "a chmod file mode such as `0440`"@,
                        ),
                    ],
                )
            } else if octal_value(given) > 4095 {
                (None, seq![note("file mode `"@ + given + "` is out of range"@, source, args[1].span, "greater than 07777"@)])
            } else if !shipped.contains("files/"@ + path.skip(1)) {
                (
                    None,
                    seq![
                        help_v(
                            note(
                                "`"@ + module + "` declares a mode for a file it does not ship"@,
                                source,
                                args[0].span,
                                path + " is missing from `files/`"@,
                            ),
                            "shipping the overlay file is what makes its mode meaningful"@,
                        ),
                    ],
                )
            } else {
                (Some((path, octal_value(given) as u32)), Seq::empty())
            },
        }
    }
}

fn normal_path(p: &str) -> (r: bool)
    ensures
        r == normal_overlay_path(p@),
{
    if !starts_with(p, "/") {
        return false;
    }
    let parts = split(p, '/');
    let mut i: usize = 1;
    while i < parts.len()
        invariant
            views(parts@) == split_spec(p@, '/'),
            1 <= i <= parts@.len() || parts@.len() == 0,
            forall|k: int|
                1 <= k < i ==> {
                    let part = #[trigger] split_spec(p@, '/')[k];
                    part.len() > 0 && part != "."@ && part != ".."@
                },
        decreases parts@.len() - i,
    {
        let part = parts[i].as_str();
        assert(split_spec(p@, '/')[i as int] == part@);
        if part.unicode_len() == 0 || same(part, ".") || same(part, "..") {
            return false;
        }
        i = i + 1;
    }
    proof {
        crate::text::lemma_split_nonempty(p@, '/');
    }
    true
}

/// The value of an octal string, where it is one and at most 07777.
fn octal(given: &str) -> (r: Option<u32>)
    requires
        forall|k: int| 0 <= k < given@.len() ==> is_octal_digit(#[trigger] given@[k]),
    ensures
        match r {
            Some(v) => octal_value(given@) <= 4095 && v as int == octal_value(given@),
            None => octal_value(given@) > 4095,
        },
{
    let cs = chars_of(given);
    let mut acc: u32 = 0;
    let mut i: usize = 0;
    assert(cs@.take(0) =~= Seq::<char>::empty());
    while i < cs.len()
        invariant
            cs@ == given@,
            i <= cs@.len(),
            forall|k: int| 0 <= k < given@.len() ==> is_octal_digit(#[trigger] given@[k]),
            acc as int == octal_value(given@.take(i as int)),
            acc <= 4095,
        decreases cs@.len() - i,
    {
        let c = cs[i];
        assert(given@.take(i as int + 1).drop_last() =~= given@.take(i as int));
        assert(given@.take(i as int + 1).last() == c);
        assert(is_octal_digit(given@[i as int]));
        let d: u32 = (c as u32) - ('0' as u32);
        let next: u32 = acc * 8 + d;
        if next > 4095 {
            proof {
                lemma_octal_grows(given@, i as int + 1, given@.len() as int);
                assert(given@.take(given@.len() as int) =~= given@);
            }
            return None;
        }
        acc = next;
        i = i + 1;
    }
    assert(given@.take(i as int) =~= given@);
    Some(acc)
}

/// `mode "/etc/example.conf" "0644"`: a chmod mode for one shipped overlay
/// file. `module` is the list path the messages name the module by.
pub fn parse_mode(node: &KNode, module: &str, shipped: &[String], src: &Source, issues: &mut Issues) -> (r: Option<FileMode>)
    ensures
        match mode_spec(*node, module@, views(shipped@), src.name@).0 {
            Some((path, mode)) => r matches Some(m) && m.path@ == path && m.mode == mode && m.span == node.name_span,
            None => r is None,
        },
        final(issues)@ == old(issues)@ + mode_spec(*node, module@, views(shipped@), src.name@).1,
{
    let ghost start = issues@;
    let args = arguments(node);
    let ghost av = args@.map_values(|e: &KEntry| *e);
    if args.len() != 2 {
        issues.push(
            Issue::new(owned("`mode` needs one path and one octal file mode"), src).at(node.name_span, owned("incomplete")).help(
                owned("`mode \"/etc/example.conf\" \"0644\"`"),
            ),
        );
        assert(issues@ =~= start + mode_spec(*node, module@, views(shipped@), src.name@).1);
        return None;
    }
    assert(av[0] == *args[0] && av[1] == *args[1]);
    let path = match &args[0].value {
        KValue::String(p) => p.as_str(),
        _ => {
            issues.push(Issue::new(owned("a mode path has to be a string"), src).at(args[0].span, owned("not a string")));
            assert(issues@ =~= start + mode_spec(*node, module@, views(shipped@), src.name@).1);
            return None;
        },
    };
    let given = match &args[1].value {
        KValue::String(g) => g.as_str(),
        _ => {
            issues.push(
                Issue::new(owned("a file mode has to be an octal string"), src).at(args[1].span, owned("not a string")).help(
                    owned("quote it: `\"0440\"`"),
                ),
            );
            assert(issues@ =~= start + mode_spec(*node, module@, views(shipped@), src.name@).1);
            return None;
        },
    };
    if !normal_path(path) {
        issues.push(
            Issue::new(cat3("`", path, "` is not a normal absolute overlay path"), src).at(args[0].span, owned("not a file path under `files/`")).help(
                owned("name the path exactly as it lands in the image, such as `/etc/example.conf`"),
            ),
        );
        assert(issues@ =~= start + mode_spec(*node, module@, views(shipped@), src.name@).1);
        return None;
    }
    let gs = chars_of(given);
    let mut all_octal = gs.len() > 0;
    let mut k: usize = 0;
    while k < gs.len()
        invariant
            gs@ == given@,
            k <= gs@.len(),
            all_octal == (given@.len() > 0 && forall|j: int| 0 <= j < k ==> is_octal_digit(#[trigger] given@[j])),
        decreases gs@.len() - k,
    {
        if !('0' <= gs[k] && gs[k] <= '7') {
            all_octal = false;
        }
        k = k + 1;
    }
    if !all_octal {
        issues.push(
            Issue::new(cat3("`", given, "` is not an octal file mode"), src).at(args[1].span, owned("use only digits 0 through 7")).help(
                owned("a chmod file mode such as `0440`"),
            ),
        );
        assert(issues@ =~= start + mode_spec(*node, module@, views(shipped@), src.name@).1);
        return None;
    }
    let mode = match octal(given) {
        Some(m) => m,
        None => {
            issues.push(Issue::new(cat3("file mode `", given, "` is out of range"), src).at(args[1].span, owned("greater than 07777")));
            assert(issues@ =~= start + mode_spec(*node, module@, views(shipped@), src.name@).1);
            return None;
        },
    };
    proof {
        reveal_strlit("/");
    }
    let rest = slice(path, 1, path.unicode_len());
    let overlay = cat(crate::layout::OVERLAY, "/");
    let overlay = cat(overlay.as_str(), rest.as_str());
    proof {
        reveal_strlit("files");
        reveal_strlit("/");
        reveal_strlit("files/");
        assert(overlay@ =~= "files/"@ + path@.skip(1));
    }
    if !listed(shipped, overlay.as_str()) {
        issues.push(
            Issue::new(cat3("`", module, "` declares a mode for a file it does not ship"), src).at(
                args[0].span,
                cat(path, " is missing from `files/`"),
            ).help(owned("shipping the overlay file is what makes its mode meaningful")),
        );
        assert(issues@ =~= start + mode_spec(*node, module@, views(shipped@), src.name@).1);
        return None;
    }
    assert(issues@ =~= start + Seq::<IssueV>::empty());
    Some(FileMode { path: owned(path), mode, span: node.name_span })
}

pub open spec fn int_prop_spec(n: KNode, key: Seq<char>) -> Option<i128> {
    match first_value(n.entries@, named(n.entries@, key)) {
        Some(v) => as_integer(v),
        None => None,
    }
}

/// A key as plain values: kind, generator, profile, bits, public path,
/// format, private name, and where it was declared.
pub type KeyV = (Seq<char>, Seq<char>, Option<Seq<char>>, u32, Seq<char>, Seq<char>, Seq<char>, Span);

pub open spec fn key_view(k: Key) -> KeyV {
    (k.kind@, k.generator@, opt_view(k.profile), k.bits, k.public@, k.format@, k.private@, k.span)
}

/// A path the public half can ship at: from the root, with no `..` step.
pub open spec fn image_path(p: Seq<char>) -> bool {
    is_prefix("/"@, p) && forall|i: int| 0 <= i < split_spec(p, '/').len() ==> #[trigger] split_spec(p, '/')[i] != ".."@
}

/// A plain filename: not empty, no slash, not hidden.
pub open spec fn plain_name(n: Seq<char>) -> bool {
    n.len() > 0 && !has_char(n, '/') && n[0] != '.'
}

pub open spec fn is_generator(g: Seq<char>) -> bool {
    g == "cosign"@ || g == "openssl"@
}

/// What a `key` node gives, and what it raises. What the schema walk already
/// reports (a missing child, a generator the tool lacks) gives nothing here
/// and raises nothing more.
pub open spec fn key_spec(node: KNode, source: Seq<char>) -> (Option<KeyV>, Seq<IssueV>) {
    match (string_arg_spec(node), child_spec(node, "generator"@), child_spec(node, "public"@), child_spec(node, "private"@)) {
        (Some(kind), Some(generator), Some(public), Some(private)) => match string_arg_spec(public) {
            None => (None, Seq::empty()),
            Some(path) => if !image_path(path) {
                (
                    None,
                    seq![
                        help_v(
                            note("`"@ + path + "` is not an absolute path in the image"@, source, public.name_span, "the public half goes here"@),
                            "it is the path the built image ships the public half at, and the module's files/ overlay is what puts it there"@,
                        ),
                    ],
                )
            } else {
                match string_arg_spec(private) {
                    None => (None, Seq::empty()),
                    Some(name) => if !plain_name(name) {
                        (
                            None,
                            seq![
                                help_v(
                                    note("`"@ + name + "` is not a filename"@, source, private.name_span, "the private half is written here"@),
                                    "the private half is written under keys/private/ and never committed, so it is a plain name rather than a path"@,
                                ),
                            ],
                        )
                    } else {
                        match string_arg_spec(generator) {
                            Some(g) if is_generator(g) => (
                                Some(
                                    (
                                        kind,
                                        g,
                                        prop_spec(generator, "profile"@),
                                        match int_prop_spec(generator, "bits"@) {
                                            Some(b) => b as u32,
                                            None => 4096u32,
                                        },
                                        path,
                                        match prop_spec(public, "format"@) {
                                            Some(f) => f,
                                            None => "pem"@,
                                        },
                                        name,
                                        node.name_span,
                                    ),
                                ),
                                Seq::empty(),
                            ),
                            _ => (None, Seq::empty()),
                        }
                    },
                }
            },
        },
        _ => (None, Seq::empty()),
    }
}

fn image_path_exec(p: &str) -> (r: bool)
    ensures
        r == image_path(p@),
{
    if !starts_with(p, "/") {
        return false;
    }
    let parts = split(p, '/');
    let mut i: usize = 0;
    while i < parts.len()
        invariant
            views(parts@) == split_spec(p@, '/'),
            i <= parts@.len(),
            forall|k: int| 0 <= k < i ==> #[trigger] split_spec(p@, '/')[k] != ".."@,
        decreases parts@.len() - i,
    {
        assert(split_spec(p@, '/')[i as int] == parts@[i as int]@);
        if same(parts[i].as_str(), "..") {
            return false;
        }
        i = i + 1;
    }
    true
}

/// `key "cosign" { generator "cosign"; public "/etc/..."; private "cosign.key" }`
pub fn parse_key(node: &KNode, src: &Source, issues: &mut Issues) -> (r: Option<Key>)
    ensures
        match key_spec(*node, src.name@).0 {
            Some(k) => r matches Some(v) && key_view(v) == k,
            None => r is None,
        },
        final(issues)@ == old(issues)@ + key_spec(*node, src.name@).1,
{
    let ghost start = issues@;
    proof {
        assert(issues@ =~= start + Seq::<IssueV>::empty());
    }
    let kind = match string_arg(node) {
        Some(k) => k,
        None => return None,
    };
    let generator = match child(node, "generator") {
        Some(g) => g,
        None => return None,
    };
    let public = match child(node, "public") {
        Some(g) => g,
        None => return None,
    };
    let private = match child(node, "private") {
        Some(g) => g,
        None => return None,
    };
    let path = match string_arg(public) {
        Some(p) => p,
        None => return None,
    };
    if !image_path_exec(path) {
        issues.push(
            Issue::new(cat3("`", path, "` is not an absolute path in the image"), src).at(public.name_span, owned("the public half goes here")).help(
                owned("it is the path the built image ships the public half at, and the module's files/ overlay is what puts it there"),
            ),
        );
        assert(issues@ =~= start + key_spec(*node, src.name@).1);
        return None;
    }
    let name = match string_arg(private) {
        Some(n) => n,
        None => return None,
    };
    let nc = chars_of(name);
    if nc.len() == 0 || contains_char(name, '/') || nc[0] == '.' {
        issues.push(
            Issue::new(cat3("`", name, "` is not a filename"), src).at(private.name_span, owned("the private half is written here")).help(
                owned("the private half is written under keys/private/ and never committed, so it is a plain name rather than a path"),
            ),
        );
        assert(issues@ =~= start + key_spec(*node, src.name@).1);
        return None;
    }
    let g = match string_arg(generator) {
        Some(g) => if same(g, "cosign") || same(g, "openssl") {
            g
        } else {
            return None;
        },
        None => return None,
    };
    let bits: u32 = match int_prop(generator, "bits") {
        Some(b) => b as u32,
        None => 4096,
    };
    let format = match prop(public, "format") {
        Some(f) => owned(f),
        None => owned("pem"),
    };
    let profile = match prop(generator, "profile") {
        Some(p) => Some(owned(p)),
        None => None,
    };
    Some(Key {
        kind: owned(kind),
        generator: owned(g),
        profile,
        bits,
        public: owned(path),
        format,
        private: owned(name),
        span: node.name_span,
    })
}

/// A declared `priority=`, cut to 32 bits.
pub open spec fn priority_spec(n: KNode) -> Option<u32> {
    match int_prop_spec(n, "priority"@) {
        Some(v) => Some(v as u32),
        None => None,
    }
}

/// A `priority=` that is there but not a number: the schema walk's
/// diagnostic, and no second one here.
pub open spec fn bad_priority(n: KNode) -> bool {
    prop_span_spec(n, "priority"@) is Some && priority_spec(n) is None
}

fn priority(node: &KNode) -> (r: Option<u32>)
    ensures
        r == priority_spec(*node),
{
    match int_prop(node, "priority") {
        Some(v) => Some(v as u32),
        None => None,
    }
}

/// The first string argument.
pub open spec fn first_arg(n: KNode) -> Option<Seq<char>> {
    if string_args_spec(n.entries@).len() > 0 {
        Some(string_args_spec(n.entries@)[0])
    } else {
        None
    }
}

fn first_string(node: &KNode) -> (r: Option<String>)
    ensures
        opt_view(r) == first_arg(*node),
{
    let args = string_args(node);
    assert(args@.map_values(|s: &str| s@).len() == args@.len());
    if args.len() > 0 {
        assert(args@.map_values(|s: &str| s@)[0] == args@[0]@);
        Some(owned(args[0]))
    } else {
        None
    }
}

pub type CollectV = (Seq<char>, Seq<char>, u32, Span);

pub open spec fn collect_view(c: Collect) -> CollectV {
    (c.file@, c.into@, c.priority, c.span)
}

/// What `collects "justfile.inc" into="/usr/share/just/justfile.apps"
/// priority=500` gives, and what it raises.
pub open spec fn collects_spec(node: KNode, source: Seq<char>) -> (Option<CollectV>, Seq<IssueV>) {
    if bad_priority(node) {
        (None, Seq::empty())
    } else {
        match (first_arg(node), prop_spec(node, "into"@), priority_spec(node)) {
            (Some(file), Some(into), Some(p)) if is_prefix("/"@, into) => (Some((file, into, p, node.name_span)), Seq::empty()),
            (file, into, p) => {
                let missing = if file is None {
                    "the filename it collects"@
                } else if into is None {
                    "into=, where the build puts them"@
                } else if p is None {
                    "priority=, where a contribution lands when it names none"@
                } else {
                    "an absolute into="@
                };
                (
                    None,
                    seq![
                        help_v(
                            note("`collects` needs "@ + missing, source, node.name_span, "incomplete"@),
                            "`collects \"justfile.inc\" into=\"/usr/share/just/justfile.apps\" priority=500`"@,
                        ),
                    ],
                )
            },
        }
    }
}

/// `collects "justfile.inc" into="/usr/share/just/justfile.apps" priority=500`
pub fn parse_collects(node: &KNode, src: &Source, issues: &mut Issues) -> (r: Option<Collect>)
    ensures
        match collects_spec(*node, src.name@).0 {
            Some(c) => r matches Some(v) && collect_view(v) == c,
            None => r is None,
        },
        final(issues)@ == old(issues)@ + collects_spec(*node, src.name@).1,
{
    let ghost start = issues@;
    let p = priority(node);
    if prop_span(node, "priority").is_some() && p.is_none() {
        assert(issues@ =~= start + Seq::<IssueV>::empty());
        return None;
    }
    let file = first_string(node);
    let into = prop(node, "into");
    if let (Some(f), Some(i), Some(pr)) = (&file, into, p) {
        if starts_with(i, "/") {
            assert(issues@ =~= start + Seq::<IssueV>::empty());
            return Some(Collect { file: f.clone(), into: owned(i), priority: pr, span: node.name_span });
        }
    }
    let missing = if file.is_none() {
        "the filename it collects"
    } else if into.is_none() {
        "into=, where the build puts them"
    } else if p.is_none() {
        "priority=, where a contribution lands when it names none"
    } else {
        "an absolute into="
    };
    issues.push(
        Issue::new(cat("`collects` needs ", missing), src).at(node.name_span, owned("incomplete")).help(
            owned("`collects \"justfile.inc\" into=\"/usr/share/just/justfile.apps\" priority=500`"),
        ),
    );
    assert(issues@ =~= start + collects_spec(*node, src.name@).1);
    None
}

pub type ContributionV = (Seq<char>, u32, Span);

pub open spec fn contribution_view(c: Contribution) -> ContributionV {
    (c.file@, c.priority, c.span)
}

/// The first contribution ordering that file, where there is one.
pub open spec fn ordered(done: Seq<ContributionV>, file: Seq<char>) -> Option<int> {
    first_true(done.map_values(|c: ContributionV| c.0 == file))
}

/// What `contributes "justfile.inc" priority=900` gives, and what it raises.
/// `done` is what the module ordered before it, and `shipped` every file the
/// module directory holds.
pub open spec fn contributes_spec(node: KNode, module: Seq<char>, shipped: Seq<Seq<char>>, done: Seq<ContributionV>, source: Seq<char>) -> (Option<ContributionV>, Seq<IssueV>) {
    if bad_priority(node) {
        (None, Seq::empty())
    } else {
        match (first_arg(node), priority_spec(node)) {
            (Some(file), Some(p)) => if !shipped.contains(file) {
                (
                    None,
                    seq![
                        help_v(
                            note("`"@ + module + "` orders a "@ + file + " it does not ship"@, source, node.name_span, "nothing to order"@),
                            "shipping the file is what contributes it; this node only says where it lands"@,
                        ),
                    ],
                )
            } else {
                match ordered(done, file) {
                    Some(i) => (
                        None,
                        seq![
                            at_v(
                                note("`"@ + file + "` is ordered twice"@, source, done[i].2, "first here"@),
                                node.name_span,
                                "and again here"@,
                            ),
                        ],
                    ),
                    None => (Some((file, p, node.name_span)), Seq::empty()),
                }
            },
            (file, _) => {
                let missing = if file is None {
                    "the filename it contributes"@
                } else {
                    "priority=, which is the only thing it declares"@
                };
                (
                    None,
                    seq![
                        help_v(
                            note("`contributes` needs "@ + missing, source, node.name_span, "incomplete"@),
                            "`contributes \"justfile.inc\" priority=900`, for a module that has to land after the rest"@,
                        ),
                    ],
                )
            },
        }
    }
}

fn find_ordered(done: &[Contribution], file: &str) -> (r: Option<usize>)
    ensures
        match ordered(done@.map_values(|c: Contribution| contribution_view(c)), file@) {
            Some(i) => r matches Some(j) && j as int == i && j < done@.len(),
            None => r is None,
        },
{
    let ghost marks = done@.map_values(|c: Contribution| c.file@ == file@);
    assert(marks =~= done@.map_values(|c: Contribution| contribution_view(c)).map_values(|c: ContributionV| c.0 == file@));
    let mut i: usize = 0;
    while i < done.len()
        invariant
            marks == done@.map_values(|c: Contribution| c.file@ == file@),
            marks == done@.map_values(|c: Contribution| contribution_view(c)).map_values(|c: ContributionV| c.0 == file@),
            i <= done@.len(),
            forall|j: int| 0 <= j < i ==> !marks[j],
        decreases done@.len() - i,
    {
        if same(done[i].file.as_str(), file) {
            proof {
                first_true_at(marks, i as int);
            }
            return Some(i);
        }
        i = i + 1;
    }
    proof {
        first_true_at(marks, i as int);
    }
    None
}

proof fn first_true_at(marks: Seq<bool>, i: int)
    requires
        0 <= i <= marks.len(),
        forall|j: int| 0 <= j < i ==> !marks[j],
        i < marks.len() ==> marks[i],
    ensures
        i < marks.len() ==> first_true(marks) == Some(i),
        i == marks.len() ==> first_true(marks) is None,
{
    crate::text::lemma_first_true(marks, i);
}

/// `contributes "justfile.inc" priority=900`
pub fn parse_contributes(
    node: &KNode,
    module: &str,
    shipped: &[String],
    done: &[Contribution],
    src: &Source,
    issues: &mut Issues,
) -> (r: Option<Contribution>)
    ensures
        match contributes_spec(*node, module@, views(shipped@), done@.map_values(|c: Contribution| contribution_view(c)), src.name@).0 {
            Some(c) => r matches Some(v) && contribution_view(v) == c,
            None => r is None,
        },
        final(issues)@ == old(issues)@ + contributes_spec(*node, module@, views(shipped@), done@.map_values(|c: Contribution| contribution_view(c)), src.name@).1,
{
    let ghost start = issues@;
    let p = priority(node);
    if prop_span(node, "priority").is_some() && p.is_none() {
        assert(issues@ =~= start + Seq::<IssueV>::empty());
        return None;
    }
    let file = first_string(node);
    match (&file, p) {
        (Some(f), Some(pr)) => {
            if !listed(shipped, f.as_str()) {
                issues.push(
                    Issue::new(cat5("`", module, "` orders a ", f.as_str(), " it does not ship"), src).at(node.name_span, owned("nothing to order")).help(
                        owned("shipping the file is what contributes it; this node only says where it lands"),
                    ),
                );
                assert(issues@ =~= start + contributes_spec(*node, module@, views(shipped@), done@.map_values(|c: Contribution| contribution_view(c)), src.name@).1);
                return None;
            }
            match find_ordered(done, f.as_str()) {
                Some(i) => {
                    issues.push(
                        Issue::new(cat3("`", f.as_str(), "` is ordered twice"), src).at(done[i].span, owned("first here")).at(
                            node.name_span,
                            owned("and again here"),
                        ),
                    );
                    assert(issues@ =~= start + contributes_spec(*node, module@, views(shipped@), done@.map_values(|c: Contribution| contribution_view(c)), src.name@).1);
                    None
                },
                None => {
                    assert(issues@ =~= start + Seq::<IssueV>::empty());
                    Some(Contribution { file: f.clone(), priority: pr, span: node.name_span })
                },
            }
        },
        _ => {
            let missing = if file.is_none() {
                "the filename it contributes"
            } else {
                "priority=, which is the only thing it declares"
            };
            issues.push(
                Issue::new(cat("`contributes` needs ", missing), src).at(node.name_span, owned("incomplete")).help(
                    owned("`contributes \"justfile.inc\" priority=900`, for a module that has to land after the rest"),
                ),
            );
            assert(issues@ =~= start + contributes_spec(*node, module@, views(shipped@), done@.map_values(|c: Contribution| contribution_view(c)), src.name@).1);
            None
        },
    }
}

/// The position a fragment names, where it is one.
pub open spec fn position_spec(n: KNode) -> Option<Seq<char>> {
    match prop_spec(n, "position"@) {
        Some(p) if p == "before"@ || p == "after"@ => Some(p),
        _ => None,
    }
}

/// What `fragment position="after" standard-layer=#false` gives (whether it
/// goes after the generated block, and whether that block is emitted), and
/// what it raises.
pub open spec fn fragment_spec(node: KNode, source: Seq<char>) -> ((bool, bool), Seq<IssueV>) {
    let after = position_spec(node) == Some("after"@);
    let standard = match boolean_spec(node, "standard-layer"@) {
        Some(b) => b,
        None => true,
    };
    let raised = if !standard && position_spec(node) is Some && prop_span_spec(node, "position"@) is Some {
        seq![
            help_v(
                note(
                    "`position` says nothing without a standard layer"@,
                    source,
                    prop_span_spec(node, "position"@)->0,
                    "there is nothing to be before or after"@,
                ),
                "`standard-layer #false` makes the fragment the only thing this module emits"@,
            ),
        ]
    } else {
        Seq::empty()
    };
    ((after, standard), raised)
}

/// `fragment position="after" standard-layer=#false`: the defaults are the
/// additive case, above the generated block and with the block emitted.
pub fn parse_fragment(node: &KNode, src: &Source, issues: &mut Issues) -> (r: (bool, bool))
    ensures
        r == fragment_spec(*node, src.name@).0,
        final(issues)@ == old(issues)@ + fragment_spec(*node, src.name@).1,
{
    let ghost start = issues@;
    let position = match prop(node, "position") {
        Some(p) => if same(p, "before") || same(p, "after") {
            Some(p)
        } else {
            None
        },
        None => None,
    };
    let after = match position {
        Some(p) => same(p, "after"),
        None => false,
    };
    let standard = match boolean(node, "standard-layer") {
        Some(b) => b,
        None => true,
    };
    if !standard && position.is_some() {
        if let Some(span) = prop_span(node, "position") {
            issues.push(
                Issue::new(owned("`position` says nothing without a standard layer"), src).at(span, owned("there is nothing to be before or after")).help(
                    owned("`standard-layer #false` makes the fragment the only thing this module emits"),
                ),
            );
        }
    }
    assert(issues@ =~= start + fragment_spec(*node, src.name@).1);
    (after, standard)
}

/// A path inside the module: relative, and with no `.` start or `..` step.
pub open spec fn inside_module(p: Seq<char>) -> bool {
    !is_prefix("/"@, p) && split_spec(p, '/')[0] != "."@ && forall|i: int|
        0 <= i < split_spec(p, '/').len() ==> #[trigger] split_spec(p, '/')[i] != ".."@
}

fn inside_module_exec(p: &str) -> (r: bool)
    ensures
        r == inside_module(p@),
{
    if starts_with(p, "/") {
        return false;
    }
    let parts = split(p, '/');
    proof {
        crate::text::lemma_split_nonempty(p@, '/');
    }
    assert(split_spec(p@, '/')[0] == parts@[0]@);
    if same(parts[0].as_str(), ".") {
        return false;
    }
    let mut i: usize = 0;
    while i < parts.len()
        invariant
            views(parts@) == split_spec(p@, '/'),
            i <= parts@.len(),
            forall|k: int| 0 <= k < i ==> #[trigger] split_spec(p@, '/')[k] != ".."@,
        decreases parts@.len() - i,
    {
        assert(split_spec(p@, '/')[i as int] == parts@[i as int]@);
        if same(parts[i].as_str(), "..") {
            return false;
        }
        i = i + 1;
    }
    true
}

/// One helper: its declaration, or what it raises.
pub open spec fn helper_spec(h: Seq<char>, module: Seq<char>, shipped: Seq<Seq<char>>, span: Span, source: Seq<char>) -> Option<IssueV> {
    if !inside_module(h) {
        Some(
            help_v(
                note("`"@ + h + "` is not a path inside this module"@, source, span, "helpers are module content"@),
                "name a relative file shipped inside this module, such as `lib/family.sh`"@,
            ),
        )
    } else if !shipped.contains(h) {
        Some(
            help_v(
                note("`"@ + module + "` declares a helper it does not ship"@, source, span, h + " is missing"@),
                "shipping the file is what makes it available to module layers"@,
            ),
        )
    } else {
        None
    }
}

/// Every helper a `helpers` node names, in order: those declared, and what
/// the others raise.
pub open spec fn helpers_spec(hs: Seq<Seq<char>>, module: Seq<char>, shipped: Seq<Seq<char>>, span: Span, source: Seq<char>) -> (Seq<Seq<char>>, Seq<IssueV>)
    decreases hs.len(),
{
    if hs.len() == 0 {
        (Seq::empty(), Seq::empty())
    } else {
        let (ok, is) = helpers_spec(hs.drop_last(), module, shipped, span, source);
        match helper_spec(hs.last(), module, shipped, span, source) {
            Some(i) => (ok, is.push(i)),
            None => (ok.push(hs.last()), is),
        }
    }
}

/// `helpers "lib/family.sh"`: files mounted from this module into every
/// standard layer.
pub fn parse_helpers(node: &KNode, module: &str, shipped: &[String], src: &Source, issues: &mut Issues) -> (r: Vec<Decl>)
    ensures
        decls_at(r@, helpers_spec(string_args_spec(node.entries@), module@, views(shipped@), node.name_span, src.name@).0, node.name_span),
        final(issues)@ == old(issues)@ + helpers_spec(string_args_spec(node.entries@), module@, views(shipped@), node.name_span, src.name@).1,
{
    let names = string_args(node);
    let ghost start = issues@;
    let ghost all = names@.map_values(|s: &str| s@);
    let ghost sh = views(shipped@);
    let mut out: Vec<Decl> = Vec::new();
    let mut i: usize = 0;
    assert(all.take(0) =~= Seq::<Seq<char>>::empty());
    assert(decl_names(out@) =~= Seq::<Seq<char>>::empty());
    assert(issues@ =~= start + Seq::<IssueV>::empty());
    while i < names.len()
        invariant
            all == names@.map_values(|s: &str| s@),
            sh == views(shipped@),
            i <= names@.len(),
            decls_at(out@, helpers_spec(all.take(i as int), module@, sh, node.name_span, src.name@).0, node.name_span),
            issues@ == start + helpers_spec(all.take(i as int), module@, sh, node.name_span, src.name@).1,
        decreases names@.len() - i,
    {
        let h = names[i];
        assert(all.take(i as int + 1).drop_last() =~= all.take(i as int));
        assert(all.take(i as int + 1).last() == h@);
        let ghost prior = out@;
        if !inside_module_exec(h) {
            issues.push(
                Issue::new(cat3("`", h, "` is not a path inside this module"), src).at(node.name_span, owned("helpers are module content")).help(
                    owned("name a relative file shipped inside this module, such as `lib/family.sh`"),
                ),
            );
        } else if !listed(shipped, h) {
            issues.push(
                Issue::new(cat3("`", module, "` declares a helper it does not ship"), src).at(node.name_span, cat(h, " is missing")).help(
                    owned("shipping the file is what makes it available to module layers"),
                ),
            );
        } else {
            out.push(Decl { name: owned(h), span: node.name_span });
            assert(decl_names(out@) =~= decl_names(prior).push(h@));
        }
        assert(issues@ =~= start + helpers_spec(all.take(i as int + 1), module@, sh, node.name_span, src.name@).1);
        i = i + 1;
    }
    assert(all.take(i as int) =~= all);
    out
}

pub type CoverageV = (Seq<char>, Seq<Seq<char>>, Span);

pub open spec fn coverage_view(c: Coverage) -> CoverageV {
    (c.benchmark@, views(c.rules@), c.span)
}

pub open spec fn benchmark_issue(span: Span, source: Seq<char>) -> IssueV {
    help_v(
        note("a benchmark name is required inside `satisfies`"@, source, span, "empty name"@),
        "`satisfies { cis-fedora \"1.1.1.1\" }`"@,
    )
}

/// Every benchmark a `satisfies` block names, in order: the claims, and what
/// an unnamed one raises.
pub open spec fn satisfies_spec(kids: Seq<KNode>, source: Seq<char>) -> (Seq<CoverageV>, Seq<IssueV>)
    decreases kids.len(),
{
    if kids.len() == 0 {
        (Seq::empty(), Seq::empty())
    } else {
        let (cs, is) = satisfies_spec(kids.drop_last(), source);
        let c = kids.last();
        if c.name@.len() == 0 {
            (cs, is.push(benchmark_issue(c.name_span, source)))
        } else {
            (cs.push((c.name@, string_args_spec(c.entries@), c.name_span)), is)
        }
    }
}

/// `satisfies { cis-fedora "1.1.1.1" }`: each child names a benchmark and
/// carries the rule IDs the module claims to cover.
pub fn parse_satisfies(node: &KNode, src: &Source, issues: &mut Issues) -> (r: Vec<Coverage>)
    ensures
        r@.map_values(|c: Coverage| coverage_view(c)) == satisfies_spec(kids_spec(*node), src.name@).0,
        final(issues)@ == old(issues)@ + satisfies_spec(kids_spec(*node), src.name@).1,
{
    let ks = kids(node);
    let ghost start = issues@;
    let mut out: Vec<Coverage> = Vec::new();
    let mut i: usize = 0;
    assert(ks@.take(0) =~= Seq::<KNode>::empty());
    assert(out@.map_values(|c: Coverage| coverage_view(c)) =~= Seq::<CoverageV>::empty());
    assert(issues@ =~= start + Seq::<IssueV>::empty());
    while i < ks.len()
        invariant
            ks@ == kids_spec(*node),
            i <= ks@.len(),
            out@.map_values(|c: Coverage| coverage_view(c)) == satisfies_spec(ks@.take(i as int), src.name@).0,
            issues@ == start + satisfies_spec(ks@.take(i as int), src.name@).1,
        decreases ks@.len() - i,
    {
        assert(ks@.take(i as int + 1).drop_last() =~= ks@.take(i as int));
        assert(ks@.take(i as int + 1).last() == ks@[i as int]);
        let c = &ks[i];
        let ghost prior = out@;
        if c.name.unicode_len() == 0 {
            issues.push(
                Issue::new(owned("a benchmark name is required inside `satisfies`"), src).at(c.name_span, owned("empty name")).help(
                    owned("`satisfies { cis-fedora \"1.1.1.1\" }`"),
                ),
            );
        } else {
            let args = string_args(c);
            let mut rules: Vec<String> = Vec::new();
            let mut k: usize = 0;
            while k < args.len()
                invariant
                    k <= args@.len(),
                    views(rules@) == args@.map_values(|s: &str| s@).take(k as int),
                decreases args@.len() - k,
            {
                let ghost before = rules@;
                let a = args[k];
                rules.push(owned(a));
                assert(views(rules@) =~= views(before).push(a@));
                assert(args@.map_values(|s: &str| s@).take(k as int + 1) =~= args@.map_values(|s: &str| s@).take(k as int).push(a@));
                k = k + 1;
            }
            assert(args@.map_values(|s: &str| s@).take(k as int) =~= args@.map_values(|s: &str| s@));
            out.push(Coverage { benchmark: c.name.clone(), rules, span: c.name_span });
            assert(out@.map_values(|c: Coverage| coverage_view(c)) =~= prior.map_values(|c: Coverage| coverage_view(c)).push(
                coverage_view(out@.last()),
            ));
        }
        assert(issues@ =~= start + satisfies_spec(ks@.take(i as int + 1), src.name@).1);
        i = i + 1;
    }
    assert(ks@.take(i as int) =~= ks@);
    out
}

pub type ExceptionV = (Seq<char>, Seq<char>, Span);

pub open spec fn exception_view(e: VerifyException) -> ExceptionV {
    (e.class@, e.unit@, e.span)
}

/// The first exception already declared for that class on that unit.
pub open spec fn allowed(done: Seq<ExceptionV>, class: Seq<char>, unit: Seq<char>) -> Option<int> {
    first_true(done.map_values(|e: ExceptionV| e.0 == class && e.1 == unit))
}

/// What `allow-verify "man-page-missing" unit="x.service"` gives, and what it
/// raises. `classes` is every diagnostic class `tect validate-image` names,
/// and `done` what the module accepted before it.
pub open spec fn allow_spec(node: KNode, classes: Seq<Seq<char>>, done: Seq<ExceptionV>, source: Seq<char>) -> (Option<ExceptionV>, Seq<IssueV>) {
    let span = node.name_span;
    match (string_arg_spec(node), prop_spec(node, "unit"@)) {
        (Some(class), Some(unit)) => if !classes.contains(class) {
            (
                None,
                seq![
                    help_v(
                        note("`"@ + class + "` is not a verify diagnostic class"@, source, span, "not one of the known classes"@),
                        "known classes: "@ + join_spec(classes, ", "@)
                            + ". They are named rather than written as patterns, and `tect validate-image` holds what each one stands for"@,
                    ),
                ],
            )
        } else {
            match allowed(done, class, unit) {
                Some(i) => (
                    None,
                    seq![
                        at_v(
                            note("`"@ + class + "` is allowed twice on `"@ + unit + "`"@, source, done[i].2, "first here"@),
                            span,
                            "and again here"@,
                        ),
                    ],
                ),
                None => (Some((class, unit, span)), Seq::empty()),
            }
        },
        (class, _) => {
            let missing = if class is None {
                "a diagnostic class"@
            } else {
                "unit=, the unit it applies to"@
            };
            (
                None,
                seq![
                    help_v(
                        note("`allow-verify` needs "@ + missing, source, span, "incomplete"@),
                        "`allow-verify \"man-page-missing\" unit=\"plasmalogin.service\"`, which accepts one diagnostic on one unit rather than image-wide"@,
                    ),
                ],
            )
        },
    }
}

fn find_allowed(done: &[VerifyException], class: &str, unit: &str) -> (r: Option<usize>)
    ensures
        match allowed(done@.map_values(|e: VerifyException| exception_view(e)), class@, unit@) {
            Some(i) => r matches Some(j) && j as int == i && j < done@.len(),
            None => r is None,
        },
{
    let ghost marks = done@.map_values(|e: VerifyException| e.class@ == class@ && e.unit@ == unit@);
    assert(marks =~= done@.map_values(|e: VerifyException| exception_view(e)).map_values(|e: ExceptionV| e.0 == class@ && e.1 == unit@));
    let mut i: usize = 0;
    while i < done.len()
        invariant
            marks == done@.map_values(|e: VerifyException| e.class@ == class@ && e.unit@ == unit@),
            marks == done@.map_values(|e: VerifyException| exception_view(e)).map_values(|e: ExceptionV| e.0 == class@ && e.1 == unit@),
            i <= done@.len(),
            forall|j: int| 0 <= j < i ==> !marks[j],
        decreases done@.len() - i,
    {
        if same(done[i].class.as_str(), class) && same(done[i].unit.as_str(), unit) {
            proof {
                first_true_at(marks, i as int);
            }
            return Some(i);
        }
        i = i + 1;
    }
    proof {
        first_true_at(marks, i as int);
    }
    None
}

/// `allow-verify "man-page-missing" unit="x.service"`: one known diagnostic
/// accepted on one unit, which is why both halves are required.
pub fn parse_allow_verify(
    node: &KNode,
    classes: &Vec<String>,
    done: &[VerifyException],
    src: &Source,
    issues: &mut Issues,
) -> (r: Option<VerifyException>)
    ensures
        match allow_spec(*node, views(classes@), done@.map_values(|e: VerifyException| exception_view(e)), src.name@).0 {
            Some(e) => r matches Some(v) && exception_view(v) == e,
            None => r is None,
        },
        final(issues)@ == old(issues)@ + allow_spec(*node, views(classes@), done@.map_values(|e: VerifyException| exception_view(e)), src.name@).1,
{
    let ghost start = issues@;
    let span = node.name_span;
    match (string_arg(node), prop(node, "unit")) {
        (Some(class), Some(unit)) => {
            if !listed(classes.as_slice(), class) {
                let names = join(classes, ", ");
                let help = cat3(
                    "known classes: ",
                    names.as_str(),
                    ". They are named rather than written as patterns, and `tect validate-image` holds what each one stands for",
                );
                issues.push(
                    Issue::new(cat3("`", class, "` is not a verify diagnostic class"), src).at(span, owned("not one of the known classes")).help(help),
                );
                assert(issues@ =~= start + allow_spec(*node, views(classes@), done@.map_values(|e: VerifyException| exception_view(e)), src.name@).1);
                return None;
            }
            match find_allowed(done, class, unit) {
                Some(i) => {
                    issues.push(
                        Issue::new(cat5("`", class, "` is allowed twice on `", unit, "`"), src).at(done[i].span, owned("first here")).at(
                            span,
                            owned("and again here"),
                        ),
                    );
                    assert(issues@ =~= start + allow_spec(*node, views(classes@), done@.map_values(|e: VerifyException| exception_view(e)), src.name@).1);
                    None
                },
                None => {
                    assert(issues@ =~= start + Seq::<IssueV>::empty());
                    Some(VerifyException { class: owned(class), unit: owned(unit), span })
                },
            }
        },
        (class, _) => {
            let missing = if class.is_none() {
                "a diagnostic class"
            } else {
                "unit=, the unit it applies to"
            };
            issues.push(
                Issue::new(cat("`allow-verify` needs ", missing), src).at(span, owned("incomplete")).help(
                    owned(
                        "`allow-verify \"man-page-missing\" unit=\"plasmalogin.service\"`, which accepts one diagnostic on one unit rather than image-wide",
                    ),
                ),
            );
            assert(issues@ =~= start + allow_spec(*node, views(classes@), done@.map_values(|e: VerifyException| exception_view(e)), src.name@).1);
            None
        },
    }
}

/// The span of the first `satisfies` node among a document's, which is what
/// a claim written by hand or by a picker replaces.
pub open spec fn satisfies_at(nodes: Seq<KNode>) -> Option<Span> {
    match crate::text::position(node_names(nodes), "satisfies"@) {
        Some(i) => Some(nodes[i].span),
        None => None,
    }
}

/// Where a manifest's `satisfies` block is; nothing where it declares none,
/// or does not parse.
pub fn satisfies_span(kdl: &str) -> (r: Option<Span>)
    ensures
        r == (match kdl_document(kdl@) {
            Ok(nodes) => satisfies_at(nodes),
            Err(_) => None,
        }),
{
    let nodes = match parse_kdl(kdl) {
        Ok(n) => n,
        Err(_) => return None,
    };
    satisfies_in(&nodes)
}

/// Where the first `satisfies` block among parsed nodes is.
pub fn satisfies_in(nodes: &Vec<KNode>) -> (r: Option<Span>)
    ensures
        r == satisfies_at(nodes@),
{
    let mut i: usize = 0;
    while i < nodes.len()
        invariant
            i <= nodes@.len(),
            forall|j: int| 0 <= j < i ==> node_names(nodes@)[j] != "satisfies"@,
        decreases nodes@.len() - i,
    {
        if same(nodes[i].name.as_str(), "satisfies") {
            proof {
                crate::text::lemma_position(node_names(nodes@), "satisfies"@, i as int);
            }
            return Some(nodes[i].span);
        }
        i = i + 1;
    }
    proof {
        crate::text::lemma_position(node_names(nodes@), "satisfies"@, i as int);
    }
    None
}


/// What a manifest says about itself, read without resolving it: what
/// anything asking about a module no image has loaded goes on. Nothing where
/// it does not parse.
pub struct Summary {
    pub description: String,
    /// Everything it declares as available to another module: `provides`,
    /// `provides-file`, and the public half of every key it declares.
    pub provides: Vec<String>,
    pub supports: Vec<String>,
    /// What it `requires`.
    pub required: Vec<String>,
    /// The key kinds it declares, which is what an absent one is traced back
    /// to this module by.
    pub keys: Vec<String>,
    /// The build args its layer reads.
    pub args: Vec<String>,
    /// Every benchmark number it claims, over all the benchmarks it names.
    pub satisfies: Vec<String>,
}

/// A summary as plain values, in field order.
pub struct SummaryV {
    pub description: Seq<char>,
    pub provides: Seq<Seq<char>>,
    pub supports: Seq<Seq<char>>,
    pub required: Seq<Seq<char>>,
    pub keys: Seq<Seq<char>>,
    pub args: Seq<Seq<char>>,
    pub satisfies: Seq<Seq<char>>,
}

pub open spec fn summary_view(s: Summary) -> SummaryV {
    SummaryV {
        description: s.description@,
        provides: views(s.provides@),
        supports: views(s.supports@),
        required: views(s.required@),
        keys: views(s.keys@),
        args: views(s.args@),
        satisfies: views(s.satisfies@),
    }
}

/// Every string value among `es`, arguments and properties alike.
pub open spec fn entry_strings(es: Seq<KEntry>) -> Seq<Seq<char>>
    decreases es.len(),
{
    if es.len() == 0 {
        Seq::empty()
    } else {
        entry_strings(es.drop_last()) + match as_string(es.last().value) {
            Some(v) => seq![v],
            None => Seq::empty(),
        }
    }
}

/// Every string argument among `es`.
pub open spec fn arg_strings(es: Seq<KEntry>) -> Seq<Seq<char>>
    decreases es.len(),
{
    if es.len() == 0 {
        Seq::empty()
    } else {
        arg_strings(es.drop_last()) + if es.last().name is None {
            match as_string(es.last().value) {
                Some(v) => seq![v],
                None => Seq::empty(),
            }
        } else {
            Seq::empty()
        }
    }
}

/// Every string value of every node named `name`.
pub open spec fn strings_of(nodes: Seq<KNode>, name: Seq<char>) -> Seq<Seq<char>>
    decreases nodes.len(),
{
    if nodes.len() == 0 {
        Seq::empty()
    } else {
        strings_of(nodes.drop_last(), name) + if nodes.last().name@ == name {
            entry_strings(nodes.last().entries@)
        } else {
            Seq::empty()
        }
    }
}

/// What a `key` block names as its public half: the first value of its
/// first `public` child.
pub open spec fn public_of(n: KNode) -> Option<Seq<char>> {
    match n.children {
        Some(c) => match crate::text::position(node_names(c@), "public"@) {
            Some(i) => if c@[i].entries@.len() > 0 {
                as_string(c@[i].entries@[0].value)
            } else {
                None
            },
            None => None,
        },
        None => None,
    }
}

pub open spec fn publics(nodes: Seq<KNode>) -> Seq<Seq<char>>
    decreases nodes.len(),
{
    if nodes.len() == 0 {
        Seq::empty()
    } else {
        publics(nodes.drop_last()) + if nodes.last().name@ == "key"@ && public_of(nodes.last()) is Some {
            seq![public_of(nodes.last())->0]
        } else {
            Seq::empty()
        }
    }
}

/// Every string argument of every child of `nodes`.
pub open spec fn child_args(kids: Seq<KNode>) -> Seq<Seq<char>>
    decreases kids.len(),
{
    if kids.len() == 0 {
        Seq::empty()
    } else {
        child_args(kids.drop_last()) + arg_strings(kids.last().entries@)
    }
}

/// Every number claimed under every `satisfies` block.
pub open spec fn claimed(nodes: Seq<KNode>) -> Seq<Seq<char>>
    decreases nodes.len(),
{
    if nodes.len() == 0 {
        Seq::empty()
    } else {
        claimed(nodes.drop_last()) + if nodes.last().name@ == "satisfies"@ && nodes.last().children is Some {
            child_args(nodes.last().children->0@)
        } else {
            Seq::empty()
        }
    }
}

pub open spec fn summary_spec(nodes: Seq<KNode>) -> SummaryV {
    SummaryV {
        description: join_spec(strings_of(nodes, "description"@), " "@),
        provides: strings_of(nodes, "provides"@) + strings_of(nodes, "provides-file"@) + publics(nodes),
        supports: strings_of(nodes, "supports"@),
        required: strings_of(nodes, "requires"@),
        keys: strings_of(nodes, "key"@),
        args: strings_of(nodes, "arg"@),
        satisfies: claimed(nodes),
    }
}

fn push_entry_strings(out: &mut Vec<String>, es: &Vec<KEntry>, args_only: bool)
    ensures
        views(final(out)@) == views(old(out)@) + if args_only {
            arg_strings(es@)
        } else {
            entry_strings(es@)
        },
{
    let ghost start = views(out@);
    let mut i: usize = 0;
    while i < es.len()
        invariant
            i <= es@.len(),
            views(out@) == start + if args_only {
                arg_strings(es@.take(i as int))
            } else {
                entry_strings(es@.take(i as int))
            },
        decreases es@.len() - i,
    {
        let ghost before = views(out@);
        assert(es@.take(i as int + 1).drop_last() =~= es@.take(i as int));
        assert(es@.take(i as int + 1).last() == es@[i as int]);
        if !args_only || es[i].name.is_none() {
            match &es[i].value {
                KValue::String(v) => {
                    out.push(v.clone());
                    assert(views(out@) =~= before.push(v@));
                },
                _ => {},
            }
        }
        proof {
            if args_only {
                assert(views(out@) =~= start + arg_strings(es@.take(i as int + 1)));
            } else {
                assert(views(out@) =~= start + entry_strings(es@.take(i as int + 1)));
            }
        }
        i = i + 1;
    }
    assert(es@.take(i as int) =~= es@);
}

fn strings_named(nodes: &Vec<KNode>, name: &str, out: &mut Vec<String>)
    ensures
        views(final(out)@) == views(old(out)@) + strings_of(nodes@, name@),
{
    let ghost start = views(out@);
    let mut i: usize = 0;
    while i < nodes.len()
        invariant
            i <= nodes@.len(),
            views(out@) == start + strings_of(nodes@.take(i as int), name@),
        decreases nodes@.len() - i,
    {
        assert(nodes@.take(i as int + 1).drop_last() =~= nodes@.take(i as int));
        assert(nodes@.take(i as int + 1).last() == nodes@[i as int]);
        let ghost before = views(out@);
        if same(nodes[i].name.as_str(), name) {
            push_entry_strings(out, &nodes[i].entries, false);
        }
        assert(views(out@) =~= start + strings_of(nodes@.take(i as int + 1), name@));
        i = i + 1;
    }
    assert(nodes@.take(i as int) =~= nodes@);
}

fn public_half(n: &KNode) -> (r: Option<String>)
    ensures
        match public_of(*n) {
            Some(p) => r matches Some(x) && x@ == p,
            None => r is None,
        },
{
    let c = match &n.children {
        Some(c) => c,
        None => return None,
    };
    let mut i: usize = 0;
    while i < c.len()
        invariant
            n.children == Some(*c),
            i <= c@.len(),
            forall|j: int| 0 <= j < i ==> node_names(c@)[j] != "public"@,
        decreases c@.len() - i,
    {
        if same(c[i].name.as_str(), "public") {
            proof {
                crate::text::lemma_position(node_names(c@), "public"@, i as int);
            }
            if c[i].entries.len() == 0 {
                return None;
            }
            return match &c[i].entries[0].value {
                KValue::String(v) => Some(v.clone()),
                _ => None,
            };
        }
        i = i + 1;
    }
    proof {
        crate::text::lemma_position(node_names(c@), "public"@, i as int);
    }
    None
}

/// What a manifest says about itself, from what its module.kdl holds:
/// nothing where it could not be read or does not parse.
pub fn summary(text: Option<&str>) -> (r: Summary)
    ensures
        match text {
            Some(t) => match kdl_document(t@) {
                Ok(nodes) => summary_view(r) == summary_spec(nodes),
                Err(_) => summary_view(r) == summary_spec(Seq::empty()),
            },
            None => summary_view(r) == summary_spec(Seq::empty()),
        },
{
    let empty: Vec<KNode> = Vec::new();
    let parsed = match text {
        Some(t) => match parse_kdl(t) {
            Ok(n) => Some(n),
            Err(_) => None,
        },
        None => None,
    };
    proof {
        assert(empty@ =~= Seq::<KNode>::empty());
    }
    match &parsed {
        Some(n) => summary_of(n),
        None => summary_of(&empty),
    }
}

/// What a parsed manifest says about itself.
pub fn summary_of(nodes: &Vec<KNode>) -> (r: Summary)
    ensures
        summary_view(r) == summary_spec(nodes@),
{
    let mut description: Vec<String> = Vec::new();
    strings_named(nodes, "description", &mut description);
    let mut provides: Vec<String> = Vec::new();
    strings_named(nodes, "provides", &mut provides);
    strings_named(nodes, "provides-file", &mut provides);
    let ghost head = views(provides@);
    let mut i: usize = 0;
    while i < nodes.len()
        invariant
            i <= nodes@.len(),
            views(provides@) == head + publics(nodes@.take(i as int)),
        decreases nodes@.len() - i,
    {
        assert(nodes@.take(i as int + 1).drop_last() =~= nodes@.take(i as int));
        assert(nodes@.take(i as int + 1).last() == nodes@[i as int]);
        let ghost before = views(provides@);
        if same(nodes[i].name.as_str(), "key") {
            match public_half(&nodes[i]) {
                Some(p) => {
                    provides.push(p);
                    assert(views(provides@) =~= before.push(public_of(nodes@[i as int])->0));
                },
                None => {},
            }
        }
        assert(views(provides@) =~= head + publics(nodes@.take(i as int + 1)));
        i = i + 1;
    }
    assert(nodes@.take(i as int) =~= nodes@);
    let mut supports: Vec<String> = Vec::new();
    strings_named(nodes, "supports", &mut supports);
    let mut required: Vec<String> = Vec::new();
    strings_named(nodes, "requires", &mut required);
    let mut keys: Vec<String> = Vec::new();
    strings_named(nodes, "key", &mut keys);
    let mut args: Vec<String> = Vec::new();
    strings_named(nodes, "arg", &mut args);
    let mut satisfies: Vec<String> = Vec::new();
    let mut k: usize = 0;
    while k < nodes.len()
        invariant
            k <= nodes@.len(),
            views(satisfies@) == claimed(nodes@.take(k as int)),
        decreases nodes@.len() - k,
    {
        assert(nodes@.take(k as int + 1).drop_last() =~= nodes@.take(k as int));
        assert(nodes@.take(k as int + 1).last() == nodes@[k as int]);
        let ghost before = views(satisfies@);
        if same(nodes[k].name.as_str(), "satisfies") {
            match &nodes[k].children {
                Some(c) => {
                    let mut j: usize = 0;
                    while j < c.len()
                        invariant
                            j <= c@.len(),
                            views(satisfies@) == before + child_args(c@.take(j as int)),
                        decreases c@.len() - j,
                    {
                        assert(c@.take(j as int + 1).drop_last() =~= c@.take(j as int));
                        assert(c@.take(j as int + 1).last() == c@[j as int]);
                        push_entry_strings(&mut satisfies, &c[j].entries, true);
                        assert(views(satisfies@) =~= before + child_args(c@.take(j as int + 1)));
                        j = j + 1;
                    }
                    assert(c@.take(j as int) =~= c@);
                },
                None => {},
            }
        }
        assert(views(satisfies@) =~= claimed(nodes@.take(k as int + 1)));
        k = k + 1;
    }
    assert(nodes@.take(k as int) =~= nodes@);
    Summary { description: join(&description, " "), provides, supports, required, keys, args, satisfies }
}


/// The families a module can keep a directory of its own for.
pub fn families() -> (r: Vec<&'static str>)
    ensures
        r@.len() == 3,
        forall|i: int| 0 <= i < 3 ==> is_family(#[trigger] r@[i]@),
        forall|f: Seq<char>| is_family(f) ==> exists|i: int| 0 <= i < 3 && #[trigger] r@[i]@ == f,
{
    let r = vec!["fedora", "debian", "ubuntu"];
    proof {
        assert forall|f: Seq<char>| is_family(f) implies exists|i: int| 0 <= i < 3 && #[trigger] r@[i]@ == f by {
            if f == "fedora"@ {
                assert(r@[0]@ == f);
            } else if f == "debian"@ {
                assert(r@[1]@ == f);
            } else {
                assert(r@[2]@ == f);
            }
        }
    }
    r
}

} // verus!
