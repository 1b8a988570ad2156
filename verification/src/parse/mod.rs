//! The readers: each file of the repository, from the nodes of its KDL
//! document to the model. The small reads every reader makes of a node live
//! here.

pub mod asset;
pub mod disk;
pub mod image;
pub mod kdl;
pub mod list;
pub mod manifest;
pub mod module;
pub mod options;
pub mod remote;
pub mod repo;
pub mod schema;

use crate::diag::{at_v, bare, help_v, Issue, IssueV, Issues, Source, Span};
use crate::model::image::{is_name, is_name_spec};
use crate::parse::kdl::{KEntry, KNode, KProblem, KSyntax, KValue};
use crate::text::{cat, cat3, first_true, hex, is_hex, is_upper, lemma_first_true, owned, same, starts_with, upper};
use vstd::prelude::*;

verus! {

/// Which entries are arguments rather than properties.
pub open spec fn unnamed(entries: Seq<KEntry>) -> Seq<bool> {
    entries.map_values(|e: KEntry| e.name is None)
}

/// Which entries are the property `key`.
pub open spec fn named(entries: Seq<KEntry>, key: Seq<char>) -> Seq<bool> {
    entries.map_values(|e: KEntry| e.name is Some && e.name->0@ == key)
}

pub open spec fn as_string(v: KValue) -> Option<Seq<char>> {
    match v {
        KValue::String(s) => Some(s@),
        _ => None,
    }
}

pub open spec fn as_bool(v: KValue) -> Option<bool> {
    match v {
        KValue::Bool(b) => Some(b),
        _ => None,
    }
}

pub open spec fn as_integer(v: KValue) -> Option<i128> {
    match v {
        KValue::Integer(i) => Some(i),
        _ => None,
    }
}

/// The value of the first entry `marks` picks.
pub open spec fn first_value(entries: Seq<KEntry>, marks: Seq<bool>) -> Option<KValue> {
    match first_true(marks) {
        Some(i) => Some(entries[i].value),
        None => None,
    }
}

pub open spec fn string_arg_spec(n: KNode) -> Option<Seq<char>> {
    match first_value(n.entries@, unnamed(n.entries@)) {
        Some(v) => as_string(v),
        None => None,
    }
}

pub open spec fn prop_spec(n: KNode, key: Seq<char>) -> Option<Seq<char>> {
    match first_value(n.entries@, named(n.entries@, key)) {
        Some(v) => as_string(v),
        None => None,
    }
}

pub open spec fn str_view(o: Option<&str>) -> Option<Seq<char>> {
    match o {
        Some(s) => Some(s@),
        None => None,
    }
}

/// The first entry `marks` picks.
fn first_marked(entries: &Vec<KEntry>, key: Option<&str>) -> (r: Option<usize>)
    ensures
        match first_true(
            match key {
                Some(k) => named(entries@, k@),
                None => unnamed(entries@),
            },
        ) {
            Some(i) => r matches Some(j) && j as int == i && j < entries@.len(),
            None => r is None,
        },
{
    let ghost marks = match key {
        Some(k) => named(entries@, k@),
        None => unnamed(entries@),
    };
    let mut i: usize = 0;
    while i < entries.len()
        invariant
            i <= entries@.len(),
            marks == (match key {
                Some(k) => named(entries@, k@),
                None => unnamed(entries@),
            }),
            marks.len() == entries@.len(),
            forall|j: int| 0 <= j < i ==> !marks[j],
        decreases entries@.len() - i,
    {
        let e = &entries[i];
        let hit = match key {
            Some(k) => match &e.name {
                Some(n) => same(n.as_str(), k),
                None => false,
            },
            None => e.name.is_none(),
        };
        assert(marks[i as int] == hit);
        if hit {
            proof {
                lemma_first_true(marks, i as int);
            }
            return Some(i);
        }
        i = i + 1;
    }
    proof {
        lemma_first_true(marks, i as int);
    }
    None
}

/// The first unnamed entry of a node, as a string.
pub fn string_arg(node: &KNode) -> (r: Option<&str>)
    ensures
        str_view(r) == string_arg_spec(*node),
{
    match first_marked(&node.entries, None) {
        Some(i) => match &node.entries[i].value {
            KValue::String(s) => Some(s.as_str()),
            _ => None,
        },
        None => None,
    }
}

/// The first unnamed entry of a node, as a boolean.
pub fn bool_arg(node: &KNode) -> (r: Option<bool>)
    ensures
        r == (match first_value(node.entries@, unnamed(node.entries@)) {
            Some(v) => as_bool(v),
            None => None,
        }),
{
    match first_marked(&node.entries, None) {
        Some(i) => match &node.entries[i].value {
            KValue::Bool(b) => Some(*b),
            _ => None,
        },
        None => None,
    }
}

/// The first unnamed entry of a node, as an integer.
pub fn int_arg(node: &KNode) -> (r: Option<i128>)
    ensures
        r == (match first_value(node.entries@, unnamed(node.entries@)) {
            Some(v) => as_integer(v),
            None => None,
        }),
{
    match first_marked(&node.entries, None) {
        Some(i) => match &node.entries[i].value {
            KValue::Integer(v) => Some(*v),
            _ => None,
        },
        None => None,
    }
}

/// The string values among the unnamed entries, in order.
pub open spec fn string_args_spec(entries: Seq<KEntry>) -> Seq<Seq<char>>
    decreases entries.len(),
{
    if entries.len() == 0 {
        Seq::empty()
    } else {
        let r = string_args_spec(entries.drop_last());
        let e = entries.last();
        if e.name is None && as_string(e.value) is Some {
            r.push(as_string(e.value)->0)
        } else {
            r
        }
    }
}

/// Every unnamed entry of a node, as strings, so `provides "a" "b"` reads as
/// the list it looks like.
pub fn string_args(node: &KNode) -> (r: Vec<&str>)
    ensures
        r@.map_values(|s: &str| s@) == string_args_spec(node.entries@),
{
    let mut out: Vec<&str> = Vec::new();
    let mut i: usize = 0;
    while i < node.entries.len()
        invariant
            i <= node.entries@.len(),
            out@.map_values(|s: &str| s@) == string_args_spec(node.entries@.take(i as int)),
        decreases node.entries@.len() - i,
    {
        assert(node.entries@.take(i as int + 1).drop_last() =~= node.entries@.take(i as int));
        assert(node.entries@.take(i as int + 1).last() == node.entries@[i as int]);
        let e = &node.entries[i];
        if e.name.is_none() {
            if let KValue::String(s) = &e.value {
                let ghost prior = out@;
                out.push(s.as_str());
                assert(out@.map_values(|s: &str| s@) =~= prior.map_values(|s: &str| s@).push(s@));
            }
        }
        i = i + 1;
    }
    assert(node.entries@.take(i as int) =~= node.entries@);
    out
}

/// A named entry of a node, as a string.
pub fn prop<'a>(node: &'a KNode, key: &str) -> (r: Option<&'a str>)
    ensures
        str_view(r) == prop_spec(*node, key@),
{
    match first_marked(&node.entries, Some(key)) {
        Some(i) => match &node.entries[i].value {
            KValue::String(s) => Some(s.as_str()),
            _ => None,
        },
        None => None,
    }
}

/// A named entry of a node, as an integer.
pub fn int_prop(node: &KNode, key: &str) -> (r: Option<i128>)
    ensures
        r == (match first_value(node.entries@, named(node.entries@, key@)) {
            Some(v) => as_integer(v),
            None => None,
        }),
{
    match first_marked(&node.entries, Some(key)) {
        Some(i) => match &node.entries[i].value {
            KValue::Integer(v) => Some(*v),
            _ => None,
        },
        None => None,
    }
}

pub open spec fn boolean_spec(n: KNode, key: Seq<char>) -> Option<bool> {
    match first_value(n.entries@, named(n.entries@, key)) {
        Some(v) => as_bool(v),
        None => None,
    }
}

/// A named entry of a node, as a boolean.
pub fn boolean(node: &KNode, key: &str) -> (r: Option<bool>)
    ensures
        r == boolean_spec(*node, key@),
{
    match first_marked(&node.entries, Some(key)) {
        Some(i) => match &node.entries[i].value {
            KValue::Bool(b) => Some(*b),
            _ => None,
        },
        None => None,
    }
}

/// A named entry of a node, as a boolean, defaulting to off.
pub fn flag(node: &KNode, key: &str) -> (r: bool)
    ensures
        r == (boolean_spec(*node, key@) == Some(true)),
{
    match boolean(node, key) {
        Some(b) => b,
        None => false,
    }
}

/// Where a named entry sits, for a diagnostic about the property itself.
pub fn prop_span(node: &KNode, key: &str) -> (r: Option<Span>)
    ensures
        r == (match first_true(named(node.entries@, key@)) {
            Some(i) => Some(node.entries@[i].span),
            None => None,
        }),
{
    match first_marked(&node.entries, Some(key)) {
        Some(i) => Some(node.entries[i].span),
        None => None,
    }
}

/// A node's children, none where it has no block.
pub open spec fn kids_spec(n: KNode) -> Seq<KNode> {
    match n.children {
        Some(c) => c@,
        None => Seq::empty(),
    }
}

pub fn kids(node: &KNode) -> (r: &[KNode])
    ensures
        r@ == kids_spec(*node),
{
    match &node.children {
        Some(c) => c.as_slice(),
        None => &[],
    }
}

pub open spec fn node_names(nodes: Seq<KNode>) -> Seq<Seq<char>> {
    nodes.map_values(|n: KNode| n.name@)
}

/// The first child by that name.
pub open spec fn child_spec(n: KNode, name: Seq<char>) -> Option<KNode> {
    match crate::text::position(node_names(kids_spec(n)), name) {
        Some(i) => Some(kids_spec(n)[i]),
        None => None,
    }
}

/// The first child node by that name.
pub fn child<'a>(node: &'a KNode, name: &str) -> (r: Option<&'a KNode>)
    ensures
        match child_spec(*node, name@) {
            Some(c) => r == Some(&c),
            None => r is None,
        },
{
    let ks = kids(node);
    let mut i: usize = 0;
    while i < ks.len()
        invariant
            ks@ == kids_spec(*node),
            i <= ks@.len(),
            forall|j: int| 0 <= j < i ==> node_names(ks@)[j] != name@,
        decreases ks@.len() - i,
    {
        assert(node_names(ks@)[i as int] == ks@[i as int].name@);
        if same(ks[i].name.as_str(), name) {
            proof {
                crate::text::lemma_position(node_names(ks@), name@, i as int);
            }
            return Some(&ks[i]);
        }
        i = i + 1;
    }
    proof {
        crate::text::lemma_position(node_names(ks@), name@, i as int);
    }
    None
}

/// The string argument of the first child by that name, empty when it has
/// none.
#[verifier::opaque]
pub open spec fn text_spec(n: KNode, name: Seq<char>) -> Seq<char> {
    match child_spec(n, name) {
        Some(c) => match string_arg_spec(c) {
            Some(s) => s,
            None => Seq::empty(),
        },
        None => Seq::empty(),
    }
}

pub fn text(node: &KNode, name: &str) -> (r: String)
    ensures
        r@ == text_spec(*node, name@),
{
    reveal(text_spec);
    match child(node, name) {
        Some(c) => match string_arg(c) {
            Some(s) => owned(s),
            None => String::new(),
        },
        None => String::new(),
    }
}

pub open spec fn capability_issue(name: Seq<char>, span: Span, source: Seq<char>) -> IssueV {
    help_v(
        at_v(bare("invalid capability name `"@ + name + "`"@, source), span, "lowercase, digits and dashes, starting with a letter"@),
        "the name is written into the generated graph as a mermaid label and a markdown table cell, neither of which quotes anything"@,
    )
}

/// A capability name reaches the generated graph verbatim, so it is held to
/// the charset every other derived name is.
pub fn check_capability(name: &str, span: Span, src: &Source, issues: &mut Issues)
    ensures
        is_name_spec(name@) ==> final(issues)@ == old(issues)@,
        !is_name_spec(name@) ==> final(issues)@ == old(issues)@.push(capability_issue(name@, span, src.name@)),
{
    if is_name(name) {
        return;
    }
    let message = cat3("invalid capability name `", name, "`");
    issues.push(
        Issue::new(message, src).at(span, owned("lowercase, digits and dashes, starting with a letter")).help(
            owned(
                "the name is written into the generated graph as a mermaid label and a markdown table cell, neither of which quotes anything",
            ),
        ),
    );
}

pub open spec fn path_issue(path: Seq<char>, span: Span, source: Seq<char>) -> IssueV {
    help_v(
        at_v(bare("`"@ + path + "` is not an absolute path"@, source), span, "`provides-file` takes absolute paths"@),
        "the path is checked on the finished image, where nothing has a working directory"@,
    )
}

/// A path a base guarantees is checked on the finished image, where nothing
/// has a working directory for a relative one to be read against.
pub fn check_path(path: &str, span: Span, src: &Source, issues: &mut Issues)
    ensures
        crate::text::is_prefix("/"@, path@) ==> final(issues)@ == old(issues)@,
        !crate::text::is_prefix("/"@, path@) ==> final(issues)@ == old(issues)@.push(path_issue(path@, span, src.name@)),
{
    if starts_with(path, "/") {
        return;
    }
    let message = cat3("`", path, "` is not an absolute path");
    issues.push(
        Issue::new(message, src).at(span, owned("`provides-file` takes absolute paths")).help(
            owned("the path is checked on the finished image, where nothing has a working directory"),
        ),
    );
}

/// Whether a sha256 is the right shape: 64 hex digits.
pub open spec fn sha256_shape(s: Seq<char>) -> bool {
    s.len() == 64 && forall|i: int| 0 <= i < s.len() ==> is_hex(#[trigger] s[i])
}

/// What a pin's sha256 raises: the wrong shape, else upper case.
pub open spec fn sha256_issues(s: Seq<char>, subject: Seq<char>, span: Span, source: Seq<char>) -> Seq<IssueV> {
    if !sha256_shape(s) {
        seq![
            help_v(
                at_v(bare(subject + " has a malformed sha256"@, source), span, "not 64 hex digits"@),
                "sha256sum output, lowercase"@,
            ),
        ]
    } else if exists|i: int| 0 <= i < s.len() && is_upper(#[trigger] s[i]) {
        seq![
            help_v(
                at_v(bare(subject + " has an uppercase sha256"@, source), span, "lowercase, as sha256sum writes it"@),
                "the checksum workflow rewrites this line by matching the pinned value, so its case has to be the one sha256sum produces"@,
            ),
        ]
    } else {
        Seq::empty()
    }
}

/// The two ways a pin's sha256 is the wrong shape. `subject` is what the
/// message names it by, the pin having no name of its own.
pub fn check_sha256(sha256: &str, subject: &str, span: Span, src: &Source, issues: &mut Issues)
    ensures
        final(issues)@ == old(issues)@ + sha256_issues(sha256@, subject@, span, src.name@),
{
    let cs = crate::text::chars_of(sha256);
    let mut all_hex = true;
    let mut any_upper = false;
    let mut i: usize = 0;
    while i < cs.len()
        invariant
            cs@ == sha256@,
            i <= cs@.len(),
            all_hex == forall|j: int| 0 <= j < i ==> is_hex(#[trigger] sha256@[j]),
            any_upper == exists|j: int| 0 <= j < i && is_upper(#[trigger] sha256@[j]),
        decreases cs@.len() - i,
    {
        if !hex(cs[i]) {
            all_hex = false;
        }
        if upper(cs[i]) {
            any_upper = true;
        }
        proof {
            if any_upper {
                if !(exists|j: int| 0 <= j < i && is_upper(#[trigger] sha256@[j])) {
                    assert(is_upper(sha256@[i as int]));
                }
            }
        }
        i = i + 1;
    }
    let ghost before = issues@;
    if cs.len() != 64 || !all_hex {
        let message = cat(subject, " has a malformed sha256");
        issues.push(Issue::new(message, src).at(span, owned("not 64 hex digits")).help(owned("sha256sum output, lowercase")));
    } else if any_upper {
        let message = cat(subject, " has an uppercase sha256");
        issues.push(
            Issue::new(message, src).at(span, owned("lowercase, as sha256sum writes it")).help(
                owned(
                    "the checksum workflow rewrites this line by matching the pinned value, so its case has to be the one sha256sum produces",
                ),
            ),
        );
    }
    assert(issues@ =~= before + sha256_issues(sha256@, subject@, span, src.name@));
}

/// The issue a text that is not KDL is reported as: where the parser says,
/// with what it says.
pub open spec fn problem_label(p: KProblem) -> Seq<char> {
    match p.message {
        Some(m) => m@,
        None => match p.label {
            Some(l) => l@,
            None => "here"@,
        },
    }
}

pub open spec fn problem_help(ps: Seq<KProblem>) -> Option<Seq<char>> {
    match first_true(ps.map_values(|p: KProblem| p.help is Some)) {
        Some(i) => Some(ps[i].help->0@),
        None => None,
    }
}

pub open spec fn syntax_spec(ps: Seq<KProblem>, file: Seq<char>, source: Seq<char>) -> IssueV {
    IssueV {
        message: file + " is not valid KDL"@,
        source,
        labels: ps.map_values(|p: KProblem| (p.span, problem_label(p))),
        help: problem_help(ps),
    }
}

/// A syntax error as one issue, carrying what the parser found so it is
/// reported through the collector rather than beside it.
pub fn syntax_issue(err: &KSyntax, file: &str, src: &Source) -> (r: Issue)
    ensures
        r@ == syntax_spec(err.problems@, file@, src.name@),
{
    let mut issue = Issue::new(cat(file, " is not valid KDL"), src);
    let ghost ps = err.problems@;
    let mut i: usize = 0;
    assert(ps.take(0).map_values(|p: KProblem| (p.span, problem_label(p))) =~= Seq::<(Span, Seq<char>)>::empty());
    while i < err.problems.len()
        invariant
            ps == err.problems@,
            i <= ps.len(),
            issue@ == (IssueV {
                message: file@ + " is not valid KDL"@,
                source: src.name@,
                labels: ps.take(i as int).map_values(|p: KProblem| (p.span, problem_label(p))),
                help: None,
            }),
        decreases ps.len() - i,
    {
        let p = &err.problems[i];
        let label = match &p.message {
            Some(m) => m.clone(),
            None => match &p.label {
                Some(l) => l.clone(),
                None => owned("here"),
            },
        };
        issue = issue.at(p.span, label);
        assert(ps.take(i as int + 1).map_values(|p: KProblem| (p.span, problem_label(p))) =~= ps.take(i as int).map_values(
            |p: KProblem| (p.span, problem_label(p)),
        ).push((p.span, problem_label(*p))));
        i = i + 1;
    }
    assert(ps.take(i as int) =~= ps);
    let ghost marks = ps.map_values(|p: KProblem| p.help is Some);
    let mut k: usize = 0;
    while k < err.problems.len()
        invariant
            ps == err.problems@,
            marks == ps.map_values(|p: KProblem| p.help is Some),
            k <= ps.len(),
            issue@ == (IssueV {
                message: file@ + " is not valid KDL"@,
                source: src.name@,
                labels: ps.map_values(|p: KProblem| (p.span, problem_label(p))),
                help: None,
            }),
            forall|j: int| 0 <= j < k ==> !marks[j],
        decreases ps.len() - k,
    {
        assert(marks[k as int] == err.problems@[k as int].help is Some);
        if let Some(h) = &err.problems[k].help {
            proof {
                lemma_first_true(marks, k as int);
            }
            return issue.help(h.clone());
        }
        k = k + 1;
    }
    proof {
        lemma_first_true(marks, k as int);
    }
    issue
}

} // verus!
