//! `asset`, the pinned upstream payload a module fetches.

use crate::diag::{at_v, bare, help_v, Issue, IssueV, Issues, Source, Span};
use crate::model::asset::Asset;
use crate::parse::kdl::KNode;
use crate::parse::{child, child_spec, string_arg, string_arg_spec};
use crate::provenance::Evidence;
use crate::text::{cat3, digit, lower, owned, chars_of, is_digit, is_lower};
use vstd::prelude::*;

verus! {

/// Lowercase letters, digits and dashes, with at least one of them.
pub open spec fn asset_name_ok(name: Seq<char>) -> bool {
    name.len() > 0 && forall|i: int| 0 <= i < name.len() ==> (is_lower(#[trigger] name[i]) || is_digit(name[i]) || name[i] == '-')
}

fn asset_name(name: &str) -> (r: bool)
    ensures
        r == asset_name_ok(name@),
{
    let cs = chars_of(name);
    if cs.len() == 0 {
        return false;
    }
    let mut i: usize = 0;
    while i < cs.len()
        invariant
            cs@ == name@,
            i <= cs@.len(),
            forall|j: int| 0 <= j < i ==> (is_lower(#[trigger] name@[j]) || is_digit(name@[j]) || name@[j] == '-'),
        decreases cs@.len() - i,
    {
        let c = cs[i];
        if !(lower(c) || digit(c) || c == '-') {
            return false;
        }
        i = i + 1;
    }
    true
}

pub open spec fn asset_name_issue(name: Seq<char>, span: Span, source: Seq<char>) -> IssueV {
    help_v(
        at_v(bare("invalid asset name `"@ + name + "`"@, source), span, "lowercase, digits and dashes only"@),
        "the name becomes an env var, uppercased with dashes as underscores and prefixed ASSET_"@,
    )
}

/// The first string argument of the child by that name.
pub open spec fn field_spec(n: KNode, name: Seq<char>) -> Option<Seq<char>> {
    match child_spec(n, name) {
        Some(c) => string_arg_spec(c),
        None => None,
    }
}

pub open spec fn opt_str(o: Option<String>) -> Option<Seq<char>> {
    match o {
        Some(s) => Some(s@),
        None => None,
    }
}

/// A pin as plain values: url, version, sha256, path, why it is unpinned,
/// and where it was declared.
pub type PinV = (Option<Seq<char>>, Option<Seq<char>>, Option<Seq<char>>, Option<Seq<char>>, Option<Seq<char>>, Span);

pub open spec fn pin_view(e: Evidence) -> PinV {
    (opt_str(e.url), opt_str(e.version), opt_str(e.sha256), opt_str(e.path), opt_str(e.unpinned), e.span)
}

/// What a `pin { url "..."; version "..."; sha256 "..." }` block says, each
/// field read as its child's first string argument.
pub open spec fn pin_spec(pin: KNode) -> PinV {
    (
        field_spec(pin, "url"@),
        field_spec(pin, "version"@),
        field_spec(pin, "sha256"@),
        field_spec(pin, "path"@),
        field_spec(pin, "unpinned"@),
        pin.name_span,
    )
}

fn field(n: &KNode, name: &str) -> (r: Option<String>)
    ensures
        opt_str(r) == field_spec(*n, name@),
{
    match child(n, name) {
        Some(c) => match string_arg(c) {
            Some(s) => Some(owned(s)),
            None => None,
        },
        None => None,
    }
}

/// The fields of a `pin` block.
pub fn read_pin(pin: &KNode) -> (r: Evidence)
    ensures
        pin_view(r) == pin_spec(*pin),
{
    Evidence {
        url: field(pin, "url"),
        version: field(pin, "version"),
        sha256: field(pin, "sha256"),
        path: field(pin, "path"),
        unpinned: field(pin, "unpinned"),
        span: pin.name_span,
    }
}

pub type AssetV = (Seq<char>, PinV, Span);

pub open spec fn asset_view(a: Asset) -> AssetV {
    (a.name@, pin_view(a.pin), a.span)
}

/// What an `asset` node gives, and what it raises: a name that cannot be an
/// env word raises an issue and is kept all the same; no `pin` is a pin that
/// says nothing.
pub open spec fn asset_spec(node: KNode, source: Seq<char>) -> (Option<AssetV>, Seq<IssueV>) {
    let span = node.name_span;
    match string_arg_spec(node) {
        None => (None, Seq::empty()),
        Some(name) => {
            let raised = if asset_name_ok(name) {
                Seq::empty()
            } else {
                seq![asset_name_issue(name, span, source)]
            };
            let pin = match child_spec(node, "pin"@) {
                Some(p) => pin_spec(p),
                None => (None, None, None, None, None, span),
            };
            (Some((name, pin, span)), raised)
        },
    }
}

/// `asset "starship" { pin { version "1.26.0"; url "..."; sha256 "..." } }`
pub fn parse(node: &KNode, src: &Source, issues: &mut Issues) -> (r: Option<Asset>)
    ensures
        match asset_spec(*node, src.name@).0 {
            Some(a) => r matches Some(v) && asset_view(v) == a,
            None => r is None,
        },
        final(issues)@ == old(issues)@ + asset_spec(*node, src.name@).1,
{
    let ghost start = issues@;
    let span = node.name_span;
    let name = match string_arg(node) {
        Some(n) => n,
        None => {
            assert(issues@ =~= start + Seq::<IssueV>::empty());
            return None;
        },
    };
    if !asset_name(name) {
        issues.push(
            Issue::new(cat3("invalid asset name `", name, "`"), src).at(span, owned("lowercase, digits and dashes only")).help(
                owned("the name becomes an env var, uppercased with dashes as underscores and prefixed ASSET_"),
            ),
        );
    }
    assert(issues@ =~= start + asset_spec(*node, src.name@).1);
    let pin = match child(node, "pin") {
        Some(p) => read_pin(p),
        None => Evidence::new(span),
    };
    Some(Asset { name: owned(name), pin, span })
}

} // verus!
