//! `option` and `variant`, and the boundary the model's own value type is
//! converted at.

use crate::diag::{at_v, bare, help_v, Issue, IssueV, Issues, Source, Span};
use crate::model::options::{check_values, opt_type_of, value_refusals, Opt, OptType, Value, Variant};
use crate::parse::kdl::{KEntry, KNode, KValue};
use crate::parse::{child, child_spec, kids, kids_spec, prop, prop_spec, string_arg, string_arg_spec, str_view};
use crate::text::{cat3, digit, is_digit, is_lower, lower, owned, same};
use vstd::prelude::*;

verus! {

/// A KDL value as the model's own.
pub open spec fn value_spec(v: KValue) -> Value {
    match v {
        KValue::String(s) => Value::String(s),
        KValue::Integer(i) => Value::Integer(i),
        KValue::Float => Value::Float,
        KValue::Bool(b) => Value::Bool(b),
        KValue::Null => Value::Null,
    }
}

pub fn value_of(v: &KValue) -> (r: Value)
    ensures
        r == value_spec(*v),
{
    match v {
        KValue::String(s) => Value::String(s.clone()),
        KValue::Integer(i) => Value::Integer(*i),
        KValue::Float => Value::Float,
        KValue::Bool(b) => Value::Bool(*b),
        KValue::Null => Value::Null,
    }
}

/// The unnamed entries' values, in order.
pub open spec fn args_spec(entries: Seq<KEntry>) -> Seq<Value>
    decreases entries.len(),
{
    if entries.len() == 0 {
        Seq::empty()
    } else {
        let r = args_spec(entries.drop_last());
        if entries.last().name is None {
            r.push(value_spec(entries.last().value))
        } else {
            r
        }
    }
}

/// Every unnamed entry of a node, as model values.
pub fn args(node: &KNode) -> (r: Vec<Value>)
    ensures
        r@ == args_spec(node.entries@),
{
    let mut out: Vec<Value> = Vec::new();
    let mut i: usize = 0;
    while i < node.entries.len()
        invariant
            i <= node.entries@.len(),
            out@ == args_spec(node.entries@.take(i as int)),
        decreases node.entries@.len() - i,
    {
        assert(node.entries@.take(i as int + 1).drop_last() =~= node.entries@.take(i as int));
        assert(node.entries@.take(i as int + 1).last() == node.entries@[i as int]);
        if node.entries[i].name.is_none() {
            out.push(value_of(&node.entries[i].value));
        }
        i = i + 1;
    }
    assert(node.entries@.take(i as int) =~= node.entries@);
    out
}

/// Lowercase letters, digits and dashes, with at least one of them.
pub open spec fn option_name_ok(name: Seq<char>) -> bool {
    name.len() > 0 && forall|i: int| 0 <= i < name.len() ==> (is_lower(#[trigger] name[i]) || is_digit(name[i]) || name[i] == '-')
}

pub open spec fn name_issues(name: Seq<char>, span: Span, source: Seq<char>) -> Seq<IssueV> {
    let bad: Seq<IssueV> = if !option_name_ok(name) {
        seq![
            help_v(
                at_v(bare("invalid option name `"@ + name + "`"@, source), span, "lowercase, digits and dashes only"@),
                "the name becomes an env var, uppercased with dashes as underscores and prefixed OPT_"@,
            ),
        ]
    } else {
        Seq::empty()
    };
    let reserved: Seq<IssueV> = if name == "source"@ {
        seq![
            help_v(
                at_v(bare("`source` is not usable as an option name"@, source), span, "reserved"@),
                "a `source` child of a list entry is the out-of-tree module pin, so this option could never be set"@,
            ),
        ]
    } else {
        Seq::empty()
    };
    bad + reserved
}

/// What reading one `option` node gives: the option, where it is whole, and
/// what it raises.
pub open spec fn option_spec(node: KNode, source: Seq<char>) -> (Option<(Seq<char>, OptType, Seq<Value>)>, Seq<IssueV>) {
    let span = node.name_span;
    match string_arg_spec(node) {
        None => (None, Seq::empty()),
        Some(name) => {
            let named = name_issues(name, span, source);
            match prop_spec(node, "type"@) {
                None => (
                    None,
                    named.push(
                        help_v(
                            at_v(bare("option `"@ + name + "` declares no type"@, source), span, "type= is required"@),
                            "string, bool or list; an untyped option cannot be checked"@,
                        ),
                    ),
                ),
                Some(t) => match opt_type_of(t) {
                    None => (
                        None,
                        named.push(
                            help_v(
                                at_v(bare("unknown option type `"@ + t + "`"@, source), span, "not a type"@),
                                "string, bool or list"@,
                            ),
                        ),
                    ),
                    Some(ty) => match child_spec(node, "default"@) {
                        None => (
                            None,
                            named.push(
                                help_v(
                                    at_v(bare("option `"@ + name + "` declares no default"@, source), span, "every option needs one"@),
                                    "an option with no default is a required argument in disguise; express that as a `requires` instead"@,
                                ),
                            ),
                        ),
                        Some(d) => {
                            let default = args_spec(d.entries@);
                            (Some((name, ty, default)), named + value_refusals(name, ty, default, source, span))
                        },
                    },
                },
            }
        },
    }
}

fn name_ok(name: &str) -> (r: bool)
    ensures
        r == option_name_ok(name@),
{
    let cs = crate::text::chars_of(name);
    if cs.len() == 0 {
        return false;
    }
    let mut i: usize = 0;
    while i < cs.len()
        invariant
            cs@ == name@,
            i <= cs@.len(),
            forall|j: int| 0 <= j < i ==> (is_lower(#[trigger] name@[j]) || is_digit(name@[j]) || name@[j] == '-'),
        decreases cs@.len() - i,
    {
        let c = cs[i];
        if !(lower(c) || digit(c) || c == '-') {
            return false;
        }
        i = i + 1;
    }
    true
}

/// Raises what `name_issues` says of an option's name.
fn name_checks(name: &str, span: Span, src: &Source, issues: &mut Issues)
    ensures
        final(issues)@ == old(issues)@ + name_issues(name@, span, src.name@),
{
    let ghost start = issues@;
    if !name_ok(name) {
        issues.push(
            Issue::new(cat3("invalid option name `", name, "`"), src).at(span, owned("lowercase, digits and dashes only")).help(
                owned("the name becomes an env var, uppercased with dashes as underscores and prefixed OPT_"),
            ),
        );
    }
    if same(name, "source") {
        issues.push(
            Issue::new(owned("`source` is not usable as an option name"), src).at(span, owned("reserved")).help(
                owned("a `source` child of a list entry is the out-of-tree module pin, so this option could never be set"),
            ),
        );
    }
    assert(issues@ =~= start + name_issues(name@, span, src.name@));
}

/// `option "fonts" type="list" { description "..."; default "A" "B" }`
#[verifier::rlimit(40)]
pub fn parse_option(node: &KNode, src: &Source, issues: &mut Issues) -> (r: Option<Opt>)
    ensures
        match option_spec(*node, src.name@).0 {
            Some((name, ty, default)) => r matches Some(o) && o.name@ == name && o.ty == ty && o.default@ == default
                && o.span == node.name_span,
            None => r is None,
        },
        final(issues)@ == old(issues)@ + option_spec(*node, src.name@).1,
{
    let ghost start = issues@;
    let span = node.name_span;
    let name = match string_arg(node) {
        Some(n) => owned(n),
        None => {
            assert(issues@ =~= start + Seq::<IssueV>::empty());
            return None;
        },
    };
    name_checks(name.as_str(), span, src, issues);
    assert(issues@ =~= start + name_issues(name@, span, src.name@));
    let ghost named = issues@;
    let ty = match prop(node, "type") {
        Some(t) => match OptType::parse(t) {
            Some(ty) => ty,
            None => {
                issues.push(
                    Issue::new(cat3("unknown option type `", t, "`"), src).at(span, owned("not a type")).help(owned("string, bool or list")),
                );
                return None;
            },
        },
        None => {
            issues.push(
                Issue::new(cat3("option `", name.as_str(), "` declares no type"), src).at(span, owned("type= is required")).help(
                    owned("string, bool or list; an untyped option cannot be checked"),
                ),
            );
            return None;
        },
    };
    let default = match child(node, "default") {
        Some(d) => args(d),
        None => {
            issues.push(
                Issue::new(cat3("option `", name.as_str(), "` declares no default"), src).at(span, owned("every option needs one")).help(
                    owned("an option with no default is a required argument in disguise; express that as a `requires` instead"),
                ),
            );
            return None;
        },
    };
    check_values(name.as_str(), ty, default.as_slice(), src, span, issues);
    Some(Opt { name, ty, default, span })
}

/// The values one `set` child carries: the option it names, then the rest.
pub open spec fn set_spec(c: KNode) -> Option<(Seq<char>, Seq<Value>, Span)> {
    let values = args_spec(c.entries@);
    if values.len() > 0 && values[0] is String {
        Some((values[0]->String_0@, values.skip(1), c.name_span))
    } else {
        None
    }
}

/// Every `set` child that names an option, in order.
pub open spec fn sets_spec(kids: Seq<KNode>) -> Seq<(Seq<char>, Seq<Value>, Span)>
    decreases kids.len(),
{
    if kids.len() == 0 {
        Seq::empty()
    } else {
        let r = sets_spec(kids.drop_last());
        let c = kids.last();
        if c.name@ == "set"@ && set_spec(c) is Some {
            r.push(set_spec(c)->0)
        } else {
            r
        }
    }
}

pub open spec fn set_views(sets: Seq<(String, Vec<Value>, Span)>) -> Seq<(Seq<char>, Seq<Value>, Span)> {
    sets.map_values(|s: (String, Vec<Value>, Span)| (s.0@, s.1@, s.2))
}

/// `variant "wine-only" { description "..."; set "dotnet" #false }`
pub fn parse_variant(node: &KNode) -> (r: Option<Variant>)
    ensures
        match string_arg_spec(*node) {
            Some(name) => r matches Some(v) && v.name@ == name && set_views(v.sets@) == sets_spec(kids_spec(*node))
                && v.span == node.name_span,
            None => r is None,
        },
{
    let ks = kids(node);
    let mut sets: Vec<(String, Vec<Value>, Span)> = Vec::new();
    let mut i: usize = 0;
    while i < ks.len()
        invariant
            ks@ == kids_spec(*node),
            i <= ks@.len(),
            set_views(sets@) == sets_spec(ks@.take(i as int)),
        decreases ks@.len() - i,
    {
        assert(ks@.take(i as int + 1).drop_last() =~= ks@.take(i as int));
        assert(ks@.take(i as int + 1).last() == ks@[i as int]);
        let c = &ks[i];
        if same(c.name.as_str(), "set") {
            let values = args(c);
            if values.len() > 0 {
                if let Value::String(opt) = &values[0] {
                    let mut rest: Vec<Value> = Vec::new();
                    let mut k: usize = 1;
                    while k < values.len()
                        invariant
                            1 <= k <= values@.len(),
                            rest@ == values@.subrange(1, k as int),
                        decreases values@.len() - k,
                    {
                        rest.push(values[k].copy());
                        assert(rest@ =~= values@.subrange(1, k as int + 1));
                        k = k + 1;
                    }
                    assert(rest@ =~= values@.skip(1));
                    let ghost prior = sets@;
                    let made = (opt.clone(), rest, c.name_span);
                    sets.push(made);
                    assert(set_views(sets@) =~= set_views(prior).push((made.0@, made.1@, made.2)));
                }
            }
        }
        i = i + 1;
    }
    assert(ks@.take(i as int) =~= ks@);
    match string_arg(node) {
        Some(name) => Some(Variant { name: owned(name), sets, span: node.name_span }),
        None => None,
    }
}

} // verus!
