//! Typed options: declared by the module, set by the image author, resolved
//! against both and passed to the layer as env.

use crate::diag::{at_v, bare, help_v, Issue, IssueV, Issues, Source, Span};
use crate::model::asset::pair_views;
use crate::model::image::{Entry, Image};
use crate::text::{
    cat, cat3, cat5, chars_of, contains_char, debug_quoted, has_char, is_ws, join, join_spec,
    lemma_position, owned, position, quoted, replace_char, swap_char, to_upper, upper_spec, views,
    ws,
};
use vstd::prelude::*;

verus! {

/// A declared value, owned by the model: `parse` is the only thing that sees
/// KDL's own value type. A float carries nothing, since nothing here reads
/// one: it is neither a string nor a boolean.
pub enum Value {
    String(String),
    Bool(bool),
    Integer(i128),
    Float,
    Null,
}

impl Value {
    pub fn as_string(&self) -> (r: Option<&str>)
        ensures
            r is Some <==> self is String,
            r matches Some(s) ==> self matches Value::String(t) && s@ == t@,
    {
        match self {
            Value::String(s) => Some(s.as_str()),
            _ => None,
        }
    }

    pub fn as_bool(&self) -> (r: Option<bool>)
        ensures
            r is Some <==> self is Bool,
            r matches Some(b) ==> self matches Value::Bool(c) && b == c,
    {
        match self {
            Value::Bool(b) => Some(*b),
            _ => None,
        }
    }

    /// The same value, owned again.
    pub fn copy(&self) -> (r: Value)
        ensures
            r == *self,
    {
        match self {
            Value::String(s) => Value::String(s.clone()),
            Value::Bool(b) => Value::Bool(*b),
            Value::Integer(i) => Value::Integer(*i),
            Value::Float => Value::Float,
            Value::Null => Value::Null,
        }
    }
}

/// Every value, owned again.
pub fn copy_values(values: &[Value]) -> (r: Vec<Value>)
    ensures
        r@ == values@,
{
    let mut out: Vec<Value> = Vec::new();
    let mut i: usize = 0;
    while i < values.len()
        invariant
            i <= values@.len(),
            out@ == values@.take(i as int),
        decreases values@.len() - i,
    {
        out.push(values[i].copy());
        assert(out@ =~= values@.take(i as int + 1));
        i = i + 1;
    }
    assert(values@.take(values@.len() as int) =~= values@);
    out
}

#[derive(Clone, Copy, PartialEq, Eq, Structural, Debug)]
pub enum OptType {
    String,
    Bool,
    List,
}

impl OptType {
    pub(crate) fn parse(name: &str) -> (r: Option<OptType>)
        ensures
            r == opt_type_of(name@),
    {
        if crate::text::same(name, "string") {
            Some(OptType::String)
        } else if crate::text::same(name, "bool") {
            Some(OptType::Bool)
        } else if crate::text::same(name, "list") {
            Some(OptType::List)
        } else {
            None
        }
    }
}

pub open spec fn opt_type_of(name: Seq<char>) -> Option<OptType> {
    if name == "string"@ {
        Some(OptType::String)
    } else if name == "bool"@ {
        Some(OptType::Bool)
    } else if name == "list"@ {
        Some(OptType::List)
    } else {
        None
    }
}

pub struct Opt {
    pub name: String,
    pub ty: OptType,
    pub default: Vec<Value>,
    pub span: Span,
}

pub struct Variant {
    pub name: String,
    pub sets: Vec<(String, Vec<Value>, Span)>,
    pub span: Span,
}

/// A name as it appears inside an env variable: upper case, with each dash
/// an underscore.
pub open spec fn env_word(name: Seq<char>) -> Seq<char> {
    swap_char(upper_spec(name), '-', '_')
}

pub(crate) fn env_word_exec(name: &str) -> (r: String)
    ensures
        r@ == env_word(name@),
{
    let up = to_upper(name);
    replace_char(up.as_str(), '-', '_')
}

/// `gpu-accel` becomes `OPT_GPU_ACCEL`.
pub open spec fn env_name_spec(option: Seq<char>) -> Seq<char> {
    "OPT_"@ + env_word(option)
}

/// `gpu-accel` becomes `OPT_GPU_ACCEL`.
pub fn env_name(option: &str) -> (r: String)
    ensures
        r@ == env_name_spec(option@),
{
    let word = env_word_exec(option);
    cat("OPT_", word.as_str())
}

/// The string values among `values`, in order.
pub open spec fn strings_of(values: Seq<Value>) -> Seq<Seq<char>>
    decreases values.len(),
{
    if values.len() == 0 {
        Seq::empty()
    } else {
        let rest = strings_of(values.drop_last());
        match values.last() {
            Value::String(s) => rest.push(s@),
            _ => rest,
        }
    }
}

/// What reaches the build for a resolved option: `1` or `0` for a bool, the
/// one string for a string, and a list's strings joined on spaces.
pub open spec fn env_value_spec(ty: OptType, values: Seq<Value>) -> Seq<char> {
    match ty {
        OptType::Bool => if values.len() > 0 && values[0] == Value::Bool(true) {
            "1"@
        } else {
            "0"@
        },
        OptType::String => if values.len() > 0 && values[0] is String {
            values[0]->String_0@
        } else {
            Seq::empty()
        },
        OptType::List => join_spec(strings_of(values), " "@),
    }
}

/// A bool option reaches the build as `1` exactly when its first resolved
/// value is true: false, or no value at all, is `0`.
pub proof fn lemma_bool_env_is_one_exactly_when_true(values: Seq<Value>)
    ensures
        env_value_spec(OptType::Bool, values) == "1"@ <==> (values.len() > 0 && values[0] == Value::Bool(true)),
        (values.len() == 0 || values[0] == Value::Bool(false)) ==> env_value_spec(OptType::Bool, values) == "0"@,
{
    reveal_strlit("1");
    reveal_strlit("0");
    assert("1"@ != "0"@) by {
        assert("1"@[0] != "0"@[0]);
    }
}

/// A string option reaches the build as its first resolved value where that
/// is a string, and as nothing otherwise.
pub proof fn lemma_string_env_is_the_first_string(values: Seq<Value>, text: String)
    ensures
        (values.len() > 0 && values[0] == Value::String(text)) ==> env_value_spec(OptType::String, values) == text@,
        (values.len() == 0 || !(values[0] is String)) ==> env_value_spec(OptType::String, values).len() == 0,
{
}

pub(crate) fn env_value(ty: OptType, values: &[Value]) -> (r: String)
    ensures
        r@ == env_value_spec(ty, values@),
{
    match ty {
        OptType::Bool => {
            if values.len() > 0 {
                if let Value::Bool(true) = &values[0] {
                    return owned("1");
                }
            }
            owned("0")
        },
        OptType::String => {
            if values.len() > 0 {
                if let Value::String(s) = &values[0] {
                    return owned(s.as_str());
                }
            }
            String::new()
        },
        OptType::List => {
            let mut strings: Vec<String> = Vec::new();
            let mut i: usize = 0;
            while i < values.len()
                invariant
                    i <= values@.len(),
                    views(strings@) == strings_of(values@.take(i as int)),
                decreases values@.len() - i,
            {
                let ghost before = views(strings@);
                assert(values@.take(i as int + 1).drop_last() =~= values@.take(i as int));
                if let Value::String(s) = &values[i] {
                    strings.push(owned(s.as_str()));
                    assert(views(strings@) =~= before.push(s@));
                }
                i = i + 1;
            }
            assert(values@.take(values@.len() as int) =~= values@);
            join(&strings, " ")
        },
    }
}

/// One refusal of a value, pointing at where it was set.
pub open spec fn bad_value(message: Seq<char>, help: Seq<char>, source: Seq<char>, span: Span) -> IssueV {
    help_v(at_v(bare(message, source), span, "not usable as this option's value"@), help)
}

pub open spec fn has_meta(s: Seq<char>) -> bool {
    has_char(s, '"') || has_char(s, '\\') || has_char(s, '$') || has_char(s, '`') || has_char(
        s,
        '\n',
    )
}

pub open spec fn has_ws(s: Seq<char>) -> bool {
    exists|i: int| 0 <= i < s.len() && is_ws(#[trigger] s[i])
}

/// The refusals a list makes of each value in turn.
pub open spec fn list_refusals(name: Seq<char>, values: Seq<Value>, source: Seq<char>, span: Span) -> Seq<IssueV>
    decreases values.len(),
{
    if values.len() == 0 {
        Seq::empty()
    } else {
        let rest = list_refusals(name, values.drop_last(), source, span);
        match values.last() {
            Value::String(s) => if has_ws(s@) {
                rest.push(
                    bad_value(
                        "list value "@ + debug_quoted(s@) + " on option `"@ + name
                            + "` contains whitespace"@,
                        "list values join on spaces to reach the build, so one containing a space would arrive as two"@,
                        source,
                        span,
                    ),
                )
            } else {
                rest
            },
            _ => rest.push(
                bad_value(
                    "option `"@ + name + "` is a list, so every value must be a string"@,
                    "quote the value"@,
                    source,
                    span,
                ),
            ),
        }
    }
}

/// The refusals of every string value holding a shell metacharacter.
pub open spec fn meta_refusals(name: Seq<char>, values: Seq<Value>, source: Seq<char>, span: Span) -> Seq<IssueV>
    decreases values.len(),
{
    if values.len() == 0 {
        Seq::empty()
    } else {
        let rest = meta_refusals(name, values.drop_last(), source, span);
        match values.last() {
            Value::String(s) => if has_meta(s@) {
                rest.push(
                    bad_value(
                        "value "@ + debug_quoted(s@) + " on option `"@ + name
                            + "` contains a shell metacharacter"@,
                        "option values are written into a RUN env prefix, so \" \\ $ ` and newlines are rejected rather than escaped"@,
                        source,
                        span,
                    ),
                )
            } else {
                rest
            },
            _ => rest,
        }
    }
}

/// Everything wrong with `values` as the value of an option of type `ty`.
pub open spec fn value_refusals(name: Seq<char>, ty: OptType, values: Seq<Value>, source: Seq<char>, span: Span) -> Seq<IssueV> {
    let shape = match ty {
        OptType::Bool => if values.len() != 1 || !(values[0] is Bool) {
            seq![
                bad_value(
                    "option `"@ + name + "` is a bool, so it takes one #true or #false"@,
                    "bools reach the build as 1 or 0"@,
                    source,
                    span,
                ),
            ]
        } else {
            Seq::empty()
        },
        OptType::String => if values.len() != 1 || !(values[0] is String) {
            seq![
                bad_value(
                    "option `"@ + name + "` is a string, so it takes exactly one"@,
                    "use type=\"list\" for zero or more values"@,
                    source,
                    span,
                ),
            ]
        } else {
            Seq::empty()
        },
        OptType::List => list_refusals(name, values, source, span),
    };
    shape + meta_refusals(name, values, source, span)
}

fn bad(message: String, help: &str, src: &Source, span: Span) -> (r: Issue)
    ensures
        r@ == bad_value(message@, help@, src.name@, span),
{
    Issue::new(message, src).at(span, owned("not usable as this option's value")).help(owned(help))
}

fn any_ws(s: &str) -> (r: bool)
    ensures
        r == has_ws(s@),
{
    let sc = chars_of(s);
    let mut i: usize = 0;
    while i < sc.len()
        invariant
            sc@ == s@,
            i <= sc@.len(),
            forall|j: int| 0 <= j < i ==> !is_ws(sc@[j]),
        decreases sc@.len() - i,
    {
        if ws(sc[i]) {
            return true;
        }
        i = i + 1;
    }
    false
}

fn any_meta(s: &str) -> (r: bool)
    ensures
        r == has_meta(s@),
{
    contains_char(s, '"') || contains_char(s, '\\') || contains_char(s, '$') || contains_char(s, '`')
        || contains_char(s, '\n')
}

/// Values have to survive being written into a RUN env prefix, so the
/// characters that would end the quoting or start an expansion are rejected
/// rather than escaped.
pub(crate) fn check_values(
    name: &str,
    ty: OptType,
    values: &[Value],
    src: &Source,
    span: Span,
    issues: &mut Issues,
) -> (ok: bool)
    ensures
        final(issues)@ == old(issues)@ + value_refusals(name@, ty, values@, src.name@, span),
        ok == (value_refusals(name@, ty, values@, src.name@, span).len() == 0),
{
    let ghost start = issues@;
    let mut ok = true;
    match ty {
        OptType::Bool => {
            let fine = values.len() == 1 && values[0].as_bool().is_some();
            if !fine {
                issues.push(
                    bad(
                        cat3("option `", name, "` is a bool, so it takes one #true or #false"),
                        "bools reach the build as 1 or 0",
                        src,
                        span,
                    ),
                );
                ok = false;
            }
        },
        OptType::String => {
            let fine = values.len() == 1 && values[0].as_string().is_some();
            if !fine {
                issues.push(
                    bad(
                        cat3("option `", name, "` is a string, so it takes exactly one"),
                        "use type=\"list\" for zero or more values",
                        src,
                        span,
                    ),
                );
                ok = false;
            }
        },
        OptType::List => {
            let mut i: usize = 0;
            assert(values@.take(0) =~= Seq::<Value>::empty());
            while i < values.len()
                invariant
                    i <= values@.len(),
                    issues@ == start + list_refusals(name@, values@.take(i as int), src.name@, span),
                    ok == (list_refusals(name@, values@.take(i as int), src.name@, span).len() == 0),
                decreases values@.len() - i,
            {
                assert(values@.take(i as int + 1).drop_last() =~= values@.take(i as int));
                match &values[i] {
                    Value::String(s) => {
                        if any_ws(s.as_str()) {
                            let shown = quoted(s.as_str());
                            issues.push(
                                bad(
                                    cat5(
                                        "list value ",
                                        shown.as_str(),
                                        " on option `",
                                        name,
                                        "` contains whitespace",
                                    ),
                                    "list values join on spaces to reach the build, so one containing a space would arrive as two",
                                    src,
                                    span,
                                ),
                            );
                            ok = false;
                        }
                    },
                    _ => {
                        issues.push(
                            bad(
                                cat3("option `", name, "` is a list, so every value must be a string"),
                                "quote the value",
                                src,
                                span,
                            ),
                        );
                        ok = false;
                    },
                }
                i = i + 1;
            }
            assert(values@.take(values@.len() as int) =~= values@);
        },
    }
    let ghost shaped = issues@;
    let mut i: usize = 0;
    assert(values@.take(0) =~= Seq::<Value>::empty());
    assert(shaped + Seq::<IssueV>::empty() =~= shaped);
    while i < values.len()
        invariant
            i <= values@.len(),
            issues@ == shaped + meta_refusals(name@, values@.take(i as int), src.name@, span),
            shaped.len() >= start.len(),
            ok == (shaped.len() == start.len() && meta_refusals(
                name@,
                values@.take(i as int),
                src.name@,
                span,
            ).len() == 0),
        decreases values@.len() - i,
    {
        assert(values@.take(i as int + 1).drop_last() =~= values@.take(i as int));
        if let Value::String(s) = &values[i] {
            if any_meta(s.as_str()) {
                let shown = quoted(s.as_str());
                issues.push(
                    bad(
                        cat5(
                            "value ",
                            shown.as_str(),
                            " on option `",
                            name,
                            "` contains a shell metacharacter",
                        ),
                        "option values are written into a RUN env prefix, so \" \\ $ ` and newlines are rejected rather than escaped",
                        src,
                        span,
                    ),
                );
                ok = false;
            }
        }
        i = i + 1;
    }
    assert(values@.take(values@.len() as int) =~= values@);
    ok
}


pub open spec fn opt_names(options: Seq<Opt>) -> Seq<Seq<char>> {
    options.map_values(|o: Opt| o.name@)
}

pub open spec fn variant_names(variants: Seq<Variant>) -> Seq<Seq<char>> {
    variants.map_values(|v: Variant| v.name@)
}

/// Every option at its module default.
pub open spec fn defaults(options: Seq<Opt>) -> Seq<Seq<Value>> {
    options.map_values(|o: Opt| o.default@)
}

/// What a list of names is offered as, after a refusal names one that is not
/// among them.
pub open spec fn declared_help(names: Seq<Seq<char>>, none: Seq<char>, some: Seq<char>) -> Seq<char> {
    if names.len() == 0 {
        none
    } else {
        some + join_spec(names, ", "@)
    }
}

pub open spec fn unknown_in_variant(want: Seq<char>, name: Seq<char>, source: Seq<char>, span: Span) -> IssueV {
    help_v(
        at_v(
            bare("variant `"@ + want + "` sets `"@ + name + "`, which this module does not declare"@, source),
            span,
            "no such option"@,
        ),
        "a variant may only set options declared in the same manifest"@,
    )
}

pub open spec fn no_variant(path: Seq<char>, want: Seq<char>, known: Seq<Seq<char>>, source: Seq<char>) -> IssueV {
    help_v(
        bare("`"@ + path + "` has no variant `"@ + want + "`"@, source),
        declared_help(known, "this module declares no variants"@, "declared variants: "@),
    )
}

pub open spec fn no_option(path: Seq<char>, name: Seq<char>, known: Seq<Seq<char>>, source: Seq<char>, span: Span) -> IssueV {
    help_v(
        at_v(bare("`"@ + path + "` has no option `"@ + name + "`"@, source), span, "not declared by this module"@),
        declared_help(known, "this module declares no options"@, "declared options: "@),
    )
}

pub open spec fn set_twice(path: Seq<char>, name: Seq<char>, source: Seq<char>, span: Span) -> IssueV {
    help_v(
        at_v(bare("`"@ + name + "` is set twice on `"@ + path + "`"@, source), span, "set again here"@),
        "resolution is a single pass, so a second value is an error rather than a merge"@,
    )
}

/// The values each option holds, and the issues raised so far.
pub type Resolution = (Seq<Seq<Value>>, Seq<IssueV>);

/// One value set by the selected variant.
pub open spec fn variant_step(
    options: Seq<Opt>,
    source: Seq<char>,
    want: Seq<char>,
    set: (String, Vec<Value>, Span),
    state: Resolution,
) -> Resolution {
    match position(opt_names(options), set.0@) {
        None => (state.0, state.1.push(unknown_in_variant(want, set.0@, source, set.2))),
        Some(i) => {
            let refused = value_refusals(set.0@, options[i].ty, set.1@, source, set.2);
            (if refused.len() == 0 { state.0.update(i, set.1@) } else { state.0 }, state.1 + refused)
        },
    }
}

/// Every value the selected variant sets, in order.
pub open spec fn variant_phase(
    options: Seq<Opt>,
    source: Seq<char>,
    want: Seq<char>,
    sets: Seq<(String, Vec<Value>, Span)>,
    start: Resolution,
) -> Resolution
    decreases sets.len(),
{
    if sets.len() == 0 {
        start
    } else {
        variant_step(options, source, want, sets.last(), variant_phase(options, source, want, sets.drop_last(), start))
    }
}

/// Whether an earlier value in the image file set the same name.
pub open spec fn set_earlier(sets: Seq<(String, Vec<Value>, Span)>, k: int, name: Seq<char>) -> bool {
    exists|j: int| 0 <= j < k && (#[trigger] sets[j]).0@ == name
}

/// One value set in the image file.
pub open spec fn set_step(
    options: Seq<Opt>,
    source: Seq<char>,
    path: Seq<char>,
    sets: Seq<(String, Vec<Value>, Span)>,
    k: int,
    state: Resolution,
) -> Resolution {
    let set = sets[k];
    match position(opt_names(options), set.0@) {
        None => (state.0, state.1.push(no_option(path, set.0@, opt_names(options), source, set.2))),
        Some(i) => if set_earlier(sets, k, set.0@) {
            (state.0, state.1.push(set_twice(path, set.0@, source, set.2)))
        } else {
            let refused = value_refusals(set.0@, options[i].ty, set.1@, source, set.2);
            (if refused.len() == 0 { state.0.update(i, set.1@) } else { state.0 }, state.1 + refused)
        },
    }
}

/// The first `k` values set in the image file.
pub open spec fn set_phase(
    options: Seq<Opt>,
    source: Seq<char>,
    path: Seq<char>,
    sets: Seq<(String, Vec<Value>, Span)>,
    k: int,
    start: Resolution,
) -> Resolution
    decreases k,
{
    if k <= 0 {
        start
    } else {
        set_step(options, source, path, sets, k - 1, set_phase(options, source, path, sets, k - 1, start))
    }
}

/// The whole single pass: defaults, then the selected variant, then the
/// image file.
pub open spec fn resolution(
    options: Seq<Opt>,
    variants: Seq<Variant>,
    module_source: Seq<char>,
    entry: Entry,
    list_source: Seq<char>,
) -> Resolution {
    let after_variant = variant_resolution(options, variants, module_source, entry, list_source);
    set_phase(options, list_source, entry.path@, entry.options@, entry.options@.len() as int, after_variant)
}

/// Defaults, then whatever the selected variant sets.
pub open spec fn variant_resolution(
    options: Seq<Opt>,
    variants: Seq<Variant>,
    module_source: Seq<char>,
    entry: Entry,
    list_source: Seq<char>,
) -> Resolution {
    let start: Resolution = (defaults(options), Seq::empty());
    match entry.variant {
        None => start,
        Some(want) => match position(variant_names(variants), want@) {
            Some(v) => variant_phase(options, module_source, want@, variants[v].sets@, start),
            None => (start.0, seq![no_variant(entry.path@, want@, variant_names(variants), list_source)]),
        },
    }
}

/// The env pairs the resolution puts on the layer, one per declared option.
pub open spec fn resolved_env(options: Seq<Opt>, values: Seq<Seq<Value>>) -> Seq<(Seq<char>, Seq<char>)> {
    Seq::new(
        options.len(),
        |i: int|
            (
                env_name_spec(options[i].name@),
                env_value_spec(options[i].ty, values[position(opt_names(options), options[i].name@)->0]),
            ),
    )
}

fn find_opt(options: &[Opt], name: &str) -> (r: Option<usize>)
    ensures
        match r {
            Some(i) => position(opt_names(options@), name@) == Some(i as int) && i < options@.len(),
            None => position(opt_names(options@), name@) is None,
        },
{
    let mut i: usize = 0;
    while i < options.len()
        invariant
            i <= options@.len(),
            forall|j: int| 0 <= j < i ==> opt_names(options@)[j] != name@,
        decreases options@.len() - i,
    {
        if crate::text::same(options[i].name.as_str(), name) {
            proof {
                lemma_position(opt_names(options@), name@, i as int);
            }
            return Some(i);
        }
        i = i + 1;
    }
    proof {
        lemma_position(opt_names(options@), name@, i as int);
    }
    None
}

fn names_of_opts(options: &[Opt]) -> (r: Vec<String>)
    ensures
        views(r@) == opt_names(options@),
{
    let mut out: Vec<String> = Vec::new();
    let mut i: usize = 0;
    while i < options.len()
        invariant
            i <= options@.len(),
            views(out@) == opt_names(options@).take(i as int),
        decreases options@.len() - i,
    {
        let ghost prior = out@;
        out.push(options[i].name.clone());
        assert(views(out@) =~= views(prior).push(options@[i as int].name@));
        assert(opt_names(options@).take(i as int + 1) =~= opt_names(options@).take(i as int).push(options@[i as int].name@));
        i = i + 1;
    }
    assert(opt_names(options@).take(i as int) =~= opt_names(options@));
    out
}

fn names_of_variants(variants: &[Variant]) -> (r: Vec<String>)
    ensures
        views(r@) == variant_names(variants@),
{
    let mut out: Vec<String> = Vec::new();
    let mut i: usize = 0;
    while i < variants.len()
        invariant
            i <= variants@.len(),
            views(out@) == variant_names(variants@).take(i as int),
        decreases variants@.len() - i,
    {
        let ghost prior = out@;
        out.push(variants[i].name.clone());
        assert(views(out@) =~= views(prior).push(variants@[i as int].name@));
        assert(variant_names(variants@).take(i as int + 1) =~= variant_names(variants@).take(i as int).push(variants@[i as int].name@));
        i = i + 1;
    }
    assert(variant_names(variants@).take(i as int) =~= variant_names(variants@));
    out
}

fn declared(names: &Vec<String>, none: &str, some: &str) -> (r: String)
    ensures
        r@ == declared_help(views(names@), none@, some@),
{
    if names.len() == 0 {
        owned(none)
    } else {
        let joined = join(names, ", ");
        cat(some, joined.as_str())
    }
}

fn earlier(sets: &Vec<(String, Vec<Value>, Span)>, k: usize, name: &str) -> (r: bool)
    requires
        k <= sets@.len(),
    ensures
        r == set_earlier(sets@, k as int, name@),
{
    let mut j: usize = 0;
    while j < k
        invariant
            k <= sets@.len(),
            j <= k,
            forall|i: int| 0 <= i < j ==> (#[trigger] sets@[i]).0@ != name@,
        decreases k - j,
    {
        if crate::text::same(sets[j].0.as_str(), name) {
            return true;
        }
        j = j + 1;
    }
    false
}

/// Single pass, in one order, with no merging: the module's default, then the
/// selected variant, then the value in the image file.
#[verifier::rlimit(60)]
pub fn resolve(
    options: &[Opt],
    variants: &[Variant],
    src: &Source,
    entry: &Entry,
    image: &Image,
    issues: &mut Issues,
) -> (r: Vec<(String, String)>)
    ensures
        pair_views(r@) == resolved_env(
            options@,
            resolution(options@, variants@, src.name@, *entry, image.src.name@).0,
        ),
        final(issues)@ == old(issues)@ + resolution(options@, variants@, src.name@, *entry, image.src.name@).1,
{
    let ghost start_issues = issues@;
    let ghost start: Resolution = (defaults(options@), Seq::empty());
    let list_src = &image.src;
    let owner_path = entry.path.as_str();
    let mut resolved: Vec<Vec<Value>> = Vec::new();
    let mut i: usize = 0;
    while i < options.len()
        invariant
            i <= options@.len(),
            resolved@.len() == i,
            forall|j: int| 0 <= j < i ==> (#[trigger] resolved@[j])@ == options@[j].default@,
        decreases options@.len() - i,
    {
        resolved.push(copy_values(options[i].default.as_slice()));
        i = i + 1;
    }
    proof {
        assert(vals(resolved@) =~= start.0);
        assert(issues@ =~= start_issues + start.1);
    }
    let ghost after_variant: Resolution = variant_resolution(options@, variants@, src.name@, *entry, image.src.name@);
    match &entry.variant {
        None => {},
        Some(want) => {
            let mut v: usize = 0;
            while v < variants.len() && !crate::text::same(variants[v].name.as_str(), want.as_str())
                invariant
                    v <= variants@.len(),
                    forall|j: int| 0 <= j < v ==> variant_names(variants@)[j] != want@,
                decreases variants@.len() - v,
            {
                v = v + 1;
            }
            proof {
                if v < variants@.len() {
                    assert(variant_names(variants@)[v as int] == variants@[v as int].name@);
                }
                lemma_position(variant_names(variants@), want@, v as int);
            }
            let found: Option<usize> = if v < variants.len() { Some(v) } else { None };
            match found {
                Some(v) => {
                    let sets = &variants[v].sets;
                    let mut k: usize = 0;
                    assert(sets@.take(0) =~= Seq::<(String, Vec<Value>, Span)>::empty());
                    while k < sets.len()
                        invariant
                            k <= sets@.len(),
                            resolved@.len() == options@.len(),
                            (vals(resolved@), issues@.skip(start_issues.len() as int)) == variant_phase(
                                options@,
                                src.name@,
                                want@,
                                sets@.take(k as int),
                                start,
                            ),
                            issues@.len() >= start_issues.len(),
                            issues@.take(start_issues.len() as int) == start_issues,
                        decreases sets@.len() - k,
                    {
                        let ghost before = (vals(resolved@), issues@.skip(start_issues.len() as int));
                        let ghost prior_issues = issues@;
                        assert(sets@.take(k as int + 1).drop_last() =~= sets@.take(k as int));
                        assert(sets@.take(k as int + 1).last() == sets@[k as int]);
                        let name = sets[k].0.as_str();
                        let values = &sets[k].1;
                        let span = sets[k].2;
                        match find_opt(options, name) {
                            None => {
                                let message = cat5("variant `", want.as_str(), "` sets `", name, "`, which this module does not declare");
                                let issue = Issue::new(message, src).at(span, owned("no such option")).help(
                                    owned("a variant may only set options declared in the same manifest"),
                                );
                                issues.push(issue);
                                proof {
                                    assert(issues@.skip(start_issues.len() as int) =~= before.1.push(issue@));
                                    assert(issues@.take(start_issues.len() as int) =~= prior_issues.take(start_issues.len() as int));
                                }
                            },
                            Some(i) => {
                                let ok = check_values(name, options[i].ty, values.as_slice(), src, span, issues);
                                proof {
                                    assert(issues@ == prior_issues + value_refusals(name@, options@[i as int].ty, values@, src.name@, span));
                                    assert(prior_issues.skip(start_issues.len() as int) == before.1);
                                    assert(issues@.skip(start_issues.len() as int) =~= before.1 + value_refusals(
                                        name@, options@[i as int].ty, values@, src.name@, span));
                                    assert(issues@.take(start_issues.len() as int) =~= prior_issues.take(start_issues.len() as int));
                                }
                                if ok {
                                    resolved.set(i, copy_values(values.as_slice()));
                                    assert(vals(resolved@) =~= before.0.update(i as int, values@));
                                }
                            },
                        }
                        k = k + 1;
                    }
                    assert(sets@.take(sets@.len() as int) =~= sets@);
                },
                None => {
                    let known = names_of_variants(variants);
                    let message = cat5("`", owner_path, "` has no variant `", want.as_str(), "`");
                    let help = declared(&known, "this module declares no variants", "declared variants: ");
                    let issue = Issue::new(message, list_src).help(help);
                    issues.push(issue);
                    proof {
                        assert(issues@.skip(start_issues.len() as int) =~= seq![issue@]);
                    }
                },
            }
        },
    }
    proof {
        assert(issues@ =~= start_issues + issues@.skip(start_issues.len() as int)) by {
            if entry.variant is None {
                assert(issues@.skip(start_issues.len() as int) =~= Seq::<IssueV>::empty());
            }
        }
        assert((vals(resolved@), issues@.skip(start_issues.len() as int)) == after_variant) by {
            if entry.variant is None {
                assert(issues@.skip(start_issues.len() as int) =~= Seq::<IssueV>::empty());
            }
        }
    }
    let sets = &entry.options;
    let mut k: usize = 0;
    while k < sets.len()
        invariant
            k <= sets@.len(),
            sets == &entry.options,
            list_src == &image.src,
            owner_path@ == entry.path@,
            resolved@.len() == options@.len(),
            (vals(resolved@), issues@.skip(start_issues.len() as int)) == set_phase(
                options@,
                image.src.name@,
                entry.path@,
                sets@,
                k as int,
                after_variant,
            ),
            issues@.len() >= start_issues.len(),
            issues@.take(start_issues.len() as int) == start_issues,
        decreases sets@.len() - k,
    {
        let ghost before = (vals(resolved@), issues@.skip(start_issues.len() as int));
        let ghost prior_issues = issues@;
        let name = sets[k].0.as_str();
        let values = &sets[k].1;
        let span = sets[k].2;
        match find_opt(options, name) {
            None => {
                let known = names_of_opts(options);
                let message = cat5("`", owner_path, "` has no option `", name, "`");
                let help = declared(&known, "this module declares no options", "declared options: ");
                let issue = Issue::new(message, list_src).at(span, owned("not declared by this module")).help(help);
                issues.push(issue);
                proof {
                    assert(issues@.skip(start_issues.len() as int) =~= before.1.push(issue@));
                    assert(issues@.take(start_issues.len() as int) =~= prior_issues.take(start_issues.len() as int));
                }
            },
            Some(i) => {
                if earlier(sets, k, name) {
                    let message = cat5("`", name, "` is set twice on `", owner_path, "`");
                    let issue = Issue::new(message, list_src).at(span, owned("set again here")).help(
                        owned("resolution is a single pass, so a second value is an error rather than a merge"),
                    );
                    issues.push(issue);
                    proof {
                        assert(issues@.skip(start_issues.len() as int) =~= before.1.push(issue@));
                        assert(issues@.take(start_issues.len() as int) =~= prior_issues.take(start_issues.len() as int));
                    }
                } else {
                    let ok = check_values(name, options[i].ty, values.as_slice(), list_src, span, issues);
                    proof {
                        assert(issues@ == prior_issues + value_refusals(name@, options@[i as int].ty, values@, list_src.name@, span));
                        assert(prior_issues.skip(start_issues.len() as int) == before.1);
                        assert(issues@.skip(start_issues.len() as int) =~= before.1 + value_refusals(
                            name@, options@[i as int].ty, values@, image.src.name@, span));
                        assert(issues@.take(start_issues.len() as int) =~= prior_issues.take(start_issues.len() as int));
                    }
                    if ok {
                        resolved.set(i, copy_values(values.as_slice()));
                        assert(vals(resolved@) =~= before.0.update(i as int, values@));
                    }
                }
            },
        }
        k = k + 1;
    }
    let ghost fin = resolution(options@, variants@, src.name@, *entry, image.src.name@);
    proof {
        assert(issues@ =~= start_issues + issues@.skip(start_issues.len() as int));
    }
    let mut out: Vec<(String, String)> = Vec::new();
    let mut i: usize = 0;
    while i < options.len()
        invariant
            i <= options@.len(),
            resolved@.len() == options@.len(),
            vals(resolved@) == fin.0,
            fin.0.len() == options@.len(),
            pair_views(out@) == resolved_env(options@, fin.0).take(i as int),
        decreases options@.len() - i,
    {
        let slot = find_opt(options, options[i].name.as_str());
        let slot_index = match slot {
            Some(s) => s,
            None => {
                proof {
                    lemma_position(opt_names(options@), options@[i as int].name@, i as int);
                    assert(false);
                }
                0
            },
        };
        proof {
            if position(opt_names(options@), options@[i as int].name@) is None {
                assert(opt_names(options@)[i as int] == options@[i as int].name@);
            }
        }
        let name = env_name(options[i].name.as_str());
        let value = env_value(options[i].ty, resolved[slot_index].as_slice());
        let ghost prior = out@;
        proof {
            assert(vals(resolved@)[slot_index as int] == resolved@[slot_index as int]@);
            assert(position(opt_names(options@), options@[i as int].name@)->0 == slot_index as int);
            assert(resolved_env(options@, fin.0)[i as int] == (name@, value@));
        }
        out.push((name, value));
        assert(pair_views(out@) =~= pair_views(prior).push((name@, value@)));
        assert(resolved_env(options@, fin.0).take(i as int + 1) =~= resolved_env(options@, fin.0).take(i as int).push((name@, value@)));
        i = i + 1;
    }
    assert(resolved_env(options@, fin.0).take(i as int) =~= resolved_env(options@, fin.0));
    out
}

/// The values held, one sequence per option.
pub open spec fn vals(resolved: Seq<Vec<Value>>) -> Seq<Seq<Value>> {
    resolved.map_values(|v: Vec<Value>| v@)
}

} // verus!
