//! The schema as data, and the one walker that reads a document against it.
//! Shape only: what a node holds, how much of it, and what to say when the
//! document does not match. Meaning stays with the readers.

use crate::diag::{at_v, bare, help_v, Issue, IssueV, Issues, Source, Span};
use crate::parse::kdl::{KEntry, KNode, KValue};
use crate::parse::{as_bool, as_string, bool_arg, first_value, kids, kids_spec, string_arg, string_arg_spec, unnamed};
use crate::text::{cat3, fill, fill_spec, owned, same};
use vstd::prelude::*;

verus! {

/// One thing the shape has to say. `{}` stands for the name or value it is
/// about, and an empty `text` says nothing at all.
pub struct Say {
    pub text: String,
    pub label: String,
    pub help: String,
}

/// What `say` raises about `about` at `span`: nothing where it is silent.
pub open spec fn raise_spec(say: Say, about: Seq<char>, span: Span, source: Seq<char>) -> Seq<IssueV> {
    if say.text@.len() == 0 {
        Seq::empty()
    } else {
        let issue = at_v(bare(fill_spec(say.text@, about), source), span, say.label@);
        if say.help@.len() == 0 {
            seq![issue]
        } else {
            seq![help_v(issue, fill_spec(say.help@, about))]
        }
    }
}

impl Say {
    /// Nothing to say: the shape allows it, or allows it silently.
    pub fn none() -> (r: Say)
        ensures
            r.text@.len() == 0,
            r.label@.len() == 0,
            r.help@.len() == 0,
    {
        Say { text: String::new(), label: String::new(), help: String::new() }
    }

    pub fn new(text: &str, label: &str, help: &str) -> (r: Say)
        ensures
            r.text@ == text@,
            r.label@ == label@,
            r.help@ == help@,
    {
        Say { text: owned(text), label: owned(label), help: owned(help) }
    }

    pub fn silent(&self) -> (r: bool)
        ensures
            r == (self.text@.len() == 0),
    {
        self.text.unicode_len() == 0
    }

    /// What it says about `about` at `span`, where it says anything.
    pub fn raise(&self, about: &str, span: Span, src: &Source, issues: &mut Issues)
        ensures
            final(issues)@ == old(issues)@ + raise_spec(*self, about@, span, src.name@),
    {
        if self.silent() {
            assert(old(issues)@ + raise_spec(*self, about@, span, src.name@) =~= old(issues)@);
            return;
        }
        let issue = Issue::new(fill(self.text.as_str(), about), src).at(span, self.label.clone());
        if self.help.unicode_len() == 0 {
            issues.push(issue);
        } else {
            issues.push(issue.help(fill(self.help.as_str(), about)));
        }
        assert(issues@ =~= old(issues)@ + raise_spec(*self, about@, span, src.name@));
    }
}

/// The positional argument a node carries.
#[derive(Clone, Copy, PartialEq, Eq, Structural)]
pub enum Arg {
    Nothing,
    Str,
    Bool,
    /// Every positional string, as the list it looks like.
    Strs,
}

#[derive(Clone, Copy, PartialEq, Eq, Structural)]
pub enum Kind {
    Str,
    Bool,
}

/// A named entry on a node.
pub struct Prop {
    pub name: String,
    pub desc: String,
    pub kind: Kind,
    /// When the value is not of `kind`.
    pub say: Say,
}

/// One node in the grammar. A node named `""` inside `children` matches any
/// name, which is how a block whose children the author names is declared.
pub struct Node {
    pub name: String,
    pub desc: String,
    pub arg: Arg,
    /// A missing argument, or one given to a node that takes none.
    pub arg_say: Say,
    /// When the node is absent from its parent.
    pub missing: Say,
    /// Whether a second one is a problem, and what to help with.
    pub once: bool,
    pub dup_help: String,
    /// When the node has no children.
    pub empty: Say,
    pub props: Vec<Prop>,
    /// A property not in `props`.
    pub prop_say: Say,
    pub children: Vec<Node>,
    /// A child not in `children`.
    pub child_say: Say,
}

impl Node {
    pub fn new(name: &str, desc: &str) -> (r: Node)
        ensures
            r.name@ == name@,
            r.desc@ == desc@,
            r.arg == Arg::Nothing,
            r.arg_say.text@.len() == 0,
            r.missing.text@.len() == 0,
            !r.once,
            r.dup_help@.len() == 0,
            r.empty.text@.len() == 0,
            r.props@.len() == 0,
            r.prop_say.text@.len() == 0,
            r.children@.len() == 0,
            r.child_say.text@.len() == 0,
    {
        Node {
            name: owned(name),
            desc: owned(desc),
            arg: Arg::Nothing,
            arg_say: Say::none(),
            missing: Say::none(),
            once: false,
            dup_help: String::new(),
            empty: Say::none(),
            props: Vec::new(),
            prop_say: Say::none(),
            children: Vec::new(),
            child_say: Say::none(),
        }
    }

    pub fn arg(self, arg: Arg, say: Say) -> (r: Node)
        ensures
            r == (Node { arg, arg_say: say, ..self }),
    {
        Node { arg, arg_say: say, ..self }
    }

    pub fn once(self, help: &str) -> (r: Node)
        ensures
            r.once,
            r.dup_help@ == help@,
            r == (Node { once: true, dup_help: r.dup_help, ..self }),
    {
        Node { once: true, dup_help: owned(help), ..self }
    }

    pub fn missing(self, say: Say) -> (r: Node)
        ensures
            r == (Node { missing: say, ..self }),
    {
        Node { missing: say, ..self }
    }

    pub fn empty(self, say: Say) -> (r: Node)
        ensures
            r == (Node { empty: say, ..self }),
    {
        Node { empty: say, ..self }
    }

    pub fn props(self, props: Vec<Prop>, say: Say) -> (r: Node)
        ensures
            r == (Node { props, prop_say: say, ..self }),
    {
        Node { props, prop_say: say, ..self }
    }

    pub fn children(self, children: Vec<Node>, say: Say) -> (r: Node)
        ensures
            r == (Node { children, child_say: say, ..self }),
    {
        Node { children, child_say: say, ..self }
    }
}

/// How many nodes a tree holds, which is what the walk descends by.
pub open spec fn size(n: KNode) -> nat
    decreases n, 1nat,
{
    match n.children {
        Some(c) => {
            proof {
                assert(decreases_to!(n => n.children));
                assert(decreases_to!(n.children => c));
                assert(decreases_to!(c => c@));
            }
            1 + sizes(c@)
        },
        None => 1,
    }
}

pub open spec fn sizes(ns: Seq<KNode>) -> nat
    decreases ns, 0nat,
{
    if ns.len() == 0 {
        0
    } else {
        proof {
            assert(decreases_to!(ns => ns.last()));
        }
        sizes(ns.drop_last()) + size(ns.last())
    }
}


pub proof fn lemma_sizes(ns: Seq<KNode>, i: int)
    requires
        0 <= i < ns.len(),
    ensures
        size(ns[i]) <= sizes(ns),
    decreases ns.len(),
{
    if i < ns.len() - 1 {
        lemma_sizes(ns.drop_last(), i);
        assert(ns.drop_last()[i] == ns[i]);
    }
}

/// A child is smaller than the node it is under.
pub proof fn lemma_kid_smaller(n: KNode, i: int)
    requires
        0 <= i < kids_spec(n).len(),
    ensures
        size(kids_spec(n)[i]) < size(n),
{
    lemma_sizes(kids_spec(n), i);
}

/// The first of `subs` from `k` on named `name`.
pub open spec fn named_from(subs: Seq<Node>, name: Seq<char>, k: int) -> Option<int>
    decreases subs.len() - k,
{
    if k < 0 || k >= subs.len() {
        None
    } else if subs[k].name@ == name {
        Some(k)
    } else {
        named_from(subs, name, k + 1)
    }
}

/// The schema a child by that name is read against: the one named so, or
/// else the one named `""`, which matches any name.
pub open spec fn sub_for(subs: Seq<Node>, name: Seq<char>) -> Option<Node> {
    match named_from(subs, name, 0) {
        Some(i) => Some(subs[i]),
        None => match named_from(subs, ""@, 0) {
            Some(i) => Some(subs[i]),
            None => None,
        },
    }
}

/// The first prop from `k` on named `name`.
pub open spec fn prop_from(props: Seq<Prop>, name: Seq<char>, k: int) -> Option<int>
    decreases props.len() - k,
{
    if k < 0 || k >= props.len() {
        None
    } else if props[k].name@ == name {
        Some(k)
    } else {
        prop_from(props, name, k + 1)
    }
}

/// The first child below `i`, from `k` on, named `name`.
pub open spec fn earlier(kids: Seq<KNode>, name: Seq<char>, k: int, i: int) -> Option<int>
    decreases i - k,
{
    if k < 0 || k >= i || k >= kids.len() {
        None
    } else if kids[k].name@ == name {
        Some(k)
    } else {
        earlier(kids, name, k + 1, i)
    }
}

/// How many of the first `i` children are named `name`.
pub open spec fn count_named(kids: Seq<KNode>, name: Seq<char>, i: int) -> nat
    decreases i,
{
    if i <= 0 || i > kids.len() {
        0
    } else {
        count_named(kids, name, i - 1) + if kids[i - 1].name@ == name {
            1nat
        } else {
            0nat
        }
    }
}

/// How many of the first `i` children named `name` come after another of
/// that name: the ones a once-only schema child says are declared twice,
/// each in place of being checked.
pub open spec fn repeats(kids: Seq<KNode>, name: Seq<char>, i: int) -> nat
    decreases i,
{
    if i <= 0 || i > kids.len() {
        0
    } else {
        repeats(kids, name, i - 1) + if kids[i - 1].name@ == name && earlier(kids, name, 0, i - 1) is Some {
            1nat
        } else {
            0nat
        }
    }
}

proof fn lemma_earlier(kids: Seq<KNode>, name: Seq<char>, k: int, i: int)
    requires
        0 <= k,
        i <= kids.len(),
    ensures
        earlier(kids, name, k, i) is Some <==> exists|p: int| k <= p < i && #[trigger] kids[p].name@ == name,
    decreases i - k,
{
    if k < i {
        lemma_earlier(kids, name, k + 1, i);
    }
}

proof fn lemma_count_named(kids: Seq<KNode>, name: Seq<char>, i: int)
    requires
        0 <= i <= kids.len(),
    ensures
        count_named(kids, name, i) > 0 <==> exists|p: int| 0 <= p < i && #[trigger] kids[p].name@ == name,
    decreases i,
{
    if i > 0 {
        lemma_count_named(kids, name, i - 1);
    }
}

/// Of `k` children sharing a name, the first is the one checked and each of
/// the other `k - 1` is a repeat: where that name's schema child appears
/// once, each repeat is said declared twice, once, and nothing more is read
/// of it.
pub proof fn lemma_repeats_are_all_but_the_first(kids: Seq<KNode>, name: Seq<char>, i: int)
    requires
        0 <= i <= kids.len(),
    ensures
        repeats(kids, name, i) == if count_named(kids, name, i) > 0 {
            (count_named(kids, name, i) - 1) as nat
        } else {
            0nat
        },
        forall|j: int| 0 <= j < i && #[trigger] kids[j].name@ == name ==> (earlier(kids, name, 0, j) is Some <==> count_named(kids, name, j) > 0),
    decreases i,
{
    if i > 0 {
        lemma_repeats_are_all_but_the_first(kids, name, i - 1);
        lemma_earlier(kids, name, 0, i - 1);
        lemma_count_named(kids, name, i - 1);
    }
}

pub open spec fn bool_arg_spec(n: KNode) -> Option<bool> {
    match first_value(n.entries@, unnamed(n.entries@)) {
        Some(v) => as_bool(v),
        None => None,
    }
}

/// The argument against what the node takes.
pub open spec fn arg_issues(node: KNode, schema: Node, source: Seq<char>) -> Seq<IssueV> {
    match schema.arg {
        Arg::Nothing => match string_arg_spec(node) {
            Some(stray) => raise_spec(schema.arg_say, stray, node.name_span, source),
            None => Seq::empty(),
        },
        Arg::Str => if string_arg_spec(node) is None {
            raise_spec(schema.arg_say, schema.name@, node.name_span, source)
        } else {
            Seq::empty()
        },
        Arg::Bool => if bool_arg_spec(node) is None {
            raise_spec(schema.arg_say, schema.name@, node.name_span, source)
        } else {
            Seq::empty()
        },
        Arg::Strs => Seq::empty(),
    }
}

pub open spec fn prop_ok(kind: Kind, v: KValue) -> bool {
    match kind {
        Kind::Str => as_string(v) is Some,
        Kind::Bool => as_bool(v) is Some,
    }
}

/// One entry against the props the node takes; an argument is no prop.
pub open spec fn entry_issues(e: KEntry, schema: Node, source: Seq<char>) -> Seq<IssueV> {
    match e.name {
        None => Seq::empty(),
        Some(key) => match prop_from(schema.props@, key@, 0) {
            Some(i) => if prop_ok(schema.props@[i].kind, e.value) {
                Seq::empty()
            } else {
                raise_spec(schema.props@[i].say, key@, e.span, source)
            },
            None => raise_spec(schema.prop_say, key@, e.span, source),
        },
    }
}

pub open spec fn entries_issues(es: Seq<KEntry>, schema: Node, source: Seq<char>) -> Seq<IssueV>
    decreases es.len(),
{
    if es.len() == 0 {
        Seq::empty()
    } else {
        entries_issues(es.drop_last(), schema, source) + entry_issues(es.last(), schema, source)
    }
}

/// A child that may appear once, seen again.
pub open spec fn twice_issue(name: Seq<char>, first: Span, again: Span, help: Seq<char>, source: Seq<char>) -> IssueV {
    let issue = at_v(at_v(bare("`"@ + name + "` is declared twice"@, source), first, "first here"@), again, "and again here"@);
    if help.len() == 0 {
        issue
    } else {
        help_v(issue, help)
    }
}

/// Every schema child the node does not have, where its absence says
/// something.
pub open spec fn missing_issues(subs: Seq<Node>, node: KNode, source: Seq<char>) -> Seq<IssueV>
    decreases subs.len(),
{
    if subs.len() == 0 {
        Seq::empty()
    } else {
        let sub = subs.last();
        let more = if sub.missing.text@.len() == 0 || crate::parse::node_names(kids_spec(node)).contains(sub.name@) {
            Seq::empty()
        } else {
            raise_spec(sub.missing, sub.name@, node.name_span, source)
        };
        missing_issues(subs.drop_last(), node, source) + more
    }
}

/// One node against its schema, and everything under it: its argument, its
/// props, a block that should not be empty, each child against the schema
/// its name picks (a second of one that appears once said instead), and
/// every child the schema misses.
pub open spec fn check_spec(node: KNode, schema: Node, source: Seq<char>) -> Seq<IssueV>
    decreases node, 2nat, 0int,
{
    let empty = if kids_spec(node).len() == 0 {
        raise_spec(schema.empty, schema.name@, node.name_span, source)
    } else {
        Seq::empty()
    };
    arg_issues(node, schema, source) + entries_issues(node.entries@, schema, source) + empty + kids_issues(
        node,
        schema,
        source,
        kids_spec(node).len() as int,
    ) + missing_issues(schema.children@, node, source)
}

/// The first `i` children against the schema.
pub open spec fn kids_issues(node: KNode, schema: Node, source: Seq<char>, i: int) -> Seq<IssueV>
    decreases node, 1nat, i,
{
    if i <= 0 || i > kids_spec(node).len() {
        Seq::empty()
    } else {
        let kid = kids_spec(node)[i - 1];
        let one = match sub_for(schema.children@, kid.name@) {
            None => raise_spec(schema.child_say, kid.name@, kid.name_span, source),
            Some(sub) => if sub.once && earlier(kids_spec(node), kid.name@, 0, i - 1) is Some {
                seq![
                    twice_issue(
                        kid.name@,
                        kids_spec(node)[earlier(kids_spec(node), kid.name@, 0, i - 1)->0].name_span,
                        kid.name_span,
                        sub.dup_help@,
                        source,
                    ),
                ]
            } else {
                proof {
                    match node.children {
                        Some(c) => {
                            assert(decreases_to!(node => node.children));
                            assert(decreases_to!(node.children => c));
                            assert(decreases_to!(c => c@));
                            assert(decreases_to!(c@ => c@[i - 1]));
                        },
                        None => {},
                    }
                }
                check_spec(kid, sub, source)
            },
        };
        kids_issues(node, schema, source, i - 1) + one
    }
}


fn named_at(subs: &Vec<Node>, name: &str) -> (r: Option<usize>)
    ensures
        match named_from(subs@, name@, 0) {
            Some(i) => r matches Some(j) && j as int == i && i < subs@.len(),
            None => r is None,
        },
{
    proof {
        lemma_named_in(subs@, name@, 0);
    }
    let mut k: usize = 0;
    while k < subs.len()
        invariant
            k <= subs@.len(),
            named_from(subs@, name@, 0) == named_from(subs@, name@, k as int),
        decreases subs@.len() - k,
    {
        if same(subs[k].name.as_str(), name) {
            return Some(k);
        }
        k = k + 1;
    }
    None
}

fn sub_at(subs: &Vec<Node>, name: &str) -> (r: Option<usize>)
    ensures
        match sub_for(subs@, name@) {
            Some(sub) => r matches Some(i) && i < subs@.len() && subs@[i as int] == sub,
            None => r is None,
        },
{
    proof {
        lemma_named_in(subs@, name@, 0);
        lemma_named_in(subs@, ""@, 0);
    }
    match named_at(subs, name) {
        Some(i) => Some(i),
        None => named_at(subs, ""),
    }
}

proof fn lemma_named_in(subs: Seq<Node>, name: Seq<char>, k: int)
    requires
        0 <= k,
    ensures
        named_from(subs, name, k) matches Some(i) ==> k <= i < subs.len(),
    decreases subs.len() - k,
{
    if k < subs.len() && subs[k].name@ != name {
        lemma_named_in(subs, name, k + 1);
    }
}

proof fn lemma_prop_in(props: Seq<Prop>, name: Seq<char>, k: int)
    requires
        0 <= k,
    ensures
        prop_from(props, name, k) matches Some(i) ==> k <= i < props.len(),
    decreases props.len() - k,
{
    if k < props.len() && props[k].name@ != name {
        lemma_prop_in(props, name, k + 1);
    }
}

proof fn lemma_earlier_in(kids: Seq<KNode>, name: Seq<char>, k: int, i: int)
    requires
        0 <= k,
    ensures
        earlier(kids, name, k, i) matches Some(j) ==> k <= j < i && j < kids.len(),
    decreases i - k,
{
    if k < i && k < kids.len() && kids[k].name@ != name {
        lemma_earlier_in(kids, name, k + 1, i);
    }
}

fn prop_at(props: &Vec<Prop>, name: &str) -> (r: Option<usize>)
    ensures
        match prop_from(props@, name@, 0) {
            Some(i) => r matches Some(j) && j as int == i && i < props@.len(),
            None => r is None,
        },
{
    proof {
        lemma_prop_in(props@, name@, 0);
    }
    let mut k: usize = 0;
    while k < props.len()
        invariant
            k <= props@.len(),
            prop_from(props@, name@, 0) == prop_from(props@, name@, k as int),
        decreases props@.len() - k,
    {
        if same(props[k].name.as_str(), name) {
            return Some(k);
        }
        k = k + 1;
    }
    None
}

fn earlier_at(kids: &[KNode], name: &str, i: usize) -> (r: Option<usize>)
    requires
        i <= kids@.len(),
    ensures
        match earlier(kids@, name@, 0, i as int) {
            Some(j) => r matches Some(m) && m as int == j && j < i,
            None => r is None,
        },
{
    proof {
        lemma_earlier_in(kids@, name@, 0, i as int);
    }
    let mut k: usize = 0;
    while k < i
        invariant
            k <= i <= kids@.len(),
            earlier(kids@, name@, 0, i as int) == earlier(kids@, name@, k as int, i as int),
        decreases i - k,
    {
        if same(kids[k].name.as_str(), name) {
            return Some(k);
        }
        k = k + 1;
    }
    None
}

fn check_arg(node: &KNode, schema: &Node, src: &Source, issues: &mut Issues)
    ensures
        final(issues)@ == old(issues)@ + arg_issues(*node, *schema, src.name@),
{
    match schema.arg {
        Arg::Nothing => match string_arg(node) {
            Some(stray) => schema.arg_say.raise(stray, node.name_span, src, issues),
            None => {
                assert(old(issues)@ + arg_issues(*node, *schema, src.name@) =~= old(issues)@);
            },
        },
        Arg::Str => if string_arg(node).is_none() {
            schema.arg_say.raise(schema.name.as_str(), node.name_span, src, issues);
        } else {
            assert(old(issues)@ + arg_issues(*node, *schema, src.name@) =~= old(issues)@);
        },
        Arg::Bool => if bool_arg(node).is_none() {
            schema.arg_say.raise(schema.name.as_str(), node.name_span, src, issues);
        } else {
            assert(old(issues)@ + arg_issues(*node, *schema, src.name@) =~= old(issues)@);
        },
        Arg::Strs => {
            assert(old(issues)@ + arg_issues(*node, *schema, src.name@) =~= old(issues)@);
        },
    }
}

fn check_entry(e: &KEntry, schema: &Node, src: &Source, issues: &mut Issues)
    ensures
        final(issues)@ == old(issues)@ + entry_issues(*e, *schema, src.name@),
{
    match &e.name {
        None => {
            assert(old(issues)@ + entry_issues(*e, *schema, src.name@) =~= old(issues)@);
        },
        Some(key) => match prop_at(&schema.props, key.as_str()) {
            Some(i) => {
                let prop = &schema.props[i];
                let ok = match prop.kind {
                    Kind::Str => match &e.value {
                        KValue::String(_) => true,
                        _ => false,
                    },
                    Kind::Bool => match &e.value {
                        KValue::Bool(_) => true,
                        _ => false,
                    },
                };
                assert(ok == prop_ok(schema.props@[i as int].kind, e.value));
                if !ok {
                    prop.say.raise(key.as_str(), e.span, src, issues);
                } else {
                    assert(old(issues)@ + entry_issues(*e, *schema, src.name@) =~= old(issues)@);
                }
            },
            None => schema.prop_say.raise(key.as_str(), e.span, src, issues),
        },
    }
}

fn check_entries(node: &KNode, schema: &Node, src: &Source, issues: &mut Issues)
    ensures
        final(issues)@ == old(issues)@ + entries_issues(node.entries@, *schema, src.name@),
{
    let ghost start = issues@;
    let mut i: usize = 0;
    while i < node.entries.len()
        invariant
            i <= node.entries@.len(),
            issues@ == start + entries_issues(node.entries@.take(i as int), *schema, src.name@),
        decreases node.entries@.len() - i,
    {
        let ghost before = issues@;
        check_entry(&node.entries[i], schema, src, issues);
        assert(node.entries@.take(i as int + 1).drop_last() =~= node.entries@.take(i as int));
        assert(issues@ =~= start + entries_issues(node.entries@.take(i as int + 1), *schema, src.name@));
        i = i + 1;
    }
    assert(node.entries@.take(i as int) =~= node.entries@);
}

fn has_child(node: &KNode, name: &str) -> (r: bool)
    ensures
        r == crate::parse::node_names(kids_spec(*node)).contains(name@),
{
    let children = kids(node);
    let ghost names = crate::parse::node_names(kids_spec(*node));
    let mut i: usize = 0;
    while i < children.len()
        invariant
            children@ == kids_spec(*node),
            names == crate::parse::node_names(kids_spec(*node)),
            i <= children@.len(),
            forall|j: int| 0 <= j < i ==> names[j] != name@,
        decreases children@.len() - i,
    {
        if same(children[i].name.as_str(), name) {
            assert(names[i as int] == name@);
            return true;
        }
        i = i + 1;
    }
    false
}

fn check_missing(node: &KNode, schema: &Node, src: &Source, issues: &mut Issues)
    ensures
        final(issues)@ == old(issues)@ + missing_issues(schema.children@, *node, src.name@),
{
    let ghost start = issues@;
    let mut i: usize = 0;
    while i < schema.children.len()
        invariant
            i <= schema.children@.len(),
            issues@ == start + missing_issues(schema.children@.take(i as int), *node, src.name@),
        decreases schema.children@.len() - i,
    {
        let sub = &schema.children[i];
        assert(schema.children@.take(i as int + 1).drop_last() =~= schema.children@.take(i as int));
        assert(schema.children@.take(i as int + 1).last() == *sub);
        if sub.missing.silent() || has_child(node, sub.name.as_str()) {
            assert(issues@ =~= start + missing_issues(schema.children@.take(i as int + 1), *node, src.name@));
        } else {
            sub.missing.raise(sub.name.as_str(), node.name_span, src, issues);
            assert(issues@ =~= start + missing_issues(schema.children@.take(i as int + 1), *node, src.name@));
        }
        i = i + 1;
    }
    assert(schema.children@.take(i as int) =~= schema.children@);
}

/// One node against its schema, and everything under it.
pub fn check(node: &KNode, schema: &Node, src: &Source, issues: &mut Issues)
    ensures
        final(issues)@ == old(issues)@ + check_spec(*node, *schema, src.name@),
    decreases size(*node),
{
    let ghost start = issues@;
    check_arg(node, schema, src, issues);
    check_entries(node, schema, src, issues);
    let children = kids(node);
    if children.len() == 0 {
        schema.empty.raise(schema.name.as_str(), node.name_span, src, issues);
    }
    let ghost empty = if kids_spec(*node).len() == 0 {
        raise_spec(schema.empty, schema.name@, node.name_span, src.name@)
    } else {
        Seq::empty()
    };
    let ghost head = start + arg_issues(*node, *schema, src.name@) + entries_issues(node.entries@, *schema, src.name@) + empty;
    assert(issues@ =~= head);
    let mut i: usize = 0;
    while i < children.len()
        invariant
            children@ == kids_spec(*node),
            i <= children@.len(),
            issues@ == head + kids_issues(*node, *schema, src.name@, i as int),
        decreases children@.len() - i,
    {
        let kid = &children[i];
        let ghost before = issues@;
        proof {
            lemma_kid_smaller(*node, i as int);
            assert(kids_spec(*node)[i as int] == *kid);
        }
        match sub_at(&schema.children, kid.name.as_str()) {
            None => {
                schema.child_say.raise(kid.name.as_str(), kid.name_span, src, issues);
                assert(issues@ == before + raise_spec(schema.child_say, kid.name@, kid.name_span, src.name@));
            },
            Some(k) => {
                let sub = &schema.children[k];
                let twice = if sub.once {
                    earlier_at(children, kid.name.as_str(), i)
                } else {
                    None
                };
                match twice {
                    Some(j) => {
                        let issue = Issue::new(cat3("`", kid.name.as_str(), "` is declared twice"), src).at(
                            children[j].name_span,
                            owned("first here"),
                        ).at(kid.name_span, owned("and again here"));
                        if sub.dup_help.unicode_len() == 0 {
                            issues.push(issue);
                        } else {
                            issues.push(issue.help(sub.dup_help.clone()));
                        }
                        assert(earlier(kids_spec(*node), kid.name@, 0, i as int) == Some(j as int));
                        assert(issues@ == before.push(
                            twice_issue(kid.name@, children@[j as int].name_span, kid.name_span, sub.dup_help@, src.name@),
                        ));
                    },
                    None => {
                        check(kid, sub, src, issues);
                        assert(issues@ == before + check_spec(*kid, *sub, src.name@));
                    },
                }
            },
        }
        assert(issues@ =~= head + kids_issues(*node, *schema, src.name@, i as int + 1));
        i = i + 1;
    }
    check_missing(node, schema, src, issues);
    assert(issues@ =~= start + check_spec(*node, *schema, src.name@));
}

} // verus!
