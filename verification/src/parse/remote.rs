//! `sources`, the module collections references and copies resolve against.

use crate::diag::{at_v, bare, help_v, Issue, IssueV, Issues, Source, Span};
use crate::model::image::{is_name, is_name_spec};
use crate::model::remote::{At, Collection};
use crate::parse::asset::{pin_spec, pin_view, read_pin, PinV};
use crate::parse::kdl::KNode;
use crate::parse::{child, child_spec, kids, kids_spec, string_arg, string_arg_spec};
use crate::text::{cat, cat3, cat5, first_true, owned, same};
use vstd::prelude::*;

verus! {

/// Where a collection is, as plain values.
pub enum AtV {
    Dir(Seq<char>),
    Archive(PinV),
}

pub type CollectionV = (Seq<char>, AtV, Span);

pub open spec fn collection_view(c: Collection) -> CollectionV {
    (
        c.name@,
        match c.at {
            At::Dir(d) => AtV::Dir(d@),
            At::Archive(e) => AtV::Archive(pin_view(e)),
        },
        c.span,
    )
}

/// The directory a collection names, where it names a nonempty one.
pub open spec fn dir_spec(node: KNode) -> Option<Seq<char>> {
    match string_arg_spec(node) {
        Some(d) if d.len() > 0 => Some(d),
        _ => None,
    }
}

/// What one child of `sources` gives, and what it raises. The node's name is
/// the owner; an argument is a directory on this machine, and a `pin` block
/// an archive that is fetched.
pub open spec fn collection_spec(node: KNode, source: Seq<char>) -> (Option<CollectionV>, Seq<IssueV>) {
    let name = node.name@;
    let span = node.name_span;
    if !is_name_spec(name) {
        (
            None,
            seq![
                help_v(
                    at_v(bare("invalid collection name `"@ + name + "`"@, source), span, "lowercase, digits and dashes, starting with a letter"@),
                    "the name qualifies references as `<name>/<module>` and reaches every image that lists one of them"@,
                ),
            ],
        )
    } else {
        match (dir_spec(node), child_spec(node, "pin"@)) {
            (Some(d), Some(pin)) => (
                Some((name, AtV::Dir(d), span)),
                seq![
                    help_v(
                        at_v(bare("`"@ + name + "` is a directory, so its `pin` says nothing"@, source), pin.name_span, "nothing is fetched"@),
                        "a collection on this machine is read where it is; a pin belongs on one that is downloaded"@,
                    ),
                ],
            ),
            (Some(d), None) => (Some((name, AtV::Dir(d), span)), Seq::empty()),
            (None, Some(pin)) => (Some((name, AtV::Archive(pin_spec(pin)), span)), Seq::empty()),
            (None, None) => (
                None,
                seq![
                    help_v(
                        at_v(bare("`"@ + name + "` says nothing about where the collection is"@, source), span, "no location given"@),
                        "a directory on this machine, `"@ + name + " \"../modules\"`, or a pinned archive, `"@ + name
                            + " { pin { url \"https://host/{version}.tar.gz\" } }`"@,
                    ),
                ],
            ),
        }
    }
}

/// `sources { tectonic-os { pin { url "https://host/{version}.tar.gz" ... } };
/// scratch "../modules" }`: one collection.
pub fn parse_collection(node: &KNode, src: &Source, issues: &mut Issues) -> (r: Option<Collection>)
    ensures
        match collection_spec(*node, src.name@).0 {
            Some(c) => r matches Some(v) && collection_view(v) == c,
            None => r is None,
        },
        final(issues)@ == old(issues)@ + collection_spec(*node, src.name@).1,
{
    let ghost start = issues@;
    let name = node.name.as_str();
    let span = node.name_span;
    if !is_name(name) {
        issues.push(
            Issue::new(cat3("invalid collection name `", name, "`"), src).at(span, owned("lowercase, digits and dashes, starting with a letter")).help(
                owned("the name qualifies references as `<name>/<module>` and reaches every image that lists one of them"),
            ),
        );
        assert(issues@ =~= start + collection_spec(*node, src.name@).1);
        return None;
    }
    let dir = match string_arg(node) {
        Some(d) => if d.unicode_len() > 0 {
            Some(d)
        } else {
            None
        },
        None => None,
    };
    let pin = child(node, "pin");
    match (dir, pin) {
        (Some(d), Some(p)) => {
            issues.push(
                Issue::new(cat3("`", name, "` is a directory, so its `pin` says nothing"), src).at(p.name_span, owned("nothing is fetched")).help(
                    owned("a collection on this machine is read where it is; a pin belongs on one that is downloaded"),
                ),
            );
            assert(issues@ =~= start + collection_spec(*node, src.name@).1);
            Some(Collection { name: owned(name), at: At::Dir(owned(d)), span })
        },
        (Some(d), None) => {
            assert(issues@ =~= start + Seq::<IssueV>::empty());
            Some(Collection { name: owned(name), at: At::Dir(owned(d)), span })
        },
        (None, Some(p)) => {
            assert(issues@ =~= start + Seq::<IssueV>::empty());
            Some(Collection { name: owned(name), at: At::Archive(read_pin(p)), span })
        },
        (None, None) => {
            let lead = cat5("a directory on this machine, `", name, " \"../modules\"`, or a pinned archive, `", name, " { pin { url \"https://host/{version}.tar.gz\" } }`");
            issues.push(
                Issue::new(cat3("`", name, "` says nothing about where the collection is"), src).at(span, owned("no location given")).help(lead),
            );
            assert(issues@ =~= start + collection_spec(*node, src.name@).1);
            None
        },
    }
}

/// The first collection already declared under that name.
pub open spec fn declared_at(done: Seq<CollectionV>, name: Seq<char>) -> Option<int> {
    first_true(done.map_values(|c: CollectionV| c.0 == name))
}

/// One child of a `sources` block onto the collections declared before it:
/// a second collection under one name raises an issue and is dropped.
pub open spec fn source_step(cs: Seq<CollectionV>, node: KNode, source: Seq<char>) -> (Seq<CollectionV>, Seq<IssueV>) {
    let (c, cis) = collection_spec(node, source);
    match c {
        None => (cs, cis),
        Some(v) => match declared_at(cs, v.0) {
            Some(d) => (
                cs,
                cis + seq![
                    help_v(
                        at_v(at_v(bare("collection `"@ + v.0 + "` is declared twice"@, source), cs[d].2, "first here"@), v.2, "and again here"@),
                        "both would import into the same directory, so one of them would be shadowed silently"@,
                    ),
                ],
            ),
            None => (cs.push(v), cis),
        },
    }
}

/// Every child of a `sources` block in turn, from the collections `done`.
pub open spec fn sources_spec(kids: Seq<KNode>, done: Seq<CollectionV>, source: Seq<char>) -> (Seq<CollectionV>, Seq<IssueV>)
    decreases kids.len(),
{
    if kids.len() == 0 {
        (done, Seq::empty())
    } else {
        let (cs, is) = sources_spec(kids.drop_last(), done, source);
        let (cs2, is2) = source_step(cs, kids.last(), source);
        (cs2, is + is2)
    }
}

fn find_declared(done: &Vec<Collection>, name: &str) -> (r: Option<usize>)
    ensures
        match declared_at(done@.map_values(|c: Collection| collection_view(c)), name@) {
            Some(i) => r matches Some(j) && j as int == i && j < done@.len(),
            None => r is None,
        },
{
    let ghost marks = done@.map_values(|c: Collection| collection_view(c)).map_values(|c: CollectionV| c.0 == name@);
    let mut i: usize = 0;
    while i < done.len()
        invariant
            marks == done@.map_values(|c: Collection| collection_view(c)).map_values(|c: CollectionV| c.0 == name@),
            i <= done@.len(),
            forall|j: int| 0 <= j < i ==> !marks[j],
        decreases done@.len() - i,
    {
        if same(done[i].name.as_str(), name) {
            proof {
                crate::text::lemma_first_true(marks, i as int);
            }
            return Some(i);
        }
        i = i + 1;
    }
    proof {
        crate::text::lemma_first_true(marks, i as int);
    }
    None
}

fn add_collection(node: &KNode, sources: &mut Vec<Collection>, src: &Source, issues: &mut Issues)
    ensures
        final(sources)@.map_values(|c: Collection| collection_view(c)) == source_step(
            old(sources)@.map_values(|c: Collection| collection_view(c)),
            *node,
            src.name@,
        ).0,
        final(issues)@ == old(issues)@ + source_step(old(sources)@.map_values(|c: Collection| collection_view(c)), *node, src.name@).1,
{
    let ghost start = issues@;
    let ghost prior = sources@;
    match parse_collection(node, src, issues) {
        None => {},
        Some(c) => match find_declared(sources, c.name.as_str()) {
            Some(d) => {
                issues.push(
                    Issue::new(cat3("collection `", c.name.as_str(), "` is declared twice"), src).at(sources[d].span, owned("first here")).at(
                        c.span,
                        owned("and again here"),
                    ).help(owned("both would import into the same directory, so one of them would be shadowed silently")),
                );
            },
            None => {
                sources.push(c);
                assert(sources@.map_values(|c: Collection| collection_view(c)) =~= prior.map_values(|c: Collection| collection_view(c)).push(
                    collection_view(sources@.last()),
                ));
            },
        },
    }
    assert(issues@ =~= start + source_step(prior.map_values(|c: Collection| collection_view(c)), *node, src.name@).1);
}

/// `sources { tectonic-os "..." }`: each child names a collection by the
/// owner its modules land under.
pub fn parse_sources(block: &KNode, sources: &mut Vec<Collection>, src: &Source, issues: &mut Issues)
    ensures
        final(sources)@.map_values(|c: Collection| collection_view(c)) == sources_spec(
            kids_spec(*block),
            old(sources)@.map_values(|c: Collection| collection_view(c)),
            src.name@,
        ).0,
        final(issues)@ == old(issues)@ + sources_spec(kids_spec(*block), old(sources)@.map_values(|c: Collection| collection_view(c)), src.name@).1,
{
    let ghost start = issues@;
    let ghost done0 = sources@.map_values(|c: Collection| collection_view(c));
    let ks = kids(block);
    let mut i: usize = 0;
    assert(ks@.take(0) =~= Seq::<KNode>::empty());
    assert(issues@ =~= start + Seq::<IssueV>::empty());
    while i < ks.len()
        invariant
            ks@ == kids_spec(*block),
            i <= ks@.len(),
            sources@.map_values(|c: Collection| collection_view(c)) == sources_spec(ks@.take(i as int), done0, src.name@).0,
            issues@ == start + sources_spec(ks@.take(i as int), done0, src.name@).1,
        decreases ks@.len() - i,
    {
        assert(ks@.take(i as int + 1).drop_last() =~= ks@.take(i as int));
        assert(ks@.take(i as int + 1).last() == ks@[i as int]);
        add_collection(&ks[i], sources, src, issues);
        i = i + 1;
    }
    assert(ks@.take(i as int) =~= ks@);
}

/// No two collections share a name.
pub open spec fn unique_collections(cs: Seq<CollectionV>) -> bool {
    forall|i: int, j: int| 0 <= i < j < cs.len() ==> cs[i].0 != cs[j].0
}

proof fn lemma_source_step_unique(cs: Seq<CollectionV>, node: KNode, source: Seq<char>)
    requires
        unique_collections(cs),
    ensures
        unique_collections(source_step(cs, node, source).0),
{
    match collection_spec(node, source).0 {
        Some(v) => if declared_at(cs, v.0) is None {
            let marks = cs.map_values(|c: CollectionV| c.0 == v.0);
            assert forall|j: int| 0 <= j < cs.len() implies cs[j].0 != v.0 by {
                if cs[j].0 == v.0 {
                    assert(marks[j]);
                }
            }
            let out = cs.push(v);
            assert forall|i: int, j: int| 0 <= i < j < out.len() implies out[i].0 != out[j].0 by {
                if j == cs.len() {
                    assert(out[i] == cs[i]);
                }
            }
        },
        None => {},
    }
}

/// A `sources` block never declares one collection twice: a second under
/// one name is dropped, so the names stay distinct.
pub proof fn lemma_sources_unique(kids: Seq<KNode>, done: Seq<CollectionV>, source: Seq<char>)
    requires
        unique_collections(done),
    ensures
        unique_collections(sources_spec(kids, done, source).0),
    decreases kids.len(),
{
    if kids.len() > 0 {
        lemma_sources_unique(kids.drop_last(), done, source);
        lemma_source_step_unique(sources_spec(kids.drop_last(), done, source).0, kids.last(), source);
    }
}

} // verus!
