//! repo.kdl and the image files beside it, read into one `List`.

use crate::diag::{bare, help_v, Issue, IssueV, Issues, Source, Span};
use crate::layout::{as_image_file, is_image_file, join_path, join_path_exec, trim_end_matches, IMAGE_FILE, IMAGE_SUFFIX, REPO_FILE};
use crate::parse::repo::{compatible, list_issues, pins_spec, schema_issue};
use crate::text::{ascending, cat3, cat4, sorted_distinct, views, is_suffix};
use crate::model::image::{Image, List, Seed, Workflow, SCHEMA_VERSION};
use crate::model::remote::Collection;
use crate::parse::image::{bool_arg_spec, image_facts, image_raised, image_view, parse_image, ImageV};
use crate::parse::kdl::{kdl_document, parse_kdl, KNode};
use crate::parse::module::prop_span_spec;
use crate::parse::remote::{collection_view, parse_sources, sources_spec, CollectionV};
use crate::parse::repo::{
    at_spec, cadence_spec, first_node, int_arg_spec, parse_workflows, publish_help, scan_help, span_or_default, workflow_views,
    workflows_spec, WorkflowV,
};
use crate::parse::{
    bool_arg, check_sha256, child, child_spec, int_arg, kids_spec, node_names, prop, prop_span, prop_spec, sha256_issues, string_arg,
    string_arg_spec, syntax_issue, syntax_spec,
};
use crate::text::{cat, lower_spec, owned, replace_char, same, swap_char, to_lower};
use vstd::prelude::*;

verus! {

/// The daily build's time where repo.kdl names none: 04:00 UTC.
pub const DEFAULT_AT: (u32, u32) = (4, 0);

/// What the files read so far say, as plain values.
#[verifier::ext_equal]
pub struct ListV {
    pub images: Seq<ImageV>,
    pub at: (u32, u32),
    pub publishes: bool,
    pub scans: bool,
    pub workflows: Seq<WorkflowV>,
    pub sources: Seq<CollectionV>,
    pub default_image: Option<Seq<char>>,
    pub pr_image: Option<Seq<char>>,
    pub seed: Option<(Seq<char>, Seq<char>)>,
    pub schema_seen: bool,
    pub schema: Option<u32>,
    pub name: Seq<char>,
    pub id: Seq<char>,
    pub audit: bool,
    pub manifest: bool,
}

pub open spec fn opt_view(o: Option<String>) -> Option<Seq<char>> {
    match o {
        Some(s) => Some(s@),
        None => None,
    }
}

pub open spec fn list_view(l: List) -> ListV {
    ListV {
        images: l.images@.map_values(|i: Image| image_view(i)),
        at: l.workflows_at,
        publishes: l.publishes_scheduled,
        scans: l.scans_scheduled,
        workflows: workflow_views(l.workflows@),
        sources: l.sources@.map_values(|c: Collection| collection_view(c)),
        default_image: opt_view(l.default_image_id),
        pr_image: opt_view(l.pr_image_id),
        seed: match l.seed {
            Some(s) => Some((s.image@, s.collection@)),
            None => None,
        },
        schema_seen: l.schema_version_seen,
        schema: l.schema_version,
        name: l.name@,
        id: l.id@,
        audit: l.audit_enforce,
        manifest: l.manifest_label,
    }
}

/// A child's argument as a boolean, off where there is none.
pub open spec fn switch(node: KNode, name: Seq<char>) -> bool {
    match child_spec(node, name) {
        Some(c) => bool_arg_spec(c) == Some(true),
        None => false,
    }
}

pub open spec fn on_image(l: ListV, node: KNode, source: Seq<char>) -> (ListV, Seq<IssueV>) {
    (ListV { images: l.images.push(image_facts(node, source)), ..l }, image_raised(node, source))
}

pub open spec fn on_workflows(l: ListV, node: KNode, source: Seq<char>) -> (ListV, Seq<IssueV>) {
    let (at, ais) = at_spec(node, l.at, source);
    let (publishes, pis) = cadence_spec(node, "publish"@, l.publishes, publish_help(), source);
    let (scans, sis) = cadence_spec(node, "scan"@, l.scans, scan_help(), source);
    let (ws, wis) = workflows_spec(kids_spec(node), l.workflows, source);
    (ListV { at, publishes, scans, workflows: ws, ..l }, ais + pis + sis + wis)
}

pub open spec fn on_sources(l: ListV, node: KNode, source: Seq<char>) -> (ListV, Seq<IssueV>) {
    let (cs, cis) = sources_spec(kids_spec(node), l.sources, source);
    (ListV { sources: cs, ..l }, cis)
}

pub open spec fn on_seed(l: ListV, node: KNode) -> ListV {
    let seed = match string_arg_spec(node) {
        Some(image) => Some((image, match prop_spec(node, "collection"@) {
            Some(c) => c,
            None => Seq::empty(),
        })),
        None => None,
    };
    ListV { seed, ..l }
}

pub open spec fn on_tect(node: KNode, source: Seq<char>) -> Seq<IssueV> {
    match prop_spec(node, "sha256"@) {
        Some(sha) => sha256_issues(sha, "`tect-version`"@, span_or_default(prop_span_spec(node, "sha256"@)), source),
        None => Seq::empty(),
    }
}

pub open spec fn on_name(l: ListV, node: KNode) -> ListV {
    let name = match string_arg_spec(node) {
        Some(s) => s,
        None => Seq::empty(),
    };
    ListV { name, id: swap_char(lower_spec(name), ' ', '-'), ..l }
}

/// What one top-level node of repo.kdl (`repo`) or of an image file adds
/// to what the files before it said, and what it raises.
#[verifier::opaque]
pub open spec fn file_step(l: ListV, node: KNode, repo: bool, source: Seq<char>) -> (ListV, Seq<IssueV>) {
    let n = node.name@;
    if !repo {
        if n == "image"@ {
            on_image(l, node, source)
        } else {
            (l, Seq::empty())
        }
    } else if n == "workflows"@ {
        on_workflows(l, node, source)
    } else if n == "sources"@ {
        on_sources(l, node, source)
    } else if n == "default-image"@ {
        (ListV { default_image: string_arg_spec(node), ..l }, Seq::empty())
    } else if n == "pr-image"@ {
        (ListV { pr_image: string_arg_spec(node), ..l }, Seq::empty())
    } else if n == "seed"@ {
        (on_seed(l, node), Seq::empty())
    } else if n == "schema-version"@ {
        (ListV { schema_seen: true, schema: if int_arg_spec(node) is Some { Some(1u32) } else { None }, ..l }, Seq::empty())
    } else if n == "tect-version"@ {
        (l, on_tect(node, source))
    } else if n == "name"@ {
        (on_name(l, node), Seq::empty())
    } else if n == "audit"@ {
        (ListV { audit: switch(node, "enforce"@), ..l }, Seq::empty())
    } else if n == "manifest"@ {
        (ListV { manifest: switch(node, "label"@), ..l }, Seq::empty())
    } else {
        (l, Seq::empty())
    }
}

pub open spec fn file_nodes(nodes: Seq<KNode>, l: ListV, repo: bool, source: Seq<char>) -> (ListV, Seq<IssueV>)
    decreases nodes.len(),
{
    if nodes.len() == 0 {
        (l, Seq::empty())
    } else {
        let (l1, is1) = file_nodes(nodes.drop_last(), l, repo, source);
        let (l2, is2) = file_step(l1, nodes.last(), repo, source);
        (l2, is1 + is2)
    }
}

pub open spec fn no_image_issue(source: Seq<char>) -> IssueV {
    help_v(
        bare(source + " declares no image"@, source),
        "an image file holds at least one `image` node: `image { name \"Name\" }`, what the image calls itself in os-release and what it publishes as"@,
    )
}

/// What one file holding `text` adds, and what it raises: a text that is
/// not a document is one issue; an image file with no `image` node in it is
/// another.
pub open spec fn file_spec(text: Seq<char>, l: ListV, repo: bool, source: Seq<char>) -> (ListV, Seq<IssueV>) {
    match kdl_document(text) {
        Err(ps) => (l, seq![syntax_spec(ps, source, source)]),
        Ok(nodes) => nodes_spec(nodes, l, repo, source),
    }
}

/// What one parsed file's nodes make of the list, and raise: an image file
/// that declares no image is said so.
pub open spec fn nodes_spec(nodes: Seq<KNode>, l: ListV, repo: bool, source: Seq<char>) -> (ListV, Seq<IssueV>) {
    let (l2, is) = file_nodes(nodes, l, repo, source);
    let none: Seq<IssueV> = if !repo && !node_names(nodes).contains("image"@) {
        seq![no_image_issue(source)]
    } else {
        Seq::empty()
    };
    (l2, is + none)
}

/// What the files do not decide: the repo.kdl source and the files read.
pub open spec fn list_frame(a: List, b: List) -> bool {
    a.repo_src == b.repo_src && a.files == b.files
}

fn switch_of(node: &KNode, name: &str) -> (r: bool)
    ensures
        r == switch(*node, name@),
{
    match child(node, name) {
        Some(c) => match bool_arg(c) {
            Some(b) => b,
            None => false,
        },
        None => false,
    }
}

fn take_image(l: &mut List, node: &KNode, src: &Source, issues: &mut Issues)
    ensures
        list_view(*final(l)) == on_image(list_view(*old(l)), *node, src.name@).0,
        final(issues)@ == old(issues)@ + on_image(list_view(*old(l)), *node, src.name@).1,
        list_frame(*final(l), *old(l)),
{
    let ghost v0 = list_view(*l);
    let ghost before = l.images@;
    let img = parse_image(node, src, issues);
    l.images.push(img);
    assert(l.images@.map_values(|i: Image| image_view(i)) =~= before.map_values(|i: Image| image_view(i)).push(image_facts(*node, src.name@)));
    assert(list_view(*l) =~= on_image(v0, *node, src.name@).0);
}

#[verifier::spinoff_prover]
#[verifier::rlimit(60)]
fn take_workflows(l: &mut List, node: &KNode, src: &Source, issues: &mut Issues)
    ensures
        list_view(*final(l)) == on_workflows(list_view(*old(l)), *node, src.name@).0,
        final(issues)@ == old(issues)@ + on_workflows(list_view(*old(l)), *node, src.name@).1,
        list_frame(*final(l), *old(l)),
{
    let ghost v0 = list_view(*l);
    let ghost start = issues@;
    parse_workflows(node, &mut l.workflows_at, &mut l.publishes_scheduled, &mut l.scans_scheduled, &mut l.workflows, src, issues);
    assert(list_view(*l) =~= on_workflows(v0, *node, src.name@).0);
    assert(issues@ =~= start + on_workflows(v0, *node, src.name@).1);
}

fn take_sources(l: &mut List, node: &KNode, src: &Source, issues: &mut Issues)
    ensures
        list_view(*final(l)) == on_sources(list_view(*old(l)), *node, src.name@).0,
        final(issues)@ == old(issues)@ + on_sources(list_view(*old(l)), *node, src.name@).1,
        list_frame(*final(l), *old(l)),
{
    let ghost v0 = list_view(*l);
    parse_sources(node, &mut l.sources, src, issues);
    assert(list_view(*l) =~= on_sources(v0, *node, src.name@).0);
}

fn take_default(l: &mut List, node: &KNode)
    ensures
        list_view(*final(l)) == (ListV { default_image: string_arg_spec(*node), ..list_view(*old(l)) }),
        list_frame(*final(l), *old(l)),
{
    let ghost v0 = list_view(*l);
    l.default_image_id = match string_arg(node) {
        Some(s) => Some(owned(s)),
        None => None,
    };
    assert(list_view(*l) =~= (ListV { default_image: string_arg_spec(*node), ..v0 }));
}

fn take_pr(l: &mut List, node: &KNode)
    ensures
        list_view(*final(l)) == (ListV { pr_image: string_arg_spec(*node), ..list_view(*old(l)) }),
        list_frame(*final(l), *old(l)),
{
    let ghost v0 = list_view(*l);
    l.pr_image_id = match string_arg(node) {
        Some(s) => Some(owned(s)),
        None => None,
    };
    assert(list_view(*l) =~= (ListV { pr_image: string_arg_spec(*node), ..v0 }));
}

fn take_seed(l: &mut List, node: &KNode)
    ensures
        list_view(*final(l)) == on_seed(list_view(*old(l)), *node),
        list_frame(*final(l), *old(l)),
{
    let ghost v0 = list_view(*l);
    l.seed = match string_arg(node) {
        Some(image) => Some(Seed {
            image: owned(image),
            collection: match prop(node, "collection") {
                Some(c) => owned(c),
                None => String::new(),
            },
        }),
        None => None,
    };
    assert(list_view(*l) =~= on_seed(v0, *node));
}

fn take_schema(l: &mut List, node: &KNode)
    ensures
        list_view(*final(l)) == (ListV {
            schema_seen: true,
            schema: if int_arg_spec(*node) is Some { Some(1u32) } else { None },
            ..list_view(*old(l))
        }),
        list_frame(*final(l), *old(l)),
{
    let ghost v0 = list_view(*l);
    l.schema_version_seen = true;
    l.schema_version = match int_arg(node) {
        Some(_) => Some(SCHEMA_VERSION),
        None => None,
    };
    assert(list_view(*l) =~= (ListV { schema_seen: true, schema: if int_arg_spec(*node) is Some { Some(1u32) } else { None }, ..v0 }));
}

fn take_tect(node: &KNode, src: &Source, issues: &mut Issues)
    ensures
        final(issues)@ == old(issues)@ + on_tect(*node, src.name@),
{
    let ghost start = issues@;
    match prop(node, "sha256") {
        Some(sha) => {
            let span = crate::parse::repo::span_of(prop_span(node, "sha256"));
            check_sha256(sha, "`tect-version`", span, src, issues);
        },
        None => {
            assert(issues@ =~= start + Seq::<IssueV>::empty());
        },
    }
}

fn take_name(l: &mut List, node: &KNode)
    ensures
        list_view(*final(l)) == on_name(list_view(*old(l)), *node),
        list_frame(*final(l), *old(l)),
{
    let ghost v0 = list_view(*l);
    l.name = match string_arg(node) {
        Some(s) => owned(s),
        None => String::new(),
    };
    let lowered = to_lower(l.name.as_str());
    l.id = replace_char(lowered.as_str(), ' ', '-');
    assert(list_view(*l) =~= on_name(v0, *node));
}

fn take_audit(l: &mut List, node: &KNode)
    ensures
        list_view(*final(l)) == (ListV { audit: switch(*node, "enforce"@), ..list_view(*old(l)) }),
        list_frame(*final(l), *old(l)),
{
    let ghost v0 = list_view(*l);
    l.audit_enforce = switch_of(node, "enforce");
    assert(list_view(*l) =~= (ListV { audit: switch(*node, "enforce"@), ..v0 }));
}

fn take_manifest(l: &mut List, node: &KNode)
    ensures
        list_view(*final(l)) == (ListV { manifest: switch(*node, "label"@), ..list_view(*old(l)) }),
        list_frame(*final(l), *old(l)),
{
    let ghost v0 = list_view(*l);
    l.manifest_label = switch_of(node, "label");
    assert(list_view(*l) =~= (ListV { manifest: switch(*node, "label"@), ..v0 }));
}

/// One top-level node onto what the files before it said.
#[verifier::rlimit(40)]
fn take_node(l: &mut List, node: &KNode, repo: bool, src: &Source, issues: &mut Issues)
    ensures
        list_view(*final(l)) == file_step(list_view(*old(l)), *node, repo, src.name@).0,
        final(issues)@ == old(issues)@ + file_step(list_view(*old(l)), *node, repo, src.name@).1,
        list_frame(*final(l), *old(l)),
{
    reveal(file_step);
    let ghost start = issues@;
    let n = node.name.as_str();
    if !repo {
        if same(n, "image") {
            take_image(l, node, src, issues);
        } else {
            assert(issues@ =~= start + Seq::<IssueV>::empty());
        }
    } else if same(n, "workflows") {
        take_workflows(l, node, src, issues);
    } else if same(n, "sources") {
        take_sources(l, node, src, issues);
    } else if same(n, "default-image") {
        take_default(l, node);
        assert(issues@ =~= start + Seq::<IssueV>::empty());
    } else if same(n, "pr-image") {
        take_pr(l, node);
        assert(issues@ =~= start + Seq::<IssueV>::empty());
    } else if same(n, "seed") {
        take_seed(l, node);
        assert(issues@ =~= start + Seq::<IssueV>::empty());
    } else if same(n, "schema-version") {
        take_schema(l, node);
        assert(issues@ =~= start + Seq::<IssueV>::empty());
    } else if same(n, "tect-version") {
        take_tect(node, src, issues);
    } else if same(n, "name") {
        take_name(l, node);
        assert(issues@ =~= start + Seq::<IssueV>::empty());
    } else if same(n, "audit") {
        take_audit(l, node);
        assert(issues@ =~= start + Seq::<IssueV>::empty());
    } else if same(n, "manifest") {
        take_manifest(l, node);
        assert(issues@ =~= start + Seq::<IssueV>::empty());
    } else {
        assert(issues@ =~= start + Seq::<IssueV>::empty());
    }
}

fn has_image(nodes: &Vec<KNode>) -> (r: bool)
    ensures
        r == node_names(nodes@).contains("image"@),
{
    let mut i: usize = 0;
    while i < nodes.len()
        invariant
            i <= nodes@.len(),
            forall|j: int| 0 <= j < i ==> node_names(nodes@)[j] != "image"@,
        decreases nodes@.len() - i,
    {
        if same(nodes[i].name.as_str(), "image") {
            assert(node_names(nodes@)[i as int] == "image"@);
            return true;
        }
        i = i + 1;
    }
    false
}

impl List {
    /// One file holding `text`, which is repo.kdl where `repo`, and an image
    /// file otherwise.
    pub fn parse_file(&mut self, src: &Source, text: &str, repo: bool, issues: &mut Issues)
        ensures
            list_view(*final(self)) == file_spec(text@, list_view(*old(self)), repo, src.name@).0,
            final(issues)@ == old(issues)@ + file_spec(text@, list_view(*old(self)), repo, src.name@).1,
            list_frame(*final(self), *old(self)),
    {
        let nodes = match parse_kdl(text) {
            Ok(n) => n,
            Err(err) => {
                issues.push(syntax_issue(&err, src.name.as_str(), src));
                return;
            },
        };
        self.parse_nodes(src, &nodes, repo, issues);
    }

    /// One parsed file's nodes, which is repo.kdl where `repo`, and an image
    /// file otherwise.
    pub fn parse_nodes(&mut self, src: &Source, nodes: &Vec<KNode>, repo: bool, issues: &mut Issues)
        ensures
            list_view(*final(self)) == nodes_spec(nodes@, list_view(*old(self)), repo, src.name@).0,
            final(issues)@ == old(issues)@ + nodes_spec(nodes@, list_view(*old(self)), repo, src.name@).1,
            list_frame(*final(self), *old(self)),
    {
        let ghost start = issues@;
        let ghost v0 = list_view(*self);
        let mut i: usize = 0;
        assert(nodes@.take(0) =~= Seq::<KNode>::empty());
        assert(issues@ =~= start + Seq::<IssueV>::empty());
        while i < nodes.len()
            invariant
                i <= nodes@.len(),
                list_view(*self) == file_nodes(nodes@.take(i as int), v0, repo, src.name@).0,
                issues@ == start + file_nodes(nodes@.take(i as int), v0, repo, src.name@).1,
                list_frame(*self, *old(self)),
            decreases nodes@.len() - i,
        {
            assert(nodes@.take(i as int + 1).drop_last() =~= nodes@.take(i as int));
            assert(nodes@.take(i as int + 1).last() == nodes@[i as int]);
            take_node(self, &nodes[i], repo, src, issues);
            i = i + 1;
        }
        assert(nodes@.take(i as int) =~= nodes@);
        let ghost read = issues@;
        if !repo && !has_image(nodes) {
            issues.push(
                Issue::new(cat(src.name.as_str(), " declares no image"), src).help(
                    owned(
                        "an image file holds at least one `image` node: `image { name \"Name\" }`, what the image calls itself in os-release and what it publishes as",
                    ),
                ),
            );
        }
        assert(issues@ =~= start + nodes_spec(nodes@, v0, repo, src.name@).1);
    }
}

/// What a directory listing of the repository root gives: each `.kdl` file
/// by name, with what it holds or why it could not be read.
pub type Listing = Seq<(Seq<char>, Result<Seq<char>, Seq<char>>)>;

pub open spec fn listing_view(entries: Seq<(String, Result<String, String>)>) -> Listing {
    entries.map_values(
        |e: (String, Result<String, String>)|
            (
                e.0@,
                match e.1 {
                    Ok(t) => Ok(t@),
                    Err(m) => Err(m@),
                },
            ),
    )
}

pub open spec fn listing_names(listing: Listing) -> Seq<Seq<char>> {
    listing.map_values(|e: (Seq<char>, Result<Seq<char>, Seq<char>>)| e.0)
}

/// What the listing says of one name.
pub open spec fn read_of(listing: Listing, name: Seq<char>) -> Option<Result<Seq<char>, Seq<char>>> {
    match crate::text::position(listing_names(listing), name) {
        Some(i) => Some(listing[i].1),
        None => None,
    }
}

/// Whether a root `.kdl` is one this reader reads: repo.kdl, or an image file.
pub open spec fn read_here(name: Seq<char>) -> bool {
    name == REPO_FILE@ || name == IMAGE_FILE@ || is_suffix(IMAGE_SUFFIX@, name)
}

pub open spec fn stray_issue(name: Seq<char>, path: Seq<char>) -> IssueV {
    help_v(
        bare("nothing reads `"@ + name + "`"@, path),
        "an image file is `image.kdl` or `<name>.image.kdl`; rename it to `"@ + trim_end_matches(name, ".kdl"@) + IMAGE_SUFFIX@
            + "`, or move it out of the repository root"@,
    )
}

/// One root `.kdl` onto what the files before it said.
pub open spec fn read_step(l: ListV, name: Seq<char>, listing: Listing, root: Seq<char>) -> (ListV, Seq<IssueV>) {
    let path = join_path(root, name);
    if !read_here(name) {
        (l, seq![stray_issue(name, path)])
    } else {
        match read_of(listing, name) {
            Some(Ok(t)) => file_spec(t, l, name == REPO_FILE@, path),
            Some(Err(e)) => (l, seq![bare("cannot read "@ + path + ": "@ + e, path)]),
            None => (l, Seq::empty()),
        }
    }
}

/// Before any file is read.
pub open spec fn empty_view() -> ListV {
    ListV {
        images: Seq::empty(),
        at: DEFAULT_AT,
        publishes: false,
        scans: false,
        workflows: Seq::empty(),
        sources: Seq::empty(),
        default_image: None,
        pr_image: None,
        seed: None,
        schema_seen: false,
        schema: None,
        name: Seq::empty(),
        id: Seq::empty(),
        audit: false,
        manifest: false,
    }
}

/// The root's `.kdl` files in `order`, each onto what the files before it
/// said.
pub open spec fn read_all(order: Seq<Seq<char>>, listing: Listing, root: Seq<char>) -> (ListV, Seq<IssueV>)
    decreases order.len(),
{
    if order.len() == 0 {
        (empty_view(), Seq::empty())
    } else {
        let (l, is) = read_all(order.drop_last(), listing, root);
        let (l2, is2) = read_step(l, order.last(), listing, root);
        (l2, is + is2)
    }
}

/// The files a read reaches, in order: each root `.kdl` it reads that could
/// be read.
pub open spec fn paths_read(order: Seq<Seq<char>>, listing: Listing, root: Seq<char>) -> Seq<Seq<char>>
    decreases order.len(),
{
    if order.len() == 0 {
        Seq::empty()
    } else {
        let r = paths_read(order.drop_last(), listing, root);
        let name = order.last();
        if read_here(name) && read_of(listing, name) matches Some(Ok(_)) {
            r.push(join_path(root, name))
        } else {
            r
        }
    }
}

impl List {
    /// A list with nothing read into it: repo.kdl as an empty source, and
    /// the daily build at its default time.
    pub fn empty(root: &str) -> (r: List)
        ensures
            list_view(r) == empty_view(),
            r.repo_src.name@ == join_path(root@, REPO_FILE@),
            r.repo_src.text@.len() == 0,
            r.files@.len() == 0,
    {
        let path = join_path_exec(root, REPO_FILE);
        proof {
            reveal_strlit("");
        }
        let r = List {
            name: String::new(),
            id: String::new(),
            images: Vec::new(),
            workflows: Vec::new(),
            workflows_at: DEFAULT_AT,
            publishes_scheduled: false,
            scans_scheduled: false,
            sources: Vec::new(),
            default_image_id: None,
            pr_image_id: None,
            seed: None,
            manifest_label: false,
            audit_enforce: false,
            schema_version: None,
            schema_version_seen: false,
            repo_src: Source::new(path.as_str(), ""),
            files: Vec::new(),
        };
        assert(list_view(r) =~= empty_view());
        r
    }
}

fn find_entry(listing: &Vec<(String, Result<String, String>)>, name: &str) -> (r: Option<usize>)
    ensures
        match crate::text::position(listing_names(listing_view(listing@)), name@) {
            Some(i) => r matches Some(j) && j as int == i && j < listing@.len(),
            None => r is None,
        },
{
    let ghost names = listing_names(listing_view(listing@));
    let mut i: usize = 0;
    while i < listing.len()
        invariant
            names == listing_names(listing_view(listing@)),
            i <= listing@.len(),
            forall|j: int| 0 <= j < i ==> names[j] != name@,
        decreases listing@.len() - i,
    {
        assert(names[i as int] == listing@[i as int].0@);
        if same(listing[i].0.as_str(), name) {
            proof {
                crate::text::lemma_position(names, name@, i as int);
            }
            return Some(i);
        }
        i = i + 1;
    }
    proof {
        crate::text::lemma_position(names, name@, i as int);
    }
    None
}

/// One root `.kdl` onto the list.
#[verifier::rlimit(40)]
fn read_one(l: &mut List, root: &str, name: &str, listing: &Vec<(String, Result<String, String>)>, issues: &mut Issues)
    ensures
        list_view(*final(l)) == read_step(list_view(*old(l)), name@, listing_view(listing@), root@).0,
        final(issues)@ == old(issues)@ + read_step(list_view(*old(l)), name@, listing_view(listing@), root@).1,
        views(final(l).files@) == views(old(l).files@) + (if read_here(name@) && read_of(listing_view(listing@), name@) matches Some(Ok(_)) {
            seq![join_path(root@, name@)]
        } else {
            Seq::<Seq<char>>::empty()
        }),
        match read_of(listing_view(listing@), name@) {
            Some(Ok(t)) => if read_here(name@) && name@ == REPO_FILE@ {
                final(l).repo_src.name@ == join_path(root@, name@) && final(l).repo_src.text@ == t
            } else {
                final(l).repo_src == old(l).repo_src
            },
            _ => final(l).repo_src == old(l).repo_src,
        },
{
    let ghost start = issues@;
    let ghost v0 = list_view(*l);
    let ghost files0 = l.files@;
    let path = join_path_exec(root, name);
    proof {
        reveal_strlit("repo.kdl");
        reveal_strlit("image.kdl");
        reveal_strlit(".image.kdl");
    }
    let is_repo = same(name, REPO_FILE);
    if !is_repo && !is_image_file(name) {
        let rename = as_image_file(name);
        let help = cat3("an image file is `image.kdl` or `<name>.image.kdl`; rename it to `", rename.as_str(), "`, or move it out of the repository root");
        assert(help@ =~= "an image file is `image.kdl` or `<name>.image.kdl`; rename it to `"@ + trim_end_matches(name@, ".kdl"@) + IMAGE_SUFFIX@
            + "`, or move it out of the repository root"@);
        assert(!read_here(name@));
        issues.push(Issue::new(cat3("nothing reads `", name, "`"), &Source::new(path.as_str(), "")).help(help));
        assert(views(l.files@) =~= views(files0) + Seq::<Seq<char>>::empty());
        assert(issues@ =~= start + read_step(v0, name@, listing_view(listing@), root@).1);
        return;
    }
    match find_entry(listing, name) {
        None => {
            assert(issues@ =~= start + Seq::<IssueV>::empty());
            assert(views(l.files@) =~= views(files0) + Seq::<Seq<char>>::empty());
        },
        Some(k) => match &listing[k].1 {
            Err(e) => {
                issues.push(Issue::new(cat4("cannot read ", path.as_str(), ": ", e.as_str()), &Source::new(path.as_str(), "")));
                assert(views(l.files@) =~= views(files0) + Seq::<Seq<char>>::empty());
            },
            Ok(text) => {
                let ghost before = l.files@;
                l.files.push(owned(path.as_str()));
                assert(views(l.files@) =~= views(before) + seq![path@]);
                let src = Source::new(path.as_str(), text.as_str());
                if is_repo {
                    l.repo_src = src.copy();
                }
                l.parse_file(&src, text.as_str(), is_repo, issues);
            },
        },
    }
}

impl List {
    /// repo.kdl and every image file beside it, from a listing of the root's
    /// `.kdl` files (`Err` where the root could not be listed), in name
    /// order; a root `.kdl` that is neither is reported rather than read.
    /// Then what is checked across every image.
    pub fn read(root: &str, listing: Result<Vec<(String, Result<String, String>)>, String>) -> (r: (List, Issues))
        ensures
            match listing {
                Err(e) => list_view(r.0) == empty_view() && r.1@ == seq![
                    bare("cannot read "@ + root@ + ": "@ + e@, join_path(root@, REPO_FILE@)),
                ],
                Ok(entries) => exists|order: Seq<Seq<char>>|
                    #![trigger read_all(order, listing_view(entries@), root@)]
                    ascending(order) && (forall|x: Seq<char>| #[trigger] order.contains(x) <==> listing_names(listing_view(entries@)).contains(x))
                        && list_view(r.0) == read_all(order, listing_view(entries@), root@).0
                        && views(r.0.files@) == paths_read(order, listing_view(entries@), root@)
                        && r.1@ == read_all(order, listing_view(entries@), root@).1 + list_issues(r.0),
            },
    {
        let mut issues = Issues::new();
        let mut list = List::empty(root);
        let entries = match listing {
            Ok(e) => e,
            Err(e) => {
                issues.push(Issue::new(cat4("cannot read ", root, ": ", e.as_str()), &list.repo_src));
                return (list, issues);
            },
        };
        let mut names: Vec<String> = Vec::new();
        let mut k: usize = 0;
        while k < entries.len()
            invariant
                k <= entries@.len(),
                views(names@) == listing_names(listing_view(entries@)).take(k as int),
            decreases entries@.len() - k,
        {
            let ghost prior = names@;
            names.push(owned(entries[k].0.as_str()));
            assert(views(names@) =~= views(prior).push(entries@[k as int].0@));
            assert(listing_names(listing_view(entries@)).take(k as int + 1) =~= listing_names(listing_view(entries@)).take(k as int).push(
                entries@[k as int].0@,
            ));
            k = k + 1;
        }
        assert(listing_names(listing_view(entries@)).take(k as int) =~= listing_names(listing_view(entries@)));
        let order = sorted_distinct(&names);
        let ghost ov = views(order@);
        let ghost lv = listing_view(entries@);
        let mut i: usize = 0;
        assert(ov.take(0) =~= Seq::<Seq<char>>::empty());
        assert(views(list.files@) =~= Seq::<Seq<char>>::empty());
        assert(issues@ =~= Seq::<IssueV>::empty());
        while i < order.len()
            invariant
                ov == views(order@),
                lv == listing_view(entries@),
                i <= order@.len(),
                list_view(list) == read_all(ov.take(i as int), lv, root@).0,
                issues@ == read_all(ov.take(i as int), lv, root@).1,
                views(list.files@) == paths_read(ov.take(i as int), lv, root@),
            decreases order@.len() - i,
        {
            assert(ov.take(i as int + 1).drop_last() =~= ov.take(i as int));
            assert(ov.take(i as int + 1).last() == order@[i as int]@);
            read_one(&mut list, root, order[i].as_str(), &entries, &mut issues);
            i = i + 1;
        }
        assert(ov.take(i as int) =~= ov);
        let ghost read = issues@;
        list.check_images(&mut issues);
        (list, issues)
    }

    /// The versions first: a repository this release cannot work in is
    /// refused before anything in it is read.
    pub fn load(root: &str, listing: Result<Vec<(String, Result<String, String>)>, String>) -> (r: (List, Issues))
        ensures
            ({
                let repo_text = match listing {
                    Ok(entries) => match read_of(listing_view(entries@), REPO_FILE@) {
                        Some(Ok(t)) => Some(t),
                        _ => None,
                    },
                    Err(_) => None,
                };
                let refused = match repo_text {
                    Some(t) => match pins_spec(t) {
                        Some(p) => p.0 matches Some((v, _)) && v != 1,
                        None => false,
                    },
                    None => false,
                };
                refused ==> list_view(r.0) == empty_view() && r.1@.len() == 1
            }),
    {
        let text: Option<&str> = match &listing {
            Ok(entries) => match find_entry(entries, REPO_FILE) {
                Some(k) => match &entries[k].1 {
                    Ok(t) => Some(t.as_str()),
                    Err(_) => None,
                },
                None => None,
            },
            Err(_) => None,
        };
        let file = join_path_exec(root, REPO_FILE);
        let refused = compatible(text, file.as_str());
        if !refused.is_empty() {
            return (List::empty(root), refused);
        }
        List::read(root, listing)
    }
}

/// Every `sources` block among a document's nodes in turn, from none.
pub open spec fn all_sources(nodes: Seq<KNode>, source: Seq<char>) -> Seq<CollectionV>
    decreases nodes.len(),
{
    if nodes.len() == 0 {
        Seq::empty()
    } else {
        let done = all_sources(nodes.drop_last(), source);
        if nodes.last().name@ == "sources"@ {
            sources_spec(kids_spec(nodes.last()), done, source).0
        } else {
            done
        }
    }
}

/// The collections a `sources` block declares, read out of text rather than
/// out of a repository: what a repository not written yet will have.
/// Anything wrong with the block is reported where the repository is read.
pub fn sources_in(text: &str) -> (r: Vec<Collection>)
    ensures
        r@.map_values(|c: Collection| collection_view(c)) == (match kdl_document(text@) {
            Ok(nodes) => all_sources(nodes, REPO_FILE@),
            Err(_) => Seq::empty(),
        }),
{
    let nodes = match parse_kdl(text) {
        Ok(n) => n,
        Err(_) => {
            let out: Vec<Collection> = Vec::new();
            assert(out@.map_values(|c: Collection| collection_view(c)) =~= Seq::<CollectionV>::empty());
            return out;
        },
    };
    sources_of(&nodes, text)
}

/// The collections the `sources` blocks among parsed nodes declare; `text`
/// is what they were read from, which an issue would quote.
pub fn sources_of(nodes: &Vec<KNode>, text: &str) -> (r: Vec<Collection>)
    ensures
        r@.map_values(|c: Collection| collection_view(c)) == all_sources(nodes@, REPO_FILE@),
{
    let mut out: Vec<Collection> = Vec::new();
    assert(out@.map_values(|c: Collection| collection_view(c)) =~= Seq::<CollectionV>::empty());
    let src = Source::new(REPO_FILE, text);
    let mut issues = Issues::new();
    let mut i: usize = 0;
    assert(nodes@.take(0) =~= Seq::<KNode>::empty());
    while i < nodes.len()
        invariant
            i <= nodes@.len(),
            src.name@ == REPO_FILE@,
            out@.map_values(|c: Collection| collection_view(c)) == all_sources(nodes@.take(i as int), REPO_FILE@),
        decreases nodes@.len() - i,
    {
        assert(nodes@.take(i as int + 1).drop_last() =~= nodes@.take(i as int));
        assert(nodes@.take(i as int + 1).last() == nodes@[i as int]);
        if same(nodes[i].name.as_str(), "sources") {
            parse_sources(&nodes[i], &mut out, &src, &mut issues);
        }
        i = i + 1;
    }
    assert(nodes@.take(i as int) =~= nodes@);
    out
}

} // verus!
