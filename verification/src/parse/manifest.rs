//! A whole module.kdl, node by node, into a `Module`.

use crate::diag::{bare, help_v, IssueV, Issue, Issues, Source, Span};
use crate::model::asset::Asset;
use crate::model::module::{Collect, Contribution, Coverage, Decl, FileMode, Key, Module, PackageGroup, VerifyException};
use crate::model::options::{Opt, OptType, Value, Variant};
use crate::parse::asset::{asset_spec, asset_view, AssetV};
use crate::parse::kdl::KNode;
use crate::parse::module::{
    parse_allow_verify, parse_capabilities, parse_collects, parse_contributes, parse_fragment, parse_helpers, parse_key,
    parse_mode, parse_packages, parse_paths, parse_satisfies, parse_supports, allow_spec, capability_issues, collect_view, collects_spec, contribution_view, contributes_spec, coverage_view,
    decls_at, exception_view, family_issues, fragment_spec, group_view, helpers_spec, key_spec, key_view, mode_spec,
    note, packages_spec, relative_issues, satisfies_spec, CollectV, ContributionV, CoverageV, ExceptionV, GroupV, KeyV,
};
use crate::parse::options::{option_spec, parse_option, parse_variant, set_views, sets_spec};
use crate::parse::asset;
use crate::parse::{boolean_spec, flag, kids_spec, string_arg, string_arg_spec, string_args, string_args_spec};
use crate::model::module::decl_names;
use crate::text::{cat, cat3, cat4, cat5, owned, same, views};
use crate::layout::{join_path, listed, public_key, trim_start_char, trim_start_char_exec, KEYS, MODULE_FILE, MODULES, PUBLIC_KEYS};
use crate::parse::kdl::{kdl_document, parse_kdl, KProblem};
use crate::parse::{syntax_issue, syntax_spec};
use crate::provenance::Record;
use crate::model::image::{Entry, Image};
use crate::model::remote::REMOTE_DIR;
use crate::model::options::{resolution, resolved_env, resolve};
use crate::model::asset::pair_views;
use crate::diag::at_v;
use vstd::prelude::*;

verus! {

pub type DeclV = (Seq<char>, Span);

pub open spec fn decl_views(ds: Seq<Decl>) -> Seq<DeclV> {
    ds.map_values(|d: Decl| (d.name@, d.span))
}

/// Names declared at one place.
pub open spec fn at_span(names: Seq<Seq<char>>, span: Span) -> Seq<DeclV> {
    names.map_values(|n: Seq<char>| (n, span))
}

pub type ModeV = (Seq<char>, u32, Span);

pub type OptV = (Seq<char>, OptType, Seq<Value>, Span);

pub type VariantV = (Seq<char>, Seq<(Seq<char>, Seq<Value>, Span)>, Span);

/// What a manifest's nodes have said so far, as plain values.
#[verifier::ext_equal]
pub struct ModuleV {
    pub description: Seq<char>,
    pub supports: Seq<Seq<char>>,
    pub provides: Seq<DeclV>,
    pub requires: Seq<DeclV>,
    pub after: Seq<DeclV>,
    pub provides_files: Seq<DeclV>,
    pub build_only: Seq<Seq<char>>,
    pub requires_files: Seq<DeclV>,
    pub overrides: Seq<DeclV>,
    pub modes: Seq<ModeV>,
    pub secrets: Seq<DeclV>,
    pub args: Seq<DeclV>,
    pub helpers: Seq<DeclV>,
    pub exceptions: Seq<ExceptionV>,
    pub collects: Seq<CollectV>,
    pub contributes: Seq<ContributionV>,
    /// Whether a `fragment` node came yet: only the first one counts.
    pub fragment_seen: bool,
    pub fragment_after: bool,
    pub standard_layer: bool,
    pub options: Seq<OptV>,
    pub assets: Seq<AssetV>,
    pub variants: Seq<VariantV>,
    pub keys: Seq<KeyV>,
    pub packages: Seq<GroupV>,
    pub satisfies: Seq<CoverageV>,
}

/// Before the first node: nothing said, and the generated block emitted.
pub open spec fn fresh() -> ModuleV {
    ModuleV {
        description: Seq::empty(),
        supports: Seq::empty(),
        provides: Seq::empty(),
        requires: Seq::empty(),
        after: Seq::empty(),
        provides_files: Seq::empty(),
        build_only: Seq::empty(),
        requires_files: Seq::empty(),
        overrides: Seq::empty(),
        modes: Seq::empty(),
        secrets: Seq::empty(),
        args: Seq::empty(),
        helpers: Seq::empty(),
        exceptions: Seq::empty(),
        collects: Seq::empty(),
        contributes: Seq::empty(),
        fragment_seen: false,
        fragment_after: false,
        standard_layer: true,
        options: Seq::empty(),
        assets: Seq::empty(),
        variants: Seq::empty(),
        keys: Seq::empty(),
        packages: Seq::empty(),
        satisfies: Seq::empty(),
    }
}

pub open spec fn option_view(o: Opt) -> OptV {
    (o.name@, o.ty, o.default@, o.span)
}

pub open spec fn variant_view(v: Variant) -> VariantV {
    (v.name@, set_views(v.sets@), v.span)
}

/// A module as plain values, with whether a `fragment` node came yet.
pub open spec fn module_view(m: Module, seen: bool) -> ModuleV {
    ModuleV {
        description: m.description@,
        supports: views(m.supports@),
        provides: decl_views(m.provides@),
        requires: decl_views(m.requires@),
        after: decl_views(m.after@),
        provides_files: decl_views(m.provides_files@),
        build_only: views(m.provides_files_build_only@),
        requires_files: decl_views(m.requires_files@),
        overrides: decl_views(m.overrides@),
        modes: m.modes@.map_values(|f: FileMode| (f.path@, f.mode, f.span)),
        secrets: decl_views(m.secrets@),
        args: decl_views(m.args@),
        helpers: decl_views(m.helpers@),
        exceptions: m.verify_exceptions@.map_values(|e: VerifyException| exception_view(e)),
        collects: m.collects@.map_values(|c: Collect| collect_view(c)),
        contributes: m.contributes@.map_values(|c: Contribution| contribution_view(c)),
        fragment_seen: seen,
        fragment_after: m.fragment_after,
        standard_layer: m.standard_layer,
        options: m.options@.map_values(|o: Opt| option_view(o)),
        assets: m.assets@.map_values(|a: Asset| asset_view(a)),
        variants: m.variants@.map_values(|v: Variant| variant_view(v)),
        keys: m.keys@.map_values(|k: Key| key_view(k)),
        packages: m.packages@.map_values(|g: PackageGroup| group_view(g)),
        satisfies: m.satisfies@.map_values(|c: Coverage| coverage_view(c)),
    }
}

pub open spec fn fragment_issue(module: Seq<char>, span: Span, source: Seq<char>) -> IssueV {
    help_v(
        note("`"@ + module + "` declares `fragment` but ships no Containerfile.inc"@, source, span, "nothing to place"@),
        "shipping the file is what adds a fragment; this node only says where it goes"@,
    )
}

/// The context a node is read in: the list path, every file in the module
/// directory, the verify diagnostic classes, whether a Containerfile.inc
/// ships, and the file's name.
pub struct Ctx {
    pub module: Seq<char>,
    pub shipped: Seq<Seq<char>>,
    pub classes: Seq<Seq<char>>,
    pub has_fragment: bool,
    pub source: Seq<char>,
}

#[verifier::opaque]
pub open spec fn on_description(m: ModuleV, node: KNode) -> (ModuleV, Seq<IssueV>) {
    if m.description.len() == 0 {
        (ModuleV { description: match string_arg_spec(node) { Some(d) => d, None => Seq::empty() }, ..m }, Seq::empty())
    } else {
        (m, Seq::empty())
    }
}

#[verifier::opaque]
pub open spec fn on_supports(m: ModuleV, node: KNode, source: Seq<char>) -> (ModuleV, Seq<IssueV>) {
    let names = string_args_spec(node.entries@);
    (ModuleV { supports: m.supports + names, ..m }, family_issues(names, node.name_span, source))
}

pub open spec fn capabilities(node: KNode) -> Seq<DeclV> {
    at_span(string_args_spec(node.entries@), node.name_span)
}

pub open spec fn capability_raised(node: KNode, source: Seq<char>) -> Seq<IssueV> {
    capability_issues(string_args_spec(node.entries@), node.name_span, source)
}

pub open spec fn path_raised(node: KNode, source: Seq<char>) -> Seq<IssueV> {
    relative_issues(string_args_spec(node.entries@), node.name_span, source)
}

#[verifier::opaque]
pub open spec fn on_provides_file(m: ModuleV, node: KNode, source: Seq<char>) -> (ModuleV, Seq<IssueV>) {
    let names = string_args_spec(node.entries@);
    (
        ModuleV {
            provides_files: m.provides_files + at_span(names, node.name_span),
            build_only: if boolean_spec(node, "build-only"@) == Some(true) { m.build_only + names } else { m.build_only },
            ..m
        },
        relative_issues(names, node.name_span, source),
    )
}

#[verifier::opaque]
pub open spec fn on_mode(m: ModuleV, node: KNode, c: Ctx) -> (ModuleV, Seq<IssueV>) {
    let (r, is) = mode_spec(node, c.module, c.shipped, c.source);
    match r {
        Some((path, mode)) => (ModuleV { modes: m.modes.push((path, mode, node.name_span)), ..m }, is),
        None => (m, is),
    }
}

#[verifier::opaque]
pub open spec fn on_helpers(m: ModuleV, node: KNode, c: Ctx) -> (ModuleV, Seq<IssueV>) {
    let (ok, is) = helpers_spec(string_args_spec(node.entries@), c.module, c.shipped, node.name_span, c.source);
    (ModuleV { helpers: m.helpers + at_span(ok, node.name_span), ..m }, is)
}

#[verifier::opaque]
pub open spec fn on_allow_verify(m: ModuleV, node: KNode, c: Ctx) -> (ModuleV, Seq<IssueV>) {
    let (r, is) = allow_spec(node, c.classes, m.exceptions, c.source);
    match r {
        Some(e) => (ModuleV { exceptions: m.exceptions.push(e), ..m }, is),
        None => (m, is),
    }
}

#[verifier::opaque]
pub open spec fn on_collects(m: ModuleV, node: KNode, source: Seq<char>) -> (ModuleV, Seq<IssueV>) {
    let (r, is) = collects_spec(node, source);
    match r {
        Some(x) => (ModuleV { collects: m.collects.push(x), ..m }, is),
        None => (m, is),
    }
}

#[verifier::opaque]
pub open spec fn on_contributes(m: ModuleV, node: KNode, c: Ctx) -> (ModuleV, Seq<IssueV>) {
    let (r, is) = contributes_spec(node, c.module, c.shipped, m.contributes, c.source);
    match r {
        Some(x) => (ModuleV { contributes: m.contributes.push(x), ..m }, is),
        None => (m, is),
    }
}

#[verifier::opaque]
pub open spec fn on_fragment(m: ModuleV, node: KNode, c: Ctx) -> (ModuleV, Seq<IssueV>) {
    if m.fragment_seen {
        (m, Seq::empty())
    } else {
        let missing: Seq<IssueV> = if c.has_fragment { Seq::empty() } else { seq![fragment_issue(c.module, node.name_span, c.source)] };
        let ((after, standard), is) = fragment_spec(node, c.source);
        (ModuleV { fragment_seen: true, fragment_after: after, standard_layer: standard, ..m }, missing + is)
    }
}

#[verifier::opaque]
pub open spec fn on_option(m: ModuleV, node: KNode, source: Seq<char>) -> (ModuleV, Seq<IssueV>) {
    let (r, is) = option_spec(node, source);
    match r {
        Some((name, ty, default)) => if m.options.map_values(|o: OptV| o.0).contains(name) {
            (m, is)
        } else {
            (ModuleV { options: m.options.push((name, ty, default, node.name_span)), ..m }, is)
        },
        None => (m, is),
    }
}

#[verifier::opaque]
pub open spec fn on_asset(m: ModuleV, node: KNode, source: Seq<char>) -> (ModuleV, Seq<IssueV>) {
    let (r, is) = asset_spec(node, source);
    match r {
        Some(a) => if m.assets.map_values(|x: AssetV| x.0).contains(a.0) {
            (m, is)
        } else {
            (ModuleV { assets: m.assets.push(a), ..m }, is)
        },
        None => (m, is),
    }
}

#[verifier::opaque]
pub open spec fn on_variant(m: ModuleV, node: KNode) -> (ModuleV, Seq<IssueV>) {
    match string_arg_spec(node) {
        Some(name) => if m.variants.map_values(|x: VariantV| x.0).contains(name) {
            (m, Seq::empty())
        } else {
            (ModuleV { variants: m.variants.push((name, sets_spec(kids_spec(node)), node.name_span)), ..m }, Seq::empty())
        },
        None => (m, Seq::empty()),
    }
}

#[verifier::opaque]
pub open spec fn on_key(m: ModuleV, node: KNode, source: Seq<char>) -> (ModuleV, Seq<IssueV>) {
    let (r, is) = key_spec(node, source);
    match r {
        Some(k) => if m.keys.map_values(|x: KeyV| x.0).contains(k.0) {
            (m, is)
        } else {
            (ModuleV { keys: m.keys.push(k), ..m }, is)
        },
        None => (m, is),
    }
}

#[verifier::opaque]
pub open spec fn on_packages(m: ModuleV, node: KNode, source: Seq<char>) -> (ModuleV, Seq<IssueV>) {
    let (gs, is) = packages_spec(kids_spec(node), source);
    (ModuleV { packages: m.packages + gs, ..m }, is)
}

#[verifier::opaque]
pub open spec fn on_satisfies(m: ModuleV, node: KNode, source: Seq<char>) -> (ModuleV, Seq<IssueV>) {
    let (cs, is) = satisfies_spec(kids_spec(node), source);
    (ModuleV { satisfies: m.satisfies + cs, ..m }, is)
}

/// What one node adds to what the manifest said before it, and what it
/// raises, by the node's name. A repeated option, asset, variant or key keeps
/// the first; the schema walk reports the second. A node of any other name
/// adds nothing.
#[verifier::opaque]
pub open spec fn step(m: ModuleV, node: KNode, c: Ctx) -> (ModuleV, Seq<IssueV>) {
    let n = node.name@;
    if n == "description"@ {
        on_description(m, node)
    } else if n == "supports"@ {
        on_supports(m, node, c.source)
    } else if n == "provides"@ {
        (ModuleV { provides: m.provides + capabilities(node), ..m }, capability_raised(node, c.source))
    } else if n == "requires"@ {
        (ModuleV { requires: m.requires + capabilities(node), ..m }, capability_raised(node, c.source))
    } else if n == "after"@ {
        (ModuleV { after: m.after + capabilities(node), ..m }, capability_raised(node, c.source))
    } else if n == "provides-file"@ {
        on_provides_file(m, node, c.source)
    } else if n == "requires-file"@ {
        (ModuleV { requires_files: m.requires_files + capabilities(node), ..m }, path_raised(node, c.source))
    } else if n == "overrides"@ {
        (ModuleV { overrides: m.overrides + capabilities(node), ..m }, path_raised(node, c.source))
    } else if n == "mode"@ {
        on_mode(m, node, c)
    } else if n == "secret"@ {
        (ModuleV { secrets: m.secrets + capabilities(node), ..m }, Seq::empty())
    } else if n == "arg"@ {
        (ModuleV { args: m.args + capabilities(node), ..m }, Seq::empty())
    } else if n == "helpers"@ {
        on_helpers(m, node, c)
    } else if n == "allow-verify"@ {
        on_allow_verify(m, node, c)
    } else if n == "collects"@ {
        on_collects(m, node, c.source)
    } else if n == "contributes"@ {
        on_contributes(m, node, c)
    } else if n == "fragment"@ {
        on_fragment(m, node, c)
    } else if n == "option"@ {
        on_option(m, node, c.source)
    } else if n == "asset"@ {
        on_asset(m, node, c.source)
    } else if n == "variant"@ {
        on_variant(m, node)
    } else if n == "key"@ {
        on_key(m, node, c.source)
    } else if n == "packages"@ {
        on_packages(m, node, c.source)
    } else if n == "satisfies"@ {
        on_satisfies(m, node, c.source)
    } else {
        (m, Seq::empty())
    }
}

/// Every node of a manifest in turn, from nothing said.
pub open spec fn read_nodes(nodes: Seq<KNode>, c: Ctx) -> (ModuleV, Seq<IssueV>)
    decreases nodes.len(),
{
    if nodes.len() == 0 {
        (fresh(), Seq::empty())
    } else {
        let (m, is) = read_nodes(nodes.drop_last(), c);
        let (m2, is2) = step(m, nodes.last(), c);
        (m2, is + is2)
    }
}

proof fn lemma_decls_at(ds: Seq<Decl>, names: Seq<Seq<char>>, span: Span)
    requires
        decls_at(ds, names, span),
    ensures
        decl_views(ds) == at_span(names, span),
{
    assert forall|i: int| 0 <= i < ds.len() implies #[trigger] decl_views(ds)[i] == at_span(names, span)[i] by {
        assert(decl_names(ds)[i] == ds[i].name@);
    }
    assert(decl_views(ds) =~= at_span(names, span));
}

/// Appends declarations to a field, as their views go.
fn extend_decls(field: &mut Vec<Decl>, more: Vec<Decl>, names: Ghost<Seq<Seq<char>>>, span: Span)
    requires
        decls_at(more@, names@, span),
    ensures
        decl_views(final(field)@) == decl_views(old(field)@) + at_span(names@, span),
{
    proof {
        lemma_decls_at(more@, names@, span);
    }
    let ghost before = field@;
    let mut more = more;
    field.append(&mut more);
    assert(decl_views(field@) =~= decl_views(before) + at_span(names@, span));
}

fn has_option(opts: &Vec<Opt>, name: &str) -> (r: bool)
    ensures
        r == opts@.map_values(|o: Opt| option_view(o)).map_values(|o: OptV| o.0).contains(name@),
{
    let ghost names = opts@.map_values(|o: Opt| option_view(o)).map_values(|o: OptV| o.0);
    let mut i: usize = 0;
    while i < opts.len()
        invariant
            names == opts@.map_values(|o: Opt| option_view(o)).map_values(|o: OptV| o.0),
            i <= opts@.len(),
            forall|j: int| 0 <= j < i ==> names[j] != name@,
        decreases opts@.len() - i,
    {
        assert(names[i as int] == opts@[i as int].name@);
        if same(opts[i].name.as_str(), name) {
            return true;
        }
        i = i + 1;
    }
    assert(!names.contains(name@));
    false
}

fn has_asset(assets: &Vec<Asset>, name: &str) -> (r: bool)
    ensures
        r == assets@.map_values(|a: Asset| asset_view(a)).map_values(|a: AssetV| a.0).contains(name@),
{
    let ghost names = assets@.map_values(|a: Asset| asset_view(a)).map_values(|a: AssetV| a.0);
    let mut i: usize = 0;
    while i < assets.len()
        invariant
            names == assets@.map_values(|a: Asset| asset_view(a)).map_values(|a: AssetV| a.0),
            i <= assets@.len(),
            forall|j: int| 0 <= j < i ==> names[j] != name@,
        decreases assets@.len() - i,
    {
        assert(names[i as int] == assets@[i as int].name@);
        if same(assets[i].name.as_str(), name) {
            return true;
        }
        i = i + 1;
    }
    assert(!names.contains(name@));
    false
}

fn has_variant(variants: &Vec<Variant>, name: &str) -> (r: bool)
    ensures
        r == variants@.map_values(|v: Variant| variant_view(v)).map_values(|v: VariantV| v.0).contains(name@),
{
    let ghost names = variants@.map_values(|v: Variant| variant_view(v)).map_values(|v: VariantV| v.0);
    let mut i: usize = 0;
    while i < variants.len()
        invariant
            names == variants@.map_values(|v: Variant| variant_view(v)).map_values(|v: VariantV| v.0),
            i <= variants@.len(),
            forall|j: int| 0 <= j < i ==> names[j] != name@,
        decreases variants@.len() - i,
    {
        assert(names[i as int] == variants@[i as int].name@);
        if same(variants[i].name.as_str(), name) {
            return true;
        }
        i = i + 1;
    }
    assert(!names.contains(name@));
    false
}

fn has_key(keys: &Vec<Key>, kind: &str) -> (r: bool)
    ensures
        r == keys@.map_values(|k: Key| key_view(k)).map_values(|k: KeyV| k.0).contains(kind@),
{
    let ghost names = keys@.map_values(|k: Key| key_view(k)).map_values(|k: KeyV| k.0);
    let mut i: usize = 0;
    while i < keys.len()
        invariant
            names == keys@.map_values(|k: Key| key_view(k)).map_values(|k: KeyV| k.0),
            i <= keys@.len(),
            forall|j: int| 0 <= j < i ==> names[j] != kind@,
        decreases keys@.len() - i,
    {
        assert(names[i as int] == keys@[i as int].kind@);
        if same(keys[i].kind.as_str(), kind) {
            return true;
        }
        i = i + 1;
    }
    assert(!names.contains(kind@));
    false
}

/// The context as the exec parameters give it.
pub open spec fn ctx_of(module: &str, shipped: &[String], classes: &Vec<String>, has_fragment: bool, src: &Source) -> Ctx {
    Ctx { module: module@, shipped: views(shipped@), classes: views(classes@), has_fragment, source: src.name@ }
}

/// What reading nodes leaves alone: everything that is not read from them.
pub open spec fn frame(a: Module, b: Module) -> bool {
    a.path == b.path && a.dir == b.dir && a.src == b.src && a.fragment == b.fragment && a.content == b.content
        && a.imported == b.imported && a.repo == b.repo && a.flavour == b.flavour && a.resolved == b.resolved
        && a.groups == b.groups
}

fn take_description(m: &mut Module, seen: bool, node: &KNode)
    ensures
        module_view(*final(m), seen) == on_description(module_view(*old(m), seen), *node).0,
        on_description(module_view(*old(m), seen), *node).1 == Seq::<IssueV>::empty(),
        frame(*final(m), *old(m)),
{
    reveal(on_description);
    let ghost v0 = module_view(*m, seen);
    if m.description.unicode_len() == 0 {
        m.description = match string_arg(node) {
            Some(d) => owned(d),
            None => String::new(),
        };
    }
    reveal(on_description);
    assert(module_view(*m, seen) =~= on_description(v0, *node).0);
}

fn take_supports(m: &mut Module, seen: bool, node: &KNode, src: &Source, issues: &mut Issues)
    ensures
        module_view(*final(m), seen) == on_supports(module_view(*old(m), seen), *node, src.name@).0,
        final(issues)@ == old(issues)@ + on_supports(module_view(*old(m), seen), *node, src.name@).1,
        frame(*final(m), *old(m)),
{
    let ghost v0 = module_view(*m, seen);
    let mut fams = parse_supports(node, src, issues);
    let ghost before = m.supports@;
    m.supports.append(&mut fams);
    assert(views(m.supports@) =~= views(before) + string_args_spec(node.entries@));
    reveal(on_supports);
    assert(module_view(*m, seen) =~= on_supports(v0, *node, src.name@).0);
}

fn take_provides(m: &mut Module, seen: bool, node: &KNode, src: &Source, issues: &mut Issues)
    ensures
        module_view(*final(m), seen) == (ModuleV { provides: module_view(*old(m), seen).provides + capabilities(*node), ..module_view(*old(m), seen) }),
        final(issues)@ == old(issues)@ + capability_raised(*node, src.name@),
        frame(*final(m), *old(m)),
{
    let ghost v0 = module_view(*m, seen);
    let decls = parse_capabilities(node, src, issues);
    extend_decls(&mut m.provides, decls, Ghost(string_args_spec(node.entries@)), node.name_span);
    assert(module_view(*m, seen) =~= (ModuleV { provides: v0.provides + capabilities(*node), ..v0 }));
}

fn take_requires(m: &mut Module, seen: bool, node: &KNode, src: &Source, issues: &mut Issues)
    ensures
        module_view(*final(m), seen) == (ModuleV { requires: module_view(*old(m), seen).requires + capabilities(*node), ..module_view(*old(m), seen) }),
        final(issues)@ == old(issues)@ + capability_raised(*node, src.name@),
        frame(*final(m), *old(m)),
{
    let ghost v0 = module_view(*m, seen);
    let decls = parse_capabilities(node, src, issues);
    extend_decls(&mut m.requires, decls, Ghost(string_args_spec(node.entries@)), node.name_span);
    assert(module_view(*m, seen) =~= (ModuleV { requires: v0.requires + capabilities(*node), ..v0 }));
}

fn take_after(m: &mut Module, seen: bool, node: &KNode, src: &Source, issues: &mut Issues)
    ensures
        module_view(*final(m), seen) == (ModuleV { after: module_view(*old(m), seen).after + capabilities(*node), ..module_view(*old(m), seen) }),
        final(issues)@ == old(issues)@ + capability_raised(*node, src.name@),
        frame(*final(m), *old(m)),
{
    let ghost v0 = module_view(*m, seen);
    let decls = parse_capabilities(node, src, issues);
    extend_decls(&mut m.after, decls, Ghost(string_args_spec(node.entries@)), node.name_span);
    assert(module_view(*m, seen) =~= (ModuleV { after: v0.after + capabilities(*node), ..v0 }));
}

fn take_requires_files(m: &mut Module, seen: bool, node: &KNode, src: &Source, issues: &mut Issues)
    ensures
        module_view(*final(m), seen) == (ModuleV { requires_files: module_view(*old(m), seen).requires_files + capabilities(*node), ..module_view(*old(m), seen) }),
        final(issues)@ == old(issues)@ + path_raised(*node, src.name@),
        frame(*final(m), *old(m)),
{
    let ghost v0 = module_view(*m, seen);
    let decls = parse_paths(node, src, issues);
    extend_decls(&mut m.requires_files, decls, Ghost(string_args_spec(node.entries@)), node.name_span);
    assert(module_view(*m, seen) =~= (ModuleV { requires_files: v0.requires_files + capabilities(*node), ..v0 }));
}

fn take_overrides(m: &mut Module, seen: bool, node: &KNode, src: &Source, issues: &mut Issues)
    ensures
        module_view(*final(m), seen) == (ModuleV { overrides: module_view(*old(m), seen).overrides + capabilities(*node), ..module_view(*old(m), seen) }),
        final(issues)@ == old(issues)@ + path_raised(*node, src.name@),
        frame(*final(m), *old(m)),
{
    let ghost v0 = module_view(*m, seen);
    let decls = parse_paths(node, src, issues);
    extend_decls(&mut m.overrides, decls, Ghost(string_args_spec(node.entries@)), node.name_span);
    assert(module_view(*m, seen) =~= (ModuleV { overrides: v0.overrides + capabilities(*node), ..v0 }));
}

fn take_provides_file(m: &mut Module, seen: bool, node: &KNode, src: &Source, issues: &mut Issues)
    ensures
        module_view(*final(m), seen) == on_provides_file(module_view(*old(m), seen), *node, src.name@).0,
        final(issues)@ == old(issues)@ + on_provides_file(module_view(*old(m), seen), *node, src.name@).1,
        frame(*final(m), *old(m)),
{
    let ghost v0 = module_view(*m, seen);
    let ghost names = string_args_spec(node.entries@);
    let decls = parse_paths(node, src, issues);
    if flag(node, "build-only") {
        let mut bo: Vec<String> = Vec::new();
        let mut i: usize = 0;
        assert(names.take(0) =~= Seq::<Seq<char>>::empty());
        assert(views(bo@) =~= names.take(0));
        while i < decls.len()
            invariant
                decl_names(decls@) == names,
                i <= decls@.len(),
                views(bo@) == names.take(i as int),
            decreases decls@.len() - i,
        {
            assert(decl_names(decls@)[i as int] == decls@[i as int].name@);
            let ghost prior = bo@;
            bo.push(decls[i].name.clone());
            assert(views(bo@) =~= views(prior).push(names[i as int]));
            assert(names.take(i as int + 1) =~= names.take(i as int).push(names[i as int]));
            i = i + 1;
        }
        assert(names.take(i as int) =~= names);
        let ghost before = m.provides_files_build_only@;
        let ghost more = bo@;
        m.provides_files_build_only.append(&mut bo);
        assert(views(m.provides_files_build_only@) =~= views(before) + views(more));
    }
    extend_decls(&mut m.provides_files, decls, Ghost(names), node.name_span);
    reveal(on_provides_file);
    assert(module_view(*m, seen) =~= on_provides_file(v0, *node, src.name@).0);
}

/// `secret` and `arg`: names a layer mounts or reads, declared where the node is.
fn names_at(node: &KNode) -> (r: Vec<Decl>)
    ensures
        decls_at(r@, string_args_spec(node.entries@), node.name_span),
{
    let args = string_args(node);
    let ghost names = args@.map_values(|s: &str| s@);
    let mut decls: Vec<Decl> = Vec::new();
    let mut i: usize = 0;
    assert(decl_names(decls@) =~= names.take(0));
    while i < args.len()
        invariant
            names == args@.map_values(|s: &str| s@),
            i <= args@.len(),
            decls_at(decls@, names.take(i as int), node.name_span),
        decreases args@.len() - i,
    {
        let ghost prior = decls@;
        decls.push(Decl { name: owned(args[i]), span: node.name_span });
        assert(decl_names(decls@) =~= decl_names(prior).push(names[i as int]));
        assert(names.take(i as int + 1) =~= names.take(i as int).push(names[i as int]));
        i = i + 1;
    }
    assert(names.take(i as int) =~= names);
    decls
}

fn take_secrets(m: &mut Module, seen: bool, node: &KNode)
    ensures
        module_view(*final(m), seen) == (ModuleV { secrets: module_view(*old(m), seen).secrets + capabilities(*node), ..module_view(*old(m), seen) }),
        frame(*final(m), *old(m)),
{
    let ghost v0 = module_view(*m, seen);
    let decls = names_at(node);
    extend_decls(&mut m.secrets, decls, Ghost(string_args_spec(node.entries@)), node.name_span);
    assert(module_view(*m, seen) =~= (ModuleV { secrets: v0.secrets + capabilities(*node), ..v0 }));
}

fn take_args(m: &mut Module, seen: bool, node: &KNode)
    ensures
        module_view(*final(m), seen) == (ModuleV { args: module_view(*old(m), seen).args + capabilities(*node), ..module_view(*old(m), seen) }),
        frame(*final(m), *old(m)),
{
    let ghost v0 = module_view(*m, seen);
    let decls = names_at(node);
    extend_decls(&mut m.args, decls, Ghost(string_args_spec(node.entries@)), node.name_span);
    assert(module_view(*m, seen) =~= (ModuleV { args: v0.args + capabilities(*node), ..v0 }));
}

fn take_mode(m: &mut Module, seen: bool, node: &KNode, module: &str, shipped: &[String], classes: &Vec<String>, has_fragment: bool, src: &Source, issues: &mut Issues)
    ensures
        module_view(*final(m), seen) == on_mode(module_view(*old(m), seen), *node, ctx_of(module, shipped, classes, has_fragment, src)).0,
        final(issues)@ == old(issues)@ + on_mode(module_view(*old(m), seen), *node, ctx_of(module, shipped, classes, has_fragment, src)).1,
        frame(*final(m), *old(m)),
{
    let ghost v0 = module_view(*m, seen);
    match parse_mode(node, module, shipped, src, issues) {
        Some(f) => {
            let ghost before = m.modes@;
            m.modes.push(f);
            assert(m.modes@.map_values(|f: FileMode| (f.path@, f.mode, f.span)) =~= before.map_values(
                |f: FileMode| (f.path@, f.mode, f.span),
            ).push((m.modes@.last().path@, m.modes@.last().mode, m.modes@.last().span)));
        },
        None => {},
    }
    reveal(on_mode);
    assert(module_view(*m, seen) =~= on_mode(v0, *node, ctx_of(module, shipped, classes, has_fragment, src)).0);
}

fn take_helpers(m: &mut Module, seen: bool, node: &KNode, module: &str, shipped: &[String], classes: &Vec<String>, has_fragment: bool, src: &Source, issues: &mut Issues)
    ensures
        module_view(*final(m), seen) == on_helpers(module_view(*old(m), seen), *node, ctx_of(module, shipped, classes, has_fragment, src)).0,
        final(issues)@ == old(issues)@ + on_helpers(module_view(*old(m), seen), *node, ctx_of(module, shipped, classes, has_fragment, src)).1,
        frame(*final(m), *old(m)),
{
    let ghost v0 = module_view(*m, seen);
    let ghost ok = helpers_spec(string_args_spec(node.entries@), module@, views(shipped@), node.name_span, src.name@).0;
    let decls = parse_helpers(node, module, shipped, src, issues);
    extend_decls(&mut m.helpers, decls, Ghost(ok), node.name_span);
    reveal(on_helpers);
    assert(module_view(*m, seen) =~= on_helpers(v0, *node, ctx_of(module, shipped, classes, has_fragment, src)).0);
}

#[verifier::spinoff_prover]
#[verifier::rlimit(40)]
fn take_allow_verify(m: &mut Module, seen: bool, node: &KNode, module: &str, shipped: &[String], classes: &Vec<String>, has_fragment: bool, src: &Source, issues: &mut Issues)
    ensures
        module_view(*final(m), seen) == on_allow_verify(module_view(*old(m), seen), *node, ctx_of(module, shipped, classes, has_fragment, src)).0,
        final(issues)@ == old(issues)@ + on_allow_verify(module_view(*old(m), seen), *node, ctx_of(module, shipped, classes, has_fragment, src)).1,
        frame(*final(m), *old(m)),
{
    let ghost v0 = module_view(*m, seen);
    match parse_allow_verify(node, classes, m.verify_exceptions.as_slice(), src, issues) {
        Some(e) => {
            let ghost before = m.verify_exceptions@;
            m.verify_exceptions.push(e);
            assert(m.verify_exceptions@.map_values(|e: VerifyException| exception_view(e)) =~= before.map_values(
                |e: VerifyException| exception_view(e),
            ).push(exception_view(m.verify_exceptions@.last())));
        },
        None => {},
    }
    reveal(on_allow_verify);
    assert(module_view(*m, seen) =~= on_allow_verify(v0, *node, ctx_of(module, shipped, classes, has_fragment, src)).0);
}

fn take_collects(m: &mut Module, seen: bool, node: &KNode, src: &Source, issues: &mut Issues)
    ensures
        module_view(*final(m), seen) == on_collects(module_view(*old(m), seen), *node, src.name@).0,
        final(issues)@ == old(issues)@ + on_collects(module_view(*old(m), seen), *node, src.name@).1,
        frame(*final(m), *old(m)),
{
    let ghost v0 = module_view(*m, seen);
    match parse_collects(node, src, issues) {
        Some(c) => {
            let ghost before = m.collects@;
            m.collects.push(c);
            assert(m.collects@.map_values(|c: Collect| collect_view(c)) =~= before.map_values(|c: Collect| collect_view(c)).push(
                collect_view(m.collects@.last()),
            ));
        },
        None => {},
    }
    reveal(on_collects);
    assert(module_view(*m, seen) =~= on_collects(v0, *node, src.name@).0);
}

fn take_contributes(m: &mut Module, seen: bool, node: &KNode, module: &str, shipped: &[String], classes: &Vec<String>, has_fragment: bool, src: &Source, issues: &mut Issues)
    ensures
        module_view(*final(m), seen) == on_contributes(module_view(*old(m), seen), *node, ctx_of(module, shipped, classes, has_fragment, src)).0,
        final(issues)@ == old(issues)@ + on_contributes(module_view(*old(m), seen), *node, ctx_of(module, shipped, classes, has_fragment, src)).1,
        frame(*final(m), *old(m)),
{
    let ghost v0 = module_view(*m, seen);
    match parse_contributes(node, module, shipped, m.contributes.as_slice(), src, issues) {
        Some(c) => {
            let ghost before = m.contributes@;
            m.contributes.push(c);
            assert(m.contributes@.map_values(|c: Contribution| contribution_view(c)) =~= before.map_values(
                |c: Contribution| contribution_view(c),
            ).push(contribution_view(m.contributes@.last())));
        },
        None => {},
    }
    reveal(on_contributes);
    assert(module_view(*m, seen) =~= on_contributes(v0, *node, ctx_of(module, shipped, classes, has_fragment, src)).0);
}

fn take_fragment(m: &mut Module, seen: &mut bool, node: &KNode, module: &str, shipped: &[String], classes: &Vec<String>, has_fragment: bool, src: &Source, issues: &mut Issues)
    ensures
        module_view(*final(m), *final(seen)) == on_fragment(module_view(*old(m), *old(seen)), *node, ctx_of(module, shipped, classes, has_fragment, src)).0,
        final(issues)@ == old(issues)@ + on_fragment(module_view(*old(m), *old(seen)), *node, ctx_of(module, shipped, classes, has_fragment, src)).1,
        frame(*final(m), *old(m)),
{
    reveal(on_fragment);
    let ghost v0 = module_view(*m, *seen);
    let ghost start = issues@;
    if *seen {
        assert(issues@ =~= start + Seq::<IssueV>::empty());
        return;
    }
    *seen = true;
    if !has_fragment {
        issues.push(
            Issue::new(cat3("`", module, "` declares `fragment` but ships no Containerfile.inc"), src).at(node.name_span, owned("nothing to place")).help(
                owned("shipping the file is what adds a fragment; this node only says where it goes"),
            ),
        );
    }
    let (after, standard) = parse_fragment(node, src, issues);
    m.fragment_after = after;
    m.standard_layer = standard;
    assert(issues@ =~= start + on_fragment(v0, *node, ctx_of(module, shipped, classes, has_fragment, src)).1);
    reveal(on_fragment);
    assert(module_view(*m, *seen) =~= on_fragment(v0, *node, ctx_of(module, shipped, classes, has_fragment, src)).0);
}

fn take_option(m: &mut Module, seen: bool, node: &KNode, src: &Source, issues: &mut Issues)
    ensures
        module_view(*final(m), seen) == on_option(module_view(*old(m), seen), *node, src.name@).0,
        final(issues)@ == old(issues)@ + on_option(module_view(*old(m), seen), *node, src.name@).1,
        frame(*final(m), *old(m)),
{
    let ghost v0 = module_view(*m, seen);
    match parse_option(node, src, issues) {
        Some(o) => {
            if !has_option(&m.options, o.name.as_str()) {
                let ghost before = m.options@;
                m.options.push(o);
                assert(m.options@.map_values(|o: Opt| option_view(o)) =~= before.map_values(|o: Opt| option_view(o)).push(
                    option_view(m.options@.last()),
                ));
            }
        },
        None => {},
    }
    reveal(on_option);
    assert(module_view(*m, seen) =~= on_option(v0, *node, src.name@).0);
}

fn take_asset(m: &mut Module, seen: bool, node: &KNode, src: &Source, issues: &mut Issues)
    ensures
        module_view(*final(m), seen) == on_asset(module_view(*old(m), seen), *node, src.name@).0,
        final(issues)@ == old(issues)@ + on_asset(module_view(*old(m), seen), *node, src.name@).1,
        frame(*final(m), *old(m)),
{
    let ghost v0 = module_view(*m, seen);
    match asset::parse(node, src, issues) {
        Some(a) => {
            if !has_asset(&m.assets, a.name.as_str()) {
                let ghost before = m.assets@;
                m.assets.push(a);
                assert(m.assets@.map_values(|a: Asset| asset_view(a)) =~= before.map_values(|a: Asset| asset_view(a)).push(
                    asset_view(m.assets@.last()),
                ));
            }
        },
        None => {},
    }
    reveal(on_asset);
    assert(module_view(*m, seen) =~= on_asset(v0, *node, src.name@).0);
}

fn take_variant(m: &mut Module, seen: bool, node: &KNode)
    ensures
        module_view(*final(m), seen) == on_variant(module_view(*old(m), seen), *node).0,
        on_variant(module_view(*old(m), seen), *node).1 == Seq::<IssueV>::empty(),
        frame(*final(m), *old(m)),
{
    reveal(on_variant);
    let ghost v0 = module_view(*m, seen);
    match parse_variant(node) {
        Some(v) => {
            if !has_variant(&m.variants, v.name.as_str()) {
                let ghost before = m.variants@;
                m.variants.push(v);
                assert(m.variants@.map_values(|v: Variant| variant_view(v)) =~= before.map_values(|v: Variant| variant_view(v)).push(
                    variant_view(m.variants@.last()),
                ));
            }
        },
        None => {},
    }
    reveal(on_variant);
    assert(module_view(*m, seen) =~= on_variant(v0, *node).0);
}

fn take_key(m: &mut Module, seen: bool, node: &KNode, src: &Source, issues: &mut Issues)
    ensures
        module_view(*final(m), seen) == on_key(module_view(*old(m), seen), *node, src.name@).0,
        final(issues)@ == old(issues)@ + on_key(module_view(*old(m), seen), *node, src.name@).1,
        frame(*final(m), *old(m)),
{
    let ghost v0 = module_view(*m, seen);
    match parse_key(node, src, issues) {
        Some(k) => {
            if !has_key(&m.keys, k.kind.as_str()) {
                let ghost before = m.keys@;
                m.keys.push(k);
                assert(m.keys@.map_values(|k: Key| key_view(k)) =~= before.map_values(|k: Key| key_view(k)).push(
                    key_view(m.keys@.last()),
                ));
            }
        },
        None => {},
    }
    reveal(on_key);
    assert(module_view(*m, seen) =~= on_key(v0, *node, src.name@).0);
}

fn take_packages(m: &mut Module, seen: bool, node: &KNode, src: &Source, issues: &mut Issues)
    ensures
        module_view(*final(m), seen) == on_packages(module_view(*old(m), seen), *node, src.name@).0,
        final(issues)@ == old(issues)@ + on_packages(module_view(*old(m), seen), *node, src.name@).1,
        frame(*final(m), *old(m)),
{
    let ghost v0 = module_view(*m, seen);
    let mut gs = parse_packages(node, src, issues);
    let ghost before = m.packages@;
    let ghost more = gs@;
    m.packages.append(&mut gs);
    assert(m.packages@.map_values(|g: PackageGroup| group_view(g)) =~= before.map_values(|g: PackageGroup| group_view(g))
        + more.map_values(|g: PackageGroup| group_view(g)));
    reveal(on_packages);
    assert(module_view(*m, seen) =~= on_packages(v0, *node, src.name@).0);
}

fn take_satisfies(m: &mut Module, seen: bool, node: &KNode, src: &Source, issues: &mut Issues)
    ensures
        module_view(*final(m), seen) == on_satisfies(module_view(*old(m), seen), *node, src.name@).0,
        final(issues)@ == old(issues)@ + on_satisfies(module_view(*old(m), seen), *node, src.name@).1,
        frame(*final(m), *old(m)),
{
    let ghost v0 = module_view(*m, seen);
    let mut cs = parse_satisfies(node, src, issues);
    let ghost before = m.satisfies@;
    let ghost more = cs@;
    m.satisfies.append(&mut cs);
    assert(m.satisfies@.map_values(|c: Coverage| coverage_view(c)) =~= before.map_values(|c: Coverage| coverage_view(c))
        + more.map_values(|c: Coverage| coverage_view(c)));
    reveal(on_satisfies);
    assert(module_view(*m, seen) =~= on_satisfies(v0, *node, src.name@).0);
}

/// One node, by its name, onto what the manifest said before it.
#[verifier::rlimit(60)]
fn apply(
    m: &mut Module,
    seen: &mut bool,
    node: &KNode,
    module: &str,
    shipped: &[String],
    classes: &Vec<String>,
    has_fragment: bool,
    src: &Source,
    issues: &mut Issues,
)
    ensures
        module_view(*final(m), *final(seen)) == step(module_view(*old(m), *old(seen)), *node, ctx_of(module, shipped, classes, has_fragment, src)).0,
        final(issues)@ == old(issues)@ + step(module_view(*old(m), *old(seen)), *node, ctx_of(module, shipped, classes, has_fragment, src)).1,
        frame(*final(m), *old(m)),
{
    let ghost start = issues@;
    reveal(step);
    let name = node.name.as_str();
    if same(name, "description") {
        take_description(m, *seen, node);
        assert(issues@ =~= start + Seq::<IssueV>::empty());
    } else if same(name, "supports") {
        take_supports(m, *seen, node, src, issues);
    } else if same(name, "provides") {
        take_provides(m, *seen, node, src, issues);
    } else if same(name, "requires") {
        take_requires(m, *seen, node, src, issues);
    } else if same(name, "after") {
        take_after(m, *seen, node, src, issues);
    } else if same(name, "provides-file") {
        take_provides_file(m, *seen, node, src, issues);
    } else if same(name, "requires-file") {
        take_requires_files(m, *seen, node, src, issues);
    } else if same(name, "overrides") {
        take_overrides(m, *seen, node, src, issues);
    } else if same(name, "mode") {
        take_mode(m, *seen, node, module, shipped, classes, has_fragment, src, issues);
    } else if same(name, "secret") {
        take_secrets(m, *seen, node);
        assert(issues@ =~= start + Seq::<IssueV>::empty());
    } else if same(name, "arg") {
        take_args(m, *seen, node);
        assert(issues@ =~= start + Seq::<IssueV>::empty());
    } else if same(name, "helpers") {
        take_helpers(m, *seen, node, module, shipped, classes, has_fragment, src, issues);
    } else if same(name, "allow-verify") {
        take_allow_verify(m, *seen, node, module, shipped, classes, has_fragment, src, issues);
    } else if same(name, "collects") {
        take_collects(m, *seen, node, src, issues);
    } else if same(name, "contributes") {
        take_contributes(m, *seen, node, module, shipped, classes, has_fragment, src, issues);
    } else if same(name, "fragment") {
        take_fragment(m, seen, node, module, shipped, classes, has_fragment, src, issues);
    } else if same(name, "option") {
        take_option(m, *seen, node, src, issues);
    } else if same(name, "asset") {
        take_asset(m, *seen, node, src, issues);
    } else if same(name, "variant") {
        take_variant(m, *seen, node);
        assert(issues@ =~= start + Seq::<IssueV>::empty());
    } else if same(name, "key") {
        take_key(m, *seen, node, src, issues);
    } else if same(name, "packages") {
        take_packages(m, *seen, node, src, issues);
    } else if same(name, "satisfies") {
        take_satisfies(m, *seen, node, src, issues);
    } else {
        assert(issues@ =~= start + Seq::<IssueV>::empty());
    }
}

/// The public halves the keys declare, each where no `provides-file` names
/// it already: a contract path derived rather than declared twice.
pub open spec fn derived(keys: Seq<KeyV>, declared: Seq<DeclV>) -> Seq<DeclV>
    decreases keys.len(),
{
    if keys.len() == 0 {
        Seq::empty()
    } else {
        let r = derived(keys.drop_last(), declared);
        let k = keys.last();
        if declared.map_values(|d: DeclV| d.0).contains(k.4) {
            r
        } else {
            r.push((k.4, k.7))
        }
    }
}

/// Where a key's public half is written: under `keys/public/`, at its path
/// in the image.
pub open spec fn public_file(root: Seq<char>, public: Seq<char>) -> Seq<char> {
    join_path(join_path(join_path(root, KEYS@), PUBLIC_KEYS@), trim_start_char(public, '/'))
}

pub open spec fn half_issue(path: Seq<char>, root: Seq<char>, k: KeyV, source: Seq<char>) -> IssueV {
    help_v(
        note("`"@ + path + "` has no public half for its "@ + k.0 + " key"@, source, k.7, public_file(root, k.4) + " is missing or empty"@),
        "run `tect create key "@ + k.0 + "`"@,
    )
}

/// One issue for each key whose public half is not among `published`, the
/// files under `keys/public/` that hold something, by their path in it.
pub open spec fn half_issues(keys: Seq<KeyV>, path: Seq<char>, root: Seq<char>, published: Seq<Seq<char>>, source: Seq<char>) -> Seq<IssueV>
    decreases keys.len(),
{
    if keys.len() == 0 {
        Seq::empty()
    } else {
        let r = half_issues(keys.drop_last(), path, root, published, source);
        let k = keys.last();
        if published.contains(trim_start_char(k.4, '/')) {
            r
        } else {
            r.push(half_issue(path, root, k, source))
        }
    }
}

pub open spec fn dropped_issue(path: Seq<char>, kind: Seq<char>, name: Seq<char>, span: Span, source: Seq<char>) -> IssueV {
    help_v(
        note(
            "`"@ + path + "` declares `"@ + kind + " \""@ + name + "\"` with no standard layer to carry it"@,
            source,
            span,
            "nowhere to land"@,
        ),
        "`standard-layer #false` makes the fragment the whole layer, so it has to spell out its own mounts, args and env; drop one or the other"@,
    )
}

pub open spec fn dropped(named: Seq<DeclV>, path: Seq<char>, kind: Seq<char>, source: Seq<char>) -> Seq<IssueV> {
    named.map_values(|d: DeclV| dropped_issue(path, kind, d.0, d.1, source))
}

pub open spec fn repo_issue(path: Seq<char>, span: Span, source: Seq<char>) -> IssueV {
    help_v(
        note("`"@ + path + "` declares both a `repo` file and `packages`"@, source, span, "installed before the repo file is sourced"@),
        "the generated build script sources `repo` after installing these, so call the family's package manager in module.sh instead"@,
    )
}

/// What is checked once every node is read: the derived contract paths, and
/// the issues about the manifest as a whole, in the order they are raised.
pub open spec fn finish_spec(m: ModuleV, path: Seq<char>, root: Seq<char>, published: Seq<Seq<char>>, repo: bool, source: Seq<char>) -> (ModuleV, Seq<IssueV>) {
    let halves = half_issues(m.keys, path, root, published, source);
    let description: Seq<IssueV> = if m.description.len() == 0 {
        seq![
            help_v(
                bare("`"@ + path + "` declares no description"@, source),
                "one line, present tense, no trailing period; it names the module in the resolved build summary"@,
            ),
        ]
    } else {
        Seq::empty()
    };
    let carried: Seq<IssueV> = if !m.standard_layer {
        dropped(m.secrets, path, "secret"@, source) + dropped(m.args, path, "arg"@, source) + dropped(
            m.options.map_values(|o: OptV| (o.0, o.3)),
            path,
            "option"@,
            source,
        ) + dropped(m.assets.map_values(|a: AssetV| (a.0, a.2)), path, "asset"@, source)
    } else {
        Seq::empty()
    };
    let supports: Seq<IssueV> = if m.supports.len() == 0 {
        seq![
            help_v(
                bare("`"@ + path + "` declares no `supports`"@, source),
                "a module has to say which base families it can build on, so a portability gap surfaces at lint rather than mid-build"@,
            ),
        ]
    } else {
        Seq::empty()
    };
    let repos: Seq<IssueV> = if repo {
        m.packages.map_values(|g: GroupV| repo_issue(path, g.3, source))
    } else {
        Seq::empty()
    };
    (
        ModuleV { provides_files: m.provides_files + derived(m.keys, m.provides_files), ..m },
        halves + description + carried + supports + repos,
    )
}

fn declared(decls: &Vec<Decl>, name: &str) -> (r: bool)
    ensures
        r == decl_views(decls@).map_values(|d: DeclV| d.0).contains(name@),
{
    let ghost names = decl_views(decls@).map_values(|d: DeclV| d.0);
    let mut i: usize = 0;
    while i < decls.len()
        invariant
            names == decl_views(decls@).map_values(|d: DeclV| d.0),
            i <= decls@.len(),
            forall|j: int| 0 <= j < i ==> names[j] != name@,
        decreases decls@.len() - i,
    {
        assert(names[i as int] == decls@[i as int].name@);
        if same(decls[i].name.as_str(), name) {
            return true;
        }
        i = i + 1;
    }
    assert(!names.contains(name@));
    false
}

/// The contract paths the keys add to `provides-file`.
fn derive_public(m: &mut Module, seen: bool)
    ensures
        module_view(*final(m), seen) == (ModuleV {
            provides_files: module_view(*old(m), seen).provides_files + derived(module_view(*old(m), seen).keys, module_view(*old(m), seen).provides_files),
            ..module_view(*old(m), seen)
        }),
        frame(*final(m), *old(m)),
{
    let ghost v0 = module_view(*m, seen);
    let ghost keys = v0.keys;
    let mut more: Vec<Decl> = Vec::new();
    let mut i: usize = 0;
    assert(keys.take(0) =~= Seq::<KeyV>::empty());
    assert(decl_views(more@) =~= derived(keys.take(0), v0.provides_files));
    while i < m.keys.len()
        invariant
            keys == m.keys@.map_values(|k: Key| key_view(k)),
            v0.provides_files == decl_views(m.provides_files@),
            i <= m.keys@.len(),
            decl_views(more@) == derived(keys.take(i as int), v0.provides_files),
        decreases m.keys@.len() - i,
    {
        assert(keys.take(i as int + 1).drop_last() =~= keys.take(i as int));
        assert(keys.take(i as int + 1).last() == key_view(m.keys@[i as int]));
        let k = &m.keys[i];
        if !declared(&m.provides_files, k.public.as_str()) {
            let ghost prior = more@;
            more.push(Decl { name: k.public.clone(), span: k.span });
            assert(decl_views(more@) =~= decl_views(prior).push((k.public@, k.span)));
        }
        i = i + 1;
    }
    assert(keys.take(i as int) =~= keys);
    let ghost before = m.provides_files@;
    let ghost extra = more@;
    m.provides_files.append(&mut more);
    assert(decl_views(m.provides_files@) =~= decl_views(before) + decl_views(extra));
    assert(module_view(*m, seen) =~= (ModuleV { provides_files: v0.provides_files + derived(v0.keys, v0.provides_files), ..v0 }));
}

fn check_halves(keys: &Vec<Key>, path: &str, root: &str, published: &Vec<String>, src: &Source, issues: &mut Issues)
    ensures
        final(issues)@ == old(issues)@ + half_issues(keys@.map_values(|k: Key| key_view(k)), path@, root@, views(published@), src.name@),
{
    let ghost start = issues@;
    let ghost kv = keys@.map_values(|k: Key| key_view(k));
    let mut i: usize = 0;
    assert(kv.take(0) =~= Seq::<KeyV>::empty());
    assert(issues@ =~= start + half_issues(kv.take(0), path@, root@, views(published@), src.name@));
    while i < keys.len()
        invariant
            kv == keys@.map_values(|k: Key| key_view(k)),
            i <= keys@.len(),
            issues@ == start + half_issues(kv.take(i as int), path@, root@, views(published@), src.name@),
        decreases keys@.len() - i,
    {
        assert(kv.take(i as int + 1).drop_last() =~= kv.take(i as int));
        assert(kv.take(i as int + 1).last() == key_view(keys@[i as int]));
        let k = &keys[i];
        let rel = trim_start_char_exec(k.public.as_str(), '/');
        if !listed(published.as_slice(), rel.as_str()) {
            let file = public_key(root, k.public.as_str());
            issues.push(
                Issue::new(cat5("`", path, "` has no public half for its ", k.kind.as_str(), " key"), src).at(k.span, cat(file.as_str(), " is missing or empty")).help(
                    cat3("run `tect create key ", k.kind.as_str(), "`"),
                ),
            );
        }
        assert(issues@ =~= start + half_issues(kv.take(i as int + 1), path@, root@, views(published@), src.name@));
        i = i + 1;
    }
    assert(kv.take(i as int) =~= kv);
}

fn raise_dropped(path: &str, kind: &str, name: &str, span: Span, src: &Source, issues: &mut Issues)
    ensures
        final(issues)@ == old(issues)@.push(dropped_issue(path@, kind@, name@, span, src.name@)),
{
    let lead = cat5("`", path, "` declares `", kind, " \"");
    let tail = cat(name, "\"` with no standard layer to carry it");
    let message = cat(lead.as_str(), tail.as_str());
    assert(message@ =~= "`"@ + path@ + "` declares `"@ + kind@ + " \""@ + name@ + "\"` with no standard layer to carry it"@);
    issues.push(
        Issue::new(message, src).at(span, owned("nowhere to land")).help(
            owned(
                "`standard-layer #false` makes the fragment the whole layer, so it has to spell out its own mounts, args and env; drop one or the other",
            ),
        ),
    );
}

fn dropped_decls(decls: &Vec<Decl>, path: &str, kind: &str, src: &Source, issues: &mut Issues)
    ensures
        final(issues)@ == old(issues)@ + dropped(decl_views(decls@), path@, kind@, src.name@),
{
    let ghost start = issues@;
    let ghost dv = decl_views(decls@);
    let mut i: usize = 0;
    assert(issues@ =~= start + dropped(dv, path@, kind@, src.name@).take(0));
    while i < decls.len()
        invariant
            dv == decl_views(decls@),
            i <= decls@.len(),
            issues@ == start + dropped(dv, path@, kind@, src.name@).take(i as int),
        decreases decls@.len() - i,
    {
        raise_dropped(path, kind, decls[i].name.as_str(), decls[i].span, src, issues);
        assert(dropped(dv, path@, kind@, src.name@).take(i as int + 1) =~= dropped(dv, path@, kind@, src.name@).take(i as int).push(
            dropped(dv, path@, kind@, src.name@)[i as int],
        ));
        assert(issues@ =~= start + dropped(dv, path@, kind@, src.name@).take(i as int + 1));
        i = i + 1;
    }
    assert(dropped(dv, path@, kind@, src.name@).take(i as int) =~= dropped(dv, path@, kind@, src.name@));
}

fn dropped_options(opts: &Vec<Opt>, path: &str, src: &Source, issues: &mut Issues)
    ensures
        final(issues)@ == old(issues)@ + dropped(
            opts@.map_values(|o: Opt| option_view(o)).map_values(|o: OptV| (o.0, o.3)),
            path@,
            "option"@,
            src.name@,
        ),
{
    let ghost start = issues@;
    let ghost dv = opts@.map_values(|o: Opt| option_view(o)).map_values(|o: OptV| (o.0, o.3));
    let ghost all = dropped(dv, path@, "option"@, src.name@);
    let mut i: usize = 0;
    assert(issues@ =~= start + all.take(0));
    while i < opts.len()
        invariant
            dv == opts@.map_values(|o: Opt| option_view(o)).map_values(|o: OptV| (o.0, o.3)),
            all == dropped(dv, path@, "option"@, src.name@),
            i <= opts@.len(),
            issues@ == start + all.take(i as int),
        decreases opts@.len() - i,
    {
        raise_dropped(path, "option", opts[i].name.as_str(), opts[i].span, src, issues);
        assert(all.take(i as int + 1) =~= all.take(i as int).push(all[i as int]));
        assert(issues@ =~= start + all.take(i as int + 1));
        i = i + 1;
    }
    assert(all.take(i as int) =~= all);
}

fn dropped_assets(assets: &Vec<Asset>, path: &str, src: &Source, issues: &mut Issues)
    ensures
        final(issues)@ == old(issues)@ + dropped(
            assets@.map_values(|a: Asset| asset_view(a)).map_values(|a: AssetV| (a.0, a.2)),
            path@,
            "asset"@,
            src.name@,
        ),
{
    let ghost start = issues@;
    let ghost dv = assets@.map_values(|a: Asset| asset_view(a)).map_values(|a: AssetV| (a.0, a.2));
    let ghost all = dropped(dv, path@, "asset"@, src.name@);
    let mut i: usize = 0;
    assert(issues@ =~= start + all.take(0));
    while i < assets.len()
        invariant
            dv == assets@.map_values(|a: Asset| asset_view(a)).map_values(|a: AssetV| (a.0, a.2)),
            all == dropped(dv, path@, "asset"@, src.name@),
            i <= assets@.len(),
            issues@ == start + all.take(i as int),
        decreases assets@.len() - i,
    {
        raise_dropped(path, "asset", assets[i].name.as_str(), assets[i].span, src, issues);
        assert(all.take(i as int + 1) =~= all.take(i as int).push(all[i as int]));
        assert(issues@ =~= start + all.take(i as int + 1));
        i = i + 1;
    }
    assert(all.take(i as int) =~= all);
}

fn repo_clashes(groups: &Vec<PackageGroup>, path: &str, src: &Source, issues: &mut Issues)
    ensures
        final(issues)@ == old(issues)@ + groups@.map_values(|g: PackageGroup| group_view(g)).map_values(
            |g: GroupV| repo_issue(path@, g.3, src.name@),
        ),
{
    let ghost start = issues@;
    let ghost all = groups@.map_values(|g: PackageGroup| group_view(g)).map_values(|g: GroupV| repo_issue(path@, g.3, src.name@));
    let mut i: usize = 0;
    assert(issues@ =~= start + all.take(0));
    while i < groups.len()
        invariant
            all == groups@.map_values(|g: PackageGroup| group_view(g)).map_values(|g: GroupV| repo_issue(path@, g.3, src.name@)),
            i <= groups@.len(),
            issues@ == start + all.take(i as int),
        decreases groups@.len() - i,
    {
        issues.push(
            Issue::new(cat3("`", path, "` declares both a `repo` file and `packages`"), src).at(
                groups[i].span,
                owned("installed before the repo file is sourced"),
            ).help(
                owned(
                    "the generated build script sources `repo` after installing these, so call the family's package manager in module.sh instead",
                ),
            ),
        );
        assert(all.take(i as int + 1) =~= all.take(i as int).push(all[i as int]));
        assert(issues@ =~= start + all.take(i as int + 1));
        i = i + 1;
    }
    assert(all.take(i as int) =~= all);
}

/// What is checked once every node is read.
#[verifier::rlimit(40)]
fn finish(m: &mut Module, seen: bool, path: &str, root: &str, published: &Vec<String>, repo: bool, src: &Source, issues: &mut Issues)
    ensures
        module_view(*final(m), seen) == finish_spec(module_view(*old(m), seen), path@, root@, views(published@), repo, src.name@).0,
        final(issues)@ == old(issues)@ + finish_spec(module_view(*old(m), seen), path@, root@, views(published@), repo, src.name@).1,
        frame(*final(m), *old(m)),
{
    let ghost v0 = module_view(*m, seen);
    let ghost start = issues@;
    derive_public(m, seen);
    check_halves(&m.keys, path, root, published, src, issues);
    if m.description.unicode_len() == 0 {
        issues.push(
            Issue::new(cat3("`", path, "` declares no description"), src).help(
                owned("one line, present tense, no trailing period; it names the module in the resolved build summary"),
            ),
        );
    }
    if !m.standard_layer {
        dropped_decls(&m.secrets, path, "secret", src, issues);
        dropped_decls(&m.args, path, "arg", src, issues);
        dropped_options(&m.options, path, src, issues);
        dropped_assets(&m.assets, path, src, issues);
    }
    if m.supports.len() == 0 {
        issues.push(
            Issue::new(cat3("`", path, "` declares no `supports`"), src).help(
                owned("a module has to say which base families it can build on, so a portability gap surfaces at lint rather than mid-build"),
            ),
        );
    }
    if repo {
        repo_clashes(&m.packages, path, src, issues);
    }
    assert(issues@ =~= start + finish_spec(v0, path@, root@, views(published@), repo, src.name@).1);
}

impl Module {
    /// Everything a manifest says on its own, so a module no image lists is
    /// still held to what it declares. `text` is what `modules/<dir>/module.kdl`
    /// holds; `shipped` is every file in the module directory, by its path in
    /// it; `published` every file under `keys/public/` that holds something;
    /// `fragment` the Containerfile.inc it ships; `content` and `imported`
    /// what the directory hashes to and the record a copy left in it; `repo`
    /// whether it ships a `repo` file; `classes` the verify diagnostic classes.
    #[verifier::rlimit(40)]
    pub fn parse(
        path: &str,
        dir: &str,
        root: &str,
        text: &str,
        shipped: &Vec<String>,
        published: &Vec<String>,
        fragment: Option<String>,
        content: Option<String>,
        imported: Option<Record>,
        repo: bool,
        classes: &Vec<String>,
        issues: &mut Issues,
    ) -> (r: Option<Module>)
        ensures
            ({
                let file = join_path(join_path(join_path(root@, MODULES@), dir@), MODULE_FILE@);
                let c = Ctx { module: path@, shipped: views(shipped@), classes: views(classes@), has_fragment: fragment is Some, source: file };
                match kdl_document(text@) {
                    Err(ps) => r is None && final(issues)@ == old(issues)@.push(syntax_spec(ps, file, file)),
                    Ok(nodes) => {
                        let (read, raised) = read_nodes(nodes, c);
                        let (done, more) = finish_spec(read, path@, root@, views(published@), repo, file);
                        r matches Some(m) && module_view(m, read.fragment_seen) == done && final(issues)@ == old(issues)@ + raised + more
                            && m.path@ == path@ && m.dir@ == dir@ && m.src.name@ == file && m.src.text@ == text@
                            && m.fragment == fragment && m.content == content && m.imported == imported && m.repo == repo
                            && m.flavour is None && m.resolved@.len() == 0 && m.groups@.len() == 0
                    },
                }
            }),
    {
        let file = crate::layout::manifest(root, dir);
        let src = Source::new(file.as_str(), text);
        let nodes = match parse_kdl(text) {
            Ok(n) => n,
            Err(err) => {
                issues.push(syntax_issue(&err, file.as_str(), &src));
                return None;
            },
        };
        Some(Module::parse_nodes(path, dir, root, text, &nodes, shipped, published, fragment, content, imported, repo, classes, issues))
    }

    /// The same, over the nodes `text` parsed to.
    #[verifier::rlimit(40)]
    pub fn parse_nodes(
        path: &str,
        dir: &str,
        root: &str,
        text: &str,
        nodes: &Vec<KNode>,
        shipped: &Vec<String>,
        published: &Vec<String>,
        fragment: Option<String>,
        content: Option<String>,
        imported: Option<Record>,
        repo: bool,
        classes: &Vec<String>,
        issues: &mut Issues,
    ) -> (m: Module)
        ensures
            ({
                let file = join_path(join_path(join_path(root@, MODULES@), dir@), MODULE_FILE@);
                let c = Ctx { module: path@, shipped: views(shipped@), classes: views(classes@), has_fragment: fragment is Some, source: file };
                let (read, raised) = read_nodes(nodes@, c);
                let (done, more) = finish_spec(read, path@, root@, views(published@), repo, file);
                module_view(m, read.fragment_seen) == done && final(issues)@ == old(issues)@ + raised + more
                    && m.path@ == path@ && m.dir@ == dir@ && m.src.name@ == file && m.src.text@ == text@
                    && m.fragment == fragment && m.content == content && m.imported == imported && m.repo == repo
                    && m.flavour is None && m.resolved@.len() == 0 && m.groups@.len() == 0
            }),
    {
        let file = crate::layout::manifest(root, dir);
        let src = Source::new(file.as_str(), text);
        let has_fragment = fragment.is_some();
        let mut m = Module {
            path: owned(path),
            dir: owned(dir),
            src: src.copy(),
            description: String::new(),
            supports: Vec::new(),
            provides: Vec::new(),
            requires: Vec::new(),
            after: Vec::new(),
            provides_files: Vec::new(),
            provides_files_build_only: Vec::new(),
            requires_files: Vec::new(),
            overrides: Vec::new(),
            verify_exceptions: Vec::new(),
            flavour: None,
            collects: Vec::new(),
            contributes: Vec::new(),
            modes: Vec::new(),
            keys: Vec::new(),
            secrets: Vec::new(),
            args: Vec::new(),
            options: Vec::new(),
            variants: Vec::new(),
            assets: Vec::new(),
            packages: Vec::new(),
            groups: Vec::new(),
            helpers: Vec::new(),
            satisfies: Vec::new(),
            resolved: Vec::new(),
            fragment,
            fragment_after: false,
            standard_layer: true,
            content,
            imported,
            repo,
        };
        let mut seen = false;
        let sh = shipped.as_slice();
        let ghost c = ctx_of(path, sh, classes, has_fragment, &src);
        let ghost m0 = m;
        let ghost start = issues@;
        assert(module_view(m, seen) =~= fresh());
        assert(nodes@.take(0) =~= Seq::<KNode>::empty());
        assert(issues@ =~= start + Seq::<IssueV>::empty());
        let mut i: usize = 0;
        while i < nodes.len()
            invariant
                c == ctx_of(path, sh, classes, has_fragment, &src),
                sh@ == shipped@,
                i <= nodes@.len(),
                module_view(m, seen) == read_nodes(nodes@.take(i as int), c).0,
                issues@ == start + read_nodes(nodes@.take(i as int), c).1,
                frame(m, m0),
            decreases nodes@.len() - i,
        {
            assert(nodes@.take(i as int + 1).drop_last() =~= nodes@.take(i as int));
            assert(nodes@.take(i as int + 1).last() == nodes@[i as int]);
            apply(&mut m, &mut seen, &nodes[i], path, sh, classes, has_fragment, &src, issues);
            i = i + 1;
        }
        assert(nodes@.take(i as int) =~= nodes@);
        finish(&mut m, seen, path, root, published, repo, &src, issues);
        m
    }
}

/// Where an entry's module directory is, relative to `modules/`.
pub open spec fn entry_dir(entry: Entry) -> Seq<char> {
    if entry.source is Some || entry.remote is Some {
        REMOTE_DIR@ + "/"@ + entry.path@
    } else {
        entry.path@
    }
}

/// What a referenced module that also exists in the tree raises.
pub open spec fn clash_issue(entry: Entry, list_source: Seq<char>) -> IssueV {
    help_v(
        at_v(bare("`"@ + entry.path@ + "` is referenced but also exists in tree"@, list_source), entry.span, "two modules would answer to this name"@),
        "rename the referenced one, or drop modules/"@ + entry.path@,
    )
}

/// What an entry whose manifest cannot be read raises.
pub open spec fn unread_issue(entry: Entry, file: Seq<char>, list_source: Seq<char>) -> IssueV {
    help_v(
        at_v(bare("`"@ + entry.path@ + "` has no module.kdl"@, list_source), entry.span, "every module needs a manifest"@),
        if entry.source is Some || entry.remote is Some {
            "run ./scripts/tect.sh fetch modules to fetch what the image references"@
        } else {
            "create "@ + file + "; modules/_template/module-name/module.kdl is a copy-me reference"@
        },
    )
}

impl Module {
    /// The module an image entry names, read and resolved against the
    /// entry. `in_tree` is whether `modules/<path>` is a directory, and
    /// `text` what its module.kdl holds, nothing where it cannot be read; the
    /// rest is as `parse` takes it. The module carries the entry's flavour,
    /// and the option values the entry resolves to, ready to become env.
    #[verifier::rlimit(40)]
    pub fn load(
        entry: &Entry,
        image: &Image,
        root: &str,
        in_tree: bool,
        text: Option<String>,
        shipped: &Vec<String>,
        published: &Vec<String>,
        fragment: Option<String>,
        content: Option<String>,
        imported: Option<Record>,
        repo: bool,
        classes: &Vec<String>,
        issues: &mut Issues,
    ) -> (r: Option<Module>)
        ensures
            ({
                let dir = entry_dir(*entry);
                let file = join_path(join_path(join_path(root@, MODULES@), dir), MODULE_FILE@);
                let clash: Seq<IssueV> = if (entry.remote is Some || entry.source is Some) && in_tree {
                    seq![clash_issue(*entry, image.src.name@)]
                } else {
                    Seq::empty()
                };
                let c = Ctx { module: entry.path@, shipped: views(shipped@), classes: views(classes@), has_fragment: fragment is Some, source: file };
                match text {
                    None => r is None && final(issues)@ == old(issues)@ + clash + seq![unread_issue(*entry, file, image.src.name@)],
                    Some(t) => match kdl_document(t@) {
                        Err(ps) => r is None && final(issues)@ == old(issues)@ + clash + seq![syntax_spec(ps, file, file)],
                        Ok(nodes) => {
                            let (read, raised) = read_nodes(nodes, c);
                            let (done, more) = finish_spec(read, entry.path@, root@, views(published@), repo, file);
                            r matches Some(m) && module_view(m, read.fragment_seen) == done
                                && pair_views(m.resolved@) == resolved_env(m.options@, resolution(m.options@, m.variants@, file, *entry, image.src.name@).0)
                                && final(issues)@ == old(issues)@ + clash + raised + more + resolution(m.options@, m.variants@, file, *entry, image.src.name@).1
                                && m.path@ == entry.path@ && m.dir@ == dir && m.src.name@ == file && m.src.text@ == t@
                                && opt_string(m.flavour) == opt_string(entry.flavour) && m.groups@.len() == 0
                                && m.fragment == fragment && m.content == content && m.imported == imported && m.repo == repo
                        },
                    },
                }
            }),
    {
        let ghost start = issues@;
        if (entry.remote.is_some() || entry.source.is_some()) && in_tree {
            issues.push(
                Issue::new(cat3("`", entry.path.as_str(), "` is referenced but also exists in tree"), &image.src).at(
                    entry.span,
                    owned("two modules would answer to this name"),
                ).help(cat("rename the referenced one, or drop modules/", entry.path.as_str())),
            );
        }
        let dir = entry.dir();
        let file = crate::layout::manifest(root, dir.as_str());
        let text = match text {
            Some(t) => t,
            None => {
                let help = if entry.source.is_some() || entry.remote.is_some() {
                    owned("run ./scripts/tect.sh fetch modules to fetch what the image references")
                } else {
                    cat3("create ", file.as_str(), "; modules/_template/module-name/module.kdl is a copy-me reference")
                };
                issues.push(
                    Issue::new(cat3("`", entry.path.as_str(), "` has no module.kdl"), &image.src).at(entry.span, owned("every module needs a manifest")).help(
                        help,
                    ),
                );
                return None;
            },
        };
        let mut module = match Module::parse(
            entry.path.as_str(),
            dir.as_str(),
            root,
            text.as_str(),
            shipped,
            published,
            fragment,
            content,
            imported,
            repo,
            classes,
            issues,
        ) {
            Some(m) => m,
            None => return None,
        };
        module.flavour = match &entry.flavour {
            Some(f) => Some(f.clone()),
            None => None,
        };
        let src = module.src.copy();
        let resolved = resolve(module.options.as_slice(), module.variants.as_slice(), &src, entry, image, issues);
        module.resolved = resolved;
        Some(module)
    }
}

pub open spec fn opt_string(o: Option<String>) -> Option<Seq<char>> {
    match o {
        Some(s) => Some(s@),
        None => None,
    }
}

/// No two of the names are the same.
pub open spec fn distinct_names(s: Seq<Seq<char>>) -> bool {
    forall|i: int, j: int| 0 <= i < j < s.len() ==> s[i] != s[j]
}

/// Every name among `declared`, or among what `derived` adds to them, for
/// each key's public path.
proof fn lemma_derived_covers(keys: Seq<KeyV>, declared: Seq<DeclV>)
    ensures
        forall|i: int|
            0 <= i < keys.len() ==> (declared + derived(keys, declared)).map_values(|d: DeclV| d.0).contains(#[trigger] keys[i].4),
    decreases keys.len(),
{
    if keys.len() > 0 {
        let rest = keys.drop_last();
        lemma_derived_covers(rest, declared);
        let all = (declared + derived(keys, declared)).map_values(|d: DeclV| d.0);
        let before = (declared + derived(rest, declared)).map_values(|d: DeclV| d.0);
        assert forall|i: int| 0 <= i < keys.len() implies all.contains(#[trigger] keys[i].4) by {
            if i < keys.len() - 1 {
                assert(rest[i] == keys[i]);
                let j = choose|j: int| 0 <= j < before.len() && #[trigger] before[j] == keys[i].4;
                assert(all[j] == before[j]);
            } else {
                let k = keys.last();
                if declared.map_values(|d: DeclV| d.0).contains(k.4) {
                    let names = declared.map_values(|d: DeclV| d.0);
                    let j = choose|j: int| 0 <= j < names.len() && #[trigger] names[j] == k.4;
                    assert(all[j] == k.4);
                } else {
                    let n = (declared + derived(keys, declared)).len() - 1;
                    assert(all[n] == k.4);
                }
            }
        }
    }
}

/// A module's keys each ship their public half at a contract path: once the
/// manifest is read, every key's public path is among its `provides-file`
/// declarations, whether the manifest declared it or not.
pub proof fn lemma_key_publics_provided(m: ModuleV, path: Seq<char>, root: Seq<char>, published: Seq<Seq<char>>, repo: bool, source: Seq<char>)
    ensures
        forall|i: int|
            0 <= i < m.keys.len() ==> finish_spec(m, path, root, published, repo, source).0.provides_files.map_values(|d: DeclV| d.0).contains(
                #[trigger] m.keys[i].4,
            ),
{
    lemma_derived_covers(m.keys, m.provides_files);
}

/// The names a module's options, assets, variants and keys go by.
pub open spec fn unique_parts(m: ModuleV) -> bool {
    &&& distinct_names(m.options.map_values(|o: OptV| o.0))
    &&& distinct_names(m.assets.map_values(|a: AssetV| a.0))
    &&& distinct_names(m.variants.map_values(|v: VariantV| v.0))
    &&& distinct_names(m.keys.map_values(|k: KeyV| k.0))
}

proof fn lemma_push_keeps_distinct(s: Seq<Seq<char>>, x: Seq<char>)
    requires
        distinct_names(s),
        !s.contains(x),
    ensures
        distinct_names(s.push(x)),
{
    assert forall|i: int, j: int| 0 <= i < j < s.push(x).len() implies s.push(x)[i] != s.push(x)[j] by {
        if j == s.len() {
            assert(s.push(x)[i] == s[i]);
        }
    }
}

/// What the nodes other than `option`, `asset`, `variant` and `key` leave
/// alone.
proof fn lemma_parts_kept(m: ModuleV, node: KNode, c: Ctx)
    ensures
        ({
            let same_parts = |x: ModuleV| x.options == m.options && x.assets == m.assets && x.variants == m.variants && x.keys == m.keys;
            &&& same_parts(on_description(m, node).0)
            &&& same_parts(on_supports(m, node, c.source).0)
            &&& same_parts(on_provides_file(m, node, c.source).0)
            &&& same_parts(on_mode(m, node, c).0)
            &&& same_parts(on_helpers(m, node, c).0)
            &&& same_parts(on_allow_verify(m, node, c).0)
            &&& same_parts(on_collects(m, node, c.source).0)
            &&& same_parts(on_contributes(m, node, c).0)
            &&& same_parts(on_fragment(m, node, c).0)
            &&& same_parts(on_packages(m, node, c.source).0)
            &&& same_parts(on_satisfies(m, node, c.source).0)
        }),
{
    reveal(on_description);
    reveal(on_supports);
    reveal(on_provides_file);
    reveal(on_mode);
    reveal(on_helpers);
    reveal(on_allow_verify);
    reveal(on_collects);
    reveal(on_contributes);
    reveal(on_fragment);
    reveal(on_packages);
    reveal(on_satisfies);
}

#[verifier::spinoff_prover]
#[verifier::rlimit(40)]
proof fn lemma_option_unique(m: ModuleV, node: KNode, c: Ctx)
    requires
        unique_parts(m),
    ensures
        unique_parts(on_option(m, node, c.source).0),
{
    reveal(on_option);
    match option_spec(node, c.source).0 {
        Some((name, ty, default)) => if !m.options.map_values(|o: OptV| o.0).contains(name) {
            lemma_push_keeps_distinct(m.options.map_values(|o: OptV| o.0), name);
            assert(m.options.push((name, ty, default, node.name_span)).map_values(|o: OptV| o.0) =~= m.options.map_values(|o: OptV| o.0).push(name));
        },
        None => {},
    }
}

proof fn lemma_asset_unique(m: ModuleV, node: KNode, c: Ctx)
    requires
        unique_parts(m),
    ensures
        unique_parts(on_asset(m, node, c.source).0),
{
    reveal(on_asset);
    match asset_spec(node, c.source).0 {
        Some(a) => if !m.assets.map_values(|x: AssetV| x.0).contains(a.0) {
            lemma_push_keeps_distinct(m.assets.map_values(|x: AssetV| x.0), a.0);
            assert(m.assets.push(a).map_values(|x: AssetV| x.0) =~= m.assets.map_values(|x: AssetV| x.0).push(a.0));
        },
        None => {},
    }
}

proof fn lemma_variant_unique(m: ModuleV, node: KNode)
    requires
        unique_parts(m),
    ensures
        unique_parts(on_variant(m, node).0),
{
    reveal(on_variant);
    match string_arg_spec(node) {
        Some(name) => if !m.variants.map_values(|x: VariantV| x.0).contains(name) {
            lemma_push_keeps_distinct(m.variants.map_values(|x: VariantV| x.0), name);
            assert(m.variants.push((name, sets_spec(kids_spec(node)), node.name_span)).map_values(|x: VariantV| x.0)
                =~= m.variants.map_values(|x: VariantV| x.0).push(name));
        },
        None => {},
    }
}

proof fn lemma_key_unique(m: ModuleV, node: KNode, c: Ctx)
    requires
        unique_parts(m),
    ensures
        unique_parts(on_key(m, node, c.source).0),
{
    reveal(on_key);
    match key_spec(node, c.source).0 {
        Some(k) => if !m.keys.map_values(|x: KeyV| x.0).contains(k.0) {
            lemma_push_keeps_distinct(m.keys.map_values(|x: KeyV| x.0), k.0);
            assert(m.keys.push(k).map_values(|x: KeyV| x.0) =~= m.keys.map_values(|x: KeyV| x.0).push(k.0));
        },
        None => {},
    }
}

proof fn lemma_step_keeps_unique(m: ModuleV, node: KNode, c: Ctx)
    requires
        unique_parts(m),
    ensures
        unique_parts(step(m, node, c).0),
{
    reveal(step);
    lemma_parts_kept(m, node, c);
    lemma_option_unique(m, node, c);
    lemma_asset_unique(m, node, c);
    lemma_variant_unique(m, node);
    lemma_key_unique(m, node, c);
}

/// A manifest that repeats an option, an asset, a variant or a key keeps the
/// first: once its nodes are read, no two options share a name, nor two
/// assets, nor two variants, nor two keys a kind.
pub proof fn lemma_read_keeps_names_unique(nodes: Seq<KNode>, c: Ctx)
    ensures
        unique_parts(read_nodes(nodes, c).0),
    decreases nodes.len(),
{
    if nodes.len() == 0 {
        assert(fresh().options.map_values(|o: OptV| o.0) =~= Seq::<Seq<char>>::empty());
        assert(fresh().assets.map_values(|a: AssetV| a.0) =~= Seq::<Seq<char>>::empty());
        assert(fresh().variants.map_values(|v: VariantV| v.0) =~= Seq::<Seq<char>>::empty());
        assert(fresh().keys.map_values(|k: KeyV| k.0) =~= Seq::<Seq<char>>::empty());
    } else {
        lemma_read_keeps_names_unique(nodes.drop_last(), c);
        lemma_step_keeps_unique(read_nodes(nodes.drop_last(), c).0, nodes.last(), c);
    }
}

/// The same of a whole manifest read by `Module::parse`: the checks made once
/// every node is read add no option, asset, variant or key.
pub proof fn lemma_parsed_names_unique(nodes: Seq<KNode>, c: Ctx, path: Seq<char>, root: Seq<char>, published: Seq<Seq<char>>, repo: bool)
    ensures
        unique_parts(finish_spec(read_nodes(nodes, c).0, path, root, published, repo, c.source).0),
{
    lemma_read_keeps_names_unique(nodes, c);
}


} // verus!
