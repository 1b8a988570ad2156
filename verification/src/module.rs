//! The checks over a resolved image that read more than one module: what the
//! graph of provides and requires says, what a fragment says about the
//! flavour gate, and where each collected file is staged.

use crate::diag::{at_v, bare, help_v, Issue, IssueV, Issues, Span};
use crate::model::image::{loaded_modules, Entry, Image};
use crate::model::module::{decl_names, Collect, Contribution, Decl, Module};
use crate::text::{
    ascending, cat, cat3, cat4, cat5, debug_quoted, join, join_spec, lex_lt, owned, position,
    quoted, same, sorted_distinct, views,
};
use vstd::prelude::*;

verus! {

/// Every name a module offers: capabilities, then contract paths.
pub open spec fn offers(m: Module) -> Seq<Seq<char>> {
    decl_names(m.provides@) + decl_names(m.provides_files@)
}

/// `m` once for each of its names that is `cap`.
pub open spec fn hits(m: Module, names: Seq<Seq<char>>, cap: Seq<char>) -> Seq<Module>
    decreases names.len(),
{
    if names.len() == 0 {
        Seq::empty()
    } else {
        let r = hits(m, names.drop_last(), cap);
        if names.last() == cap {
            r.push(m)
        } else {
            r
        }
    }
}

/// The modules offering `cap`, in build order, once per declaration.
pub open spec fn offered_by(mods: Seq<Module>, cap: Seq<char>) -> Seq<Module>
    decreases mods.len(),
{
    if mods.len() == 0 {
        Seq::empty()
    } else {
        offered_by(mods.drop_last(), cap) + hits(mods.last(), offers(mods.last()), cap)
    }
}

/// Every name any module offers, with repeats.
pub open spec fn all_offered(mods: Seq<Module>) -> Seq<Seq<char>>
    decreases mods.len(),
{
    if mods.len() == 0 {
        Seq::empty()
    } else {
        all_offered(mods.drop_last()) + offers(mods.last())
    }
}

/// Where a module declares `cap` first, or nowhere in particular.
pub open spec fn first_span(m: Module, cap: Seq<char>) -> Span {
    match position(decl_names(m.provides@), cap) {
        Some(i) => m.provides@[i].span,
        None => match position(decl_names(m.provides_files@), cap) {
            Some(i) => m.provides_files@[i].span,
            None => Span { offset: 0, len: 0 },
        },
    }
}

pub open spec fn base_issue(m: Module, cap: Seq<char>, image_file: Seq<char>) -> IssueV {
    help_v(
        at_v(
            bare("`"@ + m.path@ + "` provides `"@ + cap + "`, which the base image already provides"@, m.src.name@),
            first_span(m, cap),
            "already provided by the base"@,
        ),
        "the `base` node in "@ + image_file
            + " declares it. Drop it from the module, or drop it from the base if the base no longer carries it"@,
    )
}

/// One issue per module offering each of `caps`, cap by cap.
pub open spec fn base_phase(mods: Seq<Module>, caps: Seq<Seq<char>>, image_file: Seq<char>) -> Seq<IssueV>
    decreases caps.len(),
{
    if caps.len() == 0 {
        Seq::empty()
    } else {
        let cap = caps.last();
        base_phase(mods, caps.drop_last(), image_file) + offered_by(mods, cap).map_values(
            |m: Module| base_issue(m, cap, image_file),
        )
    }
}

pub open spec fn family_issue(m: Module, family: Seq<char>) -> IssueV {
    help_v(
        bare("`"@ + m.path@ + "` does not support the `"@ + family + "` base family"@, m.src.name@),
        if m.supports@.len() == 0 {
            "add `supports \"fedora\"` to the manifest"@
        } else {
            "it declares support for: "@ + join_spec(views(m.supports@), ", "@)
        },
    )
}

/// One issue per module that does not support the base's family.
pub open spec fn family_phase(mods: Seq<Module>, family: Seq<char>) -> Seq<IssueV>
    decreases mods.len(),
{
    if mods.len() == 0 {
        Seq::empty()
    } else {
        let r = family_phase(mods.drop_last(), family);
        if views(mods.last().supports@).contains(family) {
            r
        } else {
            r.push(family_issue(mods.last(), family))
        }
    }
}

pub open spec fn twice_issue(provs: Seq<Module>, cap: Seq<char>) -> IssueV {
    help_v(
        at_v(
            bare("`"@ + cap + "` is provided by more than one enabled module"@, provs[0].src.name@),
            first_span(provs[0], cap),
            "also provided elsewhere"@,
        ),
        "provided by: "@ + join_spec(provs.map_values(|m: Module| m.path@), ", "@)
            + ". Enable one provider, so that what satisfies a requirement is never ambiguous"@,
    )
}

/// One issue per name more than one module offers, name by name.
pub open spec fn twice_phase(mods: Seq<Module>, caps: Seq<Seq<char>>) -> Seq<IssueV>
    decreases caps.len(),
{
    if caps.len() == 0 {
        Seq::empty()
    } else {
        let r = twice_phase(mods, caps.drop_last());
        let provs = offered_by(mods, caps.last());
        if provs.len() > 1 {
            r.push(twice_issue(provs, caps.last()))
        } else {
            r
        }
    }
}

/// What the issue a shared name draws says.
pub open spec fn twice_message(cap: Seq<char>) -> Seq<char> {
    "`"@ + cap + "` is provided by more than one enabled module"@
}

/// How many of `issues` say `message`.
pub open spec fn count_message(issues: Seq<IssueV>, message: Seq<char>) -> nat
    decreases issues.len(),
{
    if issues.len() == 0 {
        0
    } else {
        count_message(issues.drop_last(), message) + if issues.last().message == message {
            1nat
        } else {
            0nat
        }
    }
}

proof fn lemma_twice_message_names(a: Seq<char>, b: Seq<char>)
    requires
        twice_message(a) == twice_message(b),
    ensures
        a == b,
{
    let suffix = "` is provided by more than one enabled module"@;
    reveal_strlit("`");
    assert(twice_message(a).len() == a.len() + 1 + suffix.len());
    assert(a.len() == b.len());
    assert forall|k: int| 0 <= k < a.len() implies a[k] == b[k] by {
        assert(twice_message(a)[k + 1] == a[k]);
        assert(twice_message(b)[k + 1] == b[k]);
    }
    assert(a =~= b);
}

/// Each name that more than one enabled module offers draws exactly one
/// issue, and a name at most one module offers draws none, among the issues
/// `check_graph` raises for shared names over the names `caps` lists once
/// each.
pub proof fn lemma_one_issue_per_shared_name(mods: Seq<Module>, caps: Seq<Seq<char>>, cap: Seq<char>)
    requires
        caps.no_duplicates(),
    ensures
        count_message(twice_phase(mods, caps), twice_message(cap)) == (if caps.contains(cap) && offered_by(mods, cap).len() > 1 {
            1nat
        } else {
            0nat
        }),
    decreases caps.len(),
{
    if caps.len() > 0 {
        let front = caps.drop_last();
        assert(front.no_duplicates()) by {
            assert forall|i: int, j: int| 0 <= i < front.len() && 0 <= j < front.len() && i != j implies front[i] != front[j] by {
                assert(front[i] == caps[i] && front[j] == caps[j]);
            }
        }
        lemma_one_issue_per_shared_name(mods, front, cap);
        let last = caps.last();
        let r = twice_phase(mods, front);
        let provs = offered_by(mods, last);
        if provs.len() > 1 {
            let issue = twice_issue(provs, last);
            assert(twice_phase(mods, caps) == r.push(issue));
            assert(r.push(issue).drop_last() =~= r);
            assert(issue.message == twice_message(last));
            if twice_message(last) == twice_message(cap) {
                lemma_twice_message_names(last, cap);
            }
        }
        assert(caps.contains(cap) <==> (front.contains(cap) || last == cap)) by {
            if caps.contains(cap) {
                let k = choose|k: int| 0 <= k < caps.len() && caps[k] == cap;
                if k < caps.len() - 1 {
                    assert(front[k] == cap);
                }
            }
            if front.contains(cap) {
                let k = choose|k: int| 0 <= k < front.len() && front[k] == cap;
                assert(caps[k] == cap);
            }
            if last == cap {
                assert(caps[caps.len() - 1] == cap);
            }
        }
        if last == cap {
            assert(!front.contains(cap)) by {
                if front.contains(cap) {
                    let k = choose|k: int| 0 <= k < front.len() && front[k] == cap;
                    assert(caps[k] == caps[caps.len() - 1]);
                }
            }
        }
    }
}

pub open spec fn policy_issue(m: Module) -> IssueV {
    help_v(
        bare("`"@ + m.path@ + "` ships SELinux policy without requiring `mac-policy`"@, m.src.name@),
        "add `requires \"mac-policy\"`; lib/run-module.sh compiles selinux/*.te against the base image's policy store"@,
    )
}

/// One issue per module shipping policy that does not require a MAC.
pub open spec fn policy_phase(mods: Seq<Module>, policy: Seq<bool>) -> Seq<IssueV>
    decreases mods.len(),
{
    if mods.len() == 0 || policy.len() < mods.len() {
        Seq::empty()
    } else {
        let r = policy_phase(mods.drop_last(), policy.take(mods.len() - 1));
        if policy[mods.len() - 1] && !decl_names(mods.last().requires@).contains("mac-policy"@) {
            r.push(policy_issue(mods.last()))
        } else {
            r
        }
    }
}

/// What the repository would offer for a capability nothing enabled provides.
pub open spec fn candidates(disk: Seq<(String, Vec<String>)>, name: Seq<char>) -> Option<Seq<Seq<char>>> {
    match position(disk.map_values(|p: (String, Vec<String>)| p.0@), name) {
        Some(i) => Some(views(disk[i].1@)),
        None => None,
    }
}

pub open spec fn unsatisfied_issue(
    m: Module,
    d: Decl,
    kind: Seq<char>,
    disk: Seq<(String, Vec<String>)>,
    image_file: Seq<char>,
) -> IssueV {
    help_v(
        at_v(
            bare("`"@ + m.path@ + "` "@ + kind + " `"@ + d.name@ + "`, which nothing enabled provides"@, m.src.name@),
            d.span,
            "unsatisfied"@,
        ),
        match candidates(disk, d.name@) {
            Some(c) => join_spec(c, " or "@)
                + " would satisfy it; add it to this image. Nothing is included automatically, so the list stays the complete statement of what is in the image"@,
            None => "no module in the repository declares `provides "@ + debug_quoted(d.name@)
                + "`, and neither does the `base` node in "@ + image_file,
        },
    )
}

pub open spec fn gated_issue(m: Module, d: Decl, kind: Seq<char>, provider: Module, flavour: Seq<char>) -> IssueV {
    help_v(
        at_v(
            bare(
                "`"@ + m.path@ + "` "@ + kind + " `"@ + d.name@ + "`, which only `"@ + provider.path@
                    + "` provides and only on the `"@ + flavour + "` flavour"@,
                m.src.name@,
            ),
            d.span,
            "unsatisfied on every other target"@,
        ),
        "either gate this module to the same flavour, or move the provider out of the flavour block"@,
    )
}

/// What one hard requirement of `m` raises.
pub open spec fn requirement_issues(
    mods: Seq<Module>,
    m: Module,
    d: Decl,
    kind: Seq<char>,
    base: Seq<Seq<char>>,
    disk: Seq<(String, Vec<String>)>,
    image_file: Seq<char>,
) -> Seq<IssueV> {
    if base.contains(d.name@) {
        Seq::empty()
    } else {
        let provs = offered_by(mods, d.name@);
        if provs.len() == 0 {
            seq![unsatisfied_issue(m, d, kind, disk, image_file)]
        } else {
            match provs[0].flavour {
                Some(f) => if !(m.flavour is Some && m.flavour->0@ == f@) {
                    seq![gated_issue(m, d, kind, provs[0], f@)]
                } else {
                    Seq::empty()
                },
                None => Seq::empty(),
            }
        }
    }
}

/// The modules whose declared families lack `family`, in build order.
pub open spec fn lacking(mods: Seq<Module>, family: Seq<char>) -> Seq<Module>
    decreases mods.len(),
{
    if mods.len() == 0 {
        Seq::empty()
    } else if views(mods.last().supports@).contains(family) {
        lacking(mods.drop_last(), family)
    } else {
        lacking(mods.drop_last(), family).push(mods.last())
    }
}

/// Each module whose `supports` lacks the base's family draws one issue
/// naming it, in build order, and no other module draws one. Where the base
/// names no family, `check_graph` raises none of these at all.
pub proof fn lemma_family_issue_exactly_for_unsupported(mods: Seq<Module>, family: Seq<char>)
    ensures
        family_phase(mods, family) == lacking(mods, family).map_values(|m: Module| family_issue(m, family)),
    decreases mods.len(),
{
    if mods.len() > 0 {
        lemma_family_issue_exactly_for_unsupported(mods.drop_last(), family);
        let pre = lacking(mods.drop_last(), family).map_values(|m: Module| family_issue(m, family));
        if !views(mods.last().supports@).contains(family) {
            assert(lacking(mods, family).map_values(|m: Module| family_issue(m, family)) =~= pre.push(
                family_issue(mods.last(), family),
            ));
        }
    }
}

/// Whether any of the modules declares `cap` among what it offers.
pub open spec fn any_offers(mods: Seq<Module>, cap: Seq<char>) -> bool {
    exists|k: int| 0 <= k < mods.len() && offers(#[trigger] mods[k]).contains(cap)
}

proof fn lemma_hits_empty(m: Module, names: Seq<Seq<char>>, cap: Seq<char>)
    ensures
        hits(m, names, cap).len() == 0 <==> !names.contains(cap),
    decreases names.len(),
{
    if names.len() > 0 {
        lemma_hits_empty(m, names.drop_last(), cap);
        if names.drop_last().contains(cap) {
            let k = choose|k: int| 0 <= k < names.drop_last().len() && names.drop_last()[k] == cap;
            assert(names[k] == cap);
        }
        if names.contains(cap) && names.last() != cap {
            let k = choose|k: int| 0 <= k < names.len() && names[k] == cap;
            assert(names.drop_last()[k] == cap);
        }
        if names.last() == cap {
            assert(names[names.len() - 1] == cap);
        }
    }
}

/// Nothing offers a name exactly when no module declares it.
pub proof fn lemma_offered_by_empty(mods: Seq<Module>, cap: Seq<char>)
    ensures
        offered_by(mods, cap).len() == 0 <==> !any_offers(mods, cap),
    decreases mods.len(),
{
    if mods.len() > 0 {
        lemma_offered_by_empty(mods.drop_last(), cap);
        lemma_hits_empty(mods.last(), offers(mods.last()), cap);
        if any_offers(mods.drop_last(), cap) {
            let k = choose|k: int| 0 <= k < mods.drop_last().len() && offers(#[trigger] mods.drop_last()[k]).contains(cap);
            assert(mods[k] == mods.drop_last()[k]);
        }
        if any_offers(mods, cap) && !offers(mods.last()).contains(cap) {
            let k = choose|k: int| 0 <= k < mods.len() && offers(#[trigger] mods[k]).contains(cap);
            assert(k != mods.len() - 1);
            assert(mods.drop_last()[k] == mods[k]);
        }
        if offers(mods.last()).contains(cap) {
            assert(offers(mods[mods.len() - 1]).contains(cap));
        }
    }
}

/// What the issue of a requirement nothing meets says.
pub open spec fn unsatisfied_message(m: Module, d: Decl, kind: Seq<char>) -> Seq<char> {
    "`"@ + m.path@ + "` "@ + kind + " `"@ + d.name@ + "`, which nothing enabled provides"@
}

/// A hard requirement draws the "which nothing enabled provides" issue
/// exactly when neither the base nor any enabled module declares the name.
pub proof fn lemma_unsatisfied_exactly_when_nothing_provides(
    mods: Seq<Module>,
    m: Module,
    d: Decl,
    kind: Seq<char>,
    base: Seq<Seq<char>>,
    disk: Seq<(String, Vec<String>)>,
    image_file: Seq<char>,
)
    ensures
        ({
            let issues = requirement_issues(mods, m, d, kind, base, disk, image_file);
            (exists|i: int| 0 <= i < issues.len() && #[trigger] issues[i].message == unsatisfied_message(m, d, kind))
                <==> (!base.contains(d.name@) && !any_offers(mods, d.name@))
        }),
{
    lemma_offered_by_empty(mods, d.name@);
    let issues = requirement_issues(mods, m, d, kind, base, disk, image_file);
    let provs = offered_by(mods, d.name@);
    if !base.contains(d.name@) && provs.len() == 0 {
        assert(issues[0].message == unsatisfied_message(m, d, kind));
    }
    if !base.contains(d.name@) && provs.len() > 0 {
        match provs[0].flavour {
            Some(f) => {
                if !(m.flavour is Some && m.flavour->0@ == f@) {
                    let g = gated_issue(m, d, kind, provs[0], f@).message;
                    let u = unsatisfied_message(m, d, kind);
                    let head = "`"@ + m.path@ + "` "@ + kind + " `"@ + d.name@ + "`, which "@;
                    reveal_strlit("`, which nothing enabled provides");
                    reveal_strlit("`, which only `");
                    reveal_strlit("`, which ");
                    let l = head.len() as int;
                    assert(u[l] == 'n');
                    assert(g[l] == 'o');
                    assert(issues[0].message == g);
                    assert(issues.len() == 1);
                }
            },
            None => {},
        }
    }
}

/// What a list of one module's requirements raises, in order.
pub open spec fn decls_issues(
    mods: Seq<Module>,
    m: Module,
    decls: Seq<Decl>,
    kind: Seq<char>,
    base: Seq<Seq<char>>,
    disk: Seq<(String, Vec<String>)>,
    image_file: Seq<char>,
) -> Seq<IssueV>
    decreases decls.len(),
{
    if decls.len() == 0 {
        Seq::empty()
    } else {
        decls_issues(mods, m, decls.drop_last(), kind, base, disk, image_file) + requirement_issues(
            mods,
            m,
            decls.last(),
            kind,
            base,
            disk,
            image_file,
        )
    }
}

/// What every module's hard requirements raise, module by module.
pub open spec fn requires_phase(
    mods: Seq<Module>,
    upto: Seq<Module>,
    base: Seq<Seq<char>>,
    disk: Seq<(String, Vec<String>)>,
    image_file: Seq<char>,
) -> Seq<IssueV>
    decreases upto.len(),
{
    if upto.len() == 0 {
        Seq::empty()
    } else {
        let m = upto.last();
        requires_phase(mods, upto.drop_last(), base, disk, image_file) + decls_issues(
            mods,
            m,
            m.requires@,
            "requires"@,
            base,
            disk,
            image_file,
        ) + decls_issues(mods, m, m.requires_files@, "requires-file"@, base, disk, image_file)
    }
}

/// The names the base declares.
pub open spec fn base_names(image: Image) -> Seq<Seq<char>> {
    match image.base {
        Some(b) => base_decl_names(b.provides@) + base_decl_names(b.provides_files@),
        None => Seq::empty(),
    }
}

pub open spec fn base_decl_names(decls: Seq<crate::model::image::Decl>) -> Seq<Seq<char>> {
    decls.map_values(|d: crate::model::image::Decl| d.name@)
}

/// The base family, where the base names one.
pub open spec fn base_family(image: Image) -> Option<Seq<char>> {
    match image.base {
        Some(b) => if b.family@.len() > 0 {
            Some(b.family@)
        } else {
            None
        },
        None => None,
    }
}

/// Whether `caps` is the distinct names of `names` in `str` order.
pub open spec fn sorted_set_of(caps: Seq<Seq<char>>, names: Seq<Seq<char>>) -> bool {
    ascending(caps) && forall|x: Seq<char>| #[trigger] caps.contains(x) <==> names.contains(x)
}

/// Everything the graph check raises, given the sorted base names and the
/// sorted offered names.
pub open spec fn graph_issues(
    image: Image,
    base_sorted: Seq<Seq<char>>,
    offered_sorted: Seq<Seq<char>>,
    disk: Seq<(String, Vec<String>)>,
    policy: Seq<bool>,
) -> Seq<IssueV> {
    let mods = loaded_modules(image.entries@);
    let file = image.src.name@;
    base_phase(mods, base_sorted, file) + match base_family(image) {
        Some(f) => family_phase(mods, f),
        None => Seq::empty(),
    } + twice_phase(mods, offered_sorted) + policy_phase(mods, policy) + requires_phase(
        mods,
        mods,
        base_names(image),
        disk,
        file,
    )
}


/// Two ascending lists holding the same names are the same list.
pub proof fn lemma_sorted_unique(a: Seq<Seq<char>>, b: Seq<Seq<char>>)
    requires
        ascending(a),
        ascending(b),
        forall|x: Seq<char>| #[trigger] a.contains(x) <==> b.contains(x),
    ensures
        a == b,
    decreases a.len(),
{
    if a.len() == 0 {
        if b.len() > 0 {
            assert(b.contains(b[0]));
            assert(a.contains(b[0]));
        }
        assert(a =~= b);
    } else {
        assert(a.contains(a[0]));
        assert(b.contains(a[0]));
        assert(b.len() > 0);
        assert(b.contains(b[0]));
        assert(a.contains(b[0]));
        let i = choose|i: int| 0 <= i < b.len() && b[i] == a[0];
        let j = choose|j: int| 0 <= j < a.len() && a[j] == b[0];
        if i > 0 {
            assert(lex_lt(b[0], b[i]));
            if j > 0 {
                assert(lex_lt(a[0], a[j]));
                crate::text::lemma_lex_asymmetric(a[0], b[0]);
            } else {
                crate::text::lemma_lex_irreflexive(a[0]);
            }
        }
        assert(a[0] == b[0]);
        let ta = a.skip(1);
        let tb = b.skip(1);
        assert forall|x: Seq<char>| #[trigger] ta.contains(x) <==> tb.contains(x) by {
            if ta.contains(x) {
                let k = choose|k: int| 0 <= k < ta.len() && ta[k] == x;
                assert(a[k + 1] == x);
                assert(a.contains(x));
                assert(lex_lt(a[0], x));
                assert(b.contains(x));
                let l = choose|l: int| 0 <= l < b.len() && b[l] == x;
                if l == 0 {
                    crate::text::lemma_lex_irreflexive(x);
                }
                assert(tb[l - 1] == x);
            }
            if tb.contains(x) {
                let k = choose|k: int| 0 <= k < tb.len() && tb[k] == x;
                assert(b[k + 1] == x);
                assert(b.contains(x));
                assert(lex_lt(b[0], x));
                assert(a.contains(x));
                let l = choose|l: int| 0 <= l < a.len() && a[l] == x;
                if l == 0 {
                    crate::text::lemma_lex_irreflexive(x);
                }
                assert(ta[l - 1] == x);
            }
        }
        assert forall|p: int, q: int| 0 <= p < q < ta.len() implies lex_lt(#[trigger] ta[p], #[trigger] ta[q]) by {
            assert(ta[p] == a[p + 1] && ta[q] == a[q + 1]);
        }
        assert forall|p: int, q: int| 0 <= p < q < tb.len() implies lex_lt(#[trigger] tb[p], #[trigger] tb[q]) by {
            assert(tb[p] == b[p + 1] && tb[q] == b[q + 1]);
        }
        lemma_sorted_unique(ta, tb);
        assert(a =~= seq![a[0]] + ta);
        assert(b =~= seq![b[0]] + tb);
    }
}

pub open spec fn deref_all(v: Seq<&Module>) -> Seq<Module> {
    v.map_values(|m: &Module| *m)
}

fn offer_names(m: &Module) -> (r: Vec<String>)
    ensures
        views(r@) == offers(*m),
{
    let mut out: Vec<String> = Vec::new();
    let mut i: usize = 0;
    while i < m.provides.len()
        invariant
            i <= m.provides@.len(),
            views(out@) == decl_names(m.provides@).take(i as int),
        decreases m.provides@.len() - i,
    {
        let ghost prior = views(out@);
        out.push(m.provides[i].name.clone());
        assert(views(out@) =~= prior.push(m.provides@[i as int].name@));
        assert(decl_names(m.provides@).take(i as int + 1) =~= decl_names(m.provides@).take(i as int).push(m.provides@[i as int].name@));
        i = i + 1;
    }
    assert(decl_names(m.provides@).take(i as int) =~= decl_names(m.provides@));
    let mut k: usize = 0;
    while k < m.provides_files.len()
        invariant
            k <= m.provides_files@.len(),
            views(out@) == decl_names(m.provides@) + decl_names(m.provides_files@).take(k as int),
        decreases m.provides_files@.len() - k,
    {
        let ghost prior = views(out@);
        out.push(m.provides_files[k].name.clone());
        assert(views(out@) =~= prior.push(m.provides_files@[k as int].name@));
        assert(decl_names(m.provides_files@).take(k as int + 1) =~= decl_names(m.provides_files@).take(k as int).push(
            m.provides_files@[k as int].name@,
        ));
        k = k + 1;
    }
    assert(decl_names(m.provides_files@).take(k as int) =~= decl_names(m.provides_files@));
    out
}

/// The modules offering `cap`, once per declaration.
fn push_hits<'a>(out: &mut Vec<&'a Module>, m: &'a Module, cap: &str)
    ensures
        deref_all(final(out)@) == deref_all(old(out)@) + hits(*m, offers(*m), cap@),
{
    let names = offer_names(m);
    let ghost before = deref_all(out@);
    let mut k: usize = 0;
    while k < names.len()
        invariant
            k <= names@.len(),
            views(names@) == offers(*m),
            deref_all(out@) == before + hits(*m, views(names@).take(k as int), cap@),
        decreases names@.len() - k,
    {
        let ghost prior = out@;
        assert(views(names@).take(k as int + 1).drop_last() =~= views(names@).take(k as int));
        assert(views(names@).take(k as int + 1).last() == names@[k as int]@);
        if same(names[k].as_str(), cap) {
            out.push(m);
            assert(deref_all(out@) =~= deref_all(prior).push(*m));
        }
        k = k + 1;
    }
    assert(views(names@).take(k as int) =~= views(names@));
}

/// The modules offering `cap`, once per declaration.
fn occurrences<'a>(mods: &Vec<&'a Module>, cap: &str) -> (r: Vec<&'a Module>)
    ensures
        deref_all(r@) == offered_by(deref_all(mods@), cap@),
{
    let ghost ms = deref_all(mods@);
    let mut out: Vec<&'a Module> = Vec::new();
    let mut i: usize = 0;
    while i < mods.len()
        invariant
            ms == deref_all(mods@),
            i <= mods@.len(),
            deref_all(out@) == offered_by(ms.take(i as int), cap@),
        decreases mods@.len() - i,
    {
        let m = mods[i];
        assert(ms.take(i as int + 1).drop_last() =~= ms.take(i as int));
        assert(ms.take(i as int + 1).last() == *m);
        push_hits(&mut out, m, cap);
        i = i + 1;
    }
    assert(ms.take(i as int) =~= ms);
    out
}

fn find_decl(decls: &Vec<Decl>, cap: &str) -> (r: Option<usize>)
    ensures
        match position(decl_names(decls@), cap@) {
            Some(i) => r matches Some(k) && k as int == i && k < decls@.len(),
            None => r is None,
        },
{
    let mut i: usize = 0;
    while i < decls.len()
        invariant
            i <= decls@.len(),
            forall|j: int| 0 <= j < i ==> decl_names(decls@)[j] != cap@,
        decreases decls@.len() - i,
    {
        if same(decls[i].name.as_str(), cap) {
            proof {
                position_found(decl_names(decls@), cap@, i as int);
            }
            return Some(i);
        }
        i = i + 1;
    }
    proof {
        position_found(decl_names(decls@), cap@, i as int);
    }
    None
}

fn first_span_exec(m: &Module, cap: &str) -> (r: Span)
    ensures
        r == first_span(*m, cap@),
{
    match find_decl(&m.provides, cap) {
        Some(i) => m.provides[i].span,
        None => match find_decl(&m.provides_files, cap) {
            Some(i) => m.provides_files[i].span,
            None => Span::none(),
        },
    }
}

proof fn position_found(ids: Seq<Seq<char>>, id: Seq<char>, i: int)
    requires
        0 <= i <= ids.len(),
        forall|j: int| 0 <= j < i ==> ids[j] != id,
        i < ids.len() ==> ids[i] == id,
    ensures
        i < ids.len() ==> position(ids, id) == Some(i),
        i == ids.len() ==> position(ids, id) is None,
{
    crate::text::lemma_position(ids, id, i);
}


fn base_issue_exec(m: &Module, cap: &str, image_file: &str) -> (r: Issue)
    ensures
        r@ == base_issue(*m, cap@, image_file@),
{
    let message = cat5("`", m.path.as_str(), "` provides `", cap, "`, which the base image already provides");
    let help = cat3(
        "the `base` node in ",
        image_file,
        " declares it. Drop it from the module, or drop it from the base if the base no longer carries it",
    );
    Issue::new(message, &m.src).at(first_span_exec(m, cap), owned("already provided by the base")).help(help)
}

fn base_phase_exec(mods: &Vec<&Module>, caps: &Vec<String>, image_file: &str, issues: &mut Issues)
    ensures
        final(issues)@ == old(issues)@ + base_phase(deref_all(mods@), views(caps@), image_file@),
{
    let ghost start = issues@;
    let ghost ms = deref_all(mods@);
    let mut i: usize = 0;
    while i < caps.len()
        invariant
            ms == deref_all(mods@),
            i <= caps@.len(),
            issues@ == start + base_phase(ms, views(caps@).take(i as int), image_file@),
        decreases caps@.len() - i,
    {
        let cap = caps[i].as_str();
        assert(views(caps@).take(i as int + 1).drop_last() =~= views(caps@).take(i as int));
        assert(views(caps@).take(i as int + 1).last() == cap@);
        let provs = occurrences(mods, cap);
        let ghost before = issues@;
        let ghost want = deref_all(provs@).map_values(|m: Module| base_issue(m, cap@, image_file@));
        let mut k: usize = 0;
        while k < provs.len()
            invariant
                k <= provs@.len(),
                want == deref_all(provs@).map_values(|m: Module| base_issue(m, cap@, image_file@)),
                issues@ == before + want.take(k as int),
            decreases provs@.len() - k,
        {
            let issue = base_issue_exec(provs[k], cap, image_file);
            issues.push(issue);
            assert(want.take(k as int + 1) =~= want.take(k as int).push(want[k as int]));
            k = k + 1;
        }
        assert(want.take(k as int) =~= want);
        i = i + 1;
    }
    assert(views(caps@).take(i as int) =~= views(caps@));
}

fn family_phase_exec(mods: &Vec<&Module>, family: &str, issues: &mut Issues)
    ensures
        final(issues)@ == old(issues)@ + family_phase(deref_all(mods@), family@),
{
    let ghost start = issues@;
    let ghost ms = deref_all(mods@);
    let mut i: usize = 0;
    while i < mods.len()
        invariant
            ms == deref_all(mods@),
            i <= mods@.len(),
            issues@ == start + family_phase(ms.take(i as int), family@),
        decreases mods@.len() - i,
    {
        let m = mods[i];
        assert(ms.take(i as int + 1).drop_last() =~= ms.take(i as int));
        assert(ms.take(i as int + 1).last() == *m);
        let mut supported = false;
        let mut k: usize = 0;
        while k < m.supports.len()
            invariant
                k <= m.supports@.len(),
                supported == exists|j: int| 0 <= j < k && m.supports@[j]@ == family@,
            decreases m.supports@.len() - k,
        {
            if same(m.supports[k].as_str(), family) {
                supported = true;
            }
            k = k + 1;
        }
        proof {
            if supported {
                let j = choose|j: int| 0 <= j < k && m.supports@[j]@ == family@;
                assert(views(m.supports@)[j] == family@);
            }
            if views(m.supports@).contains(family@) {
                let j = choose|j: int| 0 <= j < views(m.supports@).len() && #[trigger] views(m.supports@)[j] == family@;
                assert(m.supports@[j]@ == family@);
            }
        }
        if !supported {
            let message = cat5("`", m.path.as_str(), "` does not support the `", family, "` base family");
            let help = if m.supports.len() == 0 {
                owned("add `supports \"fedora\"` to the manifest")
            } else {
                let listed = join(&m.supports, ", ");
                cat("it declares support for: ", listed.as_str())
            };
            issues.push(Issue::new(message, &m.src).help(help));
        }
        i = i + 1;
    }
    assert(ms.take(i as int) =~= ms);
}

fn twice_phase_exec(mods: &Vec<&Module>, caps: &Vec<String>, issues: &mut Issues)
    ensures
        final(issues)@ == old(issues)@ + twice_phase(deref_all(mods@), views(caps@)),
{
    let ghost start = issues@;
    let ghost ms = deref_all(mods@);
    let mut i: usize = 0;
    while i < caps.len()
        invariant
            ms == deref_all(mods@),
            i <= caps@.len(),
            issues@ == start + twice_phase(ms, views(caps@).take(i as int)),
        decreases caps@.len() - i,
    {
        let cap = caps[i].as_str();
        assert(views(caps@).take(i as int + 1).drop_last() =~= views(caps@).take(i as int));
        assert(views(caps@).take(i as int + 1).last() == cap@);
        let provs = occurrences(mods, cap);
        if provs.len() > 1 {
            let mut paths: Vec<String> = Vec::new();
            let mut k: usize = 0;
            while k < provs.len()
                invariant
                    k <= provs@.len(),
                    views(paths@) == deref_all(provs@).map_values(|m: Module| m.path@).take(k as int),
                decreases provs@.len() - k,
            {
                let ghost prior = views(paths@);
                paths.push(provs[k].path.clone());
                assert(views(paths@) =~= prior.push(provs@[k as int].path@));
                assert(deref_all(provs@).map_values(|m: Module| m.path@).take(k as int + 1) =~= deref_all(provs@).map_values(
                    |m: Module| m.path@,
                ).take(k as int).push(provs@[k as int].path@));
                k = k + 1;
            }
            assert(deref_all(provs@).map_values(|m: Module| m.path@).take(k as int) =~= deref_all(provs@).map_values(
                |m: Module| m.path@,
            ));
            let first = provs[0];
            let message = cat3("`", cap, "` is provided by more than one enabled module");
            let listed = join(&paths, ", ");
            let help = cat3(
                "provided by: ",
                listed.as_str(),
                ". Enable one provider, so that what satisfies a requirement is never ambiguous",
            );
            let issue = Issue::new(message, &first.src).at(first_span_exec(first, cap), owned("also provided elsewhere")).help(
                help,
            );
            assert(deref_all(provs@)[0] == *first);
            issues.push(issue);
        }
        i = i + 1;
    }
    assert(views(caps@).take(i as int) =~= views(caps@));
}

fn requires_mac(m: &Module) -> (r: bool)
    ensures
        r == decl_names(m.requires@).contains("mac-policy"@),
{
    let mut i: usize = 0;
    while i < m.requires.len()
        invariant
            i <= m.requires@.len(),
            forall|j: int| 0 <= j < i ==> decl_names(m.requires@)[j] != "mac-policy"@,
        decreases m.requires@.len() - i,
    {
        if same(m.requires[i].name.as_str(), "mac-policy") {
            assert(decl_names(m.requires@)[i as int] == "mac-policy"@);
            return true;
        }
        i = i + 1;
    }
    proof {
        if decl_names(m.requires@).contains("mac-policy"@) {
            let j = choose|j: int| 0 <= j < decl_names(m.requires@).len() && #[trigger] decl_names(m.requires@)[j] == "mac-policy"@;
            assert(decl_names(m.requires@)[j] != "mac-policy"@);
        }
    }
    false
}

fn policy_phase_exec(mods: &Vec<&Module>, policy: &[bool], issues: &mut Issues)
    requires
        policy@.len() == mods@.len(),
    ensures
        final(issues)@ == old(issues)@ + policy_phase(deref_all(mods@), policy@),
{
    let ghost start = issues@;
    let ghost ms = deref_all(mods@);
    let mut i: usize = 0;
    while i < mods.len()
        invariant
            ms == deref_all(mods@),
            policy@.len() == mods@.len(),
            i <= mods@.len(),
            issues@ == start + policy_phase(ms.take(i as int), policy@.take(i as int)),
        decreases mods@.len() - i,
    {
        let m = mods[i];
        assert(ms.take(i as int + 1).drop_last() =~= ms.take(i as int));
        assert(ms.take(i as int + 1).last() == *m);
        assert(policy@.take(i as int + 1).take(i as int) =~= policy@.take(i as int));
        if policy[i] && !requires_mac(m) {
            let message = cat3("`", m.path.as_str(), "` ships SELinux policy without requiring `mac-policy`");
            issues.push(
                Issue::new(message, &m.src).help(
                    owned(
                        "add `requires \"mac-policy\"`; lib/run-module.sh compiles selinux/*.te against the base image's policy store",
                    ),
                ),
            );
        }
        i = i + 1;
    }
    assert(ms.take(i as int) =~= ms);
    assert(policy@.take(i as int) =~= policy@);
}


fn candidates_exec<'a>(disk: &'a [(String, Vec<String>)], name: &str) -> (r: Option<&'a Vec<String>>)
    ensures
        match candidates(disk@, name@) {
            Some(c) => r matches Some(v) && views(v@) == c,
            None => r is None,
        },
{
    let ghost keys = disk@.map_values(|p: (String, Vec<String>)| p.0@);
    let mut i: usize = 0;
    while i < disk.len()
        invariant
            keys == disk@.map_values(|p: (String, Vec<String>)| p.0@),
            i <= disk@.len(),
            forall|j: int| 0 <= j < i ==> keys[j] != name@,
        decreases disk@.len() - i,
    {
        assert(keys[i as int] == disk@[i as int].0@);
        if same(disk[i].0.as_str(), name) {
            proof {
                position_found(keys, name@, i as int);
            }
            return Some(&disk[i].1);
        }
        i = i + 1;
    }
    proof {
        position_found(keys, name@, i as int);
    }
    None
}

fn listed_in(names: &Vec<String>, name: &str) -> (r: bool)
    ensures
        r == views(names@).contains(name@),
{
    let mut i: usize = 0;
    while i < names.len()
        invariant
            i <= names@.len(),
            forall|j: int| 0 <= j < i ==> views(names@)[j] != name@,
        decreases names@.len() - i,
    {
        assert(views(names@)[i as int] == names@[i as int]@);
        if same(names[i].as_str(), name) {
            return true;
        }
        i = i + 1;
    }
    proof {
        if views(names@).contains(name@) {
            let j = choose|j: int| 0 <= j < views(names@).len() && #[trigger] views(names@)[j] == name@;
            assert(views(names@)[j] != name@);
        }
    }
    false
}

fn requirement_exec(
    mods: &Vec<&Module>,
    m: &Module,
    d: &Decl,
    kind: &str,
    base: &Vec<String>,
    disk: &[(String, Vec<String>)],
    image_file: &str,
    issues: &mut Issues,
)
    ensures
        final(issues)@ == old(issues)@ + requirement_issues(deref_all(mods@), *m, *d, kind@, views(base@), disk@, image_file@),
{
    if listed_in(base, d.name.as_str()) {
        assert(issues@ =~= issues@ + Seq::<IssueV>::empty());
        return;
    }
    let provs = occurrences(mods, d.name.as_str());
    if provs.len() == 0 {
        let help = match candidates_exec(disk, d.name.as_str()) {
            Some(c) => {
                let joined = join(c, " or ");
                cat(
                    joined.as_str(),
                    " would satisfy it; add it to this image. Nothing is included automatically, so the list stays the complete statement of what is in the image",
                )
            },
            None => {
                let shown = quoted(d.name.as_str());
                cat4("no module in the repository declares `provides ", shown.as_str(), "`, and neither does the `base` node in ", image_file)
            },
        };
        let head = cat4("`", m.path.as_str(), "` ", kind);
        let message = cat4(head.as_str(), " `", d.name.as_str(), "`, which nothing enabled provides");
        let issue = Issue::new(message, &m.src).at(d.span, owned("unsatisfied")).help(help);
        let ghost prior = issues@;
        issues.push(issue);
        assert(issues@ =~= prior + seq![issue@]);
        return;
    }
    let provider = provs[0];
    assert(deref_all(provs@)[0] == *provider);
    match &provider.flavour {
        Some(f) => {
            let same_gate = match &m.flavour {
                Some(g) => same(g.as_str(), f.as_str()),
                None => false,
            };
            if !same_gate {
                let head = cat4("`", m.path.as_str(), "` ", kind);
                let a = cat5(head.as_str(), " `", d.name.as_str(), "`, which only `", provider.path.as_str());
                let message = cat3(a.as_str(), "` provides and only on the `", f.as_str());
                let message = cat(message.as_str(), "` flavour");
                let issue = Issue::new(message, &m.src).at(d.span, owned("unsatisfied on every other target")).help(
                    owned("either gate this module to the same flavour, or move the provider out of the flavour block"),
                );
                let ghost prior = issues@;
                issues.push(issue);
                assert(issues@ =~= prior + seq![issue@]);
            } else {
                assert(issues@ =~= issues@ + Seq::<IssueV>::empty());
            }
        },
        None => {
            assert(issues@ =~= issues@ + Seq::<IssueV>::empty());
        },
    }
}

fn decls_exec(
    mods: &Vec<&Module>,
    m: &Module,
    decls: &Vec<Decl>,
    kind: &str,
    base: &Vec<String>,
    disk: &[(String, Vec<String>)],
    image_file: &str,
    issues: &mut Issues,
)
    ensures
        final(issues)@ == old(issues)@ + decls_issues(deref_all(mods@), *m, decls@, kind@, views(base@), disk@, image_file@),
{
    let ghost start = issues@;
    let mut k: usize = 0;
    while k < decls.len()
        invariant
            k <= decls@.len(),
            issues@ == start + decls_issues(deref_all(mods@), *m, decls@.take(k as int), kind@, views(base@), disk@, image_file@),
        decreases decls@.len() - k,
    {
        assert(decls@.take(k as int + 1).drop_last() =~= decls@.take(k as int));
        assert(decls@.take(k as int + 1).last() == decls@[k as int]);
        requirement_exec(mods, m, &decls[k], kind, base, disk, image_file, issues);
        k = k + 1;
    }
    assert(decls@.take(k as int) =~= decls@);
}

/// Single pass over the resolved graph: what the base already provides, the
/// base family, what more than one module provides, policy without a MAC,
/// and every hard requirement nothing enabled meets. `disk` is what every
/// capability in the repository is provided by, and `policy` says, module by
/// module in build order, whether it ships SELinux policy.
pub fn check_graph(image: &Image, disk: &[(String, Vec<String>)], policy: &[bool], issues: &mut Issues)
    requires
        policy@.len() == loaded_modules(image.entries@).len(),
    ensures
        forall|bs: Seq<Seq<char>>, os: Seq<Seq<char>>|
            sorted_set_of(bs, base_names(*image)) && sorted_set_of(os, all_offered(loaded_modules(image.entries@)))
                ==> #[trigger] graph_issues(*image, bs, os, disk@, policy@) == final(issues)@.skip(old(issues)@.len() as int),
        final(issues)@.take(old(issues)@.len() as int) == old(issues)@,
{
    let ghost start = issues@;
    let mods = image.modules();
    let ghost ms = deref_all(mods@);
    assert(ms =~= loaded_modules(image.entries@));
    let mut base: Vec<String> = Vec::new();
    match &image.base {
        Some(b) => {
            let mut i: usize = 0;
            while i < b.provides.len()
                invariant
                    i <= b.provides@.len(),
                    views(base@) == base_decl_names(b.provides@).take(i as int),
                decreases b.provides@.len() - i,
            {
                let ghost prior = views(base@);
                base.push(b.provides[i].name.clone());
                assert(views(base@) =~= prior.push(b.provides@[i as int].name@));
                assert(base_decl_names(b.provides@).take(i as int + 1) =~= base_decl_names(b.provides@).take(i as int).push(b.provides@[i as int].name@));
                i = i + 1;
            }
            assert(base_decl_names(b.provides@).take(i as int) =~= base_decl_names(b.provides@));
            let mut k: usize = 0;
            while k < b.provides_files.len()
                invariant
                    k <= b.provides_files@.len(),
                    views(base@) == base_decl_names(b.provides@) + base_decl_names(b.provides_files@).take(k as int),
                decreases b.provides_files@.len() - k,
            {
                let ghost prior = views(base@);
                base.push(b.provides_files[k].name.clone());
                assert(views(base@) =~= prior.push(b.provides_files@[k as int].name@));
                assert(base_decl_names(b.provides_files@).take(k as int + 1) =~= base_decl_names(b.provides_files@).take(k as int).push(b.provides_files@[k as int].name@));
                k = k + 1;
            }
            assert(base_decl_names(b.provides_files@).take(k as int) =~= base_decl_names(b.provides_files@));
        },
        None => {
            assert(views(base@) =~= Seq::<Seq<char>>::empty());
        },
    }
    assert(views(base@) == base_names(*image));
    let mut offered: Vec<String> = Vec::new();
    let mut i: usize = 0;
    while i < mods.len()
        invariant
            ms == deref_all(mods@),
            i <= mods@.len(),
            views(offered@) == all_offered(ms.take(i as int)),
        decreases mods@.len() - i,
    {
        assert(ms.take(i as int + 1).drop_last() =~= ms.take(i as int));
        assert(ms.take(i as int + 1).last() == *mods@[i as int]);
        let names = offer_names(mods[i]);
        let ghost before = views(offered@);
        let mut k: usize = 0;
        while k < names.len()
            invariant
                k <= names@.len(),
                views(offered@) == before + views(names@).take(k as int),
            decreases names@.len() - k,
        {
            let ghost prior = views(offered@);
            offered.push(names[k].clone());
            assert(views(offered@) =~= prior.push(names@[k as int]@));
            assert(views(names@).take(k as int + 1) =~= views(names@).take(k as int).push(names@[k as int]@));
            k = k + 1;
        }
        assert(views(names@).take(k as int) =~= views(names@));
        i = i + 1;
    }
    assert(ms.take(i as int) =~= ms);
    let base_sorted = sorted_distinct(&base);
    let offered_sorted = sorted_distinct(&offered);
    base_phase_exec(&mods, &base_sorted, image.src.name.as_str(), issues);
    let ghost after_base = issues@;
    let ghost fam: Seq<IssueV> = match base_family(*image) {
        Some(f) => family_phase(ms, f),
        None => Seq::empty(),
    };
    match &image.base {
        Some(b) => {
            if b.family.unicode_len() > 0 {
                family_phase_exec(&mods, b.family.as_str(), issues);
            } else {
                assert(issues@ =~= after_base + fam);
            }
        },
        None => {
            assert(issues@ =~= after_base + fam);
        },
    }
    twice_phase_exec(&mods, &offered_sorted, issues);
    policy_phase_exec(&mods, policy, issues);
    let ghost before_requires = issues@;
    let mut j: usize = 0;
    while j < mods.len()
        invariant
            ms == deref_all(mods@),
            j <= mods@.len(),
            issues@ == before_requires + requires_phase(ms, ms.take(j as int), views(base@), disk@, image.src.name@),
        decreases mods@.len() - j,
    {
        let m = mods[j];
        assert(ms.take(j as int + 1).drop_last() =~= ms.take(j as int));
        assert(ms.take(j as int + 1).last() == *m);
        decls_exec(&mods, m, &m.requires, "requires", &base, disk, image.src.name.as_str(), issues);
        decls_exec(&mods, m, &m.requires_files, "requires-file", &base, disk, image.src.name.as_str(), issues);
        j = j + 1;
    }
    assert(ms.take(j as int) =~= ms);
    proof {
        assert forall|bs: Seq<Seq<char>>, os: Seq<Seq<char>>|
            sorted_set_of(bs, base_names(*image)) && sorted_set_of(os, all_offered(loaded_modules(image.entries@)))
                implies #[trigger] graph_issues(*image, bs, os, disk@, policy@) == issues@.skip(start.len() as int) by {
            lemma_sorted_unique(bs, views(base_sorted@));
            lemma_sorted_unique(os, views(offered_sorted@));
            assert(issues@.skip(start.len() as int) =~= graph_issues(*image, bs, os, disk@, policy@));
        }
        assert(issues@.take(start.len() as int) =~= start);
    }
}


/// Whether a fragment expands FLAVOUR.
pub open spec fn expands_flavour(body: Seq<char>) -> bool {
    crate::text::holds(body, "${FLAVOUR}"@) || crate::text::holds(body, "$FLAVOUR"@)
}

/// Whether any line of a fragment is a RUN instruction.
pub open spec fn runs(body: Seq<char>) -> bool {
    exists|i: int|
        0 <= i < crate::text::lines_spec(body).len() && crate::text::is_prefix(
            "RUN "@,
            crate::text::trim_start_spec(#[trigger] crate::text::lines_spec(body)[i]),
        )
}

/// The flavour a fragment's `FLAVOUR_GATE=` names: the first word after the
/// first one, up to the next, and nothing where it has none.
pub open spec fn gate_declared(body: Seq<char>) -> Option<Seq<char>> {
    let p = "FLAVOUR_GATE="@;
    if crate::text::holds(body, p) {
        let rest = body.skip(crate::text::first_index(body, p) + p.len());
        let segment = if crate::text::holds(rest, p) {
            rest.take(crate::text::first_index(rest, p))
        } else {
            rest
        };
        let ws = crate::text::words_spec(segment);
        Some(if ws.len() > 0 { ws[0] } else { Seq::empty() })
    } else {
        None
    }
}

pub open spec fn above_gate_issue(e: Entry, file: Seq<char>) -> IssueV {
    help_v(
        at_v(bare("`"@ + e.path@ + "` expands FLAVOUR above the flavour gate"@, file), e.span, "listed above the first flavour-gated module"@),
        "ARG FLAVOUR is declared directly above the first gated entry, so a fragment before it would expand to an empty string"@,
    )
}

pub open spec fn wrong_gate_issue(e: Entry, flavour: Seq<char>, d: Seq<char>, file: Seq<char>) -> IssueV {
    at_v(bare("`"@ + e.path@ + "` is listed under `"@ + flavour + "` but its fragment gates on `"@ + d + "`"@, file), e.span, "listed here"@)
}

pub open spec fn no_gate_issue(e: Entry, flavour: Seq<char>, file: Seq<char>) -> IssueV {
    help_v(
        at_v(
            bare("`"@ + e.path@ + "` is listed under `"@ + flavour + "` but its fragment sets no FLAVOUR_GATE"@, file),
            e.span,
            "the flavour gate would be silently ignored"@,
        ),
        "a fragment is emitted unconditionally, so anything it runs has to carry the flavour gate itself"@,
    )
}

/// What one entry's fragment raises, given whether the flavour gate is above it.
pub open spec fn fragment_issues(e: Entry, gated: bool, file: Seq<char>) -> Seq<IssueV> {
    match e.module {
        None => Seq::empty(),
        Some(m) => match m.fragment {
            None => Seq::empty(),
            Some(body) => {
                let first: Seq<IssueV> = if !gated && expands_flavour(body@) {
                    seq![above_gate_issue(e, file)]
                } else {
                    Seq::empty()
                };
                let second: Seq<IssueV> = match e.flavour {
                    Some(f) => if runs(body@) {
                        match gate_declared(body@) {
                            Some(d) => if d == f@ {
                                Seq::empty()
                            } else {
                                seq![wrong_gate_issue(e, f@, d, file)]
                            },
                            None => seq![no_gate_issue(e, f@, file)],
                        }
                    } else {
                        Seq::empty()
                    },
                    None => Seq::empty(),
                };
                first + second
            },
        },
    }
}

/// Whether an entry at or above `k` is a gated one with a manifest.
pub open spec fn gated_by(entries: Seq<Entry>, k: int) -> bool {
    exists|j: int| 0 <= j <= k && entries[j].module is Some && entries[j].flavour is Some
}

/// What every fragment raises, in build order.
pub open spec fn fragments_spec(entries: Seq<Entry>, k: int, file: Seq<char>) -> Seq<IssueV>
    decreases k,
{
    if k <= 0 {
        Seq::empty()
    } else {
        fragments_spec(entries, k - 1, file) + fragment_issues(entries[k - 1], gated_by(entries, k - 1), file)
    }
}

fn runs_exec(body: &str) -> (r: bool)
    ensures
        r == runs(body@),
{
    let ls = crate::text::lines(body);
    let mut i: usize = 0;
    while i < ls.len()
        invariant
            views(ls@) == crate::text::lines_spec(body@),
            i <= ls@.len(),
            forall|j: int| 0 <= j < i ==> !crate::text::is_prefix("RUN "@, crate::text::trim_start_spec(#[trigger] crate::text::lines_spec(body@)[j])),
        decreases ls@.len() - i,
    {
        assert(views(ls@)[i as int] == ls@[i as int]@);
        let t = crate::text::trim_start(ls[i].as_str());
        if crate::text::starts_with(t.as_str(), "RUN ") {
            return true;
        }
        i = i + 1;
    }
    false
}

fn split_unique(s: &str, p: &str) -> (r: Option<(String, String)>)
    ensures
        r is None ==> !crate::text::holds(s@, p@),
        r matches Some((a, b)) ==> crate::text::holds(s@, p@) && a@ == s@.take(crate::text::first_index(s@, p@)) && b@ == s@.skip(
            crate::text::first_index(s@, p@) + p@.len(),
        ),
{
    match crate::text::split_once(s, p) {
        Some((a, b)) => {
            proof {
                let at = choose|at: int|
                    #![trigger crate::text::first_at(s@, p@, at)]
                    crate::text::first_at(s@, p@, at) && a@ == s@.take(at) && b@ == s@.skip(at + p@.len());
                assert(crate::text::occurs_at(s@, p@, at));
                assert(crate::text::holds(s@, p@));
                let f = crate::text::first_index(s@, p@);
                assert(crate::text::first_at(s@, p@, f));
                crate::text::lemma_first_at_unique(s@, p@, at, f);
            }
            Some((a, b))
        },
        None => None,
    }
}

fn gate_declared_exec(body: &str) -> (r: Option<String>)
    ensures
        match gate_declared(body@) {
            Some(d) => r matches Some(e) && e@ == d,
            None => r is None,
        },
{
    match split_unique(body, "FLAVOUR_GATE=") {
        None => None,
        Some((_, rest)) => {
            let segment = match split_unique(rest.as_str(), "FLAVOUR_GATE=") {
                Some((a, _)) => a,
                None => rest,
            };
            let ws = crate::text::words(segment.as_str());
            if ws.len() > 0 {
                assert(views(ws@)[0] == ws@[0]@);
                Some(ws[0].clone())
            } else {
                Some(String::new())
            }
        },
    }
}

/// A fragment is inlined verbatim, so nothing the generator does can make it
/// agree with the entry that carries it. Walks the entries in build order,
/// which is where `ARG FLAVOUR` lands: directly above the first gated module.
pub fn check_fragments(image: &Image, issues: &mut Issues)
    ensures
        final(issues)@ == old(issues)@ + fragments_spec(image.entries@, image.entries@.len() as int, image.src.name@),
{
    let ghost start = issues@;
    let ghost es = image.entries@;
    let ghost file = image.src.name@;
    let mut gated = false;
    let mut i: usize = 0;
    while i < image.entries.len()
        invariant
            es == image.entries@,
            file == image.src.name@,
            i <= es.len(),
            gated == (i > 0 && gated_by(es, i - 1)),
            issues@ == start + fragments_spec(es, i as int, file),
        decreases es.len() - i,
    {
        let entry = &image.entries[i];
        proof {
            if i > 0 && gated_by(es, i - 1) {
                let j = choose|j: int| 0 <= j <= i - 1 && es[j].module is Some && es[j].flavour is Some;
                assert(0 <= j <= i as int && es[j].module is Some && es[j].flavour is Some);
            }
            if gated_by(es, i as int) && !(es[i as int].module is Some && es[i as int].flavour is Some) {
                let j = choose|j: int| 0 <= j <= i && es[j].module is Some && es[j].flavour is Some;
                assert(j < i);
            }
        }
        let ghost before = issues@;
        match &entry.module {
            None => {
                assert(gated_by(es, i as int) == (i > 0 && gated_by(es, i - 1)));
            },
            Some(module) => {
                if entry.flavour.is_some() {
                    gated = true;
                }
                assert(gated == gated_by(es, i as int));
                match &module.fragment {
                    None => {},
                    Some(body) => {
                        let path = entry.path.as_str();
                        let b = body.as_str();
                        if !gated && (crate::text::find(b, "${FLAVOUR}").is_some() || crate::text::find(b, "$FLAVOUR").is_some()) {
                            let message = cat3("`", path, "` expands FLAVOUR above the flavour gate");
                            issues.push(
                                Issue::new(message, &image.src).at(entry.span, owned("listed above the first flavour-gated module")).help(
                                    owned("ARG FLAVOUR is declared directly above the first gated entry, so a fragment before it would expand to an empty string"),
                                ),
                            );
                        }
                        let ghost mid = issues@;
                        match &entry.flavour {
                            Some(f) => {
                                if runs_exec(b) {
                                    match gate_declared_exec(b) {
                                        Some(d) => {
                                            if !same(d.as_str(), f.as_str()) {
                                                let head = cat5("`", path, "` is listed under `", f.as_str(), "` but its fragment gates on `");
                                                let message = cat3(head.as_str(), d.as_str(), "`");
                                                issues.push(Issue::new(message, &image.src).at(entry.span, owned("listed here")));
                                            }
                                        },
                                        None => {
                                            let message = cat5("`", path, "` is listed under `", f.as_str(), "` but its fragment sets no FLAVOUR_GATE");
                                            issues.push(
                                                Issue::new(message, &image.src).at(entry.span, owned("the flavour gate would be silently ignored")).help(
                                                    owned("a fragment is emitted unconditionally, so anything it runs has to carry the flavour gate itself"),
                                                ),
                                            );
                                        },
                                    }
                                }
                            },
                            None => {},
                        }
                    },
                }
            },
        }
        assert(issues@ =~= before + fragment_issues(es[i as int], gated_by(es, i as int), file));
        i = i + 1;
    }
}


/// One contribution, as the file in the contributor's directory and the path
/// its layer stages that file at.
pub struct Collected {
    pub file: String,
    pub staged: String,
}

pub open spec fn collected_views(cs: Seq<Collected>) -> Seq<(Seq<char>, Seq<char>)> {
    cs.map_values(|c: Collected| (c.file@, c.staged@))
}

/// Every contribution, and every destination assembled from them.
pub struct Collection {
    /// Contributor module path to what its layer stages, in path order.
    pub by_module: Vec<(String, Vec<Collected>)>,
    /// Every destination the finalize phase assembles, sorted so two runs on
    /// the same tree emit the same ARG.
    pub destinations: Vec<String>,
}

/// One contribution as plain values: the contributing module, the file, and
/// where it is staged.
pub type Contrib = (Seq<char>, Seq<char>, Seq<char>);

/// What the contributions in `flat` stage for module `path`, in order.
pub open spec fn of_path(flat: Seq<Contrib>, path: Seq<char>) -> Seq<(Seq<char>, Seq<char>)>
    decreases flat.len(),
{
    if flat.len() == 0 {
        Seq::empty()
    } else {
        let t = flat.last();
        of_path(flat.drop_last(), path) + if t.0 == path {
            seq![(t.1, t.2)]
        } else {
            Seq::empty()
        }
    }
}

pub open spec fn group_keys(by: Seq<(String, Vec<Collected>)>) -> Seq<Seq<char>> {
    by.map_values(|e: (String, Vec<Collected>)| e.0@)
}

/// `by` is `flat` grouped by module: one entry for each module that
/// contributes anything, in path order, each holding what that module
/// stages in the order it was found.
pub open spec fn grouped(by: Seq<(String, Vec<Collected>)>, flat: Seq<Contrib>) -> bool {
    &&& ascending(group_keys(by))
    &&& forall|x: Seq<char>| #[trigger] group_keys(by).contains(x) <==> of_path(flat, x).len() > 0
    &&& forall|k: int| 0 <= k < by.len() ==> collected_views(#[trigger] by[k].1@) == of_path(flat, by[k].0@)
}

/// Files `c` under `path`, keeping the grouping.
fn file_under(by: &mut Vec<(String, Vec<Collected>)>, path: String, c: Collected, Ghost(flat): Ghost<Seq<Contrib>>)
    requires
        grouped(old(by)@, flat),
    ensures
        grouped(final(by)@, flat.push((path@, c.file@, c.staged@))),
{
    let ghost t: Contrib = (path@, c.file@, c.staged@);
    let ghost flat2 = flat.push(t);
    let ghost keys0 = group_keys(by@);
    assert(flat2.drop_last() =~= flat);
    assert forall|x: Seq<char>| x != path@ implies #[trigger] of_path(flat2, x) == of_path(flat, x) by {
        assert(of_path(flat2, x) =~= of_path(flat, x) + Seq::<(Seq<char>, Seq<char>)>::empty());
    }
    assert(of_path(flat2, path@) =~= of_path(flat, path@).push((c.file@, c.staged@)));
    let mut k: usize = 0;
    while k < by.len() && crate::text::lex_less(by[k].0.as_str(), path.as_str())
        invariant
            k <= by@.len(),
            keys0 == group_keys(by@),
            forall|j: int| 0 <= j < k ==> lex_lt(#[trigger] keys0[j], path@),
        decreases by@.len() - k,
    {
        assert(keys0[k as int] == by@[k as int].0@);
        k = k + 1;
    }
    if k < by.len() && same(by[k].0.as_str(), path.as_str()) {
        assert(keys0[k as int] == path@);
        let mut entry = by.remove(k);
        let ghost before = collected_views(entry.1@);
        assert(before == of_path(flat, path@));
        entry.1.push(c);
        assert(collected_views(entry.1@) =~= before.push((c.file@, c.staged@)));
        by.insert(k, entry);
        assert(group_keys(by@) =~= keys0);
        assert forall|j: int| 0 <= j < by@.len() implies collected_views(#[trigger] by@[j].1@) == of_path(flat2, by@[j].0@) by {
            if j != k {
                assert(by@[j].0@ == keys0[j]);
                if keys0[j] == path@ {
                    crate::text::lemma_lex_irreflexive(path@);
                    assert(ascending(keys0));
                    if j < k {
                        assert(lex_lt(keys0[j], keys0[k as int]));
                    } else {
                        assert(lex_lt(keys0[k as int], keys0[j]));
                    }
                }
            }
        }
        assert forall|x: Seq<char>| #[trigger] group_keys(by@).contains(x) <==> of_path(flat2, x).len() > 0 by {
            if x == path@ {
                assert(group_keys(by@)[k as int] == x);
            }
        }
    } else {
        let mut fresh: Vec<Collected> = Vec::new();
        fresh.push(c);
        let ghost tail = collected_views(fresh@);
        assert(tail =~= seq![(t.1, t.2)]);
        proof {
            if of_path(flat, path@).len() > 0 {
                assert(keys0.contains(path@));
                let w = choose|w: int| 0 <= w < keys0.len() && keys0[w] == path@;
                if w < k {
                    crate::text::lemma_lex_irreflexive(path@);
                } else if w > k {
                    crate::text::lemma_lex_total(keys0[k as int], path@);
                    assert(!lex_lt(keys0[k as int], path@));
                    assert(lex_lt(keys0[k as int], keys0[w]));
                } else {
                    assert(keys0[k as int] == path@);
                }
                assert(false);
            }
            assert(of_path(flat, path@) =~= Seq::<(Seq<char>, Seq<char>)>::empty());
        }
        by.insert(k, (path, fresh));
        assert(group_keys(by@) =~= keys0.insert(k as int, path@));
        proof {
            let keys = group_keys(by@);
            if k < keys0.len() {
                crate::text::lemma_lex_total(keys0[k as int], path@);
                assert(lex_lt(path@, keys0[k as int]));
            }
            assert forall|m: int| k <= m < keys0.len() implies lex_lt(path@, #[trigger] keys0[m]) by {
                if m > k {
                    assert(lex_lt(keys0[k as int], keys0[m]));
                    crate::text::lemma_lex_transitive(path@, keys0[k as int], keys0[m]);
                }
            }
            assert forall|i: int, j: int| 0 <= i < j < keys.len() implies lex_lt(#[trigger] keys[i], #[trigger] keys[j]) by {
                if j < k {
                    assert(keys[i] == keys0[i] && keys[j] == keys0[j]);
                } else if j == k {
                    assert(keys[i] == keys0[i]);
                } else if i == k {
                    assert(keys[j] == keys0[j - 1]);
                    assert(lex_lt(path@, keys0[j - 1]));
                } else if i < k {
                    assert(keys[i] == keys0[i] && keys[j] == keys0[j - 1]);
                    assert(lex_lt(path@, keys0[j - 1]));
                    crate::text::lemma_lex_transitive(keys0[i], path@, keys0[j - 1]);
                } else {
                    assert(keys[i] == keys0[i - 1] && keys[j] == keys0[j - 1]);
                }
            }
            assert forall|j: int| 0 <= j < by@.len() implies collected_views(#[trigger] by@[j].1@) == of_path(flat2, by@[j].0@) by {
                if j < k {
                    assert(by@[j] == old(by)@[j]);
                    assert(keys0[j] != path@) by {
                        crate::text::lemma_lex_irreflexive(path@);
                    }
                } else if j > k {
                    assert(by@[j] == old(by)@[j - 1]);
                    assert(keys0[j - 1] != path@) by {
                        crate::text::lemma_lex_asymmetric(keys0[k as int], path@);
                        if j - 1 > k {
                            assert(lex_lt(keys0[k as int], keys0[j - 1]));
                        }
                    }
                }
            }
            assert forall|x: Seq<char>| #[trigger] keys.contains(x) <==> of_path(flat2, x).len() > 0 by {
                if x == path@ {
                    assert(keys[k as int] == x);
                } else {
                    assert(of_path(flat2, x) == of_path(flat, x));
                    assert(group_keys(old(by)@).contains(x) <==> of_path(flat, x).len() > 0);
                    assert(keys0 == group_keys(old(by)@));
                }
                if x == path@ {
                } else if keys.contains(x) {
                    let w = choose|w: int| 0 <= w < keys.len() && keys[w] == x;
                    if w < k {
                        assert(keys0[w] == x);
                    } else {
                        assert(keys0[w - 1] == x);
                    }
                } else if keys0.contains(x) {
                    let w = choose|w: int| 0 <= w < keys0.len() && keys0[w] == x;
                    if w < k {
                        assert(keys[w] == x);
                    } else {
                        assert(keys[w + 1] == x);
                    }
                }
            }
        }
    }
}


pub open spec fn collect_files(cs: Seq<Collect>) -> Seq<Seq<char>> {
    cs.map_values(|c: Collect| c.file@)
}

/// The first module from `i` on that collects `file`.
pub open spec fn collector_from(mods: Seq<Module>, file: Seq<char>, i: int) -> Option<int>
    decreases mods.len() - i,
{
    if i < 0 || i >= mods.len() {
        None
    } else if collect_files(mods[i].collects@).contains(file) {
        Some(i)
    } else {
        collector_from(mods, file, i + 1)
    }
}

/// Who already collected `file` when the `k`-th collect of module `i` is
/// read: an earlier module, or an earlier collect of the same one.
pub open spec fn owner_before(mods: Seq<Module>, i: int, k: int, file: Seq<char>) -> Option<Seq<char>> {
    match collector_from(mods.take(i), file, 0) {
        Some(j) => Some(mods[j].path@),
        None => if collect_files(mods[i].collects@.take(k)).contains(file) {
            Some(mods[i].path@)
        } else {
            None
        },
    }
}

pub open spec fn collected_twice(m: Module, c: Collect, first: Seq<char>) -> IssueV {
    help_v(
        at_v(bare("two enabled modules collect `"@ + c.file@ + "`"@, m.src.name@), c.span, "collected again here"@),
        "already collected by `"@ + first + "`"@,
    )
}

/// A second collector of a file, for the first `k` collects of module `i`.
pub open spec fn dups_in(mods: Seq<Module>, i: int, k: int) -> Seq<IssueV>
    decreases k,
{
    if k <= 0 || k > mods[i].collects@.len() {
        Seq::empty()
    } else {
        let c = mods[i].collects@[k - 1];
        dups_in(mods, i, k - 1) + match owner_before(mods, i, k - 1, c.file@) {
            Some(first) => seq![collected_twice(mods[i], c, first)],
            None => Seq::empty(),
        }
    }
}

pub open spec fn dup_issues(mods: Seq<Module>, n: int) -> Seq<IssueV>
    decreases n,
{
    if n <= 0 || n > mods.len() {
        Seq::empty()
    } else {
        dup_issues(mods, n - 1) + dups_in(mods, n - 1, mods[n - 1].collects@.len() as int)
    }
}

/// How many of `cs` collect `file`.
pub open spec fn count_file(cs: Seq<Collect>, file: Seq<char>) -> nat
    decreases cs.len(),
{
    if cs.len() == 0 {
        0
    } else {
        count_file(cs.drop_last(), file) + if cs.last().file@ == file {
            1nat
        } else {
            0nat
        }
    }
}

/// How many collects of `file` the first `i` modules declare.
pub open spec fn count_before(mods: Seq<Module>, i: int, file: Seq<char>) -> nat
    decreases i,
{
    if i <= 0 || i > mods.len() {
        0
    } else {
        count_before(mods, i - 1, file) + count_file(mods[i - 1].collects@, file)
    }
}

/// What the issue of a second collector of `file` says.
pub open spec fn collected_twice_message(file: Seq<char>) -> Seq<char> {
    "two enabled modules collect `"@ + file + "`"@
}

/// One less than `n`, but never below none.
pub open spec fn all_but_one(n: nat) -> nat {
    if n > 0 { (n - 1) as nat } else { 0 }
}

proof fn lemma_count_file_contains(cs: Seq<Collect>, file: Seq<char>)
    ensures
        count_file(cs, file) > 0 <==> collect_files(cs).contains(file),
    decreases cs.len(),
{
    if cs.len() > 0 {
        lemma_count_file_contains(cs.drop_last(), file);
        let fs = collect_files(cs);
        let front = collect_files(cs.drop_last());
        assert(front =~= fs.drop_last());
        if front.contains(file) {
            let k = choose|k: int| 0 <= k < front.len() && front[k] == file;
            assert(fs[k] == file);
        }
        if fs.contains(file) && cs.last().file@ != file {
            let k = choose|k: int| 0 <= k < fs.len() && fs[k] == file;
            assert(k != fs.len() - 1);
            assert(front[k] == file);
        }
        if cs.last().file@ == file {
            assert(fs[fs.len() - 1] == file);
        }
    }
}

proof fn lemma_collector_from(ms: Seq<Module>, file: Seq<char>, i: int)
    requires
        0 <= i <= ms.len(),
    ensures
        collector_from(ms, file, i) is Some <==> exists|j: int|
            i <= j < ms.len() && collect_files(#[trigger] ms[j].collects@).contains(file),
    decreases ms.len() - i,
{
    if i < ms.len() {
        lemma_collector_from(ms, file, i + 1);
    }
}

proof fn lemma_count_before(mods: Seq<Module>, i: int, file: Seq<char>)
    requires
        0 <= i <= mods.len(),
    ensures
        count_before(mods, i, file) > 0 <==> exists|j: int|
            0 <= j < i && collect_files(#[trigger] mods[j].collects@).contains(file),
    decreases i,
{
    if i > 0 {
        lemma_count_before(mods, i - 1, file);
        lemma_count_file_contains(mods[i - 1].collects@, file);
    }
}

proof fn lemma_owner_before(mods: Seq<Module>, i: int, k: int, file: Seq<char>)
    requires
        0 <= i < mods.len(),
        0 <= k <= mods[i].collects@.len(),
    ensures
        owner_before(mods, i, k, file) is Some <==> count_before(mods, i, file) + count_file(mods[i].collects@.take(k), file) > 0,
{
    let ms = mods.take(i);
    lemma_collector_from(ms, file, 0);
    lemma_count_before(mods, i, file);
    lemma_count_file_contains(mods[i].collects@.take(k), file);
    assert forall|j: int| 0 <= j < i implies ms[j] == mods[j] by {}
    if exists|j: int| 0 <= j < ms.len() && collect_files(#[trigger] ms[j].collects@).contains(file) {
        let j = choose|j: int| 0 <= j < ms.len() && collect_files(#[trigger] ms[j].collects@).contains(file);
        assert(collect_files(mods[j].collects@).contains(file));
    }
    if exists|j: int| 0 <= j < i && collect_files(#[trigger] mods[j].collects@).contains(file) {
        let j = choose|j: int| 0 <= j < i && collect_files(#[trigger] mods[j].collects@).contains(file);
        assert(collect_files(ms[j].collects@).contains(file));
    }
}

proof fn lemma_count_message_add(a: Seq<IssueV>, b: Seq<IssueV>, message: Seq<char>)
    ensures
        count_message(a + b, message) == count_message(a, message) + count_message(b, message),
    decreases b.len(),
{
    if b.len() > 0 {
        lemma_count_message_add(a, b.drop_last(), message);
        assert((a + b).drop_last() =~= a + b.drop_last());
        assert((a + b).last() == b.last());
    } else {
        assert(a + b =~= a);
    }
}

proof fn lemma_collected_twice_names(a: Seq<char>, b: Seq<char>)
    requires
        collected_twice_message(a) == collected_twice_message(b),
    ensures
        a == b,
{
    let head = "two enabled modules collect `"@;
    reveal_strlit("`");
    let n = head.len();
    assert(collected_twice_message(a).len() == n + a.len() + 1);
    assert(a.len() == b.len());
    assert forall|k: int| 0 <= k < a.len() implies a[k] == b[k] by {
        assert(collected_twice_message(a)[n + k] == a[k]);
        assert(collected_twice_message(b)[n + k] == b[k]);
    }
    assert(a =~= b);
}

proof fn lemma_dups_in_count(mods: Seq<Module>, i: int, k: int, file: Seq<char>)
    requires
        0 <= i < mods.len(),
        0 <= k <= mods[i].collects@.len(),
        count_message(dup_issues(mods, i), collected_twice_message(file)) == all_but_one(count_before(mods, i, file)),
    ensures
        count_message(dup_issues(mods, i) + dups_in(mods, i, k), collected_twice_message(file)) == all_but_one(
            count_before(mods, i, file) + count_file(mods[i].collects@.take(k), file),
        ),
    decreases k,
{
    let msg = collected_twice_message(file);
    let cs = mods[i].collects@;
    if k == 0 {
        assert(cs.take(0) =~= Seq::<Collect>::empty());
        assert(dup_issues(mods, i) + dups_in(mods, i, 0) =~= dup_issues(mods, i));
    } else {
        lemma_dups_in_count(mods, i, k - 1, file);
        let c = cs[k - 1];
        let g = c.file@;
        let prev = dup_issues(mods, i) + dups_in(mods, i, k - 1);
        let extra = match owner_before(mods, i, k - 1, g) {
            Some(first) => seq![collected_twice(mods[i], c, first)],
            None => Seq::empty(),
        };
        assert(dups_in(mods, i, k) == dups_in(mods, i, k - 1) + extra);
        assert(dup_issues(mods, i) + dups_in(mods, i, k) =~= prev + extra);
        lemma_count_message_add(prev, extra, msg);
        assert(cs.take(k).drop_last() =~= cs.take(k - 1));
        assert(cs.take(k).last() == c);
        lemma_owner_before(mods, i, k - 1, g);
        lemma_owner_before(mods, i, k - 1, file);
        let before = count_before(mods, i, file) + count_file(cs.take(k - 1), file);
        assert(count_file(cs.take(k), file) == count_file(cs.take(k - 1), file) + if g == file { 1nat } else { 0nat });
        if extra.len() > 0 {
            assert(extra.drop_last() =~= Seq::<IssueV>::empty());
            assert(extra.last().message == collected_twice_message(g));
            assert(count_message(extra.drop_last(), msg) == 0);
            if g != file {
                if collected_twice_message(g) == msg {
                    lemma_collected_twice_names(g, file);
                }
                assert(count_message(extra, msg) == 0);
            } else {
                assert(count_message(extra, msg) == 1);
                assert(before > 0);
            }
        } else {
            assert(count_message(extra, msg) == 0);
            if g == file {
                assert(before == 0);
            }
        }
    }
}

proof fn lemma_dup_issues_count(mods: Seq<Module>, n: int, file: Seq<char>)
    requires
        0 <= n <= mods.len(),
    ensures
        count_message(dup_issues(mods, n), collected_twice_message(file)) == all_but_one(count_before(mods, n, file)),
    decreases n,
{
    if n > 0 {
        lemma_dup_issues_count(mods, n - 1, file);
        let cs = mods[n - 1].collects@;
        lemma_dups_in_count(mods, n - 1, cs.len() as int, file);
        assert(cs.take(cs.len() as int) =~= cs);
    }
}

/// The first enabled module to collect a file owns it, and every later
/// collect of the same file raises one "two enabled modules collect" issue
/// and nothing more: `k` collects of a file draw `k - 1` of them.
pub proof fn lemma_every_later_collector_is_said_once(mods: Seq<Module>, file: Seq<char>)
    ensures
        count_message(dup_issues(mods, mods.len() as int), collected_twice_message(file)) == all_but_one(
            count_before(mods, mods.len() as int, file),
        ),
{
    lemma_dup_issues_count(mods, mods.len() as int, file);
}

/// Whether module `i` is the first to collect any of its files.
pub open spec fn is_collector(mods: Seq<Module>, i: int) -> bool {
    exists|k: int| 0 <= k < mods[i].collects@.len() && collector_from(mods.take(i), #[trigger] mods[i].collects@[k].file@, 0) is None
}

/// Every destination the collectors among the first `n` modules declare.
pub open spec fn pool(mods: Seq<Module>, n: int) -> Seq<Seq<char>>
    decreases n,
{
    if n <= 0 || n > mods.len() {
        Seq::empty()
    } else {
        pool(mods, n - 1) + if is_collector(mods, n - 1) {
            mods[n - 1].collects@.map_values(|c: Collect| c.into@)
        } else {
            Seq::empty()
        }
    }
}

/// The first collect of `file` among `cs`.
pub open spec fn collect_of(cs: Seq<Collect>, file: Seq<char>, k: int) -> Option<int>
    decreases cs.len() - k,
{
    if k < 0 || k >= cs.len() {
        None
    } else if cs[k].file@ == file {
        Some(k)
    } else {
        collect_of(cs, file, k + 1)
    }
}

/// The first contribution a module says of `file`.
pub open spec fn contribution_of(cs: Seq<Contribution>, file: Seq<char>, k: int) -> Option<int>
    decreases cs.len() - k,
{
    if k < 0 || k >= cs.len() {
        None
    } else if cs[k].file@ == file {
        Some(k)
    } else {
        contribution_of(cs, file, k + 1)
    }
}

/// `digits` zero-padded to at least `width` characters.
pub open spec fn zero_pad(digits: Seq<char>, width: nat) -> Seq<char>
    decreases width,
{
    if digits.len() >= width {
        digits
    } else {
        seq!['0'] + zero_pad(digits, (width - 1) as nat)
    }
}

/// Where one contribution is staged: `<into>.d/NNNN-<module>.part`.
pub open spec fn staged_spec(into: Seq<char>, priority: u32, module: Seq<char>) -> Seq<char> {
    into + ".d/"@ + zero_pad(crate::text::decimal_spec(priority as nat), 4) + "-"@ + crate::text::swap_char(module, '/', '-')
        + ".part"@
}

pub fn staged(into: &str, priority: u32, module: &str) -> (r: String)
    ensures
        r@ == staged_spec(into@, priority, module@),
{
    let digits = crate::text::decimal(priority as u64);
    let mut pad = String::new();
    let len = digits.unicode_len();
    let mut w: usize = 4;
    let ghost want = zero_pad(digits@, 4);
    while len < w
        invariant
            len == digits@.len(),
            w <= 4,
            pad@ + zero_pad(digits@, w as nat) == want,
        decreases w,
    {
        let ghost before = pad@;
        crate::text::push_char(&mut pad, '0');
        assert(zero_pad(digits@, w as nat) == seq!['0'] + zero_pad(digits@, (w - 1) as nat));
        assert(pad@ + zero_pad(digits@, (w - 1) as nat) =~= before + zero_pad(digits@, w as nat));
        w = w - 1;
    }
    assert(zero_pad(digits@, w as nat) == digits@);
    let padded = cat(pad.as_str(), digits.as_str());
    let name = crate::text::replace_char(module, '/', '-');
    cat5(into, ".d/", padded.as_str(), cat("-", name.as_str()).as_str(), ".part")
}

/// What reading `file` (its collector on disk `collector`) in module `i`'s
/// directory comes to: a contribution, or an issue.
pub open spec fn contrib_step(mods: Seq<Module>, shipped: Seq<Seq<Seq<char>>>, i: int, file: Seq<char>, collector: Seq<char>) -> (
    Seq<Contrib>,
    Seq<IssueV>,
) {
    let m = mods[i];
    if !shipped[i].contains(file) {
        (Seq::empty(), Seq::empty())
    } else {
        match collector_from(mods, file, 0) {
            Some(e) => {
                let declared = collect_of(mods[e].collects@, file, 0);
                let into = match declared {
                    Some(d) => mods[e].collects@[d].into@,
                    None => Seq::empty(),
                };
                let priority = match contribution_of(m.contributes@, file, 0) {
                    Some(c) => m.contributes@[c].priority,
                    None => match declared {
                        Some(d) => mods[e].collects@[d].priority,
                        None => 0,
                    },
                };
                if !m.standard_layer {
                    (
                        Seq::empty(),
                        seq![
                            help_v(
                                bare("`"@ + m.path@ + "` ships a "@ + file + " with no standard layer to collect it from"@, m.src.name@),
                                "`standard-layer #false` makes the fragment the whole layer, so it has to append the file to "@ + into
                                    + " itself"@,
                            ),
                        ],
                    )
                } else {
                    (seq![(m.path@, file, staged_spec(into, priority, m.path@))], Seq::empty())
                }
            },
            None => (
                Seq::empty(),
                seq![
                    help_v(
                        bare("`"@ + m.path@ + "` ships a "@ + file + " but nothing enabled collects it"@, m.src.name@),
                        "`"@ + collector + "` collects it; add it to this image, or drop the "@ + file,
                    ),
                ],
            ),
        }
    }
}

/// Where a contributed `file` is assembled into: what its first enabled
/// collector declares.
pub open spec fn into_for(mods: Seq<Module>, file: Seq<char>) -> Seq<char> {
    match collector_from(mods, file, 0) {
        Some(e) => match collect_of(mods[e].collects@, file, 0) {
            Some(d) => mods[e].collects@[d].into@,
            None => Seq::empty(),
        },
        None => Seq::empty(),
    }
}

/// The priority module `i`'s contribution of `file` is staged at: its own
/// `contributes`, else what the collector declares.
pub open spec fn priority_for(mods: Seq<Module>, i: int, file: Seq<char>) -> u32 {
    match contribution_of(mods[i].contributes@, file, 0) {
        Some(c) => mods[i].contributes@[c].priority,
        None => match collector_from(mods, file, 0) {
            Some(e) => match collect_of(mods[e].collects@, file, 0) {
                Some(d) => mods[e].collects@[d].priority,
                None => 0,
            },
            None => 0,
        },
    }
}

proof fn lemma_row_keeps(
    mods: Seq<Module>,
    shipped: Seq<Seq<Seq<char>>>,
    collectors: Seq<(Seq<char>, Seq<char>)>,
    i: int,
    q: int,
    p: int,
    t: Contrib,
)
    requires
        0 <= p < q <= collectors.len(),
        contrib_step(mods, shipped, i, collectors[p].0, collectors[p].1).0.contains(t),
    ensures
        contrib_row(mods, shipped, collectors, i, q).0.contains(t),
    decreases q,
{
    let (a, b) = contrib_row(mods, shipped, collectors, i, q - 1);
    let (c, d) = contrib_step(mods, shipped, i, collectors[q - 1].0, collectors[q - 1].1);
    if p == q - 1 {
        let w = choose|w: int| 0 <= w < c.len() && c[w] == t;
        assert((a + c)[a.len() + w] == t);
    } else {
        lemma_row_keeps(mods, shipped, collectors, i, q - 1, p, t);
        let w = choose|w: int| 0 <= w < a.len() && a[w] == t;
        assert((a + c)[w] == t);
    }
}

proof fn lemma_contribs_keep(
    mods: Seq<Module>,
    shipped: Seq<Seq<Seq<char>>>,
    collectors: Seq<(Seq<char>, Seq<char>)>,
    n: int,
    i: int,
    t: Contrib,
)
    requires
        0 <= i < n <= mods.len(),
        contrib_row(mods, shipped, collectors, i, collectors.len() as int).0.contains(t),
    ensures
        contribs(mods, shipped, collectors, n).0.contains(t),
    decreases n,
{
    let (a, b) = contribs(mods, shipped, collectors, n - 1);
    let (c, d) = contrib_row(mods, shipped, collectors, n - 1, collectors.len() as int);
    if i == n - 1 {
        let w = choose|w: int| 0 <= w < c.len() && c[w] == t;
        assert((a + c)[a.len() + w] == t);
    } else {
        lemma_contribs_keep(mods, shipped, collectors, n - 1, i, t);
        let w = choose|w: int| 0 <= w < a.len() && a[w] == t;
        assert((a + c)[w] == t);
    }
}

/// A module with a standard layer that ships a file some enabled module
/// collects contributes it, staged at
/// `<into>.d/<priority, four digits>-<its path, / as ->.part`.
pub proof fn lemma_shipped_file_is_staged(
    mods: Seq<Module>,
    shipped: Seq<Seq<Seq<char>>>,
    collectors: Seq<(Seq<char>, Seq<char>)>,
    i: int,
    q: int,
)
    requires
        0 <= i < mods.len(),
        0 <= q < collectors.len(),
        shipped.len() == mods.len(),
        shipped[i].contains(collectors[q].0),
        mods[i].standard_layer,
        collector_from(mods, collectors[q].0, 0) is Some,
    ensures
        contribs(mods, shipped, collectors, mods.len() as int).0.contains(
            (
                mods[i].path@,
                collectors[q].0,
                staged_spec(into_for(mods, collectors[q].0), priority_for(mods, i, collectors[q].0), mods[i].path@),
            ),
        ),
{
    let f = collectors[q].0;
    let t = (mods[i].path@, f, staged_spec(into_for(mods, f), priority_for(mods, i, f), mods[i].path@));
    let step = contrib_step(mods, shipped, i, f, collectors[q].1);
    assert(step.0 == seq![t]);
    assert(step.0[0] == t);
    lemma_row_keeps(mods, shipped, collectors, i, collectors.len() as int, q, t);
    lemma_contribs_keep(mods, shipped, collectors, mods.len() as int, i, t);
}

/// Module `i` against the first `q` files some module on disk collects.
pub open spec fn contrib_row(mods: Seq<Module>, shipped: Seq<Seq<Seq<char>>>, collectors: Seq<(Seq<char>, Seq<char>)>, i: int, q: int) -> (
    Seq<Contrib>,
    Seq<IssueV>,
)
    decreases q,
{
    if q <= 0 || q > collectors.len() {
        (Seq::empty(), Seq::empty())
    } else {
        let (a, b) = contrib_row(mods, shipped, collectors, i, q - 1);
        let (c, d) = contrib_step(mods, shipped, i, collectors[q - 1].0, collectors[q - 1].1);
        (a + c, b + d)
    }
}

/// The first `n` modules against every collected file.
pub open spec fn contribs(mods: Seq<Module>, shipped: Seq<Seq<Seq<char>>>, collectors: Seq<(Seq<char>, Seq<char>)>, n: int) -> (
    Seq<Contrib>,
    Seq<IssueV>,
)
    decreases n,
{
    if n <= 0 || n > mods.len() {
        (Seq::empty(), Seq::empty())
    } else {
        let (a, b) = contribs(mods, shipped, collectors, n - 1);
        let (c, d) = contrib_row(mods, shipped, collectors, n - 1, collectors.len() as int);
        (a + c, b + d)
    }
}

pub open spec fn pair_strings(v: Seq<(String, String)>) -> Seq<(Seq<char>, Seq<char>)> {
    v.map_values(|p: (String, String)| (p.0@, p.1@))
}

pub open spec fn shipped_views(v: Seq<Vec<String>>) -> Seq<Seq<Seq<char>>> {
    v.map_values(|s: Vec<String>| views(s@))
}


fn collects_file(cs: &Vec<Collect>, file: &str, upto: usize) -> (r: bool)
    requires
        upto <= cs@.len(),
    ensures
        r == collect_files(cs@.take(upto as int)).contains(file@),
{
    let ghost fs = collect_files(cs@.take(upto as int));
    let mut k: usize = 0;
    while k < upto
        invariant
            upto <= cs@.len(),
            k <= upto,
            fs == collect_files(cs@.take(upto as int)),
            forall|j: int| 0 <= j < k ==> fs[j] != file@,
        decreases upto - k,
    {
        assert(fs[k as int] == cs@[k as int].file@);
        if same(cs[k].file.as_str(), file) {
            return true;
        }
        k = k + 1;
    }
    false
}

proof fn lemma_collector_in(mods: Seq<Module>, file: Seq<char>, i: int)
    requires
        0 <= i,
    ensures
        collector_from(mods, file, i) matches Some(j) ==> i <= j < mods.len(),
    decreases mods.len() - i,
{
    if i < mods.len() && !collect_files(mods[i].collects@).contains(file) {
        lemma_collector_in(mods, file, i + 1);
    }
}

/// The first of the first `upto` modules that collects `file`.
fn first_collector(mods: &Vec<&Module>, file: &str, upto: usize) -> (r: Option<usize>)
    requires
        upto <= mods@.len(),
    ensures
        match collector_from(mods@.map_values(|m: &Module| *m).take(upto as int), file@, 0) {
            Some(j) => r matches Some(x) && x as int == j && j < upto,
            None => r is None,
        },
{
    let ghost ms = mods@.map_values(|m: &Module| *m).take(upto as int);
    proof {
        lemma_collector_in(ms, file@, 0);
    }
    let mut j: usize = 0;
    while j < upto
        invariant
            upto <= mods@.len(),
            j <= upto,
            ms == mods@.map_values(|m: &Module| *m).take(upto as int),
            collector_from(ms, file@, 0) == collector_from(ms, file@, j as int),
        decreases upto - j,
    {
        assert(ms[j as int] == *mods@[j as int]);
        assert(mods@[j as int].collects@.take(mods@[j as int].collects@.len() as int) =~= mods@[j as int].collects@);
        if collects_file(&mods[j].collects, file, mods[j].collects.len()) {
            return Some(j);
        }
        j = j + 1;
    }
    None
}

fn collect_at(cs: &Vec<Collect>, file: &str) -> (r: Option<usize>)
    ensures
        match collect_of(cs@, file@, 0) {
            Some(d) => r matches Some(x) && x as int == d && d < cs@.len(),
            None => r is None,
        },
{
    let mut k: usize = 0;
    while k < cs.len()
        invariant
            k <= cs@.len(),
            collect_of(cs@, file@, 0) == collect_of(cs@, file@, k as int),
            forall|j: int| 0 <= j < k ==> cs@[j].file@ != file@,
        decreases cs@.len() - k,
    {
        if same(cs[k].file.as_str(), file) {
            return Some(k);
        }
        k = k + 1;
    }
    None
}

fn contribution_at(cs: &Vec<Contribution>, file: &str) -> (r: Option<usize>)
    ensures
        match contribution_of(cs@, file@, 0) {
            Some(d) => r matches Some(x) && x as int == d && d < cs@.len(),
            None => r is None,
        },
{
    let mut k: usize = 0;
    while k < cs.len()
        invariant
            k <= cs@.len(),
            contribution_of(cs@, file@, 0) == contribution_of(cs@, file@, k as int),
            forall|j: int| 0 <= j < k ==> cs@[j].file@ != file@,
        decreases cs@.len() - k,
    {
        if same(cs[k].file.as_str(), file) {
            return Some(k);
        }
        k = k + 1;
    }
    None
}


pub open spec fn deref_mods(mods: Seq<&Module>) -> Seq<Module> {
    mods.map_values(|m: &Module| *m)
}

fn owner_at(mods: &Vec<&Module>, i: usize, k: usize, file: &str) -> (r: Option<String>)
    requires
        i < mods@.len(),
        k <= mods@[i as int].collects@.len(),
    ensures
        match owner_before(deref_mods(mods@), i as int, k as int, file@) {
            Some(p) => r matches Some(x) && x@ == p,
            None => r is None,
        },
{
    let ghost ms = deref_mods(mods@);
    assert(ms.take(i as int) =~= deref_mods(mods@).take(i as int));
    match first_collector(mods, file, i) {
        Some(j) => {
            assert(ms.take(i as int)[j as int] == ms[j as int]);
            Some(mods[j].path.clone())
        },
        None => {
            assert(ms[i as int] == *mods@[i as int]);
            if collects_file(&mods[i].collects, file, k) {
                Some(mods[i].path.clone())
            } else {
                None
            }
        },
    }
}

fn check_collect_dups(mods: &Vec<&Module>, issues: &mut Issues)
    ensures
        final(issues)@ == old(issues)@ + dup_issues(deref_mods(mods@), mods@.len() as int),
{
    let ghost ms = deref_mods(mods@);
    let ghost start = issues@;
    let mut i: usize = 0;
    while i < mods.len()
        invariant
            ms == deref_mods(mods@),
            i <= mods@.len(),
            issues@ == start + dup_issues(ms, i as int),
        decreases mods@.len() - i,
    {
        let m = mods[i];
        assert(ms[i as int] == *m);
        let ghost head = issues@;
        let mut k: usize = 0;
        while k < m.collects.len()
            invariant
                ms == deref_mods(mods@),
                i < mods@.len(),
                ms[i as int] == *m,
                k <= m.collects@.len(),
                issues@ == head + dups_in(ms, i as int, k as int),
            decreases m.collects@.len() - k,
        {
            let c = &m.collects[k];
            match owner_at(mods, i, k, c.file.as_str()) {
                Some(first) => {
                    issues.push(
                        Issue::new(cat3("two enabled modules collect `", c.file.as_str(), "`"), &m.src).at(
                            c.span,
                            owned("collected again here"),
                        ).help(cat3("already collected by `", first.as_str(), "`")),
                    );
                },
                None => {},
            }
            assert(issues@ =~= head + dups_in(ms, i as int, k as int + 1));
            k = k + 1;
        }
        assert(issues@ =~= start + dup_issues(ms, i as int + 1));
        i = i + 1;
    }
}

fn is_collector_at(mods: &Vec<&Module>, i: usize) -> (r: bool)
    requires
        i < mods@.len(),
    ensures
        r == is_collector(deref_mods(mods@), i as int),
{
    let ghost ms = deref_mods(mods@);
    let m = mods[i];
    assert(ms[i as int] == *m);
    assert(ms.take(i as int) =~= deref_mods(mods@).take(i as int));
    let mut k: usize = 0;
    while k < m.collects.len()
        invariant
            ms == deref_mods(mods@),
            i < mods@.len(),
            ms[i as int] == *m,
            k <= m.collects@.len(),
            forall|j: int| 0 <= j < k ==> collector_from(ms.take(i as int), #[trigger] m.collects@[j].file@, 0) is Some,
        decreases m.collects@.len() - k,
    {
        if first_collector(mods, m.collects[k].file.as_str(), i).is_none() {
            return true;
        }
        k = k + 1;
    }
    false
}

fn destinations_of(mods: &Vec<&Module>) -> (r: Vec<String>)
    ensures
        sorted_set_of(views(r@), pool(deref_mods(mods@), mods@.len() as int)),
{
    let ghost ms = deref_mods(mods@);
    let mut all: Vec<String> = Vec::new();
    let mut i: usize = 0;
    while i < mods.len()
        invariant
            ms == deref_mods(mods@),
            i <= mods@.len(),
            views(all@) == pool(ms, i as int),
        decreases mods@.len() - i,
    {
        let m = mods[i];
        assert(ms[i as int] == *m);
        let ghost head = views(all@);
        if is_collector_at(mods, i) {
            let mut k: usize = 0;
            while k < m.collects.len()
                invariant
                    k <= m.collects@.len(),
                    views(all@) == head + m.collects@.take(k as int).map_values(|c: Collect| c.into@),
                decreases m.collects@.len() - k,
            {
                let ghost before = all@;
                all.push(m.collects[k].into.clone());
                assert(views(all@) =~= views(before).push(m.collects@[k as int].into@));
                assert(m.collects@.take(k as int + 1).map_values(|c: Collect| c.into@) =~= m.collects@.take(k as int).map_values(
                    |c: Collect| c.into@,
                ).push(m.collects@[k as int].into@));
                assert(views(all@) =~= head + m.collects@.take(k as int + 1).map_values(|c: Collect| c.into@));
                k = k + 1;
            }
            assert(m.collects@.take(k as int) =~= m.collects@);
        } else {
            assert(pool(ms, i as int + 1) =~= pool(ms, i as int));
        }
        i = i + 1;
    }
    sorted_distinct(&all)
}


fn contrib_at(
    mods: &Vec<&Module>,
    shipped: &Vec<Vec<String>>,
    i: usize,
    file: &str,
    collector: &str,
    by: &mut Vec<(String, Vec<Collected>)>,
    issues: &mut Issues,
    Ghost(flat): Ghost<Seq<Contrib>>,
)
    requires
        i < mods@.len(),
        shipped@.len() == mods@.len(),
        grouped(old(by)@, flat),
    ensures
        grouped(
            final(by)@,
            flat + contrib_step(deref_mods(mods@), shipped_views(shipped@), i as int, file@, collector@).0,
        ),
        final(issues)@ == old(issues)@ + contrib_step(deref_mods(mods@), shipped_views(shipped@), i as int, file@, collector@).1,
{
    let ghost ms = deref_mods(mods@);
    let m = mods[i];
    assert(ms[i as int] == *m);
    assert(shipped_views(shipped@)[i as int] == views(shipped@[i as int]@));
    if !crate::layout::listed(shipped[i].as_slice(), file) {
        assert(flat + Seq::<Contrib>::empty() =~= flat);
        assert(old(issues)@ + Seq::<IssueV>::empty() =~= old(issues)@);
        return;
    }
    assert(ms.take(ms.len() as int) =~= ms);
    match first_collector(mods, file, mods.len()) {
        Some(e) => {
            let enabled = mods[e];
            assert(ms[e as int] == *enabled);
            let declared = collect_at(&enabled.collects, file);
            let into = match declared {
                Some(d) => enabled.collects[d].into.clone(),
                None => String::new(),
            };
            let priority = match contribution_at(&m.contributes, file) {
                Some(c) => m.contributes[c].priority,
                None => match declared {
                    Some(d) => enabled.collects[d].priority,
                    None => 0,
                },
            };
            if !m.standard_layer {
                issues.push(
                    Issue::new(cat4("`", m.path.as_str(), "` ships a ", cat(file, " with no standard layer to collect it from").as_str()), &m.src).help(
                        cat3(
                            "`standard-layer #false` makes the fragment the whole layer, so it has to append the file to ",
                            into.as_str(),
                            " itself",
                        ),
                    ),
                );
                assert(flat + Seq::<Contrib>::empty() =~= flat);
                assert(collect_of(ms[e as int].collects@, file@, 0) == match declared {
                    Some(d) => Some(d as int),
                    None => None::<int>,
                });
                assert(issues@.last().message =~= "`"@ + m.path@ + "` ships a "@ + file@ + " with no standard layer to collect it from"@);
                assert(issues@.last().help->0 =~= "`standard-layer #false` makes the fragment the whole layer, so it has to append the file to "@ + into@ + " itself"@);
                assert(issues@ =~= old(issues)@ + contrib_step(ms, shipped_views(shipped@), i as int, file@, collector@).1);
            } else {
                let place = staged(into.as_str(), priority, m.path.as_str());
                let c = Collected { file: owned(file), staged: place };
                file_under(by, m.path.clone(), c, Ghost(flat));
                assert(old(issues)@ + Seq::<IssueV>::empty() =~= old(issues)@);
                assert(flat.push((m.path@, file@, staged_spec(into@, priority, m.path@))) =~= flat + seq![
                    (m.path@, file@, staged_spec(into@, priority, m.path@)),
                ]);
            }
        },
        None => {
            issues.push(
                Issue::new(cat4("`", m.path.as_str(), "` ships a ", cat(file, " but nothing enabled collects it").as_str()), &m.src).help(
                    cat4("`", collector, "` collects it; add it to this image, or drop the ", file),
                ),
            );
            assert(flat + Seq::<Contrib>::empty() =~= flat);
            assert(issues@.last().message =~= "`"@ + m.path@ + "` ships a "@ + file@ + " but nothing enabled collects it"@);
            assert(issues@.last().help->0 =~= "`"@ + collector@ + "` collects it; add it to this image, or drop the "@ + file@);
            assert(issues@ =~= old(issues)@ + contrib_step(ms, shipped_views(shipped@), i as int, file@, collector@).1);
        },
    }
}

fn contributions(
    mods: &Vec<&Module>,
    shipped: &Vec<Vec<String>>,
    collectors: &Vec<(String, String)>,
    issues: &mut Issues,
) -> (r: Vec<(String, Vec<Collected>)>)
    requires
        shipped@.len() == mods@.len(),
    ensures
        grouped(r@, contribs(deref_mods(mods@), shipped_views(shipped@), pair_strings(collectors@), mods@.len() as int).0),
        final(issues)@ == old(issues)@ + contribs(
            deref_mods(mods@),
            shipped_views(shipped@),
            pair_strings(collectors@),
            mods@.len() as int,
        ).1,
{
    let ghost ms = deref_mods(mods@);
    let ghost sv = shipped_views(shipped@);
    let ghost cv = pair_strings(collectors@);
    let ghost start = issues@;
    let mut by: Vec<(String, Vec<Collected>)> = Vec::new();
    proof {
        assert(group_keys(by@) =~= Seq::<Seq<char>>::empty());
        assert forall|x: Seq<char>| #[trigger] group_keys(by@).contains(x) <==> of_path(Seq::<Contrib>::empty(), x).len() > 0 by {}
    }
    let mut i: usize = 0;
    while i < mods.len()
        invariant
            ms == deref_mods(mods@),
            sv == shipped_views(shipped@),
            cv == pair_strings(collectors@),
            shipped@.len() == mods@.len(),
            i <= mods@.len(),
            grouped(by@, contribs(ms, sv, cv, i as int).0),
            issues@ == start + contribs(ms, sv, cv, i as int).1,
        decreases mods@.len() - i,
    {
        let ghost flat0 = contribs(ms, sv, cv, i as int).0;
        let ghost iss0 = issues@;
        let mut q: usize = 0;
        while q < collectors.len()
            invariant
                ms == deref_mods(mods@),
                sv == shipped_views(shipped@),
                cv == pair_strings(collectors@),
                shipped@.len() == mods@.len(),
                i < mods@.len(),
                q <= collectors@.len(),
                grouped(by@, flat0 + contrib_row(ms, sv, cv, i as int, q as int).0),
                issues@ == iss0 + contrib_row(ms, sv, cv, i as int, q as int).1,
            decreases collectors@.len() - q,
        {
            let ghost f = flat0 + contrib_row(ms, sv, cv, i as int, q as int).0;
            let ghost before = issues@;
            assert(cv[q as int] == (collectors@[q as int].0@, collectors@[q as int].1@));
            contrib_at(mods, shipped, i, collectors[q].0.as_str(), collectors[q].1.as_str(), &mut by, issues, Ghost(f));
            proof {
                let step = contrib_step(ms, sv, i as int, cv[q as int].0, cv[q as int].1);
                assert(contrib_row(ms, sv, cv, i as int, q as int + 1).0 =~= contrib_row(ms, sv, cv, i as int, q as int).0 + step.0);
                assert(f + step.0 =~= flat0 + contrib_row(ms, sv, cv, i as int, q as int + 1).0);
                assert(issues@ =~= iss0 + contrib_row(ms, sv, cv, i as int, q as int + 1).1);
            }
            q = q + 1;
        }
        proof {
            assert(contribs(ms, sv, cv, i as int + 1).0 =~= flat0 + contrib_row(ms, sv, cv, i as int, collectors@.len() as int).0);
            assert(issues@ =~= start + contribs(ms, sv, cv, i as int + 1).1);
        }
        i = i + 1;
    }
    by
}

/// Where each contribution is staged, and what gets assembled from them.
/// `shipped` is every file each of the image's modules ships, in build
/// order; `collectors` is every collected file on disk with the module
/// that collects it, in file order. A second collector of one file, a file
/// shipped by a module with no standard layer to stage it from, and a file
/// nothing enabled collects are each said.
pub fn resolve_collects(
    image: &Image,
    shipped: &Vec<Vec<String>>,
    collectors: &Vec<(String, String)>,
    issues: &mut Issues,
) -> (r: Collection)
    requires
        shipped@.len() == loaded_modules(image.entries@).len(),
    ensures
        ({
            let mods = loaded_modules(image.entries@);
            let walked = contribs(mods, shipped_views(shipped@), pair_strings(collectors@), mods.len() as int);
            &&& final(issues)@ == old(issues)@ + dup_issues(mods, mods.len() as int) + walked.1
            &&& sorted_set_of(views(r.destinations@), pool(mods, mods.len() as int))
            &&& grouped(r.by_module@, walked.0)
        }),
{
    let mods = image.modules();
    proof {
        assert(deref_mods(mods@) == loaded_modules(image.entries@));
    }
    let ghost start = issues@;
    check_collect_dups(&mods, issues);
    let destinations = destinations_of(&mods);
    let ghost mid = issues@;
    let by_module = contributions(&mods, shipped, collectors, issues);
    assert(issues@ =~= start + dup_issues(deref_mods(mods@), mods@.len() as int) + contribs(
        deref_mods(mods@),
        shipped_views(shipped@),
        pair_strings(collectors@),
        mods@.len() as int,
    ).1);
    Collection { by_module, destinations }
}


/// The destinations are sorted so that two runs on the same tree emit the
/// same ARG: two collections resolved from the same image agree on them,
/// whatever else differs between the runs.
pub proof fn lemma_destinations_deterministic(image: Image, first: Collection, second: Collection)
    requires
        sorted_set_of(views(first.destinations@), pool(loaded_modules(image.entries@), loaded_modules(image.entries@).len() as int)),
        sorted_set_of(views(second.destinations@), pool(loaded_modules(image.entries@), loaded_modules(image.entries@).len() as int)),
    ensures
        views(first.destinations@) == views(second.destinations@),
{
    lemma_sorted_unique(views(first.destinations@), views(second.destinations@));
}

} // verus!
