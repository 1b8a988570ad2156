//! The order the layers build in, resolved from the graph.
//!
//! Each entry waits on the entries that first provide what it requires, and on
//! those that first provide what it asks to come after, unless that would drag
//! an ungated entry below a gated one. Among the entries whose waits are all
//! built, the next is the ungated before the gated, then the lower index.

use crate::diag::{Issue, IssueV, Issues, Label, Span};
use crate::model::image::{Entry, Image};
use crate::model::module::{decl_names, Decl};
use crate::text::{cat, cat3, join, join_spec, owned, same, views};
use vstd::prelude::*;
use vstd::set_lib::*;

verus! {

/// Whether the entry's module offers `name`, as a capability or as a file.
pub open spec fn provides_name(e: Entry, name: Seq<char>) -> bool {
    match e.module {
        Some(m) => decl_names(m.provides@).contains(name) || decl_names(m.provides_files@).contains(
            name,
        ),
        None => false,
    }
}

/// The first entry that offers `name`: what a requirement of it waits on.
#[verifier::opaque]
pub open spec fn provider(entries: Seq<Entry>, name: Seq<char>) -> Option<int> {
    if exists|j: int| 0 <= j < entries.len() && provides_name(entries[j], name) {
        Some(
            choose|j: int|
                0 <= j < entries.len() && provides_name(entries[j], name) && forall|k: int|
                    0 <= k < j ==> !provides_name(entries[k], name),
        )
    } else {
        None
    }
}

/// What an entry hard-requires: capabilities, then contract paths.
pub open spec fn hard_names(e: Entry) -> Seq<Seq<char>> {
    match e.module {
        Some(m) => decl_names(m.requires@) + decl_names(m.requires_files@),
        None => Seq::empty(),
    }
}

/// What an entry asks to come after.
pub open spec fn after_names(e: Entry) -> Seq<Seq<char>> {
    match e.module {
        Some(m) => decl_names(m.after@),
        None => Seq::empty(),
    }
}

/// Whether some name in `names` is first offered by entry `p`.
pub open spec fn names_hit(entries: Seq<Entry>, names: Seq<Seq<char>>, p: int) -> bool {
    exists|k: int| 0 <= k < names.len() && provider(entries, #[trigger] names[k]) == Some(p)
}

/// An `after` that would put an ungated entry below a gated one is dropped.
pub open spec fn drags_below_gate(entries: Seq<Entry>, i: int, p: int) -> bool {
    entries[i].flavour is None && entries[p].flavour is Some
}

/// Whether entry `i` waits on entry `p` before it builds.
pub open spec fn waits_on(entries: Seq<Entry>, i: int, p: int) -> bool {
    &&& 0 <= p < entries.len()
    &&& p != i
    &&& (names_hit(entries, hard_names(entries[i]), p) || (names_hit(entries, after_names(entries[i]), p)
        && !drags_below_gate(entries, i, p)))
}

/// The entries `i` waits on below `k`, ascending.
pub open spec fn waits_below(entries: Seq<Entry>, i: int, k: int) -> Seq<int>
    decreases k,
{
    if k <= 0 {
        Seq::empty()
    } else {
        let r = waits_below(entries, i, k - 1);
        if waits_on(entries, i, k - 1) {
            r.push(k - 1)
        } else {
            r
        }
    }
}

proof fn lemma_provider(entries: Seq<Entry>, name: Seq<char>, j: int)
    requires
        0 <= j <= entries.len(),
        forall|k: int| 0 <= k < j ==> !provides_name(entries[k], name),
        j < entries.len() ==> provides_name(entries[j], name),
    ensures
        j < entries.len() ==> provider(entries, name) == Some(j),
        j == entries.len() ==> provider(entries, name) is None,
{
    reveal(provider);
    if j < entries.len() {
        let c = choose|c: int|
            0 <= c < entries.len() && provides_name(entries[c], name) && forall|k: int|
                0 <= k < c ==> !provides_name(entries[k], name);
        assert(0 <= j < entries.len() && provides_name(entries[j], name) && forall|k: int|
            0 <= k < j ==> !provides_name(entries[k], name));
        if c < j {
            assert(!provides_name(entries[c], name));
        } else if j < c {
            assert(!provides_name(entries[j], name));
        }
    }
}

fn decls_name(decls: &Vec<Decl>, name: &str) -> (r: bool)
    ensures
        r == decl_names(decls@).contains(name@),
{
    let mut i: usize = 0;
    while i < decls.len()
        invariant
            i <= decls@.len(),
            forall|j: int| 0 <= j < i ==> decl_names(decls@)[j] != name@,
        decreases decls@.len() - i,
    {
        if same(decls[i].name.as_str(), name) {
            assert(decl_names(decls@)[i as int] == name@);
            return true;
        }
        i = i + 1;
    }
    proof {
        if decl_names(decls@).contains(name@) {
            let j = choose|j: int| 0 <= j < decl_names(decls@).len() && decl_names(decls@)[j] == name@;
            assert(decl_names(decls@)[j] != name@);
        }
    }
    false
}

fn offers(e: &Entry, name: &str) -> (r: bool)
    ensures
        r == provides_name(*e, name@),
{
    match &e.module {
        Some(m) => decls_name(&m.provides, name) || decls_name(&m.provides_files, name),
        None => false,
    }
}

/// The first entry offering `name`.
fn find_provider(entries: &Vec<Entry>, name: &str) -> (r: Option<usize>)
    ensures
        match r {
            Some(p) => provider(entries@, name@) == Some(p as int) && p < entries@.len(),
            None => provider(entries@, name@) is None,
        },
{
    let mut j: usize = 0;
    while j < entries.len()
        invariant
            j <= entries@.len(),
            forall|k: int| 0 <= k < j ==> !provides_name(entries@[k], name@),
        decreases entries@.len() - j,
    {
        if offers(&entries[j], name) {
            proof {
                lemma_provider(entries@, name@, j as int);
            }
            return Some(j);
        }
        j = j + 1;
    }
    proof {
        lemma_provider(entries@, name@, j as int);
    }
    None
}

/// Marks, for each entry, whether some name in `decls` is first offered by
/// it, subject to `keep`.
fn mark_hits(
    entries: &Vec<Entry>,
    i: usize,
    decls: &Vec<Decl>,
    soft: bool,
    marks: &mut Vec<bool>,
)
    requires
        i < entries@.len(),
        old(marks)@.len() == entries@.len(),
    ensures
        final(marks)@.len() == entries@.len(),
        forall|p: int|
            0 <= p < entries@.len() ==> (#[trigger] final(marks)@[p] <==> (old(marks)@[p] || (p != i
                && names_hit(entries@, decl_names(decls@), p) && !(soft && drags_below_gate(
                entries@,
                i as int,
                p,
            ))))),
{
    let ghost start = marks@;
    let ghost names = decl_names(decls@);
    let mut k: usize = 0;
    while k < decls.len()
        invariant
            i < entries@.len(),
            names == decl_names(decls@),
            k <= decls@.len(),
            marks@.len() == entries@.len(),
            start.len() == entries@.len(),
            forall|p: int|
                0 <= p < entries@.len() ==> (#[trigger] marks@[p] <==> (start[p] || (p != i
                    && names_hit(entries@, names.take(k as int), p) && !(soft && drags_below_gate(
                    entries@,
                    i as int,
                    p,
                ))))),
        decreases decls@.len() - k,
    {
        let found = find_provider(entries, decls[k].name.as_str());
        let ghost prior = marks@;
        assert(names[k as int] == decls@[k as int].name@);
        if let Some(p) = found {
            let dragged = soft && entries[i].flavour.is_none() && entries[p].flavour.is_some();
            if p != i && !dragged {
                marks.set(p, true);
            }
        }
        proof {
            assert forall|p: int| 0 <= p < entries@.len() implies names_hit(entries@, names.take(k as int + 1), p)
                == (names_hit(entries@, names.take(k as int), p) || provider(entries@, names[k as int]) == Some(p)) by {
                lemma_hit_step(entries@, names, k as int, p);
            }
            assert forall|p: int| 0 <= p < entries@.len() implies (#[trigger] marks@[p] <==> (start[p] || (p
                != i && names_hit(entries@, names.take(k as int + 1), p) && !(soft && drags_below_gate(
                entries@,
                i as int,
                p,
            ))))) by {
                assert(prior[p] <==> (start[p] || (p != i && names_hit(entries@, names.take(k as int), p)
                    && !(soft && drags_below_gate(entries@, i as int, p)))));
                if found is Some && found->0 as int == p {
                    assert(provider(entries@, names[k as int]) == Some(p));
                } else {
                    assert(provider(entries@, names[k as int]) != Some(p));
                    assert(marks@[p] == prior[p]);
                }
            }
        }
        k = k + 1;
    }
    assert(names.take(decls@.len() as int) =~= names);
}

proof fn lemma_hit_step(entries: Seq<Entry>, names: Seq<Seq<char>>, k: int, p: int)
    requires
        0 <= k < names.len(),
    ensures
        names_hit(entries, names.take(k + 1), p) == (names_hit(entries, names.take(k), p) || provider(
            entries,
            names[k],
        ) == Some(p)),
{
    let t = names.take(k + 1);
    let u = names.take(k);
    if names_hit(entries, t, p) {
        let w = choose|w: int| 0 <= w < t.len() && provider(entries, #[trigger] t[w]) == Some(p);
        if w < k {
            assert(u[w] == t[w]);
        }
    }
    if names_hit(entries, u, p) {
        let w = choose|w: int| 0 <= w < u.len() && provider(entries, #[trigger] u[w]) == Some(p);
        assert(t[w] == u[w]);
    }
    if provider(entries, names[k]) == Some(p) {
        assert(t[k] == names[k]);
    }
}

/// Ascending, the entries marked.
fn marked(marks: &Vec<bool>) -> (r: Vec<usize>)
    ensures
        r@.map_values(|p: usize| p as int) == marked_below(marks@, marks@.len() as int),
{
    let mut out: Vec<usize> = Vec::new();
    let mut p: usize = 0;
    while p < marks.len()
        invariant
            p <= marks@.len(),
            out@.map_values(|x: usize| x as int) == marked_below(marks@, p as int),
        decreases marks@.len() - p,
    {
        let ghost prior = out@;
        if marks[p] {
            out.push(p);
            assert(out@.map_values(|x: usize| x as int) =~= prior.map_values(|x: usize| x as int).push(
                p as int,
            ));
        }
        p = p + 1;
    }
    out
}

/// The positions below `k` that are marked, ascending.
pub open spec fn marked_below(marks: Seq<bool>, k: int) -> Seq<int>
    decreases k,
{
    if k <= 0 {
        Seq::empty()
    } else {
        let r = marked_below(marks, k - 1);
        if marks[k - 1] {
            r.push(k - 1)
        } else {
            r
        }
    }
}

proof fn lemma_marked_waits(entries: Seq<Entry>, i: int, marks: Seq<bool>, k: int)
    requires
        marks.len() == entries.len(),
        0 <= k <= entries.len(),
        forall|p: int| 0 <= p < entries.len() ==> (#[trigger] marks[p] <==> waits_on(entries, i, p)),
    ensures
        marked_below(marks, k) == waits_below(entries, i, k),
    decreases k,
{
    if k > 0 {
        lemma_marked_waits(entries, i, marks, k - 1);
        assert(marks[k - 1] <==> waits_on(entries, i, k - 1));
    }
}

/// What entry `i` waits on, ascending and without repeats.
fn waits_of(entries: &Vec<Entry>, i: usize) -> (r: Vec<usize>)
    requires
        i < entries@.len(),
    ensures
        r@.map_values(|p: usize| p as int) == waits_below(entries@, i as int, entries@.len() as int),
{
    let n = entries.len();
    let mut marks: Vec<bool> = Vec::new();
    let mut k: usize = 0;
    while k < n
        invariant
            n == entries@.len(),
            k <= n,
            marks@.len() == k,
            forall|p: int| 0 <= p < k ==> !(#[trigger] marks@[p]),
        decreases n - k,
    {
        marks.push(false);
        k = k + 1;
    }
    match &entries[i].module {
        Some(m) => {
            let ghost m0 = marks@;
            mark_hits(entries, i, &m.requires, false, &mut marks);
            mark_hits(entries, i, &m.requires_files, false, &mut marks);
            mark_hits(entries, i, &m.after, true, &mut marks);
            proof {
                let hard = decl_names(m.requires@) + decl_names(m.requires_files@);
                assert(hard_names(entries@[i as int]) == hard);
                assert forall|p: int| 0 <= p < entries@.len() implies (#[trigger] marks@[p]
                    <==> waits_on(entries@, i as int, p)) by {
                    let a = decl_names(m.requires@);
                    let b = decl_names(m.requires_files@);
                    if names_hit(entries@, hard, p) {
                        let w = choose|w: int| 0 <= w < hard.len() && provider(entries@, #[trigger] hard[w]) == Some(p);
                        if w < a.len() {
                            assert(hard[w] == a[w]);
                            assert(names_hit(entries@, a, p));
                        } else {
                            assert(hard[w] == b[w - a.len()]);
                            assert(names_hit(entries@, b, p));
                        }
                    }
                    if names_hit(entries@, a, p) {
                        let w = choose|w: int| 0 <= w < a.len() && provider(entries@, #[trigger] a[w]) == Some(p);
                        assert(hard[w] == a[w]);
                    }
                    if names_hit(entries@, b, p) {
                        let w = choose|w: int| 0 <= w < b.len() && provider(entries@, #[trigger] b[w]) == Some(p);
                        assert(hard[w + a.len()] == b[w]);
                    }
                }
            }
        },
        None => {
            proof {
                assert forall|p: int| 0 <= p < entries@.len() implies (#[trigger] marks@[p]
                    <==> waits_on(entries@, i as int, p)) by {
                    assert(hard_names(entries@[i as int]) =~= Seq::<Seq<char>>::empty());
                    assert(after_names(entries@[i as int]) =~= Seq::<Seq<char>>::empty());
                }
            }
        },
    }
    proof {
        lemma_marked_waits(entries@, i as int, marks@, n as int);
    }
    marked(&marks)
}


/// Whether entry `i` is gated to a flavour.
pub open spec fn gated(entries: Seq<Entry>, i: int) -> bool {
    entries[i].flavour is Some
}

/// Whether `a` builds before `b` when both are ready: ungated first, then by
/// index.
pub open spec fn goes_first(entries: Seq<Entry>, a: int, b: int) -> bool {
    (!gated(entries, a) && gated(entries, b)) || (gated(entries, a) == gated(entries, b) && a < b)
}

/// Whether everything `i` waits on is among `done`.
pub open spec fn all_built(entries: Seq<Entry>, done: Seq<int>, i: int) -> bool {
    forall|p: int| #[trigger] waits_on(entries, i, p) ==> done.contains(p)
}

/// Whether `i` can build next after `done`.
pub open spec fn ready(entries: Seq<Entry>, done: Seq<int>, i: int) -> bool {
    0 <= i < entries.len() && !done.contains(i) && all_built(entries, done, i)
}

/// Among the entries below `k`, the ready one that goes first.
pub open spec fn best_below(entries: Seq<Entry>, done: Seq<int>, k: int) -> Option<int>
    decreases k,
{
    if k <= 0 {
        None
    } else {
        let b = best_below(entries, done, k - 1);
        if ready(entries, done, k - 1) {
            match b {
                Some(x) => if goes_first(entries, k - 1, x) {
                    Some(k - 1)
                } else {
                    Some(x)
                },
                None => Some(k - 1),
            }
        } else {
            b
        }
    }
}

/// The entry that builds next after `done`, where one can.
pub open spec fn next_ready(entries: Seq<Entry>, done: Seq<int>) -> Option<int> {
    best_below(entries, done, entries.len() as int)
}

proof fn lemma_best_below(entries: Seq<Entry>, done: Seq<int>, k: int)
    requires
        0 <= k <= entries.len(),
    ensures
        match best_below(entries, done, k) {
            Some(x) => 0 <= x < k && ready(entries, done, x) && forall|j: int|
                0 <= j < k && ready(entries, done, j) && j != x ==> goes_first(entries, x, j),
            None => forall|j: int| 0 <= j < k ==> !ready(entries, done, j),
        },
    decreases k,
{
    if k > 0 {
        lemma_best_below(entries, done, k - 1);
    }
}

/// What has built after `r` rounds of taking the next ready entry.
pub open spec fn run(entries: Seq<Entry>, r: nat) -> Seq<int>
    decreases r,
{
    if r == 0 {
        Seq::empty()
    } else {
        let d = run(entries, (r - 1) as nat);
        match next_ready(entries, d) {
            Some(i) => d.push(i),
            None => d,
        }
    }
}

/// The entries below `k` that never built, ascending.
pub open spec fn stuck_below(done: Seq<int>, k: int) -> Seq<int>
    decreases k,
{
    if k <= 0 {
        Seq::empty()
    } else {
        let r = stuck_below(done, k - 1);
        if done.contains(k - 1) {
            r
        } else {
            r.push(k - 1)
        }
    }
}

/// Every entry that builds, in build order, and then, where a cycle left
/// some unbuilt, those in list order.
pub open spec fn placed(entries: Seq<Entry>) -> Seq<int> {
    run(entries, entries.len())
}

/// The build order, as list indices.
pub open spec fn build_order(entries: Seq<Entry>) -> Seq<int> {
    placed(entries) + stuck_below(placed(entries), entries.len() as int)
}

/// How an entry is named where the cycle report points at it.
pub open spec fn entry_label(e: Entry) -> Seq<char> {
    match e.flavour {
        Some(f) => e.path@ + " ["@ + f@ + "]"@,
        None => e.path@,
    }
}

/// The names, each in backticks, of those in `ws` that never built.
pub open spec fn blocked(entries: Seq<Entry>, done: Seq<int>, ws: Seq<int>) -> Seq<Seq<char>>
    decreases ws.len(),
{
    if ws.len() == 0 {
        Seq::empty()
    } else {
        let r = blocked(entries, done, ws.drop_last());
        if done.contains(ws.last()) {
            r
        } else {
            r.push("`"@ + entry_label(entries[ws.last()]) + "`"@)
        }
    }
}

/// One label per unbuilt entry below `k`: what it is still waiting on.
pub open spec fn cycle_labels(entries: Seq<Entry>, done: Seq<int>, k: int) -> Seq<(Span, Seq<char>)>
    decreases k,
{
    if k <= 0 {
        Seq::empty()
    } else {
        let r = cycle_labels(entries, done, k - 1);
        if done.contains(k - 1) {
            r
        } else {
            r.push(
                (
                    entries[k - 1].span,
                    "waits on "@ + join_spec(
                        blocked(entries, done, waits_below(entries, k - 1, entries.len() as int)),
                        ", "@,
                    ),
                ),
            )
        }
    }
}

pub open spec fn cycle_help() -> Seq<char> {
    "a requirement implies ordering, so a cycle has no build order at all; drop one of the edges, or split the module that closes it"@
}

/// The issue a cycle is reported as: every unbuilt entry, and what it waits
/// on that never built.
pub open spec fn cycle_issue(entries: Seq<Entry>, source: Seq<char>) -> IssueV {
    IssueV {
        message: "the module graph has a cycle"@,
        source,
        labels: cycle_labels(entries, placed(entries), entries.len() as int),
        help: Some(cycle_help()),
    }
}

proof fn lemma_waits_below(entries: Seq<Entry>, i: int, k: int)
    requires
        0 <= k,
    ensures
        forall|p: int| #[trigger] waits_below(entries, i, k).contains(p) <==> (0 <= p < k && waits_on(entries, i, p)),
        forall|a: int, b: int| 0 <= a < b < waits_below(entries, i, k).len() ==> waits_below(entries, i, k)[a] < waits_below(entries, i, k)[b],
        forall|a: int| 0 <= a < waits_below(entries, i, k).len() ==> 0 <= #[trigger] waits_below(entries, i, k)[a] < k,
    decreases k,
{
    if k > 0 {
        lemma_waits_below(entries, i, k - 1);
        let r = waits_below(entries, i, k - 1);
        if waits_on(entries, i, k - 1) {
            assert forall|p: int| #[trigger] r.push(k - 1).contains(p) <==> (0 <= p < k && waits_on(entries, i, p)) by {
                if r.push(k - 1).contains(p) {
                    let w = choose|w: int| 0 <= w < r.push(k - 1).len() && #[trigger] r.push(k - 1)[w] == p;
                    if w < r.len() {
                        assert(r.contains(p));
                    }
                }
                if 0 <= p < k && waits_on(entries, i, p) {
                    if p < k - 1 {
                        assert(r.contains(p));
                        let w = choose|w: int| 0 <= w < r.len() && #[trigger] r[w] == p;
                        assert(r.push(k - 1)[w] == p);
                    } else {
                        assert(r.push(k - 1)[r.len() as int] == p);
                    }
                }
            }
        }
    }
}

proof fn lemma_stuck_below(done: Seq<int>, k: int)
    requires
        0 <= k,
    ensures
        forall|p: int| #[trigger] stuck_below(done, k).contains(p) <==> (0 <= p < k && !done.contains(p)),
        stuck_below(done, k).no_duplicates(),
    decreases k,
{
    if k > 0 {
        lemma_stuck_below(done, k - 1);
        let r = stuck_below(done, k - 1);
        if !done.contains(k - 1) {
            assert forall|p: int| #[trigger] r.push(k - 1).contains(p) <==> (0 <= p < k && !done.contains(p)) by {
                if r.push(k - 1).contains(p) {
                    let w = choose|w: int| 0 <= w < r.push(k - 1).len() && #[trigger] r.push(k - 1)[w] == p;
                    if w < r.len() {
                        assert(r.contains(p));
                    }
                }
                if 0 <= p < k && !done.contains(p) {
                    if p < k - 1 {
                        assert(r.contains(p));
                        let w = choose|w: int| 0 <= w < r.len() && #[trigger] r[w] == p;
                        assert(r.push(k - 1)[w] == p);
                    } else {
                        assert(r.push(k - 1)[r.len() as int] == p);
                    }
                }
            }
            let e = r.push(k - 1);
            assert forall|a: int, b: int|
                0 <= a < e.len() && 0 <= b < e.len() && a != b implies #[trigger] e[a] != #[trigger] e[b] by {
                if a == r.len() {
                    assert(r.contains(r[b]));
                } else if b == r.len() {
                    assert(r.contains(r[a]));
                }
            }
        }
    }
}

/// What every round of the run keeps: nothing twice, nothing out of range, and
/// each entry after everything it waits on.
proof fn lemma_run(entries: Seq<Entry>, r: nat)
    ensures
        run(entries, r).no_duplicates(),
        forall|k: int| 0 <= k < run(entries, r).len() ==> 0 <= #[trigger] run(entries, r)[k] < entries.len(),
        forall|k: int, p: int|
            0 <= k < run(entries, r).len() && #[trigger] waits_on(entries, run(entries, r)[k], p)
                ==> run(entries, r).take(k).contains(p),
        run(entries, r).len() <= r,
    decreases r,
{
    if r > 0 {
        lemma_run(entries, (r - 1) as nat);
        let d = run(entries, (r - 1) as nat);
        lemma_best_below(entries, d, entries.len() as int);
        match next_ready(entries, d) {
            Some(i) => {
                let e = d.push(i);
                assert(ready(entries, d, i));
                assert forall|a: int, b: int| 0 <= a < e.len() && 0 <= b < e.len() && a != b implies #[trigger] e[a]
                    != #[trigger] e[b] by {
                    if a == d.len() {
                        assert(d.contains(d[b]));
                    } else if b == d.len() {
                        assert(d.contains(d[a]));
                    }
                }
                assert forall|k: int, p: int|
                    0 <= k < e.len() && #[trigger] waits_on(entries, e[k], p) implies e.take(k).contains(p) by {
                    if k < d.len() {
                        assert(e[k] == d[k]);
                        assert(e.take(k) =~= d.take(k));
                    } else {
                        assert(e.take(k) =~= d);
                    }
                }
            },
            None => {},
        }
    }
}

/// Once nothing is ready, nothing more ever builds.
proof fn lemma_run_stalls(entries: Seq<Entry>, r: nat, s: nat)
    requires
        r <= s,
        next_ready(entries, run(entries, r)) is None,
    ensures
        run(entries, s) == run(entries, r),
    decreases s - r,
{
    if r < s {
        lemma_run_stalls(entries, r, (s - 1) as nat);
    }
}

/// The build order holds every entry exactly once.
pub proof fn lemma_order_is_permutation(entries: Seq<Entry>)
    ensures
        build_order(entries).len() == entries.len(),
        build_order(entries).no_duplicates(),
        forall|i: int| 0 <= i < entries.len() ==> build_order(entries).contains(i),
        forall|k: int| 0 <= k < build_order(entries).len() ==> 0 <= #[trigger] build_order(entries)[k] < entries.len(),
{
    let n = entries.len() as int;
    let d = placed(entries);
    lemma_run(entries, entries.len());
    lemma_stuck_below(d, n);
    let st = stuck_below(d, n);
    let o = d + st;
    assert forall|k: int| 0 <= k < o.len() implies 0 <= #[trigger] o[k] < n by {
        if k >= d.len() {
            assert(st.contains(st[k - d.len()]));
        }
    }
    assert forall|a: int, b: int| 0 <= a < o.len() && 0 <= b < o.len() && a != b implies #[trigger] o[a] != #[trigger] o[b] by {
        if a < d.len() && b >= d.len() {
            assert(st.contains(st[b - d.len()]));
            assert(d.contains(d[a]));
        } else if b < d.len() && a >= d.len() {
            assert(st.contains(st[a - d.len()]));
            assert(d.contains(d[b]));
        }
    }
    assert forall|i: int| 0 <= i < n implies o.contains(i) by {
        if d.contains(i) {
            let w = choose|w: int| 0 <= w < d.len() && #[trigger] d[w] == i;
            assert(o[w] == i);
        } else {
            assert(st.contains(i));
            let w = choose|w: int| 0 <= w < st.len() && #[trigger] st[w] == i;
            assert(o[d.len() + w] == i);
        }
    }
    assert(o.to_set() =~= set_int_range(0, n)) by {
        assert forall|x: int| o.to_set().contains(x) <==> set_int_range(0, n).contains(x) by {
            if o.to_set().contains(x) {
                let w = choose|w: int| 0 <= w < o.len() && #[trigger] o[w] == x;
                assert(0 <= o[w] < n);
            }
        }
    }
    o.unique_seq_to_set();
    lemma_int_range(0, n);
}

/// Every entry that builds comes after everything it waits on; without a
/// cycle, that is every entry.
pub proof fn lemma_order_respects_waits(entries: Seq<Entry>)
    ensures
        forall|k: int, p: int|
            0 <= k < placed(entries).len() && #[trigger] waits_on(entries, build_order(entries)[k], p)
                ==> build_order(entries).take(k).contains(p),
        placed(entries).len() == entries.len() ==> build_order(entries) == placed(entries),
{
    let d = placed(entries);
    lemma_run(entries, entries.len());
    lemma_stuck_below(d, entries.len() as int);
    let o = build_order(entries);
    assert forall|k: int, p: int|
        0 <= k < d.len() && #[trigger] waits_on(entries, o[k], p) implies o.take(k).contains(p) by {
        assert(o[k] == d[k]);
        assert(o.take(k) =~= d.take(k));
        assert(d.take(k).contains(p));
    }
    if d.len() == entries.len() {
        lemma_order_is_permutation(entries);
        let st = stuck_below(d, entries.len() as int);
        if st.len() > 0 {
            assert(st.contains(st[0]));
            assert(o.len() > entries.len());
        }
        assert(o =~= d);
    }
}


pub open spec fn ints(v: Seq<usize>) -> Seq<int> {
    v.map_values(|x: usize| x as int)
}

fn all_placed(ws: &Vec<usize>, placed: &Vec<bool>) -> (r: bool)
    requires
        forall|k: int| 0 <= k < ws@.len() ==> (#[trigger] ws@[k]) < placed@.len(),
    ensures
        r == (forall|k: int| 0 <= k < ws@.len() ==> placed@[#[trigger] ws@[k] as int]),
{
    let mut k: usize = 0;
    while k < ws.len()
        invariant
            k <= ws@.len(),
            forall|k: int| 0 <= k < ws@.len() ==> (#[trigger] ws@[k]) < placed@.len(),
            forall|j: int| 0 <= j < k ==> placed@[#[trigger] ws@[j] as int],
        decreases ws@.len() - k,
    {
        if !placed[ws[k]] {
            return false;
        }
        k = k + 1;
    }
    true
}

fn goes_first_exec(entries: &Vec<Entry>, a: usize, b: usize) -> (r: bool)
    requires
        a < entries@.len(),
        b < entries@.len(),
    ensures
        r == goes_first(entries@, a as int, b as int),
{
    let ga = entries[a].flavour.is_some();
    let gb = entries[b].flavour.is_some();
    (!ga && gb) || (ga == gb && a < b)
}

fn label_of(e: &Entry) -> (r: String)
    ensures
        r@ == "`"@ + entry_label(*e) + "`"@,
{
    proof {
        reveal_strlit("]`");
        reveal_strlit("]");
        reveal_strlit("`");
    }
    match &e.flavour {
        Some(f) => {
            let shown = cat3(e.path.as_str(), " [", f.as_str());
            let r = cat3("`", shown.as_str(), "]`");
            assert(r@ =~= "`"@ + (e.path@ + " ["@ + f@ + "]"@) + "`"@);
            r
        },
        None => cat3("`", e.path.as_str(), "`"),
    }
}

/// Everything left when the sort runs out of ready modules is waiting on
/// something else that is also waiting, so the message names the edges rather
/// than just reporting that an order could not be found.
fn report_cycle(image: &Image, waits: &Vec<Vec<usize>>, placed: &Vec<bool>, Ghost(done): Ghost<Seq<int>>) -> (issue: Issue)
    requires
        waits@.len() == image.entries@.len(),
        placed@.len() == image.entries@.len(),
        forall|i: int| 0 <= i < image.entries@.len() ==> ints(#[trigger] waits@[i]@) == waits_below(image.entries@, i, image.entries@.len() as int),
        forall|i: int| 0 <= i < image.entries@.len() ==> (#[trigger] placed@[i] <==> done.contains(i)),
    ensures
        issue@ == (IssueV {
            message: "the module graph has a cycle"@,
            source: image.src.name@,
            labels: cycle_labels(image.entries@, done, image.entries@.len() as int),
            help: Some(cycle_help()),
        }),
{
    let entries = &image.entries;
    let n = entries.len();
    let mut issue = Issue::new(owned("the module graph has a cycle"), &image.src).help(
        owned(
            "a requirement implies ordering, so a cycle has no build order at all; drop one of the edges, or split the module that closes it",
        ),
    );
    let mut index: usize = 0;
    while index < n
        invariant
            n == entries@.len(),
            entries == &image.entries,
            waits@.len() == n,
            placed@.len() == n,
            forall|i: int| 0 <= i < n ==> ints(#[trigger] waits@[i]@) == waits_below(entries@, i, n as int),
            forall|i: int| 0 <= i < n ==> (#[trigger] placed@[i] <==> done.contains(i)),
            index <= n,
            issue@ == (IssueV {
                message: "the module graph has a cycle"@,
                source: image.src.name@,
                labels: cycle_labels(entries@, done, index as int),
                help: Some(cycle_help()),
            }),
        decreases n - index,
    {
        if !placed[index] {
            let ws = &waits[index];
            let ghost wi = ints(ws@);
            proof {
                lemma_waits_below(entries@, index as int, n as int);
            }
            let mut names: Vec<String> = Vec::new();
            let mut k: usize = 0;
            while k < ws.len()
                invariant
                    n == entries@.len(),
                    placed@.len() == n,
                    forall|i: int| 0 <= i < n ==> (#[trigger] placed@[i] <==> done.contains(i)),
                    wi == ints(ws@),
                    wi == waits_below(entries@, index as int, n as int),
                    forall|a: int| 0 <= a < wi.len() ==> 0 <= #[trigger] wi[a] < n,
                    k <= ws@.len(),
                    views(names@) == blocked(entries@, done, wi.take(k as int)),
                decreases ws@.len() - k,
            {
                let p = ws[k];
                assert(wi[k as int] == p as int);
                assert(wi.take(k as int + 1).drop_last() =~= wi.take(k as int));
                assert(wi.take(k as int + 1).last() == p as int);
                if !placed[p] {
                    let ghost prior = names@;
                    names.push(label_of(&entries[p]));
                    assert(views(names@) =~= views(prior).push(names@[names@.len() - 1]@));
                }
                k = k + 1;
            }
            assert(wi.take(ws@.len() as int) =~= wi);
            let joined = join(&names, ", ");
            let text = cat("waits on ", joined.as_str());
            issue = issue.at(entries[index].span, text);
        }
        index = index + 1;
    }
    issue
}

/// The build order, as list indices. A cycle leaves its members unbuilt: they
/// go last, in list order, and the cycle is reported once.
pub fn sort(image: &Image, issues: &mut Issues) -> (r: Vec<usize>)
    ensures
        ints(r@) == build_order(image.entries@),
        placed(image.entries@).len() < image.entries@.len() ==> final(issues)@ == old(issues)@.push(
            cycle_issue(image.entries@, image.src.name@),
        ),
        placed(image.entries@).len() == image.entries@.len() ==> final(issues)@ == old(issues)@,
{
    let entries = &image.entries;
    let n = entries.len();
    let ghost es = entries@;
    let mut waits: Vec<Vec<usize>> = Vec::new();
    let mut i: usize = 0;
    while i < n
        invariant
            n == es.len(),
            es == entries@,
            i <= n,
            waits@.len() == i,
            forall|j: int| 0 <= j < i ==> ints(#[trigger] waits@[j]@) == waits_below(es, j, n as int),
        decreases n - i,
    {
        waits.push(waits_of(entries, i));
        i = i + 1;
    }
    let mut built: Vec<bool> = Vec::new();
    let mut i: usize = 0;
    while i < n
        invariant
            i <= n,
            built@.len() == i,
            forall|j: int| 0 <= j < i ==> !(#[trigger] built@[j]),
        decreases n - i,
    {
        built.push(false);
        i = i + 1;
    }
    let mut order: Vec<usize> = Vec::new();
    let mut r: usize = 0;
    let mut stalled = false;
    proof {
        assert forall|j: int| 0 <= j < n implies (#[trigger] built@[j] <==> run(es, 0).contains(j)) by {}
    }
    while r < n && !stalled
        invariant
            n == es.len(),
            es == entries@,
            r <= n,
            waits@.len() == n,
            forall|j: int| 0 <= j < n ==> ints(#[trigger] waits@[j]@) == waits_below(es, j, n as int),
            built@.len() == n,
            ints(order@) == run(es, r as nat),
            forall|j: int| 0 <= j < n ==> (#[trigger] built@[j] <==> run(es, r as nat).contains(j)),
            stalled ==> next_ready(es, run(es, r as nat)) is None,
        decreases n - r + (if stalled { 0int } else { 1int }),
    {
        let ghost d = run(es, r as nat);
        let mut best: Option<usize> = None;
        let mut i: usize = 0;
        while i < n
            invariant
                n == es.len(),
                es == entries@,
                waits@.len() == n,
                forall|j: int| 0 <= j < n ==> ints(#[trigger] waits@[j]@) == waits_below(es, j, n as int),
                built@.len() == n,
                forall|j: int| 0 <= j < n ==> (#[trigger] built@[j] <==> d.contains(j)),
                i <= n,
                best matches Some(b) ==> b < n,
                match best {
                    Some(b) => best_below(es, d, i as int) == Some(b as int),
                    None => best_below(es, d, i as int) is None,
                },
            decreases n - i,
        {
            proof {
                lemma_waits_below(es, i as int, n as int);
                let wi = ints(waits@[i as int]@);
                assert forall|k: int| 0 <= k < waits@[i as int]@.len() implies (#[trigger] waits@[i as int]@[k]) < built@.len() by {
                    assert(wi[k] == waits@[i as int]@[k] as int);
                }
            }
            let open_now = !built[i] && all_placed(&waits[i], &built);
            proof {
                let wi = ints(waits@[i as int]@);
                let rd = ready(es, d, i as int);
                if open_now {
                    assert forall|p: int| #[trigger] waits_on(es, i as int, p) implies d.contains(p) by {
                        assert(wi.contains(p));
                        let w = choose|w: int| 0 <= w < wi.len() && #[trigger] wi[w] == p;
                        assert(built@[waits@[i as int]@[w] as int]);
                    }
                }
                if rd {
                    assert forall|k: int| 0 <= k < waits@[i as int]@.len() implies built@[#[trigger] waits@[i as int]@[k] as int] by {
                        assert(wi[k] == waits@[i as int]@[k] as int);
                        assert(wi.contains(wi[k]));
                        assert(waits_on(es, i as int, wi[k]));
                    }
                }
                assert(open_now == rd);
            }
            if open_now {
                match best {
                    Some(b) => {
                        if goes_first_exec(entries, i, b) {
                            best = Some(i);
                        }
                    },
                    None => {
                        best = Some(i);
                    },
                }
            }
            i = i + 1;
        }
        match best {
            Some(b) => {
                proof {
                    lemma_best_below(es, d, n as int);
                }
                order.push(b);
                built.set(b, true);
                proof {
                    assert(run(es, (r + 1) as nat) == d.push(b as int));
                    assert(ints(order@) =~= d.push(b as int));
                    assert forall|j: int| 0 <= j < n implies (#[trigger] built@[j] <==> d.push(b as int).contains(j)) by {
                        if j == b {
                            assert(d.push(b as int)[d.len() as int] == j);
                        } else if d.push(b as int).contains(j) {
                            let w = choose|w: int| 0 <= w < d.push(b as int).len() && #[trigger] d.push(b as int)[w] == j;
                            assert(d[w] == j);
                        } else if d.contains(j) {
                            let w = choose|w: int| 0 <= w < d.len() && #[trigger] d[w] == j;
                            assert(d.push(b as int)[w] == j);
                        }
                    }
                }
                r = r + 1;
            },
            None => {
                stalled = true;
            },
        }
    }
    proof {
        if stalled {
            lemma_run_stalls(es, r as nat, n as nat);
        }
    }
    let ghost done = run(es, n as nat);
    assert(done == placed(es));
    let mut stuck: Vec<usize> = Vec::new();
    let mut i: usize = 0;
    while i < n
        invariant
            n == es.len(),
            i <= n,
            built@.len() == n,
            forall|j: int| 0 <= j < n ==> (#[trigger] built@[j] <==> done.contains(j)),
            ints(stuck@) == stuck_below(done, i as int),
        decreases n - i,
    {
        if !built[i] {
            let ghost prior = stuck@;
            stuck.push(i);
            assert(ints(stuck@) =~= ints(prior).push(i as int));
        }
        i = i + 1;
    }
    if order.len() < n {
        let issue = report_cycle(image, &waits, &built, Ghost(done));
        issues.push(issue);
    }
    let ghost o = order@;
    let mut result = order;
    let mut k: usize = 0;
    while k < stuck.len()
        invariant
            k <= stuck@.len(),
            ints(result@) == ints(o) + ints(stuck@).take(k as int),
        decreases stuck@.len() - k,
    {
        let ghost prior = result@;
        result.push(stuck[k]);
        assert(ints(stuck@).take(k as int + 1) =~= ints(stuck@).take(k as int).push(stuck@[k as int] as int));
        assert(ints(result@) =~= ints(prior).push(stuck@[k as int] as int));
        k = k + 1;
    }
    assert(ints(stuck@).take(stuck@.len() as int) =~= ints(stuck@));
    result
}

/// `entries` rearranged into `order`: each index taken the first time it
/// appears.
pub open spec fn arranged(entries: Seq<Entry>, order: Seq<int>) -> Seq<Entry>
    decreases order.len(),
{
    if order.len() == 0 {
        Seq::empty()
    } else {
        let r = arranged(entries, order.drop_last());
        if order.drop_last().contains(order.last()) {
            r
        } else {
            r.push(entries[order.last()])
        }
    }
}

/// Rearranges the list into build order, so everything downstream sees one
/// order and none of it has to know it was ever different.
pub fn apply(image: &mut Image, order: &[usize])
    requires
        forall|k: int| 0 <= k < order@.len() ==> (#[trigger] order@[k]) < old(image).entries@.len(),
    ensures
        final(image).entries@ == arranged(old(image).entries@, ints(order@)),
        final(image).src == old(image).src,
        final(image).id == old(image).id,
        final(image).flavours == old(image).flavours,
        final(image).suppressed == old(image).suppressed,
        final(image).base == old(image).base,
{
    let ghost es = image.entries@;
    let ghost os = ints(order@);
    let mut taken: Vec<Option<Entry>> = Vec::new();
    let mut drained: Vec<Entry> = Vec::new();
    std::mem::swap(&mut drained, &mut image.entries);
    // Take them out back to front, then turn the slots the right way round.
    let n = drained.len();
    let mut rev: Vec<Option<Entry>> = Vec::new();
    while drained.len() > 0
        invariant
            n == es.len(),
            drained@ == es.take(drained@.len() as int),
            rev@.len() + drained@.len() == n,
            forall|j: int| 0 <= j < rev@.len() ==> #[trigger] rev@[j] == Some(es[n - 1 - j]),
        decreases drained@.len(),
    {
        let e = drained.pop().unwrap();
        rev.push(Some(e));
        assert(drained@ =~= es.take(drained@.len() as int));
    }
    while rev.len() > 0
        invariant
            n == es.len(),
            rev@.len() + taken@.len() == n,
            forall|j: int| 0 <= j < rev@.len() ==> #[trigger] rev@[j] == Some(es[n - 1 - j]),
            forall|j: int| 0 <= j < taken@.len() ==> #[trigger] taken@[j] == Some(es[j]),
        decreases rev@.len(),
    {
        let e = rev.pop().unwrap();
        taken.push(e);
    }
    let mut out: Vec<Entry> = Vec::new();
    let mut k: usize = 0;
    while k < order.len()
        invariant
            n == es.len(),
            taken@.len() == n,
            os == ints(order@),
            forall|k: int| 0 <= k < order@.len() ==> (#[trigger] order@[k]) < es.len(),
            k <= order@.len(),
            out@ == arranged(es, os.take(k as int)),
            forall|j: int| 0 <= j < n ==> (#[trigger] taken@[j] == if os.take(k as int).contains(j) { None } else { Some(es[j]) }),
        decreases order@.len() - k,
    {
        let index = order[k];
        assert(os.take(k as int + 1).drop_last() =~= os.take(k as int));
        assert(os.take(k as int + 1).last() == index as int);
        let mut slot: Option<Entry> = None;
        std::mem::swap(&mut slot, &mut taken[index]);
        let ghost prior = out@;
        match slot {
            Some(e) => {
                out.push(e);
            },
            None => {},
        }
        proof {
            assert forall|j: int| 0 <= j < n implies (#[trigger] taken@[j] == if os.take(k as int + 1).contains(j) { None } else { Some(es[j]) }) by {
                if os.take(k as int + 1).contains(j) && j != index {
                    let w = choose|w: int| 0 <= w < os.take(k as int + 1).len() && #[trigger] os.take(k as int + 1)[w] == j;
                    assert(os.take(k as int)[w] == j);
                }
                if os.take(k as int).contains(j) {
                    let w = choose|w: int| 0 <= w < os.take(k as int).len() && #[trigger] os.take(k as int)[w] == j;
                    assert(os.take(k as int + 1)[w] == j);
                }
                if j == index {
                    assert(os.take(k as int + 1)[k as int] == j);
                }
            }
        }
        k = k + 1;
    }
    assert(os.take(order@.len() as int) =~= os);
    image.entries = out;
}


/// Rearranging by an order that names no entry twice puts entry `order[k]` at
/// position `k`; with the build order, every entry lands exactly once.
pub proof fn lemma_arranged_by_order(entries: Seq<Entry>, order: Seq<int>)
    requires
        order.no_duplicates(),
        forall|k: int| 0 <= k < order.len() ==> 0 <= #[trigger] order[k] < entries.len(),
    ensures
        arranged(entries, order).len() == order.len(),
        forall|k: int| 0 <= k < order.len() ==> #[trigger] arranged(entries, order)[k] == entries[order[k]],
    decreases order.len(),
{
    if order.len() > 0 {
        let init = order.drop_last();
        assert forall|a: int, b: int| 0 <= a < init.len() && 0 <= b < init.len() && a != b implies #[trigger] init[a] != #[trigger] init[b] by {
            assert(init[a] == order[a] && init[b] == order[b]);
        }
        assert forall|k: int| 0 <= k < init.len() implies 0 <= #[trigger] init[k] < entries.len() by {
            assert(init[k] == order[k]);
        }
        lemma_arranged_by_order(entries, init);
        if init.contains(order.last()) {
            let w = choose|w: int| 0 <= w < init.len() && #[trigger] init[w] == order.last();
            assert(order[w] == order[order.len() - 1]);
        }
        assert forall|k: int| 0 <= k < order.len() implies #[trigger] arranged(entries, order)[k] == entries[order[k]] by {
            if k < init.len() {
                assert(init[k] == order[k]);
            }
        }
    }
}

/// Applying the build order keeps every entry, each once, in build order.
pub proof fn lemma_apply_build_order(entries: Seq<Entry>)
    ensures
        arranged(entries, build_order(entries)).len() == entries.len(),
        forall|k: int| 0 <= k < entries.len() ==> #[trigger] arranged(entries, build_order(entries))[k]
            == entries[build_order(entries)[k]],
{
    lemma_order_is_permutation(entries);
    lemma_arranged_by_order(entries, build_order(entries));
}

} // verus!
