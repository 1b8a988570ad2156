//! What the repository's module trees hold, for everything that asks what
//! is on disk rather than what an image enables. Walking the trees is the
//! program's; this reads what the walk found.

use crate::diag::{Issues, Source};
use crate::model::image::{Entry, Image, List};
use crate::model::module::Key;
use crate::model::remote::REMOTE_DIR;
use crate::parse::manifest::entry_dir;
use crate::layout::listed;
use crate::parse::kdl::{kdl_document, parse_kdl, KEntry, KNode, KValue};
use crate::parse::module::{arg_strings, key_spec, key_view, parse_key, KeyV};
use crate::text::{ascending, lex_less, lex_lt, lemma_lex_asymmetric, lemma_lex_irreflexive, lemma_lex_total, lemma_lex_transitive, same, sorted_distinct, starts_with, views};
use vstd::prelude::*;

verus! {

/// The keys of a map held as a vector of pairs.
pub open spec fn keys_of<V>(m: Seq<(String, V)>) -> Seq<Seq<char>> {
    m.map_values(|e: (String, V)| e.0@)
}

/// Where `key` is in a map whose keys ascend, or where it would go.
pub open spec fn slot_for(keys: Seq<Seq<char>>, key: Seq<char>, at: int) -> bool {
    &&& 0 <= at <= keys.len()
    &&& forall|j: int| 0 <= j < at ==> lex_lt(#[trigger] keys[j], key)
    &&& at < keys.len() ==> (keys[at] == key || lex_lt(key, keys[at]))
}

/// The slot `key` has, or would have, in `m`, and whether it is there.
fn find_slot<V>(m: &Vec<(String, V)>, key: &str) -> (r: (usize, bool))
    requires
        ascending(keys_of(m@)),
    ensures
        slot_for(keys_of(m@), key@, r.0 as int),
        r.1 == (r.0 < m@.len() && keys_of(m@)[r.0 as int] == key@),
        r.1 == keys_of(m@).contains(key@),
{
    let ghost keys = keys_of(m@);
    let mut k: usize = 0;
    while k < m.len() && lex_less(m[k].0.as_str(), key)
        invariant
            k <= m@.len(),
            keys == keys_of(m@),
            forall|j: int| 0 <= j < k ==> lex_lt(#[trigger] keys[j], key@),
        decreases m@.len() - k,
    {
        assert(keys[k as int] == m@[k as int].0@);
        k = k + 1;
    }
    let found = k < m.len() && same(m[k].0.as_str(), key);
    proof {
        if k < m@.len() {
            assert(keys[k as int] == m@[k as int].0@);
            lemma_lex_total(keys[k as int], key@);
        }
        if !found && keys.contains(key@) {
            let w = choose|w: int| 0 <= w < keys.len() && keys[w] == key@;
            if w < k {
                lemma_lex_irreflexive(key@);
            } else if w > k {
                assert(lex_lt(keys[k as int], keys[w]));
                lemma_lex_asymmetric(keys[k as int], key@);
            }
        }
    }
    (k, found)
}

/// Putting `key` in its slot keeps the keys ascending.
proof fn lemma_insert_ascending(keys: Seq<Seq<char>>, key: Seq<char>, at: int)
    requires
        ascending(keys),
        slot_for(keys, key, at),
        !keys.contains(key),
    ensures
        ascending(keys.insert(at, key)),
{
    let out = keys.insert(at, key);
    if at < keys.len() {
        assert(keys[at] != key) by {
            assert(keys.contains(keys[at]));
        }
    }
    assert forall|m: int| at <= m < keys.len() implies lex_lt(key, #[trigger] keys[m]) by {
        if m > at {
            assert(lex_lt(keys[at], keys[m]));
            lemma_lex_transitive(key, keys[at], keys[m]);
        }
    }
    assert forall|i: int, j: int| 0 <= i < j < out.len() implies lex_lt(#[trigger] out[i], #[trigger] out[j]) by {
        if j < at {
            assert(out[i] == keys[i] && out[j] == keys[j]);
        } else if j == at {
            assert(out[i] == keys[i]);
        } else if i == at {
            assert(out[j] == keys[j - 1]);
        } else if i < at {
            assert(out[i] == keys[i] && out[j] == keys[j - 1]);
            lemma_lex_transitive(keys[i], key, keys[j - 1]);
        } else {
            assert(out[i] == keys[i - 1] && out[j] == keys[j - 1]);
        }
    }
}


/// What putting `e` in slot `at` does to a map: the keys stay ascending, the
/// key set gains `e`'s key, that key holds `e`'s value, and every other
/// entry is one the map had.
proof fn lemma_put<V>(old: Seq<(String, V)>, new: Seq<(String, V)>, e: (String, V), at: int)
    requires
        ascending(keys_of(old)),
        slot_for(keys_of(old), e.0@, at),
        keys_of(old).contains(e.0@) ==> at < old.len() && keys_of(old)[at] == e.0@ && new == old.update(at, e),
        !keys_of(old).contains(e.0@) ==> new == old.insert(at, e),
    ensures
        ascending(keys_of(new)),
        forall|x: Seq<char>| #[trigger] keys_of(new).contains(x) <==> (keys_of(old).contains(x) || x == e.0@),
        forall|k: int| 0 <= k < new.len() && #[trigger] new[k].0@ == e.0@ ==> new[k] == e,
        forall|k: int| 0 <= k < new.len() && #[trigger] new[k].0@ != e.0@ ==> exists|j: int| 0 <= j < old.len() && old[j] == new[k],
{
    let ko = keys_of(old);
    let kn = keys_of(new);
    if ko.contains(e.0@) {
        assert(kn =~= ko.update(at, e.0@));
        assert(kn =~= ko);
        assert forall|k: int| 0 <= k < new.len() && #[trigger] new[k].0@ == e.0@ implies new[k] == e by {
            if k != at {
                assert(ko[k] == ko[at]);
                if k < at {
                    assert(lex_lt(ko[k], ko[at]));
                } else {
                    assert(lex_lt(ko[at], ko[k]));
                }
                lemma_lex_irreflexive(ko[at]);
            }
        }
        assert forall|k: int| 0 <= k < new.len() && #[trigger] new[k].0@ != e.0@ implies exists|j: int| 0 <= j < old.len() && old[j] == new[k] by {
            assert(old[k] == new[k]);
        }
    } else {
        assert(kn =~= ko.insert(at, e.0@));
        lemma_insert_ascending(ko, e.0@, at);
        assert forall|x: Seq<char>| #[trigger] kn.contains(x) <==> (ko.contains(x) || x == e.0@) by {
            if kn.contains(x) {
                let w = choose|w: int| 0 <= w < kn.len() && kn[w] == x;
                if w < at {
                    assert(ko[w] == x);
                } else if w > at {
                    assert(ko[w - 1] == x);
                }
            }
            if ko.contains(x) {
                let w = choose|w: int| 0 <= w < ko.len() && ko[w] == x;
                if w < at {
                    assert(kn[w] == x);
                } else {
                    assert(kn[w + 1] == x);
                }
            }
            if x == e.0@ {
                assert(kn[at] == x);
            }
        }
        assert forall|k: int| 0 <= k < new.len() && #[trigger] new[k].0@ == e.0@ implies new[k] == e by {
            if k < at {
                assert(ko[k] == e.0@);
            } else if k > at {
                assert(ko[k - 1] == e.0@);
            }
        }
        assert forall|k: int| 0 <= k < new.len() && #[trigger] new[k].0@ != e.0@ implies exists|j: int| 0 <= j < old.len() && old[j] == new[k] by {
            if k < at {
                assert(old[k] == new[k]);
            } else {
                assert(k != at);
                assert(old[k - 1] == new[k]);
            }
        }
    }
}

/// Puts `value` under `key`, replacing what it held.
pub(crate) fn put<V>(m: &mut Vec<(String, V)>, key: String, value: V)
    requires
        ascending(keys_of(old(m)@)),
    ensures
        ascending(keys_of(final(m)@)),
        forall|x: Seq<char>| #[trigger] keys_of(final(m)@).contains(x) <==> (keys_of(old(m)@).contains(x) || x == key@),
        forall|k: int| 0 <= k < final(m)@.len() && #[trigger] final(m)@[k].0@ == key@ ==> final(m)@[k].1 == value,
        forall|k: int| 0 <= k < final(m)@.len() && #[trigger] final(m)@[k].0@ != key@ ==> exists|j: int| 0 <= j < old(m)@.len() && old(m)@[j] == final(m)@[k],
{
    let ghost e = (key, value);
    let ghost before = m@;
    let (at, present) = find_slot(m, key.as_str());
    if present {
        m.set(at, (key, value));
    } else {
        m.insert(at, (key, value));
    }
    proof {
        lemma_put(before, m@, e, at as int);
    }
}


/// One module directory the walk found: its path under `modules/`, every
/// path its overlays put in the image, and what its module.kdl holds where
/// it could be read.
pub struct OnDisk {
    pub name: String,
    pub overlay: Vec<String>,
    pub manifest: Option<String>,
}

/// What the module trees hold, each map in key order.
pub struct Disk {
    /// Key kind to every module declaring it and what each declaration
    /// says, in module order.
    pub keys: Vec<(String, Vec<(String, Key)>)>,
    /// Collected filename to the module that collects it.
    pub collectors: Vec<(String, String)>,
    /// Module directory to every path its overlays put in the image.
    pub overlays: Vec<(String, Vec<String>)>,
}

/// The nodes of a manifest: none where it could not be read or parsed.
pub open spec fn nodes_of(text: Option<String>) -> Seq<KNode> {
    match text {
        Some(t) => match kdl_document(t@) {
            Ok(n) => n,
            Err(_) => Seq::empty(),
        },
        None => Seq::empty(),
    }
}

/// The file each `collects` node names: its first string argument.
pub open spec fn collected(nodes: Seq<KNode>) -> Seq<Seq<char>>
    decreases nodes.len(),
{
    if nodes.len() == 0 {
        Seq::empty()
    } else {
        let n = nodes.last();
        collected(nodes.drop_last()) + if n.name@ == "collects"@ && arg_strings(n.entries@).len() > 0 {
            seq![arg_strings(n.entries@)[0]]
        } else {
            Seq::empty()
        }
    }
}

/// The key one node declares, where it declares one well enough to read.
#[verifier::opaque]
pub open spec fn key_of_node(n: KNode, source: Seq<char>) -> Option<KeyV> {
    if n.name@ == "key"@ {
        key_spec(n, source).0
    } else {
        None
    }
}

/// Every key a manifest declares well enough to be read.
pub open spec fn declared(nodes: Seq<KNode>, source: Seq<char>) -> Seq<KeyV>
    decreases nodes.len(),
{
    if nodes.len() == 0 {
        Seq::empty()
    } else {
        let n = nodes.last();
        declared(nodes.drop_last(), source) + if key_of_node(n, source) is Some {
            seq![key_of_node(n, source)->0]
        } else {
            Seq::empty()
        }
    }
}

/// The overlay of the last module found by that name.
pub open spec fn last_overlay(found: Seq<OnDisk>, name: Seq<char>) -> Option<Seq<Seq<char>>>
    decreases found.len(),
{
    if found.len() == 0 {
        None
    } else if found.last().name@ == name {
        Some(views(found.last().overlay@))
    } else {
        last_overlay(found.drop_last(), name)
    }
}

/// The last module found whose manifest collects `file`.
pub open spec fn last_collector(found: Seq<OnDisk>, file: Seq<char>) -> Option<Seq<char>>
    decreases found.len(),
{
    if found.len() == 0 {
        None
    } else if collected(nodes_of(found.last().manifest)).contains(file) {
        Some(found.last().name@)
    } else {
        last_collector(found.drop_last(), file)
    }
}

pub open spec fn named_keys(name: Seq<char>, keys: Seq<KeyV>) -> Seq<(Seq<char>, KeyV)> {
    keys.map_values(|k: KeyV| (name, k))
}

/// Every key the modules found by that name declare, in the order found.
pub open spec fn declared_by(found: Seq<OnDisk>, name: Seq<char>) -> Seq<(Seq<char>, KeyV)>
    decreases found.len(),
{
    if found.len() == 0 {
        Seq::empty()
    } else {
        declared_by(found.drop_last(), name) + if found.last().name@ == name {
            named_keys(name, declared(nodes_of(found.last().manifest), name))
        } else {
            Seq::empty()
        }
    }
}

/// Declarations whose module directories never go back in name order.
pub open spec fn in_name_order(s: Seq<(Seq<char>, KeyV)>) -> bool {
    forall|i: int, j: int| 0 <= i < j < s.len() ==> !lex_lt(#[trigger] s[j].0, #[trigger] s[i].0)
}

proof fn lemma_declared_by_name(found: Seq<OnDisk>, name: Seq<char>)
    ensures
        forall|i: int| 0 <= i < declared_by(found, name).len() ==> #[trigger] declared_by(found, name)[i].0 == name,
    decreases found.len(),
{
    if found.len() > 0 {
        lemma_declared_by_name(found.drop_last(), name);
        let pre = declared_by(found.drop_last(), name);
        let tail = if found.last().name@ == name {
            named_keys(name, declared(nodes_of(found.last().manifest), name))
        } else {
            Seq::empty()
        };
        assert(declared_by(found, name) == pre + tail);
        assert forall|i: int| 0 <= i < declared_by(found, name).len() implies #[trigger] declared_by(found, name)[i].0 == name by {
            if i >= pre.len() {
                assert(declared_by(found, name)[i] == tail[i - pre.len()]);
            }
        }
    }
}

proof fn lemma_by_names_order(found: Seq<OnDisk>, names: Seq<Seq<char>>)
    requires
        ascending(names),
    ensures
        in_name_order(by_names(found, names)),
        forall|i: int| 0 <= i < by_names(found, names).len() ==> names.contains(#[trigger] by_names(found, names)[i].0),
    decreases names.len(),
{
    if names.len() > 0 {
        let front = names.drop_last();
        assert(ascending(front));
        lemma_by_names_order(found, front);
        lemma_declared_by_name(found, names.last());
        let pre = by_names(found, front);
        let tail = declared_by(found, names.last());
        let all = by_names(found, names);
        assert(all == pre + tail);
        assert forall|i: int| 0 <= i < all.len() implies names.contains(#[trigger] all[i].0) by {
            if i < pre.len() {
                assert(all[i] == pre[i]);
                let p = choose|p: int| 0 <= p < front.len() && front[p] == pre[i].0;
                assert(names[p] == front[p]);
            } else {
                assert(all[i] == tail[i - pre.len()]);
                assert(names[names.len() - 1] == names.last());
            }
        }
        assert forall|i: int, j: int| 0 <= i < j < all.len() implies !lex_lt(#[trigger] all[j].0, #[trigger] all[i].0) by {
            if j < pre.len() {
                assert(all[i] == pre[i] && all[j] == pre[j]);
            } else if i >= pre.len() {
                assert(all[i] == tail[i - pre.len()] && all[j] == tail[j - pre.len()]);
                lemma_lex_irreflexive(names.last());
            } else {
                assert(all[i] == pre[i] && all[j] == tail[j - pre.len()]);
                let p = choose|p: int| 0 <= p < front.len() && front[p] == pre[i].0;
                assert(names[p] == front[p]);
                assert(lex_lt(names[p], names[names.len() - 1]));
                lemma_lex_asymmetric(names[p], names.last());
            }
        }
    }
}

proof fn lemma_of_kind_order(all: Seq<(Seq<char>, KeyV)>, kind: Seq<char>)
    requires
        in_name_order(all),
    ensures
        in_name_order(of_kind(all, kind)),
        forall|i: int| 0 <= i < of_kind(all, kind).len() ==> exists|p: int| 0 <= p < all.len() && all[p] == #[trigger] of_kind(all, kind)[i],
    decreases all.len(),
{
    if all.len() > 0 {
        let front = all.drop_last();
        assert(in_name_order(front)) by {
            assert forall|i: int, j: int| 0 <= i < j < front.len() implies !lex_lt(#[trigger] front[j].0, #[trigger] front[i].0) by {
                assert(front[i] == all[i] && front[j] == all[j]);
            }
        }
        lemma_of_kind_order(front, kind);
        let pre = of_kind(front, kind);
        let tail = if all.last().1.0 == kind { seq![all.last()] } else { Seq::empty() };
        let out = of_kind(all, kind);
        assert(out == pre + tail);
        assert forall|i: int| 0 <= i < out.len() implies exists|p: int| 0 <= p < all.len() && all[p] == #[trigger] out[i] by {
            if i < pre.len() {
                assert(out[i] == pre[i]);
                let p = choose|p: int| 0 <= p < front.len() && front[p] == pre[i];
                assert(all[p] == front[p]);
            } else {
                assert(out[i] == all[all.len() - 1]);
            }
        }
        assert forall|i: int, j: int| 0 <= i < j < out.len() implies !lex_lt(#[trigger] out[j].0, #[trigger] out[i].0) by {
            if j < pre.len() {
                assert(out[i] == pre[i] && out[j] == pre[j]);
            } else {
                assert(out[i] == pre[i] && out[j] == all[all.len() - 1]);
                let p = choose|p: int| 0 <= p < front.len() && front[p] == pre[i];
                assert(all[p] == front[p]);
            }
        }
    }
}

/// Every key declared, module by module in the order `names` gives them.
pub open spec fn by_names(found: Seq<OnDisk>, names: Seq<Seq<char>>) -> Seq<(Seq<char>, KeyV)>
    decreases names.len(),
{
    if names.len() == 0 {
        Seq::empty()
    } else {
        by_names(found, names.drop_last()) + declared_by(found, names.last())
    }
}

/// The declarations of one kind, in order.
pub open spec fn of_kind(all: Seq<(Seq<char>, KeyV)>, kind: Seq<char>) -> Seq<(Seq<char>, KeyV)>
    decreases all.len(),
{
    if all.len() == 0 {
        Seq::empty()
    } else {
        of_kind(all.drop_last(), kind) + if all.last().1.0 == kind {
            seq![all.last()]
        } else {
            Seq::empty()
        }
    }
}

pub open spec fn declaring_views(v: Seq<(String, Key)>) -> Seq<(Seq<char>, KeyV)> {
    v.map_values(|d: (String, Key)| (d.0@, key_view(d.1)))
}

pub open spec fn found_names(found: Seq<OnDisk>) -> Seq<Seq<char>> {
    found.map_values(|d: OnDisk| d.name@)
}

/// The overlays map is the last overlay found for every module name.
pub open spec fn overlays_hold(m: Seq<(String, Vec<String>)>, found: Seq<OnDisk>) -> bool {
    &&& ascending(keys_of(m))
    &&& forall|x: Seq<char>| #[trigger] keys_of(m).contains(x) <==> last_overlay(found, x) is Some
    &&& forall|k: int| 0 <= k < m.len() ==> last_overlay(found, #[trigger] m[k].0@) == Some(views(m[k].1@))
}

/// The collectors map is the last collector found for every collected file.
pub open spec fn collectors_hold(m: Seq<(String, String)>, found: Seq<OnDisk>) -> bool {
    &&& ascending(keys_of(m))
    &&& forall|x: Seq<char>| #[trigger] keys_of(m).contains(x) <==> last_collector(found, x) is Some
    &&& forall|k: int| 0 <= k < m.len() ==> last_collector(found, #[trigger] m[k].0@) == Some(m[k].1@)
}

/// The keys map is every declaration in `all`, by kind.
#[verifier::opaque]
pub open spec fn keys_hold(m: Seq<(String, Vec<(String, Key)>)>, all: Seq<(Seq<char>, KeyV)>) -> bool {
    &&& ascending(keys_of(m))
    &&& forall|x: Seq<char>| #[trigger] keys_of(m).contains(x) <==> of_kind(all, x).len() > 0
    &&& forall|k: int| 0 <= k < m.len() ==> of_kind(all, #[trigger] m[k].0@) == declaring_views(m[k].1@)
}


fn strings_copy(v: &Vec<String>) -> (r: Vec<String>)
    ensures
        views(r@) == views(v@),
{
    let mut out: Vec<String> = Vec::new();
    let mut i: usize = 0;
    while i < v.len()
        invariant
            i <= v@.len(),
            views(out@) == views(v@).take(i as int),
        decreases v@.len() - i,
    {
        let ghost before = out@;
        out.push(v[i].clone());
        assert(views(out@) =~= views(before).push(v@[i as int]@));
        assert(views(v@).take(i as int + 1) =~= views(v@).take(i as int).push(v@[i as int]@));
        i = i + 1;
    }
    assert(views(v@).take(i as int) =~= views(v@));
    out
}

fn nodes_in(text: &Option<String>) -> (r: Vec<KNode>)
    ensures
        r@ == nodes_of(*text),
{
    match text {
        Some(t) => match parse_kdl(t.as_str()) {
            Ok(n) => n,
            Err(_) => Vec::new(),
        },
        None => Vec::new(),
    }
}

/// The first string argument of a node.
fn first_arg_string(es: &Vec<KEntry>) -> (r: Option<String>)
    ensures
        match r {
            Some(x) => arg_strings(es@).len() > 0 && x@ == arg_strings(es@)[0],
            None => arg_strings(es@).len() == 0,
        },
{
    let mut i: usize = 0;
    while i < es.len()
        invariant
            i <= es@.len(),
            arg_strings(es@.take(i as int)).len() == 0,
        decreases es@.len() - i,
    {
        assert(es@.take(i as int + 1).drop_last() =~= es@.take(i as int));
        if es[i].name.is_none() {
            match &es[i].value {
                KValue::String(v) => {
                    proof {
                        lemma_arg_strings_prefix(es@, i as int + 1);
                        assert(arg_strings(es@.take(i as int + 1)) =~= seq![v@]);
                        assert(arg_strings(es@).take(1)[0] == arg_strings(es@)[0]);
                    }
                    return Some(v.clone());
                },
                _ => {},
            }
        }
        i = i + 1;
    }
    assert(es@.take(i as int) =~= es@);
    None
}

/// The string arguments of a prefix start those of the whole.
proof fn lemma_arg_strings_prefix(es: Seq<KEntry>, k: int)
    requires
        0 <= k <= es.len(),
    ensures
        arg_strings(es).take(arg_strings(es.take(k)).len() as int) == arg_strings(es.take(k)),
        arg_strings(es.take(k)).len() <= arg_strings(es).len(),
    decreases es.len() - k,
{
    if k < es.len() {
        lemma_arg_strings_prefix(es, k + 1);
        assert(es.take(k + 1).drop_last() =~= es.take(k));
        let a = arg_strings(es.take(k));
        let b = arg_strings(es.take(k + 1));
        assert(b.take(a.len() as int) =~= a);
        assert(arg_strings(es).take(b.len() as int).take(a.len() as int) =~= arg_strings(es).take(a.len() as int));
    } else {
        assert(es.take(k) =~= es);
        assert(arg_strings(es).take(arg_strings(es).len() as int) =~= arg_strings(es));
    }
}

fn collected_in(nodes: &Vec<KNode>) -> (r: Vec<String>)
    ensures
        views(r@) == collected(nodes@),
{
    let mut out: Vec<String> = Vec::new();
    let mut i: usize = 0;
    while i < nodes.len()
        invariant
            i <= nodes@.len(),
            views(out@) == collected(nodes@.take(i as int)),
        decreases nodes@.len() - i,
    {
        assert(nodes@.take(i as int + 1).drop_last() =~= nodes@.take(i as int));
        assert(nodes@.take(i as int + 1).last() == nodes@[i as int]);
        let ghost before = views(out@);
        if same(nodes[i].name.as_str(), "collects") {
            match first_arg_string(&nodes[i].entries) {
                Some(f) => {
                    out.push(f);
                    assert(views(out@) =~= before.push(arg_strings(nodes@[i as int].entries@)[0]));
                },
                None => {},
            }
        }
        assert(views(out@) =~= collected(nodes@.take(i as int + 1)));
        i = i + 1;
    }
    assert(nodes@.take(i as int) =~= nodes@);
    out
}

fn read_overlays(found: &Vec<OnDisk>) -> (r: Vec<(String, Vec<String>)>)
    ensures
        overlays_hold(r@, found@),
{
    let mut m: Vec<(String, Vec<String>)> = Vec::new();
    assert(keys_of(m@) =~= Seq::<Seq<char>>::empty());
    assert(found@.take(0) =~= Seq::<OnDisk>::empty());
    let mut i: usize = 0;
    while i < found.len()
        invariant
            i <= found@.len(),
            overlays_hold(m@, found@.take(i as int)),
        decreases found@.len() - i,
    {
        let ghost old_m = m@;
        let ghost pre = found@.take(i as int);
        let ghost post = found@.take(i as int + 1);
        assert(post.drop_last() =~= pre);
        assert(post.last() == found@[i as int]);
        let name = found[i].name.clone();
        let copy = strings_copy(&found[i].overlay);
        put(&mut m, name, copy);
        proof {
            let n = found@[i as int].name@;
            assert forall|x: Seq<char>| #[trigger] keys_of(m@).contains(x) <==> last_overlay(post, x) is Some by {
                assert(keys_of(old_m).contains(x) <==> last_overlay(pre, x) is Some);
            }
            assert forall|k: int| 0 <= k < m@.len() implies last_overlay(post, #[trigger] m@[k].0@) == Some(views(m@[k].1@)) by {
                if m@[k].0@ != n {
                    let j = choose|j: int| 0 <= j < old_m.len() && old_m[j] == m@[k];
                    assert(last_overlay(pre, old_m[j].0@) == Some(views(old_m[j].1@)));
                }
            }
        }
        i = i + 1;
    }
    assert(found@.take(i as int) =~= found@);
    m
}

/// Who collects `x` once `files` (the first files of module `at`, named
/// `name`) are read after the modules before it.
pub open spec fn collector_mid(pre: Seq<OnDisk>, name: Seq<char>, files: Seq<Seq<char>>, x: Seq<char>) -> Option<Seq<char>> {
    if files.contains(x) {
        Some(name)
    } else {
        last_collector(pre, x)
    }
}

proof fn lemma_push_contains(s: Seq<Seq<char>>, a: Seq<char>, x: Seq<char>)
    ensures
        s.push(a).contains(x) <==> (s.contains(x) || x == a),
{
    let t = s.push(a);
    if t.contains(x) {
        let w = choose|w: int| 0 <= w < t.len() && t[w] == x;
        if w < s.len() {
            assert(s[w] == x);
        }
    }
    if s.contains(x) {
        let w = choose|w: int| 0 <= w < s.len() && s[w] == x;
        assert(t[w] == x);
    }
    if x == a {
        assert(t[s.len() as int] == x);
    }
}

fn read_collectors(found: &Vec<OnDisk>, parsed: &Vec<Vec<KNode>>) -> (r: Vec<(String, String)>)
    requires
        parsed@.len() == found@.len(),
        forall|i: int| 0 <= i < found@.len() ==> #[trigger] parsed@[i]@ == nodes_of(found@[i].manifest),
    ensures
        collectors_hold(r@, found@),
{
    let mut m: Vec<(String, String)> = Vec::new();
    assert(keys_of(m@) =~= Seq::<Seq<char>>::empty());
    let mut i: usize = 0;
    while i < found.len()
        invariant
            i <= found@.len(),
            parsed@.len() == found@.len(),
            forall|i: int| 0 <= i < found@.len() ==> #[trigger] parsed@[i]@ == nodes_of(found@[i].manifest),
            collectors_hold(m@, found@.take(i as int)),
        decreases found@.len() - i,
    {
        let ghost pre = found@.take(i as int);
        let ghost post = found@.take(i as int + 1);
        assert(post.drop_last() =~= pre);
        assert(post.last() == found@[i as int]);
        let files = collected_in(&parsed[i]);
        let ghost n = found@[i as int].name@;
        assert(views(files@) == collected(nodes_of(found@[i as int].manifest)));
        let mut j: usize = 0;
        while j < files.len()
            invariant
                i < found@.len(),
                n == found@[i as int].name@,
                j <= files@.len(),
                ascending(keys_of(m@)),
                forall|x: Seq<char>| #[trigger] keys_of(m@).contains(x) <==> collector_mid(pre, n, views(files@).take(j as int), x) is Some,
                forall|k: int| 0 <= k < m@.len() ==> collector_mid(pre, n, views(files@).take(j as int), #[trigger] m@[k].0@) == Some(m@[k].1@),
            decreases files@.len() - j,
        {
            let ghost old_m = m@;
            let ghost fs = views(files@).take(j as int);
            let ghost fs2 = views(files@).take(j as int + 1);
            assert(fs2 =~= fs.push(files@[j as int]@));
            let f = files[j].clone();
            put(&mut m, f, found[i].name.clone());
            proof {
                let fj = files@[j as int]@;
                assert forall|x: Seq<char>| #[trigger] keys_of(m@).contains(x) <==> collector_mid(pre, n, fs2, x) is Some by {
                    assert(keys_of(old_m).contains(x) <==> collector_mid(pre, n, fs, x) is Some);
                    lemma_push_contains(fs, fj, x);
                }
                assert forall|k: int| 0 <= k < m@.len() implies collector_mid(pre, n, fs2, #[trigger] m@[k].0@) == Some(m@[k].1@) by {
                    lemma_push_contains(fs, fj, fj);
                    lemma_push_contains(fs, fj, m@[k].0@);
                    if m@[k].0@ != fj {
                        let w = choose|w: int| 0 <= w < old_m.len() && old_m[w] == m@[k];
                        assert(collector_mid(pre, n, fs, old_m[w].0@) == Some(old_m[w].1@));
                        assert(fs2.contains(m@[k].0@) <==> fs.contains(m@[k].0@));
                    }
                }
            }
            j = j + 1;
        }
        proof {
            assert(views(files@).take(j as int) =~= views(files@));
            assert forall|x: Seq<char>| collector_mid(pre, n, views(files@), x) == #[trigger] last_collector(post, x) by {}
        }
        i = i + 1;
    }
    assert(found@.take(i as int) =~= found@);
    m
}


proof fn lemma_of_kind_push(all: Seq<(Seq<char>, KeyV)>, t: (Seq<char>, KeyV), x: Seq<char>)
    ensures
        of_kind(all.push(t), x) == of_kind(all, x) + if t.1.0 == x {
            seq![t]
        } else {
            Seq::<(Seq<char>, KeyV)>::empty()
        },
{
    assert(all.push(t).drop_last() =~= all);
}

/// Files one more declaration under its kind.
fn append_key(m: &mut Vec<(String, Vec<(String, Key)>)>, name: String, key: Key, Ghost(all): Ghost<Seq<(Seq<char>, KeyV)>>)
    requires
        keys_hold(old(m)@, all),
    ensures
        keys_hold(final(m)@, all.push((name@, key_view(key)))),
{
    reveal(keys_hold);
    let ghost t = (name@, key_view(key));
    let ghost before = m@;
    let kind = key.kind.clone();
    let (at, present) = find_slot(m, kind.as_str());
    if present {
        let (k, mut v) = m.remove(at);
        let ghost old_v = v@;
        v.push((name, key));
        assert(declaring_views(v@) =~= declaring_views(old_v).push(t));
        m.insert(at, (k, v));
        assert(m@ =~= before.update(at as int, m@[at as int]));
    } else {
        let mut v: Vec<(String, Key)> = Vec::new();
        v.push((name, key));
        assert(declaring_views(v@) =~= seq![t]);
        m.insert(at, (kind, v));
    }
    proof {
        let e = m@[at as int];
        lemma_put(before, m@, e, at as int);
        let all2 = all.push(t);
        assert forall|x: Seq<char>| #[trigger] keys_of(m@).contains(x) <==> of_kind(all2, x).len() > 0 by {
            lemma_of_kind_push(all, t, x);
            assert(keys_of(before).contains(x) <==> of_kind(all, x).len() > 0);
        }
        assert forall|k: int| 0 <= k < m@.len() implies of_kind(all2, #[trigger] m@[k].0@) == declaring_views(m@[k].1@) by {
            lemma_of_kind_push(all, t, m@[k].0@);
            if m@[k].0@ == e.0@ {
                assert(m@[k] == e);
                if present {
                    assert(before[at as int].0@ == e.0@);
                    assert(of_kind(all, before[at as int].0@) == declaring_views(before[at as int].1@));
                } else {
                    assert(!keys_of(before).contains(e.0@));
                    assert(of_kind(all, e.0@).len() == 0);
                }
            } else {
                let w = choose|w: int| 0 <= w < before.len() && before[w] == m@[k];
                assert(of_kind(all, before[w].0@) == declaring_views(before[w].1@));
            }
        }
    }
}

proof fn lemma_named_keys_add(n: Seq<char>, a: Seq<KeyV>, b: Seq<KeyV>)
    ensures
        named_keys(n, a + b) == named_keys(n, a) + named_keys(n, b),
{
    assert(named_keys(n, a + b) =~= named_keys(n, a) + named_keys(n, b));
}

/// The key one node declares, read.
fn key_in(node: &KNode, src: &Source) -> (r: Option<Key>)
    ensures
        match key_of_node(*node, src.name@) {
            Some(k) => r matches Some(v) && key_view(v) == k,
            None => r is None,
        },
{
    reveal(key_of_node);
    if !same(node.name.as_str(), "key") {
        return None;
    }
    let mut scratch = Issues::new();
    parse_key(node, src, &mut scratch)
}

/// Files every key a manifest declares, as module `n`'s.
#[verifier::spinoff_prover]
#[verifier::rlimit(30)]
fn read_module_keys(nodes: &Vec<KNode>, n: &str, m: &mut Vec<(String, Vec<(String, Key)>)>, Ghost(start): Ghost<Seq<(Seq<char>, KeyV)>>)
    requires
        keys_hold(old(m)@, start),
    ensures
        keys_hold(final(m)@, start + named_keys(n@, declared(nodes@, n@))),
{
    let src = Source::new(n, "");
    let ghost mut flat = start;
    proof {
        assert(nodes@.take(0) =~= Seq::<KNode>::empty());
        assert(named_keys(n@, declared(nodes@.take(0), n@)) =~= Seq::<(Seq<char>, KeyV)>::empty());
        assert(flat =~= start + named_keys(n@, declared(nodes@.take(0), n@)));
    }
    let mut q: usize = 0;
    while q < nodes.len()
        invariant
            q <= nodes@.len(),
            src.name@ == n@,
            flat == start + named_keys(n@, declared(nodes@.take(q as int), n@)),
            keys_hold(m@, flat),
        decreases nodes@.len() - q,
    {
        proof {
            assert(nodes@.take(q as int + 1).drop_last() =~= nodes@.take(q as int));
            assert(nodes@.take(q as int + 1).last() == nodes@[q as int]);
        }
        match key_in(&nodes[q], &src) {
            Some(k) => {
                let ghost kv = key_view(k);
                append_key(m, crate::text::owned(n), k, Ghost(flat));
                proof {
                    flat = flat.push((n@, kv));
                    lemma_named_keys_add(n@, declared(nodes@.take(q as int), n@), seq![kv]);
                    assert(named_keys(n@, seq![kv]) =~= seq![(n@, kv)]);
                }
            },
            None => {},
        }
        assert(flat =~= start + named_keys(n@, declared(nodes@.take(q as int + 1), n@)));
        q = q + 1;
    }
    assert(nodes@.take(q as int) =~= nodes@);
}

fn read_keys(found: &Vec<OnDisk>, parsed: &Vec<Vec<KNode>>, names: &Vec<String>) -> (r: Vec<(String, Vec<(String, Key)>)>)
    requires
        parsed@.len() == found@.len(),
        forall|i: int| 0 <= i < found@.len() ==> #[trigger] parsed@[i]@ == nodes_of(found@[i].manifest),
    ensures
        keys_hold(r@, by_names(found@, views(names@))),
{
    let mut m: Vec<(String, Vec<(String, Key)>)> = Vec::new();
    let ghost mut flat: Seq<(Seq<char>, KeyV)> = Seq::empty();
    proof {
        reveal(keys_hold);
        assert(keys_of(m@) =~= Seq::<Seq<char>>::empty());
        assert(views(names@).take(0) =~= Seq::<Seq<char>>::empty());
    }
    let mut t: usize = 0;
    while t < names.len()
        invariant
            t <= names@.len(),
            parsed@.len() == found@.len(),
            forall|i: int| 0 <= i < found@.len() ==> #[trigger] parsed@[i]@ == nodes_of(found@[i].manifest),
            flat == by_names(found@, views(names@).take(t as int)),
            keys_hold(m@, flat),
        decreases names@.len() - t,
    {
        let n = &names[t];
        let ghost base = flat;
        proof {
            assert(found@.take(0) =~= Seq::<OnDisk>::empty());
            assert(flat =~= base + declared_by(found@.take(0), n@));
        }
        let mut i: usize = 0;
        while i < found.len()
            invariant
                t < names@.len(),
                n == &names@[t as int],
                i <= found@.len(),
                parsed@.len() == found@.len(),
                forall|i: int| 0 <= i < found@.len() ==> #[trigger] parsed@[i]@ == nodes_of(found@[i].manifest),
                base == by_names(found@, views(names@).take(t as int)),
                flat == base + declared_by(found@.take(i as int), n@),
                keys_hold(m@, flat),
            decreases found@.len() - i,
        {
            let ghost mid = flat;
            proof {
                assert(found@.take(i as int + 1).drop_last() =~= found@.take(i as int));
                assert(found@.take(i as int + 1).last() == found@[i as int]);
            }
            if same(found[i].name.as_str(), n.as_str()) {
                read_module_keys(&parsed[i], n.as_str(), &mut m, Ghost(flat));
                proof {
                    flat = flat + named_keys(n@, declared(parsed@[i as int]@, n@));
                    assert(flat =~= base + declared_by(found@.take(i as int + 1), n@));
                }

            } else {
                proof {
                    assert(flat =~= base + declared_by(found@.take(i as int + 1), n@));
                }
            }
            i = i + 1;
        }
        proof {
            assert(found@.take(i as int) =~= found@);
            assert(views(names@).take(t as int + 1).drop_last() =~= views(names@).take(t as int));
            assert(views(names@).take(t as int + 1).last() == n@);
            assert(flat =~= by_names(found@, views(names@).take(t as int + 1)));
        }
        t = t + 1;
    }
    assert(views(names@).take(t as int) =~= views(names@));
    m
}

impl Disk {
    /// What the walk found, read: every module's overlay, who collects
    /// each collected file, and every key declared, by kind and then by
    /// module in name order. `found` is in the walk's order, which decides
    /// nothing here but which of two modules of one name (or two collectors
    /// of one file) is the one kept: the later.
    pub fn read(found: &Vec<OnDisk>) -> (r: Disk)
        ensures
            overlays_hold(r.overlays@, found@),
            collectors_hold(r.collectors@, found@),
            exists|names: Seq<Seq<char>>|
                #![trigger by_names(found@, names)]
                ascending(names) && (forall|x: Seq<char>| #[trigger] names.contains(x) <==> found_names(found@).contains(x))
                    && keys_hold(r.keys@, by_names(found@, names)),
            forall|k: int| 0 <= k < r.keys@.len() ==> in_name_order(declaring_views(#[trigger] r.keys@[k].1@)),
    {
        let mut parsed: Vec<Vec<KNode>> = Vec::new();
        let mut all_names: Vec<String> = Vec::new();
        let mut i: usize = 0;
        while i < found.len()
            invariant
                i <= found@.len(),
                parsed@.len() == i,
                forall|j: int| 0 <= j < i ==> #[trigger] parsed@[j]@ == nodes_of(found@[j].manifest),
                views(all_names@) == found_names(found@).take(i as int),
            decreases found@.len() - i,
        {
            parsed.push(nodes_in(&found[i].manifest));
            let ghost before = views(all_names@);
            all_names.push(found[i].name.clone());
            assert(views(all_names@) =~= before.push(found@[i as int].name@));
            assert(found_names(found@).take(i as int + 1) =~= found_names(found@).take(i as int).push(found@[i as int].name@));
            i = i + 1;
        }
        assert(found_names(found@).take(i as int) =~= found_names(found@));
        let overlays = read_overlays(found);
        let collectors = read_collectors(found, &parsed);
        let names = sorted_distinct(&all_names);
        let keys = read_keys(found, &parsed, &names);
        proof {
            let all = by_names(found@, views(names@));
            lemma_by_names_order(found@, views(names@));
            reveal(keys_hold);
            assert forall|k: int| 0 <= k < keys@.len() implies in_name_order(declaring_views(#[trigger] keys@[k].1@)) by {
                lemma_of_kind_order(all, keys@[k].0@);
            }
        }
        Disk { keys, collectors, overlays }
    }

    /// Every module directory on disk, whether or not an image lists it.
    pub fn modules(&self) -> (r: Vec<String>)
        ensures
            views(r@) == keys_of(self.overlays@),
    {
        let mut out: Vec<String> = Vec::new();
        let mut i: usize = 0;
        while i < self.overlays.len()
            invariant
                i <= self.overlays@.len(),
                views(out@) == keys_of(self.overlays@).take(i as int),
            decreases self.overlays@.len() - i,
        {
            let ghost before = views(out@);
            out.push(self.overlays[i].0.clone());
            assert(views(out@) =~= before.push(self.overlays@[i as int].0@));
            assert(keys_of(self.overlays@).take(i as int + 1) =~= keys_of(self.overlays@).take(i as int).push(
                self.overlays@[i as int].0@,
            ));
            i = i + 1;
        }
        assert(keys_of(self.overlays@).take(i as int) =~= keys_of(self.overlays@));
        out
    }
}


/// Every module directory the images of `list` name, image by image.
pub open spec fn listed_dirs(images: Seq<Image>) -> Seq<Seq<char>>
    decreases images.len(),
{
    if images.len() == 0 {
        Seq::empty()
    } else {
        listed_dirs(images.drop_last()) + images.last().entries@.map_values(|e: Entry| entry_dir(e))
    }
}

/// The module directories on disk that no image lists, leaving out the
/// ones fetched for a reference: each is held to what its manifest declares
/// on its own.
pub open spec fn unlisted_spec(dirs: Seq<Seq<char>>, listed: Seq<Seq<char>>) -> Seq<Seq<char>>
    decreases dirs.len(),
{
    if dirs.len() == 0 {
        Seq::empty()
    } else {
        let d = dirs.last();
        unlisted_spec(dirs.drop_last(), listed) + if listed.contains(d) || crate::text::is_prefix(REMOTE_DIR@, d) {
            Seq::empty()
        } else {
            seq![d]
        }
    }
}

fn listed_exec(list: &List) -> (r: Vec<String>)
    ensures
        views(r@) == listed_dirs(list.images@),
{
    let mut out: Vec<String> = Vec::new();
    let mut i: usize = 0;
    while i < list.images.len()
        invariant
            i <= list.images@.len(),
            views(out@) == listed_dirs(list.images@.take(i as int)),
        decreases list.images@.len() - i,
    {
        let image = &list.images[i];
        let ghost head = views(out@);
        let mut k: usize = 0;
        while k < image.entries.len()
            invariant
                k <= image.entries@.len(),
                views(out@) == head + image.entries@.take(k as int).map_values(|e: Entry| entry_dir(e)),
            decreases image.entries@.len() - k,
        {
            let ghost before = views(out@);
            out.push(image.entries[k].dir());
            assert(views(out@) =~= before.push(entry_dir(image.entries@[k as int])));
            assert(image.entries@.take(k as int + 1).map_values(|e: Entry| entry_dir(e)) =~= image.entries@.take(
                k as int,
            ).map_values(|e: Entry| entry_dir(e)).push(entry_dir(image.entries@[k as int])));
            k = k + 1;
        }
        assert(image.entries@.take(k as int) =~= image.entries@);
        assert(list.images@.take(i as int + 1).drop_last() =~= list.images@.take(i as int));
        i = i + 1;
    }
    assert(list.images@.take(i as int) =~= list.images@);
    out
}

/// Every module directory on disk (`dirs`, as `Disk::modules` gives them)
/// that no image lists and that was not fetched for a reference: the ones
/// held to the schema on their own.
pub fn unlisted(list: &List, dirs: &Vec<String>) -> (r: Vec<String>)
    ensures
        views(r@) == unlisted_spec(views(dirs@), listed_dirs(list.images@)),
{
    let named = listed_exec(list);
    let mut out: Vec<String> = Vec::new();
    let mut i: usize = 0;
    while i < dirs.len()
        invariant
            i <= dirs@.len(),
            views(named@) == listed_dirs(list.images@),
            views(out@) == unlisted_spec(views(dirs@).take(i as int), views(named@)),
        decreases dirs@.len() - i,
    {
        assert(views(dirs@).take(i as int + 1).drop_last() =~= views(dirs@).take(i as int));
        assert(views(dirs@).take(i as int + 1).last() == dirs@[i as int]@);
        let ghost before = views(out@);
        if !listed(named.as_slice(), dirs[i].as_str()) && !starts_with(dirs[i].as_str(), REMOTE_DIR) {
            out.push(dirs[i].clone());
            assert(views(out@) =~= before.push(dirs@[i as int]@));
        }
        i = i + 1;
    }
    assert(views(dirs@).take(i as int) =~= views(dirs@));
    out
}



/// The modules among `mods` (each with what it provides) that provide `cap`,
/// in order, each once.
pub open spec fn provided_by(mods: Seq<(Seq<char>, Seq<Seq<char>>)>, cap: Seq<char>) -> Seq<Seq<char>>
    decreases mods.len(),
{
    if mods.len() == 0 {
        Seq::empty()
    } else {
        provided_by(mods.drop_last(), cap) + if mods.last().1.contains(cap) {
            seq![mods.last().0]
        } else {
            Seq::empty()
        }
    }
}

pub open spec fn provide_views(v: Seq<(String, Vec<String>)>) -> Seq<(Seq<char>, Seq<Seq<char>>)> {
    v.map_values(|m: (String, Vec<String>)| (m.0@, views(m.1@)))
}

/// The capability map: every capability in key order, with the modules
/// providing it.
pub open spec fn offered_hold(m: Seq<(String, Vec<String>)>, mods: Seq<(Seq<char>, Seq<Seq<char>>)>) -> bool {
    &&& ascending(keys_of(m))
    &&& forall|x: Seq<char>| #[trigger] keys_of(m).contains(x) <==> provided_by(mods, x).len() > 0
    &&& forall|k: int| 0 <= k < m.len() ==> provided_by(mods, #[trigger] m[k].0@) == views(m[k].1@)
}

/// Who provides `x` once the first `caps` of module `name` are read after
/// the modules before it.
pub open spec fn provided_mid(pre: Seq<(Seq<char>, Seq<Seq<char>>)>, name: Seq<char>, caps: Seq<Seq<char>>, x: Seq<char>) -> Seq<Seq<char>> {
    provided_by(pre, x) + if caps.contains(x) {
        seq![name]
    } else {
        Seq::empty()
    }
}

/// Files `name` under `cap`.
fn add_provider(m: &mut Vec<(String, Vec<String>)>, cap: &str, name: &str)
    requires
        ascending(keys_of(old(m)@)),
    ensures
        ascending(keys_of(final(m)@)),
        forall|x: Seq<char>| #[trigger] keys_of(final(m)@).contains(x) <==> (keys_of(old(m)@).contains(x) || x == cap@),
        forall|k: int| 0 <= k < final(m)@.len() && #[trigger] final(m)@[k].0@ == cap@ ==> views(final(m)@[k].1@) == (if keys_of(
            old(m)@,
        ).contains(cap@) {
            views(old(m)@[slot_of(keys_of(old(m)@), cap@)].1@)
        } else {
            Seq::empty()
        }).push(name@),
        forall|k: int| 0 <= k < final(m)@.len() && #[trigger] final(m)@[k].0@ != cap@ ==> exists|j: int|
            0 <= j < old(m)@.len() && old(m)@[j] == final(m)@[k],
{
    let ghost before = m@;
    let (at, present) = find_slot(m, cap);
    if present {
        let (k, mut v) = m.remove(at);
        let ghost old_v = views(v@);
        v.push(crate::text::owned(name));
        assert(views(v@) =~= old_v.push(name@));
        m.insert(at, (k, v));
        assert(m@ =~= before.update(at as int, m@[at as int]));
    } else {
        let mut v: Vec<String> = Vec::new();
        v.push(crate::text::owned(name));
        assert(views(v@) =~= Seq::<Seq<char>>::empty().push(name@));
        m.insert(at, (crate::text::owned(cap), v));
    }
    proof {
        let e = m@[at as int];
        lemma_put(before, m@, e, at as int);
        if present {
            lemma_slot_of(keys_of(before), cap@, at as int);
        }
    }
}

/// Whether `name` is among the first `j` of `caps`.
fn listed_before(caps: &Vec<String>, j: usize, name: &str) -> (r: bool)
    requires
        j <= caps@.len(),
    ensures
        r == views(caps@).take(j as int).contains(name@),
{
    let mut i: usize = 0;
    while i < j
        invariant
            i <= j <= caps@.len(),
            forall|k: int| 0 <= k < i ==> caps@[k]@ != name@,
        decreases j - i,
    {
        if crate::text::same(caps[i].as_str(), name) {
            assert(views(caps@).take(j as int)[i as int] == name@);
            return true;
        }
        i = i + 1;
    }
    proof {
        if views(caps@).take(j as int).contains(name@) {
            let k = choose|k: int| 0 <= k < j && views(caps@).take(j as int)[k] == name@;
            assert(caps@[k]@ == name@);
        }
    }
    false
}

/// Where `key` is among ascending keys.
pub open spec fn slot_of(keys: Seq<Seq<char>>, key: Seq<char>) -> int {
    choose|i: int| 0 <= i < keys.len() && keys[i] == key
}

proof fn lemma_slot_of(keys: Seq<Seq<char>>, key: Seq<char>, at: int)
    requires
        ascending(keys),
        0 <= at < keys.len(),
        keys[at] == key,
    ensures
        slot_of(keys, key) == at,
{
    let w = slot_of(keys, key);
    assert(0 <= w < keys.len() && keys[w] == key);
    if w < at {
        assert(lex_lt(keys[w], keys[at]));
        lemma_lex_irreflexive(key);
    } else if w > at {
        assert(lex_lt(keys[at], keys[w]));
        lemma_lex_irreflexive(key);
    }
}

/// Every capability the modules on disk provide, with the modules that
/// provide it: `mods` is each module's directory with what its manifest
/// provides, as `summary` reads it.
pub fn offered(mods: &Vec<(String, Vec<String>)>) -> (r: Vec<(String, Vec<String>)>)
    ensures
        offered_hold(r@, provide_views(mods@)),
{
    let ghost all = provide_views(mods@);
    let mut m: Vec<(String, Vec<String>)> = Vec::new();
    assert(keys_of(m@) =~= Seq::<Seq<char>>::empty());
    let mut i: usize = 0;
    while i < mods.len()
        invariant
            i <= mods@.len(),
            all == provide_views(mods@),
            offered_hold(m@, all.take(i as int)),
        decreases mods@.len() - i,
    {
        let ghost pre = all.take(i as int);
        assert(all.take(i as int + 1).drop_last() =~= pre);
        assert(all.take(i as int + 1).last() == all[i as int]);
        let name = &mods[i].0;
        let caps = &mods[i].1;
        let ghost n = name@;
        let mut j: usize = 0;
        proof {
            assert(views(caps@).take(0) =~= Seq::<Seq<char>>::empty());
            assert forall|x: Seq<char>| provided_mid(pre, n, views(caps@).take(0), x) == #[trigger] provided_by(pre, x) by {
                assert(provided_mid(pre, n, views(caps@).take(0), x) =~= provided_by(pre, x));
            }
        }
        while j < caps.len()
            invariant
                i < mods@.len(),
                name == &mods@[i as int].0,
                caps == &mods@[i as int].1,
                n == name@,
                j <= caps@.len(),
                ascending(keys_of(m@)),
                forall|x: Seq<char>| #[trigger] keys_of(m@).contains(x) <==> provided_mid(pre, n, views(caps@).take(j as int), x).len() > 0,
                forall|k: int| 0 <= k < m@.len() ==> provided_mid(pre, n, views(caps@).take(j as int), #[trigger] m@[k].0@) == views(m@[k].1@),
            decreases caps@.len() - j,
        {
            let ghost old_m = m@;
            let ghost cs = views(caps@).take(j as int);
            let ghost cs2 = views(caps@).take(j as int + 1);
            let ghost c = caps@[j as int]@;
            assert(cs2 =~= cs.push(c));
            if !listed_before(caps, j, caps[j].as_str()) {
                assert(views(caps@.subrange(0, j as int)) =~= cs);
                add_provider(&mut m, caps[j].as_str(), name.as_str());
                proof {
                    assert forall|x: Seq<char>| #[trigger] keys_of(m@).contains(x) <==> provided_mid(pre, n, cs2, x).len() > 0 by {
                        lemma_push_contains(cs, c, x);
                        assert(keys_of(old_m).contains(x) <==> provided_mid(pre, n, cs, x).len() > 0);
                    }
                    assert forall|k: int| 0 <= k < m@.len() implies provided_mid(pre, n, cs2, #[trigger] m@[k].0@) == views(m@[k].1@) by {
                        let y = m@[k].0@;
                        lemma_push_contains(cs, c, y);
                        if y == c {
                            if keys_of(old_m).contains(c) {
                                let w = slot_of(keys_of(old_m), c);
                                assert(keys_of(old_m)[w] == c);
                                assert(provided_mid(pre, n, cs, old_m[w].0@) == views(old_m[w].1@));
                            } else {
                                assert(provided_mid(pre, n, cs, c).len() == 0);
                                assert(provided_by(pre, c) =~= Seq::<Seq<char>>::empty());
                            }
                        } else {
                            let w = choose|w: int| 0 <= w < old_m.len() && old_m[w] == m@[k];
                            assert(provided_mid(pre, n, cs, old_m[w].0@) == views(old_m[w].1@));
                        }
                    }
                }
            } else {
                proof {
                    assert(views(caps@.subrange(0, j as int)) =~= cs);
                    assert forall|x: Seq<char>| provided_mid(pre, n, cs2, x) == #[trigger] provided_mid(pre, n, cs, x) by {
                        lemma_push_contains(cs, c, x);
                    }
                }
            }
            j = j + 1;
        }
        proof {
            assert(views(caps@).take(j as int) =~= views(caps@));
            assert(all[i as int] == (n, views(caps@)));
            assert forall|x: Seq<char>| provided_mid(pre, n, views(caps@), x) == #[trigger] provided_by(all.take(i as int + 1), x) by {}
        }
        i = i + 1;
    }
    assert(all.take(i as int) =~= all);
    m
}

/// One entry of a directory under `modules/`, as a listing gives it: its
/// name, whether it is a directory, and whether it holds a module.kdl.
pub struct DirEntry {
    pub name: String,
    pub is_dir: bool,
    pub has_manifest: bool,
}

/// Where an entry named `name` inside `at` is, relative to `modules/`.
pub open spec fn under(at: Seq<char>, name: Seq<char>) -> Seq<char> {
    if at.len() == 0 { name } else { at + "/"@ + name }
}

/// Whether the walk looks at the entry at all: a directory, and not the
/// template a new module is copied from.
pub open spec fn walked(e: DirEntry) -> bool {
    e.is_dir && e.name@ != "_template"@
}

/// The modules among `entries`: every directory walked that holds a manifest.
pub open spec fn modules_among(at: Seq<char>, entries: Seq<DirEntry>) -> Seq<Seq<char>>
    decreases entries.len(),
{
    if entries.len() == 0 {
        Seq::empty()
    } else {
        let e = entries.last();
        modules_among(at, entries.drop_last()) + if walked(e) && e.has_manifest {
            seq![under(at, e.name@)]
        } else {
            Seq::empty()
        }
    }
}

/// The directories walked into: every directory walked without a manifest,
/// which groups modules. A module's own directories are not walked.
pub open spec fn groups_among(at: Seq<char>, entries: Seq<DirEntry>) -> Seq<Seq<char>>
    decreases entries.len(),
{
    if entries.len() == 0 {
        Seq::empty()
    } else {
        let e = entries.last();
        groups_among(at, entries.drop_last()) + if walked(e) && !e.has_manifest {
            seq![under(at, e.name@)]
        } else {
            Seq::empty()
        }
    }
}

/// One directory of the walk that finds the modules: `at` is where it is,
/// relative to `modules/` (empty for `modules/` itself), and `entries` what
/// it lists. Hands back the modules found in it and the directories to walk
/// next.
pub fn walk_step(at: &str, entries: &Vec<DirEntry>) -> (r: (Vec<String>, Vec<String>))
    ensures
        views(r.0@) == modules_among(at@, entries@),
        views(r.1@) == groups_among(at@, entries@),
{
    let mut found: Vec<String> = Vec::new();
    let mut more: Vec<String> = Vec::new();
    let mut i: usize = 0;
    while i < entries.len()
        invariant
            i <= entries@.len(),
            views(found@) == modules_among(at@, entries@.take(i as int)),
            views(more@) == groups_among(at@, entries@.take(i as int)),
        decreases entries@.len() - i,
    {
        assert(entries@.take(i as int + 1).drop_last() =~= entries@.take(i as int));
        assert(entries@.take(i as int + 1).last() == entries@[i as int]);
        let e = &entries[i];
        if e.is_dir && !same(e.name.as_str(), "_template") {
            let path = if at.unicode_len() == 0 {
                crate::text::owned(e.name.as_str())
            } else {
                crate::text::cat3(at, "/", e.name.as_str())
            };
            if e.has_manifest {
                let ghost before = views(found@);
                found.push(path);
                assert(views(found@) =~= before.push(under(at@, e.name@)));
            } else {
                let ghost before = views(more@);
                more.push(path);
                assert(views(more@) =~= before.push(under(at@, e.name@)));
            }
        }
        i = i + 1;
    }
    assert(entries@.take(i as int) =~= entries@);
    (found, more)
}

} // verus!
