//! The install recipe with the person's half in it. Reading the recipe the
//! image wrote and hashing the password are the program's; what the answers
//! put where is here.

use crate::copy;
use crate::install::{mapper_name, mapper_path, Answers, CustomLayout, CustomMount, Data, Encryption, Found, LuksOpen, Payload, NONE, RECIPE};
use crate::json::{fields_v, items_v, jv, lemma_fields_v, lemma_items_v, Json, JsonV};
use crate::text::{cat, owned, same};
use vstd::prelude::*;

verus! {

/// Where `key` first stands among the fields, if anywhere.
pub open spec fn first_key(fields: Seq<(Seq<char>, JsonV)>, key: Seq<char>) -> Option<int>
    decreases fields.len(),
{
    if fields.len() == 0 {
        None
    } else {
        match first_key(fields.drop_last(), key) {
            Some(i) => Some(i),
            None => if fields.last().0 == key {
                Some(fields.len() - 1)
            } else {
                None
            },
        }
    }
}

/// The fields with `v` under `key`: in place of the first one there is, or
/// appended.
pub open spec fn set_v(fields: Seq<(Seq<char>, JsonV)>, key: Seq<char>, v: JsonV) -> Seq<(Seq<char>, JsonV)> {
    match first_key(fields, key) {
        Some(i) => fields.update(i, (key, v)),
        None => fields.push((key, v)),
    }
}

/// A value with `v` under `key` where it is an object; anything else is left
/// alone, so a recipe whose `user` is a string fails in the installer's own
/// reader.
pub open spec fn set_in(j: JsonV, key: Seq<char>, v: JsonV) -> JsonV {
    match j {
        JsonV::Obj(f) => JsonV::Obj(set_v(f, key, v)),
        _ => j,
    }
}

/// The fields without any under `key`.
pub open spec fn without(fields: Seq<(Seq<char>, JsonV)>, key: Seq<char>) -> Seq<(Seq<char>, JsonV)>
    decreases fields.len(),
{
    if fields.len() == 0 {
        fields
    } else if fields.last().0 == key {
        without(fields.drop_last(), key)
    } else {
        without(fields.drop_last(), key).push(fields.last())
    }
}

pub open spec fn encryption_v(e: Encryption) -> JsonV {
    JsonV::Obj(seq![("type"@, JsonV::Str(e.kind@)), ("passphrase"@, JsonV::Str(e.passphrase@))])
}

pub open spec fn mount_v(m: CustomMount) -> JsonV {
    JsonV::Obj(
        seq![("partition"@, JsonV::Str(m.partition@)), ("target"@, JsonV::Str(m.target@)), ("fstype"@, JsonV::Str(m.fstype@))],
    )
}

/// An opened container, as the mapper it is by the time the installer sees
/// it. The container and its key stay here.
pub open spec fn mapper_v(o: LuksOpen, at: int) -> JsonV {
    JsonV::Obj(
        seq![
            ("partition"@, JsonV::Str("/dev/mapper/"@ + mapper_name(at))),
            ("target"@, JsonV::Str(o.target@)),
            ("fstype"@, JsonV::Str("unformatted"@)),
        ],
    )
}

pub open spec fn custom_mounts(l: CustomLayout) -> Seq<JsonV> {
    Seq::new(l.mounts@.len(), |i: int| mount_v(l.mounts@[i])) + Seq::new(
        l.opens@.len(),
        |i: int| mapper_v(l.opens@[i], i),
    )
}

/// The `/var` the answers ask for, where they ask for one: a disk of its own,
/// or a size cut out of the install disk, wrapped in the root's passphrase
/// where the root is encrypted.
pub open spec fn var_v(d: Data, encrypted: bool) -> Option<JsonV> {
    let base = if d.disk@.len() > 0 {
        Some(seq![("disk"@, JsonV::Str(d.disk@)), ("keepExisting"@, JsonV::Bool(d.keep))])
    } else if d.size@.len() > 0 {
        Some(seq![("size"@, JsonV::Str(d.size@))])
    } else {
        None
    };
    match base {
        Some(f) => Some(JsonV::Obj(if encrypted { f.push(("encrypt"@, JsonV::Bool(true))) } else { f })),
        None => None,
    }
}

/// The recipe's fields once the answers are in: the disk, the hostname, the
/// encryption, the user merged into what the recipe already says of it, and
/// the custom mounts or the `/var` asked for.
pub open spec fn completed(doc: Seq<(Seq<char>, JsonV)>, a: Answers, hash: Seq<char>) -> Seq<(Seq<char>, JsonV)> {
    let d1 = set_v(
        set_v(set_v(doc, "disk"@, JsonV::Str(a.disk@)), "hostname"@, JsonV::Str(a.hostname@)),
        "encryption"@,
        encryption_v(a.encryption),
    );
    let user0 = match first_key(d1, "user"@) {
        Some(i) => d1[i].1,
        None => JsonV::Obj(Seq::empty()),
    };
    let d2 = match first_key(d1, "user"@) {
        Some(i) => d1.remove(i),
        None => d1,
    };
    let user = set_in(set_in(user0, "username"@, JsonV::Str(a.user@)), "password"@, JsonV::Str(hash));
    let d3 = set_v(d2, "user"@, user);
    match a.layout {
        Some(l) => set_v(without(d3, "varDisk"@), "customMounts"@, JsonV::Arr(custom_mounts(l))),
        None => match var_v(a.data, a.encryption.kind@ != NONE@) {
            Some(v) => set_v(d3, "varDisk"@, v),
            None => d3,
        },
    }
}

/// What the fields hold under `key`: the first such field's value.
pub open spec fn lookup(fields: Seq<(Seq<char>, JsonV)>, key: Seq<char>) -> Option<JsonV> {
    match first_key(fields, key) {
        Some(i) => Some(fields[i].1),
        None => None,
    }
}

proof fn lemma_first_key_is_first(fields: Seq<(Seq<char>, JsonV)>, key: Seq<char>)
    ensures
        match first_key(fields, key) {
            Some(i) => 0 <= i < fields.len() && fields[i].0 == key && forall|j: int| 0 <= j < i ==> fields[j].0 != key,
            None => forall|j: int| 0 <= j < fields.len() ==> fields[j].0 != key,
        },
    decreases fields.len(),
{
    if fields.len() > 0 {
        lemma_first_key_is_first(fields.drop_last(), key);
        assert forall|j: int| 0 <= j < fields.len() - 1 implies fields.drop_last()[j] == fields[j] by {}
    }
}

proof fn lemma_lookup_set_other(fields: Seq<(Seq<char>, JsonV)>, key: Seq<char>, v: JsonV, k: Seq<char>)
    requires
        k != key,
    ensures
        lookup(set_v(fields, key, v), k) == lookup(fields, k),
{
    lemma_first_key_is_first(fields, key);
    lemma_first_key_is_first(fields, k);
    let out = set_v(fields, key, v);
    match first_key(fields, k) {
        Some(i) => {
            assert forall|j: int| 0 <= j < i implies out[j].0 != k by {}
            lemma_first_key(out, k, i);
        },
        None => {
            assert forall|j: int| 0 <= j < out.len() implies out[j].0 != k by {}
            lemma_first_key(out, k, out.len() as int);
        },
    }
}

proof fn lemma_lookup_remove_other(fields: Seq<(Seq<char>, JsonV)>, at: int, k: Seq<char>)
    requires
        0 <= at < fields.len(),
        fields[at].0 != k,
    ensures
        lookup(fields.remove(at), k) == lookup(fields, k),
{
    lemma_first_key_is_first(fields, k);
    let out = fields.remove(at);
    match first_key(fields, k) {
        Some(i) => {
            if i < at {
                assert forall|j: int| 0 <= j < i implies out[j].0 != k by {}
                lemma_first_key(out, k, i);
            } else {
                assert forall|j: int| 0 <= j < i - 1 implies out[j].0 != k by {
                    if j >= at {
                        assert(out[j] == fields[j + 1]);
                    }
                }
                assert(out[i - 1] == fields[i]);
                lemma_first_key(out, k, i - 1);
            }
        },
        None => {
            assert forall|j: int| 0 <= j < out.len() implies out[j].0 != k by {
                if j >= at {
                    assert(out[j] == fields[j + 1]);
                }
            }
            lemma_first_key(out, k, out.len() as int);
        },
    }
}

/// An answer of no `/var` writes nothing, so a `varDisk` the image's recipe
/// declared is left exactly as it was written.
pub proof fn lemma_no_var_answer_keeps_the_recipes(doc: Seq<(Seq<char>, JsonV)>, a: Answers, hash: Seq<char>)
    requires
        a.layout is None,
        var_v(a.data, a.encryption.kind@ != NONE@) is None,
    ensures
        lookup(completed(doc, a, hash), "varDisk"@) == lookup(doc, "varDisk"@),
{
    let k = "varDisk"@;
    reveal_strlit("varDisk");
    reveal_strlit("disk");
    reveal_strlit("hostname");
    reveal_strlit("encryption");
    reveal_strlit("user");
    assert(k[0] == 'v');
    assert(k != "disk"@) by { assert("disk"@[0] == 'd'); }
    assert(k != "hostname"@) by { assert("hostname"@[0] == 'h'); }
    assert(k != "encryption"@) by { assert("encryption"@[0] == 'e'); }
    assert(k != "user"@) by { assert("user"@[0] == 'u'); }
    let d0 = set_v(doc, "disk"@, JsonV::Str(a.disk@));
    lemma_lookup_set_other(doc, "disk"@, JsonV::Str(a.disk@), k);
    let d01 = set_v(d0, "hostname"@, JsonV::Str(a.hostname@));
    lemma_lookup_set_other(d0, "hostname"@, JsonV::Str(a.hostname@), k);
    let d1 = set_v(d01, "encryption"@, encryption_v(a.encryption));
    lemma_lookup_set_other(d01, "encryption"@, encryption_v(a.encryption), k);
    lemma_first_key_is_first(d1, "user"@);
    let d2 = match first_key(d1, "user"@) {
        Some(i) => d1.remove(i),
        None => d1,
    };
    match first_key(d1, "user"@) {
        Some(i) => lemma_lookup_remove_other(d1, i, k),
        None => {},
    }
    let user0 = match first_key(d1, "user"@) {
        Some(i) => d1[i].1,
        None => JsonV::Obj(Seq::empty()),
    };
    let user = set_in(set_in(user0, "username"@, JsonV::Str(a.user@)), "password"@, JsonV::Str(hash));
    lemma_lookup_set_other(d2, "user"@, user, k);
}

proof fn lemma_first_key(fields: Seq<(Seq<char>, JsonV)>, key: Seq<char>, i: int)
    requires
        0 <= i <= fields.len(),
        i < fields.len() ==> fields[i].0 == key,
        forall|j: int| 0 <= j < i ==> fields[j].0 != key,
    ensures
        first_key(fields, key) == (if i < fields.len() { Some(i) } else { None::<int> }),
    decreases fields.len(),
{
    if fields.len() > 0 {
        if i < fields.len() - 1 {
            lemma_first_key(fields.drop_last(), key, i);
        } else {
            lemma_first_key(fields.drop_last(), key, fields.len() - 1);
        }
    }
}

/// Where `key` first stands, or the length where it is nowhere.
fn position_of(fields: &Vec<(String, Json)>, key: &str) -> (r: usize)
    ensures
        r <= fields@.len(),
        first_key(fields_v(fields@), key@) == (if r < fields@.len() { Some(r as int) } else { None::<int> }),
{
    proof {
        lemma_fields_v(fields@);
    }
    let mut i: usize = 0;
    while i < fields.len()
        invariant
            i <= fields@.len(),
            fields_v(fields@).len() == fields@.len(),
            forall|k: int| 0 <= k < fields@.len() ==> #[trigger] fields_v(fields@)[k] == (fields@[k].0@, jv(fields@[k].1)),
            forall|j: int| 0 <= j < i ==> fields_v(fields@)[j].0 != key@,
        decreases fields@.len() - i,
    {
        if same(fields[i].0.as_str(), key) {
            proof {
                lemma_first_key(fields_v(fields@), key@, i as int);
            }
            return i;
        }
        i = i + 1;
    }
    proof {
        lemma_first_key(fields_v(fields@), key@, i as int);
    }
    i
}

/// `v` under `key`, in place of the first one there is, or appended.
fn set(fields: &mut Vec<(String, Json)>, key: &str, v: Json)
    ensures
        fields_v(final(fields)@) == set_v(fields_v(old(fields)@), key@, jv(v)),
{
    let ghost before = fields@;
    let ghost jvv = jv(v);
    let at = position_of(fields, key);
    proof {
        lemma_fields_v(before);
    }
    if at < fields.len() {
        fields.set(at, (owned(key), v));
        proof {
            lemma_fields_v(fields@);
            assert(fields_v(fields@) =~= fields_v(before).update(at as int, (key@, jvv)));
        }
    } else {
        fields.push((owned(key), v));
        proof {
            assert(fields@.drop_last() =~= before);
        }
    }
}

/// A value with `v` under `key` where it is an object.
fn set_json(j: Json, key: &str, v: Json) -> (r: Json)
    ensures
        jv(r) == set_in(jv(j), key@, jv(v)),
{
    match j {
        Json::Object(mut f) => {
            set(&mut f, key, v);
            Json::Object(f)
        },
        other => other,
    }
}

/// The fields without any under `key`.
fn unset(fields: Vec<(String, Json)>, key: &str) -> (r: Vec<(String, Json)>)
    ensures
        fields_v(r@) == without(fields_v(fields@), key@),
{
    let ghost all = fields@;
    proof {
        lemma_fields_v(all);
    }
    let mut rest = fields;
    let mut rev: Vec<(String, Json)> = Vec::new();
    while rest.len() > 0
        invariant
            rest@ == all.take(rest@.len() as int),
            rev@.len() + rest@.len() == all.len(),
            forall|j: int| 0 <= j < rev@.len() ==> #[trigger] rev@[j] == all[all.len() - 1 - j],
        decreases rest@.len(),
    {
        let f = rest.pop().unwrap();
        rev.push(f);
        assert(rest@ =~= all.take(rest@.len() as int));
    }
    let mut out: Vec<(String, Json)> = Vec::new();
    let mut k: usize = 0;
    let n = rev.len();
    assert(all.take(0) =~= Seq::<(String, Json)>::empty());
    while rev.len() > 0
        invariant
            n == all.len(),
            rev@.len() + k == n,
            forall|j: int| 0 <= j < rev@.len() ==> #[trigger] rev@[j] == all[all.len() - 1 - j],
            fields_v(all).len() == all.len(),
            forall|i: int| 0 <= i < all.len() ==> #[trigger] fields_v(all)[i] == (all[i].0@, jv(all[i].1)),
            fields_v(out@) == without(fields_v(all.take(k as int)), key@),
        decreases rev@.len(),
    {
        let f = rev.pop().unwrap();
        let ghost prior = out@;
        assert(f == all[k as int]);
        proof {
            lemma_fields_v(all.take(k as int + 1));
            lemma_fields_v(all.take(k as int));
            assert(fields_v(all.take(k as int + 1)).drop_last() =~= fields_v(all.take(k as int)));
        }
        if !same(f.0.as_str(), key) {
            out.push(f);
            assert(out@.drop_last() =~= prior);
        }
        k = k + 1;
    }
    assert(all.take(n as int) =~= all);
    out
}

fn object3(a: &str, x: String, b: &str, y: String, c: &str, z: String) -> (r: Json)
    ensures
        jv(r) == JsonV::Obj(seq![(a@, JsonV::Str(x@)), (b@, JsonV::Str(y@)), (c@, JsonV::Str(z@))]),
{
    let mut f: Vec<(String, Json)> = Vec::new();
    f.push((owned(a), Json::String(x)));
    f.push((owned(b), Json::String(y)));
    f.push((owned(c), Json::String(z)));
    proof {
        lemma_fields_v(f@);
        assert(fields_v(f@) =~= seq![(a@, JsonV::Str(x@)), (b@, JsonV::Str(y@)), (c@, JsonV::Str(z@))]);
    }
    Json::Object(f)
}

/// What a custom layout mounts, then the mapper each container it opens
/// becomes.
fn mounts_of(l: &CustomLayout) -> (r: Json)
    ensures
        jv(r) == JsonV::Arr(custom_mounts(*l)),
{
    let mut items: Vec<Json> = Vec::new();
    let mut i: usize = 0;
    while i < l.mounts.len()
        invariant
            i <= l.mounts@.len(),
            items@.len() == i,
            forall|k: int| 0 <= k < i ==> #[trigger] jv(items@[k]) == mount_v(l.mounts@[k]),
        decreases l.mounts@.len() - i,
    {
        let m = &l.mounts[i];
        items.push(object3("partition", m.partition.clone(), "target", m.target.clone(), "fstype", m.fstype.clone()));
        i = i + 1;
    }
    let mappers = l.mappers();
    let mut k: usize = 0;
    while k < mappers.len()
        invariant
            k <= mappers@.len(),
            mappers@.len() == l.opens@.len(),
            forall|j: int| 0 <= j < mappers@.len() ==> (#[trigger] mappers@[j]).0@ == mapper_name(j) && *mappers@[j].1 == l.opens@[j],
            items@.len() == l.mounts@.len() + k,
            forall|j: int| 0 <= j < l.mounts@.len() ==> #[trigger] jv(items@[j]) == mount_v(l.mounts@[j]),
            forall|j: int| 0 <= j < k ==> #[trigger] jv(items@[l.mounts@.len() + j]) == mapper_v(l.opens@[j], j),
        decreases mappers@.len() - k,
    {
        let path = mapper_path(mappers[k].0.as_str());
        let target = mappers[k].1.target.clone();
        items.push(object3("partition", path, "target", target, "fstype", owned("unformatted")));
        assert(jv(items@[l.mounts@.len() + k]) == mapper_v(l.opens@[k as int], k as int));
        k = k + 1;
    }
    proof {
        lemma_items_v(items@);
        let m = l.mounts@.len();
        assert forall|j: int| 0 <= j < items@.len() implies #[trigger] items_v(items@)[j] == custom_mounts(*l)[j] by {
            if j < m {
                assert(jv(items@[j]) == mount_v(l.mounts@[j]));
            } else {
                assert(jv(items@[m + (j - m)]) == mapper_v(l.opens@[j - m], j - m));
                assert(m + (j - m) == j);
            }
        }
        assert(items_v(items@) =~= custom_mounts(*l));
    }
    Json::Array(items)
}

/// The `/var` object, where the answers ask for one.
fn var_of(d: &Data, encrypted: bool) -> (r: Option<Json>)
    ensures
        match var_v(*d, encrypted) {
            Some(v) => r matches Some(j) && jv(j) == v,
            None => r is None,
        },
{
    let mut f: Vec<(String, Json)> = Vec::new();
    if d.disk.unicode_len() > 0 {
        f.push((owned("disk"), Json::String(d.disk.clone())));
        f.push((owned("keepExisting"), Json::Bool(d.keep)));
    } else if d.size.unicode_len() > 0 {
        f.push((owned("size"), Json::String(d.size.clone())));
    } else {
        return None;
    }
    if encrypted {
        f.push((owned("encrypt"), Json::Bool(true)));
    }
    proof {
        lemma_fields_v(f@);
        let base = if d.disk@.len() > 0 {
            seq![("disk"@, JsonV::Str(d.disk@)), ("keepExisting"@, JsonV::Bool(d.keep))]
        } else {
            seq![("size"@, JsonV::Str(d.size@))]
        };
        assert(fields_v(f@) =~= (if encrypted { base.push(("encrypt"@, JsonV::Bool(true))) } else { base }));
    }
    Some(Json::Object(f))
}

/// The recipe the image wrote with the person's half in it. `doc` is the
/// recipe at `recipe` as read, or why it could not be; `hashed` is the
/// password as a crypt string, or why it could not be made. A custom layout
/// takes no new encryption, which is refused before anything else.
pub fn complete(recipe: &str, doc: Result<Json, String>, answers: &Answers, hashed: Result<String, String>) -> (r: Result<Json, String>)
    ensures
        answers.layout is Some && answers.encryption.kind@ != NONE@ ==> (r matches Err(e) && e@ == copy::CUSTOM_ENCRYPTION@),
        !(answers.layout is Some && answers.encryption.kind@ != NONE@) ==> match doc {
            Err(e) => r matches Err(f) && f@ == e@,
            Ok(Json::Object(fields)) => match hashed {
                Err(e) => r matches Err(f) && f@ == e@,
                Ok(h) => r matches Ok(Json::Object(out)) && fields_v(out@) == completed(fields_v(fields@), *answers, h@),
            },
            Ok(_) => r matches Err(f) && f@ == recipe@ + ": not an object"@,
        },
{
    let encrypted = !same(answers.encryption.kind.as_str(), NONE);
    if answers.layout.is_some() && encrypted {
        return Err(owned(copy::CUSTOM_ENCRYPTION));
    }
    let mut fields = match doc {
        Err(e) => return Err(e),
        Ok(Json::Object(fields)) => fields,
        Ok(_) => return Err(cat(recipe, ": not an object")),
    };
    let hash = match hashed {
        Err(e) => return Err(e),
        Ok(h) => h,
    };
    let ghost doc0 = fields_v(fields@);
    set(&mut fields, "disk", Json::String(answers.disk.clone()));
    set(&mut fields, "hostname", Json::String(answers.hostname.clone()));
    let mut enc: Vec<(String, Json)> = Vec::new();
    enc.push((owned("type"), Json::String(answers.encryption.kind.clone())));
    enc.push((owned("passphrase"), Json::String(answers.encryption.passphrase.clone())));
    proof {
        lemma_fields_v(enc@);
        assert(fields_v(enc@) =~= seq![
            ("type"@, JsonV::Str(answers.encryption.kind@)),
            ("passphrase"@, JsonV::Str(answers.encryption.passphrase@)),
        ]);
    }
    set(&mut fields, "encryption", Json::Object(enc));
    let ghost d1 = fields_v(fields@);
    let at = position_of(&fields, "user");
    let ghost held = fields@;
    let user = if at < fields.len() {
        let (_, u) = fields.remove(at);
        proof {
            lemma_fields_v(fields@);
            lemma_fields_v(held);
            assert(fields_v(fields@) =~= fields_v(held).remove(at as int));
        }
        u
    } else {
        Json::Object(Vec::new())
    };
    let user = set_json(user, "username", Json::String(answers.user.clone()));
    let user = set_json(user, "password", Json::String(hash));
    set(&mut fields, "user", user);
    match &answers.layout {
        Some(l) => {
            let kept = unset(fields, "varDisk");
            let mut kept = kept;
            set(&mut kept, "customMounts", mounts_of(l));
            Ok(Json::Object(kept))
        },
        None => {
            match var_of(&answers.data, encrypted) {
                Some(v) => set(&mut fields, "varDisk", v),
                None => {},
            }
            Ok(Json::Object(fields))
        },
    }
}

/// The string a document's top level holds under `key`, if it holds one
/// there.
pub open spec fn text_of(doc: JsonV, key: Seq<char>) -> Option<Seq<char>> {
    match doc {
        JsonV::Obj(f) => match lookup(f, key) {
            Some(JsonV::Str(s)) => Some(s),
            _ => None,
        },
        _ => None,
    }
}

/// Whether a document's top level holds `true` under `key`.
pub open spec fn flag_of(doc: JsonV, key: Seq<char>) -> bool {
    match doc {
        JsonV::Obj(f) => lookup(f, key) == Some(JsonV::Bool(true)),
        _ => false,
    }
}

/// What a recipe without a required field is refused with.
pub open spec fn no_field(recipe: Seq<char>, key: Seq<char>) -> Seq<char> {
    recipe + ": no `"@ + key + "`"@
}

pub open spec fn required(doc: JsonV, key: Seq<char>) -> bool {
    text_of(doc, key) matches Some(s) && s.len() > 0
}

pub open spec fn told(doc: JsonV, key: Seq<char>) -> Seq<char> {
    match text_of(doc, key) {
        Some(s) => s,
        None => Seq::empty(),
    }
}

fn text_at(doc: &Json, key: &str) -> (r: Option<String>)
    ensures
        match text_of(jv(*doc), key@) {
            Some(s) => r matches Some(t) && t@ == s,
            None => r is None,
        },
{
    match doc {
        Json::Object(fields) => {
            let at = position_of(fields, key);
            proof {
                lemma_fields_v(fields@);
            }
            if at < fields.len() {
                match &fields[at].1 {
                    Json::String(s) => Some(s.clone()),
                    _ => None,
                }
            } else {
                None
            }
        },
        _ => None,
    }
}

fn flag_at(doc: &Json, key: &str) -> (r: bool)
    ensures
        r == flag_of(jv(*doc), key@),
{
    match doc {
        Json::Object(fields) => {
            let at = position_of(fields, key);
            proof {
                lemma_fields_v(fields@);
            }
            if at < fields.len() {
                match &fields[at].1 {
                    Json::Bool(b) => *b,
                    _ => false,
                }
            } else {
                false
            }
        },
        _ => false,
    }
}

fn told_at(doc: &Json, key: &str) -> (t: String)
    ensures
        t@ == told(jv(*doc), key@),
{
    match text_at(doc, key) {
        Some(t) => t,
        None => String::new(),
    }
}

fn field_or_refusal(doc: &Json, key: &str, recipe: &str) -> (r: Result<String, String>)
    ensures
        required(jv(*doc), key@) ==> (r matches Ok(t) && Some(t@) == text_of(jv(*doc), key@)),
        !required(jv(*doc), key@) ==> (r matches Err(e) && e@ == no_field(recipe@, key@)),
{
    match text_at(doc, key) {
        Some(t) => {
            if t.unicode_len() > 0 {
                Ok(t)
            } else {
                Err(crate::text::cat4(recipe, ": no `", key, "`"))
            }
        },
        None => Err(crate::text::cat4(recipe, ": no `", key, "`")),
    }
}

/// What a root is: built bytes and their recipe, a repository, or neither.
/// `recipe` is the recipe at the root as read and parsed, where there is a
/// file there, or why it could not be; `repo` whether the root holds a
/// repo.kdl. A malformed recipe is refused naming the file, rather than
/// falling through to the next case: a stick that carries a payload it
/// cannot install is not a stick that carries nothing. The filesystem, the
/// bootloader and the trust chain are read and not required.
pub fn classify(root: &str, recipe: Option<Result<Json, String>>, repo: bool) -> (r: Result<Found, String>)
    ensures
        ({
            let at = crate::layout::join_path(root@, RECIPE@);
            match recipe {
                Some(Err(e)) => r matches Err(f) && f@ == e@,
                Some(Ok(doc)) => {
                    let d = jv(doc);
                    if !required(d, "image"@) {
                        r matches Err(f) && f@ == no_field(at, "image"@)
                    } else if !required(d, "hostname"@) {
                        r matches Err(f) && f@ == no_field(at, "hostname"@)
                    } else {
                        r matches Ok(Found::Image(p)) && p.recipe@ == at && Some(p.image@) == text_of(d, "image"@)
                            && Some(p.hostname@) == text_of(d, "hostname"@) && p.filesystem@ == told(d, "filesystem"@)
                            && p.bootloader@ == told(d, "bootloader"@) && p.boot@ == told(d, "boot"@)
                            && p.luks_initramfs == flag_of(d, "luksInitramfs"@)
                    }
                },
                None => if repo {
                    r matches Ok(Found::Repo(x)) && x@ == root@
                } else {
                    r matches Ok(Found::Nothing(x)) && x@ == root@
                },
            }
        }),
{
    let at = crate::layout::join_path_exec(root, RECIPE);
    match recipe {
        Some(Err(e)) => Err(e),
        Some(Ok(doc)) => {
            let image = match field_or_refusal(&doc, "image", at.as_str()) {
                Ok(t) => t,
                Err(e) => return Err(e),
            };
            let hostname = match field_or_refusal(&doc, "hostname", at.as_str()) {
                Ok(t) => t,
                Err(e) => return Err(e),
            };
            let filesystem = told_at(&doc, "filesystem");
            let bootloader = told_at(&doc, "bootloader");
            let boot = told_at(&doc, "boot");
            let luks_initramfs = flag_at(&doc, "luksInitramfs");
            Ok(Found::Image(Payload { recipe: at, image, hostname, filesystem, bootloader, boot, luks_initramfs }))
        },
        None => {
            if repo {
                Ok(Found::Repo(owned(root)))
            } else {
                Ok(Found::Nothing(owned(root)))
            }
        },
    }
}

/// The string a value's top level holds under `key`, or nothing.
pub open spec fn str_at(j: Json, key: Seq<char>) -> Seq<char> {
    match text_of(jv(j), key) {
        Some(s) => s,
        None => Seq::empty(),
    }
}

/// Whether an lsblk node carries a filesystem that can be mounted: a
/// partition, an opened container or a logical volume, with a filesystem
/// that is not itself a container.
pub open spec fn mountable(j: Json) -> bool {
    let kind = str_at(j, "type"@);
    let fstype = str_at(j, "fstype"@);
    (kind == "part"@ || kind == "crypt"@ || kind == "lvm"@) && fstype.len() > 0 && fstype != "crypto_LUKS"@
}

/// Every mountable node at and under `j`, each before its children, as its
/// name and filesystem.
pub open spec fn node_rows(j: Json) -> Seq<(Seq<char>, Seq<char>)>
    decreases j,
{
    let own = if mountable(j) { seq![(str_at(j, "name"@), str_at(j, "fstype"@))] } else { Seq::empty() };
    match j {
        Json::Object(f) => own + list_rows(f@, "children"@),
        _ => own,
    }
}

/// The rows under the array the first of `fields` named `key` holds.
pub open spec fn list_rows(fields: Seq<(String, Json)>, key: Seq<char>) -> Seq<(Seq<char>, Seq<char>)>
    decreases fields,
{
    if fields.len() == 0 {
        Seq::empty()
    } else if first_key(fields_v(fields.drop_last()), key) is Some {
        list_rows(fields.drop_last(), key)
    } else if fields.last().0@ == key {
        match fields.last().1 {
            Json::Array(items) => items_rows(items@),
            _ => Seq::empty(),
        }
    } else {
        Seq::empty()
    }
}

pub open spec fn items_rows(items: Seq<Json>) -> Seq<(Seq<char>, Seq<char>)>
    decreases items,
{
    if items.len() == 0 {
        Seq::empty()
    } else {
        items_rows(items.drop_last()) + node_rows(items.last())
    }
}

pub open spec fn rows_view(v: Seq<(String, String)>) -> Seq<(Seq<char>, Seq<char>)> {
    v.map_values(|r: (String, String)| (r.0@, r.1@))
}

proof fn lemma_list_rows(fields: Seq<(String, Json)>, key: Seq<char>, at: int)
    requires
        0 <= at <= fields.len(),
        first_key(fields_v(fields), key) == (if at < fields.len() { Some(at) } else { None::<int> }),
    ensures
        list_rows(fields, key) == (if at < fields.len() {
            match fields[at].1 {
                Json::Array(items) => items_rows(items@),
                _ => Seq::empty(),
            }
        } else {
            Seq::empty()
        }),
    decreases fields.len(),
{
    if fields.len() > 0 {
        let front = fields.drop_last();
        lemma_fields_v(fields);
        lemma_fields_v(front);
        assert(fields_v(fields).drop_last() =~= fields_v(front));
        if at < fields.len() - 1 {
            lemma_first_key_is_first(fields_v(fields), key);
            assert forall|j: int| 0 <= j < at implies fields_v(front)[j].0 != key by {
                assert(fields_v(front)[j] == fields_v(fields)[j]);
            }
            lemma_first_key(fields_v(front), key, at);
            lemma_list_rows(front, key, at);
            assert(front[at] == fields[at]);
        } else {
            lemma_first_key_is_first(fields_v(fields), key);
            assert forall|j: int| 0 <= j < front.len() implies fields_v(front)[j].0 != key by {
                assert(fields_v(front)[j] == fields_v(fields)[j]);
            }
            lemma_first_key(fields_v(front), key, front.len() as int);
            if at == fields.len() {
                assert(fields_v(fields)[fields.len() - 1].0 != key);
            }
        }
    }
}

fn str_field(j: &Json, key: &str) -> (r: String)
    ensures
        r@ == str_at(*j, key@),
{
    told_at(j, key)
}

fn visit(node: &Json, out: &mut Vec<(String, String)>)
    ensures
        rows_view(final(out)@) == rows_view(old(out)@) + node_rows(*node),
    decreases *node,
{
    let ghost start = rows_view(out@);
    let kind = str_field(node, "type");
    let fstype = str_field(node, "fstype");
    let ok = (same(kind.as_str(), "part") || same(kind.as_str(), "crypt") || same(kind.as_str(), "lvm"))
        && fstype.unicode_len() > 0 && !same(fstype.as_str(), "crypto_LUKS");
    if ok {
        let name = str_field(node, "name");
        out.push((name, fstype));
    }
    let ghost own = if mountable(*node) { seq![(str_at(*node, "name"@), str_at(*node, "fstype"@))] } else { Seq::<(Seq<char>, Seq<char>)>::empty() };
    assert(rows_view(out@) =~= start + own);
    match node {
        Json::Object(fields) => {
            let at = position_of(fields, "children");
            proof {
                lemma_list_rows(fields@, "children"@, at as int);
            }
            if at < fields.len() {
                match &fields[at].1 {
                    Json::Array(items) => {
                        let mut k: usize = 0;
                        assert(items@.take(0) =~= Seq::<Json>::empty());
                        while k < items.len()
                            invariant
                                k <= items@.len(),
                                fields@[at as int].1 == Json::Array(*items),
                                at < fields@.len(),
                                *node == Json::Object(*fields),
                                rows_view(out@) == start + own + items_rows(items@.take(k as int)),
                            decreases items@.len() - k,
                        {
                            assert(items@.take(k as int + 1).drop_last() =~= items@.take(k as int));
                            assert(items@.take(k as int + 1).last() == items@[k as int]);
                            proof {
                                assert(decreases_to!(*node => (*node)->Object_0));
                                assert((*node)->Object_0 == *fields);
                                assert(decreases_to!(*fields => fields@));
                                assert(decreases_to!(fields@ => fields@[at as int]));
                                assert(decreases_to!(fields@[at as int] => fields@[at as int].1));
                                assert(decreases_to!(fields@[at as int].1 => (fields@[at as int].1)->Array_0));
                                assert((fields@[at as int].1)->Array_0 == *items);
                                assert(decreases_to!(*items => items@));
                                assert(decreases_to!(items@ => items@[k as int]));
                            }
                            let ghost before = rows_view(out@);
                            visit(&items[k], out);
                            assert(rows_view(out@) =~= before + node_rows(items@[k as int]));
                            k = k + 1;
                        }
                        assert(items@.take(k as int) =~= items@);
                    },
                    _ => {},
                }
            }
        },
        _ => {},
    }
}

/// Which filesystems `lsblk --json` says a disk holds: every partition,
/// opened container and logical volume that carries one, walked from each
/// block device down through its children, as name and filesystem.
pub fn mountable_rows(doc: &Json) -> (r: Vec<(String, String)>)
    ensures
        rows_view(r@) == match doc {
            Json::Object(f) => list_rows(f@, "blockdevices"@),
            _ => Seq::empty(),
        },
{
    let mut out: Vec<(String, String)> = Vec::new();
    assert(rows_view(out@) =~= Seq::<(Seq<char>, Seq<char>)>::empty());
    match doc {
        Json::Object(fields) => {
            let at = position_of(fields, "blockdevices");
            proof {
                lemma_list_rows(fields@, "blockdevices"@, at as int);
            }
            if at < fields.len() {
                match &fields[at].1 {
                    Json::Array(items) => {
                        let mut k: usize = 0;
                        assert(items@.take(0) =~= Seq::<Json>::empty());
                        while k < items.len()
                            invariant
                                k <= items@.len(),
                                rows_view(out@) == items_rows(items@.take(k as int)),
                            decreases items@.len() - k,
                        {
                            assert(items@.take(k as int + 1).drop_last() =~= items@.take(k as int));
                            assert(items@.take(k as int + 1).last() == items@[k as int]);
                            visit(&items[k], &mut out);
                            k = k + 1;
                        }
                        assert(items@.take(k as int) =~= items@);
                    },
                    _ => {},
                }
            }
        },
        _ => {},
    }
    out
}

} // verus!
