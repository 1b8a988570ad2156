//! Just enough JSON to write the plan.

use crate::text::{decimal, decimal_spec, owned, push_char};
use vstd::prelude::*;

verus! {

pub enum Json {
    Null,
    Bool(bool),
    Number(u32),
    String(String),
    Array(Vec<Json>),
    Object(Vec<(String, Json)>),
}

/// The lowercase hex digit for `d`.
pub open spec fn hex_digit(d: nat) -> char {
    if d < 10 {
        crate::text::digit_char(d)
    } else if d == 10 {
        'a'
    } else if d == 11 {
        'b'
    } else if d == 12 {
        'c'
    } else if d == 13 {
        'd'
    } else if d == 14 {
        'e'
    } else {
        'f'
    }
}

/// How one character of a string is written inside the quotes.
pub open spec fn escape_char(c: char) -> Seq<char> {
    if c == '"' {
        seq!['\\', '"']
    } else if c == '\\' {
        seq!['\\', '\\']
    } else if c == '\n' {
        seq!['\\', 'n']
    } else if c == '\r' {
        seq!['\\', 'r']
    } else if c == '\t' {
        seq!['\\', 't']
    } else if c == '\u{08}' {
        seq!['\\', 'b']
    } else if c == '\u{0c}' {
        seq!['\\', 'f']
    } else if (c as u32) < 0x20 {
        seq!['\\', 'u', '0', '0', hex_digit((c as u32 / 16) as nat), hex_digit((c as u32 % 16) as nat)]
    } else {
        seq![c]
    }
}

/// The characters of `s`, each escaped, without the quotes.
pub open spec fn escaped_body(s: Seq<char>) -> Seq<char>
    decreases s.len(),
{
    if s.len() == 0 {
        Seq::empty()
    } else {
        escaped_body(s.drop_last()) + escape_char(s.last())
    }
}

/// A string as JSON writes it.
pub open spec fn escape_spec(s: Seq<char>) -> Seq<char> {
    seq!['"'] + escaped_body(s) + seq!['"']
}

/// Two spaces per level.
pub open spec fn pad(depth: nat) -> Seq<char>
    decreases depth,
{
    if depth == 0 {
        Seq::empty()
    } else {
        pad((depth - 1) as nat) + "  "@
    }
}

/// The separator after item `index` of `len`.
pub open spec fn item_end(index: int, len: int) -> Seq<char> {
    if index + 1 == len {
        "\n"@
    } else {
        ",\n"@
    }
}

/// A value written at `depth`.
pub open spec fn write_spec(j: Json, depth: nat) -> Seq<char>
    decreases j,
{
    match j {
        Json::Null => "null"@,
        Json::Bool(b) => if b {
            "true"@
        } else {
            "false"@
        },
        Json::Number(n) => decimal_spec(n as nat),
        Json::String(s) => escape_spec(s@),
        Json::Array(items) => if items@.len() == 0 {
            "[]"@
        } else {
            "[\n"@ + items_spec(items@, depth, items@.len() as int) + pad(depth) + "]"@
        },
        Json::Object(fields) => if fields@.len() == 0 {
            "{}"@
        } else {
            "{\n"@ + fields_spec(fields@, depth, fields@.len() as int) + pad(depth) + "}"@
        },
    }
}

/// The items of an array at `depth`, each on its own line.
pub open spec fn items_spec(items: Seq<Json>, depth: nat, len: int) -> Seq<char>
    decreases items,
{
    if items.len() == 0 {
        Seq::empty()
    } else {
        items_spec(items.drop_last(), depth, len) + pad(depth + 1) + write_spec(items.last(), depth + 1)
            + item_end(items.len() - 1, len)
    }
}

/// The fields of an object at `depth`, each on its own line.
pub open spec fn fields_spec(fields: Seq<(String, Json)>, depth: nat, len: int) -> Seq<char>
    decreases fields,
{
    if fields.len() == 0 {
        Seq::empty()
    } else {
        fields_spec(fields.drop_last(), depth, len) + pad(depth + 1) + escape_spec(fields.last().0@)
            + ": "@ + write_spec(fields.last().1, depth + 1) + item_end(fields.len() - 1, len)
    }
}

/// A value as plain data: what it holds, with every string by its
/// characters.
pub enum JsonV {
    Null,
    Bool(bool),
    Number(u32),
    Str(Seq<char>),
    Arr(Seq<JsonV>),
    Obj(Seq<(Seq<char>, JsonV)>),
}

pub open spec fn jv(j: Json) -> JsonV
    decreases j,
{
    match j {
        Json::Null => JsonV::Null,
        Json::Bool(b) => JsonV::Bool(b),
        Json::Number(n) => JsonV::Number(n),
        Json::String(s) => JsonV::Str(s@),
        Json::Array(items) => JsonV::Arr(items_v(items@)),
        Json::Object(fields) => JsonV::Obj(fields_v(fields@)),
    }
}

pub open spec fn items_v(items: Seq<Json>) -> Seq<JsonV>
    decreases items,
{
    if items.len() == 0 {
        Seq::empty()
    } else {
        items_v(items.drop_last()).push(jv(items.last()))
    }
}

pub open spec fn fields_v(fields: Seq<(String, Json)>) -> Seq<(Seq<char>, JsonV)>
    decreases fields,
{
    if fields.len() == 0 {
        Seq::empty()
    } else {
        fields_v(fields.drop_last()).push((fields.last().0@, jv(fields.last().1)))
    }
}

pub proof fn lemma_items_v(items: Seq<Json>)
    ensures
        items_v(items).len() == items.len(),
        forall|i: int| 0 <= i < items.len() ==> #[trigger] items_v(items)[i] == jv(items[i]),
    decreases items.len(),
{
    if items.len() > 0 {
        lemma_items_v(items.drop_last());
    }
}

pub proof fn lemma_fields_v(fields: Seq<(String, Json)>)
    ensures
        fields_v(fields).len() == fields.len(),
        forall|i: int| 0 <= i < fields.len() ==> #[trigger] fields_v(fields)[i] == (fields[i].0@, jv(fields[i].1)),
    decreases fields.len(),
{
    if fields.len() > 0 {
        lemma_fields_v(fields.drop_last());
    }
}

/// How deeply a value nests.
pub open spec fn height(j: Json) -> nat
    decreases j,
{
    match j {
        Json::Array(items) => 1 + items_height(items@),
        Json::Object(fields) => 1 + fields_height(fields@),
        _ => 0,
    }
}

pub open spec fn items_height(items: Seq<Json>) -> nat
    decreases items,
{
    if items.len() == 0 {
        0
    } else {
        let a = items_height(items.drop_last());
        let b = height(items.last());
        if a > b { a } else { b }
    }
}

pub open spec fn fields_height(fields: Seq<(String, Json)>) -> nat
    decreases fields,
{
    if fields.len() == 0 {
        0
    } else {
        let a = fields_height(fields.drop_last());
        let b = height(fields.last().1);
        if a > b { a } else { b }
    }
}

proof fn lemma_items_height(items: Seq<Json>, i: int)
    requires
        0 <= i < items.len(),
    ensures
        height(items[i]) <= items_height(items),
    decreases items.len(),
{
    if i < items.len() - 1 {
        lemma_items_height(items.drop_last(), i);
    }
}

proof fn lemma_fields_height(fields: Seq<(String, Json)>, i: int)
    requires
        0 <= i < fields.len(),
    ensures
        height(fields[i].1) <= fields_height(fields),
    decreases fields.len(),
{
    if i < fields.len() - 1 {
        lemma_fields_height(fields.drop_last(), i);
    }
}

/// The whole document, with the newline it ends with.
pub open spec fn render_spec(j: Json) -> Seq<char> {
    write_spec(j, 0) + "\n"@
}

fn push_str(out: &mut String, s: &str)
    ensures
        final(out)@ == old(out)@ + s@,
{
    out.append(s);
}

fn hex_of(d: u32) -> (c: char)
    requires
        d < 16,
    ensures
        c == hex_digit(d as nat),
{
    if d == 0 { '0' } else if d == 1 { '1' } else if d == 2 { '2' } else if d == 3 { '3' }
    else if d == 4 { '4' } else if d == 5 { '5' } else if d == 6 { '6' } else if d == 7 { '7' }
    else if d == 8 { '8' } else if d == 9 { '9' } else if d == 10 { 'a' } else if d == 11 { 'b' }
    else if d == 12 { 'c' } else if d == 13 { 'd' } else if d == 14 { 'e' } else { 'f' }
}

/// Nothing here is trusted to be printable: a description, an option value and
/// a module path all come out of a file somebody else wrote.
fn escape(value: &str, out: &mut String)
    ensures
        final(out)@ == old(out)@ + escape_spec(value@),
{
    let ghost start = out@;
    let cs = crate::text::chars_of(value);
    push_char(out, '"');
    let mut i: usize = 0;
    while i < cs.len()
        invariant
            cs@ == value@,
            i <= cs@.len(),
            out@ == start + seq!['"'] + escaped_body(value@.take(i as int)),
        decreases cs@.len() - i,
    {
        let c = cs[i];
        let ghost prior = out@;
        assert(value@.take(i as int + 1).drop_last() =~= value@.take(i as int));
        assert(value@.take(i as int + 1).last() == c);
        if c == '"' {
            push_char(out, '\\');
            push_char(out, '"');
        } else if c == '\\' {
            push_char(out, '\\');
            push_char(out, '\\');
        } else if c == '\n' {
            push_char(out, '\\');
            push_char(out, 'n');
        } else if c == '\r' {
            push_char(out, '\\');
            push_char(out, 'r');
        } else if c == '\t' {
            push_char(out, '\\');
            push_char(out, 't');
        } else if c == '\u{08}' {
            push_char(out, '\\');
            push_char(out, 'b');
        } else if c == '\u{0c}' {
            push_char(out, '\\');
            push_char(out, 'f');
        } else if (c as u32) < 0x20 {
            let code = c as u32;
            push_char(out, '\\');
            push_char(out, 'u');
            push_char(out, '0');
            push_char(out, '0');
            push_char(out, hex_of(code / 16));
            push_char(out, hex_of(code % 16));
        } else {
            push_char(out, c);
        }
        assert(out@ =~= prior + escape_char(c));
        i = i + 1;
    }
    push_char(out, '"');
    assert(value@.take(cs@.len() as int) =~= value@);
}

fn push_pad(out: &mut String, depth: usize)
    ensures
        final(out)@ == old(out)@ + pad(depth as nat),
{
    let ghost start = out@;
    let mut k: usize = 0;
    while k < depth
        invariant
            k <= depth,
            out@ == start + pad(k as nat),
        decreases depth - k,
    {
        push_str(out, "  ");
        assert(out@ =~= start + pad((k + 1) as nat));
        k = k + 1;
    }
}

impl Json {
    pub fn string(value: String) -> (r: Json)
        ensures
            r == Json::String(value),
    {
        Json::String(value)
    }

    /// An absent value as null rather than an absent key, so every object of a
    /// given kind has the same shape and a reader never has to tell "not
    /// declared" from "misspelled the key".
    pub fn optional(value: Option<String>) -> (r: Json)
        ensures
            match value {
                Some(v) => r == Json::String(v),
                None => r == Json::Null,
            },
    {
        match value {
            Some(value) => Json::String(value),
            None => Json::Null,
        }
    }

    pub fn array(items: Vec<Json>) -> (r: Json)
        ensures
            r == Json::Array(items),
    {
        Json::Array(items)
    }

    pub fn strings(items: Vec<String>) -> (r: Json)
        ensures
            r matches Json::Array(v) && v@.len() == items@.len() && forall|i: int|
                0 <= i < items@.len() ==> #[trigger] v@[i] == Json::String(items@[i]),
    {
        let mut out: Vec<Json> = Vec::new();
        let mut items = items;
        let ghost all = items@;
        let mut rev: Vec<String> = Vec::new();
        while items.len() > 0
            invariant
                items@ == all.take(items@.len() as int),
                rev@.len() + items@.len() == all.len(),
                forall|j: int| 0 <= j < rev@.len() ==> #[trigger] rev@[j] == all[all.len() - 1 - j],
            decreases items@.len(),
        {
            let s = items.pop().unwrap();
            rev.push(s);
            assert(items@ =~= all.take(items@.len() as int));
        }
        while rev.len() > 0
            invariant
                rev@.len() + out@.len() == all.len(),
                forall|j: int| 0 <= j < rev@.len() ==> #[trigger] rev@[j] == all[all.len() - 1 - j],
                forall|j: int| 0 <= j < out@.len() ==> #[trigger] out@[j] == Json::String(all[j]),
            decreases rev@.len(),
        {
            let s = rev.pop().unwrap();
            out.push(Json::String(s));
        }
        Json::Array(out)
    }

    pub fn object(fields: Vec<(&'static str, Json)>) -> (r: Json)
        ensures
            r matches Json::Object(v) && v@.len() == fields@.len() && forall|i: int|
                0 <= i < fields@.len() ==> (#[trigger] v@[i]).0@ == fields@[i].0@ && v@[i].1 == fields@[i].1,
    {
        let mut fields = fields;
        let ghost all = fields@;
        let mut rev: Vec<(String, Json)> = Vec::new();
        while fields.len() > 0
            invariant
                fields@ == all.take(fields@.len() as int),
                rev@.len() + fields@.len() == all.len(),
                forall|j: int| 0 <= j < rev@.len() ==> (#[trigger] rev@[j]).0@ == all[all.len() - 1 - j].0@
                    && rev@[j].1 == all[all.len() - 1 - j].1,
            decreases fields@.len(),
        {
            let (name, value) = fields.pop().unwrap();
            rev.push((owned(name), value));
            assert(fields@ =~= all.take(fields@.len() as int));
        }
        let mut out: Vec<(String, Json)> = Vec::new();
        while rev.len() > 0
            invariant
                rev@.len() + out@.len() == all.len(),
                forall|j: int| 0 <= j < rev@.len() ==> (#[trigger] rev@[j]).0@ == all[all.len() - 1 - j].0@
                    && rev@[j].1 == all[all.len() - 1 - j].1,
                forall|j: int| 0 <= j < out@.len() ==> (#[trigger] out@[j]).0@ == all[j].0@ && out@[j].1 == all[j].1,
            decreases rev@.len(),
        {
            let field = rev.pop().unwrap();
            out.push(field);
        }
        Json::Object(out)
    }

    /// An object whose keys come out of the data rather than the schema: a
    /// path to the module that owns it, an option name to its value.
    pub fn map(entries: Vec<(String, Json)>) -> (r: Json)
        ensures
            r == Json::Object(entries),
    {
        Json::Object(entries)
    }

    pub fn render(&self) -> (r: String)
        requires
            height(*self) < usize::MAX,
        ensures
            r@ == render_spec(*self),
    {
        let mut out = String::new();
        self.write(&mut out, 0);
        push_char(&mut out, '\n');
        proof {
            reveal_strlit("\n");
        }
        assert(out@ =~= render_spec(*self));
        out
    }

    fn write(&self, out: &mut String, depth: usize)
        requires
            depth + height(*self) < usize::MAX,
        ensures
            final(out)@ == old(out)@ + write_spec(*self, depth as nat),
        decreases *self,
    {
        match self {
            Json::Null => push_str(out, "null"),
            Json::Bool(value) => {
                if *value {
                    push_str(out, "true")
                } else {
                    push_str(out, "false")
                }
            },
            Json::Number(value) => {
                let shown = decimal(*value as u64);
                push_str(out, shown.as_str());
            },
            Json::String(value) => escape(value.as_str(), out),
            Json::Array(items) => {
                if items.len() == 0 {
                    push_str(out, "[]");
                } else {
                    let ghost start = out@;
                    push_str(out, "[\n");
                    let mut index: usize = 0;
                    while index < items.len()
                        invariant
                            depth + height(*self) < usize::MAX,
                            index <= items@.len(),
                            *self == Json::Array(*items),
                            out@ == start + "[\n"@ + items_spec(items@.take(index as int), depth as nat, items@.len() as int),
                        decreases items@.len() - index,
                    {
                        let ghost prior = out@;
                        assert(items@.take(index as int + 1).drop_last() =~= items@.take(index as int));
                        assert(items@.take(index as int + 1).last() == items@[index as int]);
                        push_pad(out, depth + 1);
                        proof {
                            lemma_items_height(items@, index as int);
                            assert(decreases_to!(*self => *items));
                            assert(decreases_to!(*items => items@));
                            assert(decreases_to!(items@ => items@[index as int]));
                        }
                        items[index].write(out, depth + 1);
                        if index + 1 == items.len() {
                            push_str(out, "\n");
                        } else {
                            push_str(out, ",\n");
                        }
                        assert(out@ =~= prior + pad((depth + 1) as nat) + write_spec(items@[index as int], (depth + 1) as nat)
                            + item_end(index as int, items@.len() as int));
                        index = index + 1;
                    }
                    assert(items@.take(items@.len() as int) =~= items@);
                    push_pad(out, depth);
                    push_char(out, ']');
                    proof {
                        reveal_strlit("]");
                    }
                    assert(out@ =~= start + write_spec(*self, depth as nat));
                }
            },
            Json::Object(fields) => {
                if fields.len() == 0 {
                    push_str(out, "{}");
                } else {
                    let ghost start = out@;
                    push_str(out, "{\n");
                    let mut index: usize = 0;
                    while index < fields.len()
                        invariant
                            depth + height(*self) < usize::MAX,
                            index <= fields@.len(),
                            *self == Json::Object(*fields),
                            out@ == start + "{\n"@ + fields_spec(fields@.take(index as int), depth as nat, fields@.len() as int),
                        decreases fields@.len() - index,
                    {
                        let ghost prior = out@;
                        assert(fields@.take(index as int + 1).drop_last() =~= fields@.take(index as int));
                        assert(fields@.take(index as int + 1).last() == fields@[index as int]);
                        push_pad(out, depth + 1);
                        escape(fields[index].0.as_str(), out);
                        push_str(out, ": ");
                        proof {
                            lemma_fields_height(fields@, index as int);
                            assert(decreases_to!(*self => *fields));
                            assert(decreases_to!(*fields => fields@));
                            assert(decreases_to!(fields@ => fields@[index as int]));
                            assert(decreases_to!(fields@[index as int] => fields@[index as int].1));
                        }
                        fields[index].1.write(out, depth + 1);
                        if index + 1 == fields.len() {
                            push_str(out, "\n");
                        } else {
                            push_str(out, ",\n");
                        }
                        assert(out@ =~= prior + pad((depth + 1) as nat) + escape_spec(fields@[index as int].0@) + ": "@
                            + write_spec(fields@[index as int].1, (depth + 1) as nat) + item_end(
                            index as int,
                            fields@.len() as int,
                        ));
                        index = index + 1;
                    }
                    assert(fields@.take(fields@.len() as int) =~= fields@);
                    push_pad(out, depth);
                    push_char(out, '}');
                    proof {
                        reveal_strlit("}");
                    }
                    assert(out@ =~= start + write_spec(*self, depth as nat));
                }
            },
        }
    }
}

} // verus!
