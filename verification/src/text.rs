//! The string operations the rest of the library is written with, each one
//! stated over the characters it reads and writes.

use vstd::prelude::*;
use vstd::string::*;

verus! {

/// Unicode `White_Space`, which is what `char::is_whitespace` tests.
pub open spec fn is_ws(c: char) -> bool {
    ||| c == ' '
    ||| ('\t' <= c && c <= '\r')
    ||| c == '\u{85}'
    ||| c == '\u{a0}'
    ||| c == '\u{1680}'
    ||| ('\u{2000}' <= c && c <= '\u{200a}')
    ||| c == '\u{2028}'
    ||| c == '\u{2029}'
    ||| c == '\u{202f}'
    ||| c == '\u{205f}'
    ||| c == '\u{3000}'
}

pub open spec fn is_lower(c: char) -> bool {
    'a' <= c && c <= 'z'
}

pub open spec fn is_upper(c: char) -> bool {
    'A' <= c && c <= 'Z'
}

pub open spec fn is_digit(c: char) -> bool {
    '0' <= c && c <= '9'
}

pub open spec fn is_alnum(c: char) -> bool {
    is_lower(c) || is_upper(c) || is_digit(c)
}

pub open spec fn is_hex(c: char) -> bool {
    is_digit(c) || ('a' <= c && c <= 'f') || ('A' <= c && c <= 'F')
}

pub fn ws(c: char) -> (r: bool)
    ensures
        r == is_ws(c),
{
    c == ' ' || ('\t' <= c && c <= '\r') || c == '\u{85}' || c == '\u{a0}' || c == '\u{1680}'
        || ('\u{2000}' <= c && c <= '\u{200a}') || c == '\u{2028}' || c == '\u{2029}' || c
        == '\u{202f}' || c == '\u{205f}' || c == '\u{3000}'
}

pub fn lower(c: char) -> (r: bool)
    ensures
        r == is_lower(c),
{
    'a' <= c && c <= 'z'
}

pub fn upper(c: char) -> (r: bool)
    ensures
        r == is_upper(c),
{
    'A' <= c && c <= 'Z'
}

pub fn digit(c: char) -> (r: bool)
    ensures
        r == is_digit(c),
{
    '0' <= c && c <= '9'
}

pub fn alnum(c: char) -> (r: bool)
    ensures
        r == is_alnum(c),
{
    lower(c) || upper(c) || digit(c)
}

pub fn hex(c: char) -> (r: bool)
    ensures
        r == is_hex(c),
{
    digit(c) || ('a' <= c && c <= 'f') || ('A' <= c && c <= 'F')
}

/// `String::push`, which vstd gives no contract.
#[verifier::external_body]
pub fn push_char(s: &mut String, c: char)
    ensures
        final(s)@ == old(s)@.push(c),
{
    s.push(c)
}

/// A `String` holding exactly the characters of `s`.
pub fn owned(s: &str) -> (r: String)
    ensures
        r@ == s@,
{
    String::from_str(s)
}

/// A `String` holding exactly the characters of `s`, from a sequence of them.
pub fn from_chars(s: &Vec<char>) -> (r: String)
    ensures
        r@ == s@,
{
    let mut out = String::new();
    let mut i: usize = 0;
    while i < s.len()
        invariant
            i <= s@.len(),
            out@ == s@.take(i as int),
        decreases s@.len() - i,
    {
        push_char(&mut out, s[i]);
        assert(s@.take(i as int + 1) =~= s@.take(i as int).push(s@[i as int]));
        i = i + 1;
    }
    assert(s@.take(s@.len() as int) =~= s@);
    out
}

/// The characters of `s`, one per element.
pub fn chars_of(s: &str) -> (r: Vec<char>)
    ensures
        r@ == s@,
{
    let n = s.unicode_len();
    let mut out: Vec<char> = Vec::new();
    let mut i: usize = 0;
    while i < n
        invariant
            n == s@.len(),
            i <= n,
            out@ == s@.take(i as int),
        decreases n - i,
    {
        let c = s.get_char(i);
        out.push(c);
        assert(s@.take(i as int + 1) =~= s@.take(i as int).push(c));
        i = i + 1;
    }
    assert(s@.take(n as int) =~= s@);
    out
}

pub fn cat(a: &str, b: &str) -> (r: String)
    ensures
        r@ == a@ + b@,
{
    let mut out = owned(a);
    out.append(b);
    out
}

pub fn cat3(a: &str, b: &str, c: &str) -> (r: String)
    ensures
        r@ == a@ + b@ + c@,
{
    let mut out = owned(a);
    out.append(b);
    out.append(c);
    out
}

pub fn cat4(a: &str, b: &str, c: &str, d: &str) -> (r: String)
    ensures
        r@ == a@ + b@ + c@ + d@,
{
    let mut out = owned(a);
    out.append(b);
    out.append(c);
    out.append(d);
    out
}

pub fn cat5(a: &str, b: &str, c: &str, d: &str, e: &str) -> (r: String)
    ensures
        r@ == a@ + b@ + c@ + d@ + e@,
{
    let mut out = owned(a);
    out.append(b);
    out.append(c);
    out.append(d);
    out.append(e);
    out
}

pub fn same(a: &str, b: &str) -> (r: bool)
    ensures
        r == (a@ == b@),
{
    let n = a.unicode_len();
    let m = b.unicode_len();
    if n != m {
        return false;
    }
    let mut i: usize = 0;
    while i < n
        invariant
            n == a@.len(),
            m == b@.len(),
            n == m,
            i <= n,
            a@.take(i as int) == b@.take(i as int),
        decreases n - i,
    {
        if a.get_char(i) != b.get_char(i) {
            assert(a@.take(i as int + 1)[i as int] != b@.take(i as int + 1)[i as int]);
            return false;
        }
        assert(a@.take(i as int + 1) =~= a@.take(i as int).push(a@[i as int]));
        assert(b@.take(i as int + 1) =~= b@.take(i as int).push(b@[i as int]));
        i = i + 1;
    }
    assert(a@.take(n as int) =~= a@);
    assert(b@.take(n as int) =~= b@);
    true
}

pub open spec fn is_prefix(p: Seq<char>, s: Seq<char>) -> bool {
    p.len() <= s.len() && s.take(p.len() as int) == p
}

pub open spec fn is_suffix(p: Seq<char>, s: Seq<char>) -> bool {
    p.len() <= s.len() && s.skip(s.len() - p.len()) == p
}

/// Whether `p` occurs in `s` at `at`.
pub open spec fn occurs_at(s: Seq<char>, p: Seq<char>, at: int) -> bool {
    0 <= at && at + p.len() <= s.len() && s.subrange(at, at + p.len()) == p
}

pub open spec fn holds(s: Seq<char>, p: Seq<char>) -> bool {
    exists|at: int| occurs_at(s, p, at)
}

/// Whether `p` is in `s` starting at `at`, which a caller keeps in range.
fn at_here(s: &Vec<char>, p: &Vec<char>, at: usize) -> (r: bool)
    requires
        at + p@.len() <= s@.len(),
    ensures
        r == occurs_at(s@, p@, at as int),
{
    let mut i: usize = 0;
    let n = s.len();
    while i < p.len()
        invariant
            n == s@.len(),
            at + p@.len() <= s@.len(),
            i <= p@.len(),
            forall|j: int| 0 <= j < i ==> s@[at + j] == p@[j],
        decreases p@.len() - i,
    {
        if s[at + i] != p[i] {
            assert(s@.subrange(at as int, at + p@.len())[i as int] != p@[i as int]);
            return false;
        }
        i = i + 1;
    }
    assert(s@.subrange(at as int, at + p@.len()) =~= p@);
    true
}

pub fn starts_with(s: &str, p: &str) -> (r: bool)
    ensures
        r == is_prefix(p@, s@),
{
    let sc = chars_of(s);
    let pc = chars_of(p);
    if pc.len() > sc.len() {
        return false;
    }
    let r = at_here(&sc, &pc, 0);
    assert(sc@.subrange(0, pc@.len() as int) =~= sc@.take(pc@.len() as int));
    r
}

pub fn ends_with(s: &str, p: &str) -> (r: bool)
    ensures
        r == is_suffix(p@, s@),
{
    let sc = chars_of(s);
    let pc = chars_of(p);
    if pc.len() > sc.len() {
        return false;
    }
    let at = sc.len() - pc.len();
    let r = at_here(&sc, &pc, at);
    assert(sc@.subrange(at as int, sc@.len() as int) =~= sc@.skip(at as int));
    r
}

/// The characters of `s` from `from` to `to`.
pub fn slice(s: &str, from: usize, to: usize) -> (r: String)
    requires
        from <= to <= s@.len(),
    ensures
        r@ == s@.subrange(from as int, to as int),
{
    owned(s.substring_char(from, to))
}

pub fn strip_prefix(s: &str, p: &str) -> (r: Option<String>)
    ensures
        r is Some <==> is_prefix(p@, s@),
        r matches Some(rest) ==> rest@ == s@.skip(p@.len() as int),
{
    if starts_with(s, p) {
        let n = s.unicode_len();
        let k = p.unicode_len();
        Some(slice(s, k, n))
    } else {
        None
    }
}

pub fn strip_suffix(s: &str, p: &str) -> (r: Option<String>)
    ensures
        r is Some <==> is_suffix(p@, s@),
        r matches Some(rest) ==> rest@ == s@.take(s@.len() - p@.len()),
{
    if ends_with(s, p) {
        let n = s.unicode_len();
        let k = p.unicode_len();
        Some(slice(s, 0, n - k))
    } else {
        None
    }
}

pub open spec fn has_char(s: Seq<char>, c: char) -> bool {
    s.contains(c)
}

pub fn contains_char(s: &str, c: char) -> (r: bool)
    ensures
        r == s@.contains(c),
{
    let sc = chars_of(s);
    let mut i: usize = 0;
    while i < sc.len()
        invariant
            sc@ == s@,
            i <= sc@.len(),
            forall|j: int| 0 <= j < i ==> sc@[j] != c,
        decreases sc@.len() - i,
    {
        if sc[i] == c {
            return true;
        }
        i = i + 1;
    }
    false
}

/// The first place `p` occurs in `s`.
pub open spec fn first_at(s: Seq<char>, p: Seq<char>, at: int) -> bool {
    occurs_at(s, p, at) && forall|j: int| 0 <= j < at ==> !occurs_at(s, p, j)
}

pub fn find(s: &str, p: &str) -> (r: Option<usize>)
    ensures
        r matches Some(at) ==> first_at(s@, p@, at as int),
        r is None ==> !holds(s@, p@),
{
    let sc = chars_of(s);
    let pc = chars_of(p);
    if pc.len() > sc.len() {
        assert forall|at: int| !occurs_at(s@, p@, at) by {}
        return None;
    }
    if pc.len() == 0 {
        assert(s@.subrange(0, 0) =~= p@);
        assert(occurs_at(s@, p@, 0));
        return Some(0);
    }
    let last = sc.len() - pc.len();
    let mut at: usize = 0;
    while at <= last
        invariant
            sc@ == s@,
            pc@ == p@,
            last + pc@.len() == sc@.len(),
            last < usize::MAX,
            at <= last + 1,
            forall|j: int| 0 <= j < at ==> !occurs_at(s@, p@, j),
        decreases last + 1 - at,
    {
        if at_here(&sc, &pc, at) {
            return Some(at);
        }
        at = at + 1;
    }
    assert forall|j: int| !occurs_at(s@, p@, j) by {
        if 0 <= j && j + p@.len() <= s@.len() {
            assert(j < at);
        }
    }
    None
}

/// `str::split_once`: the text around the first `p`.
pub fn split_once(s: &str, p: &str) -> (r: Option<(String, String)>)
    ensures
        r is None ==> !holds(s@, p@),
        r matches Some((a, b)) ==> exists|at: int|
            #![trigger first_at(s@, p@, at)]
            first_at(s@, p@, at) && a@ == s@.take(at) && b@ == s@.skip(at + p@.len()),
{
    match find(s, p) {
        Some(at) => {
            let n = s.unicode_len();
            let k = p.unicode_len();
            let a = slice(s, 0, at);
            let b = slice(s, at + k, n);
            assert(a@ =~= s@.take(at as int));
            assert(b@ =~= s@.skip(at + p@.len()));
            assert(first_at(s@, p@, at as int));
            Some((a, b))
        },
        None => None,
    }
}

/// `str::split` on one character, as the pieces between them. There is
/// always at least one piece.
pub open spec fn split_spec(s: Seq<char>, sep: char) -> Seq<Seq<char>>
    decreases s.len(),
{
    if s.len() == 0 {
        seq![Seq::<char>::empty()]
    } else {
        let before = split_spec(s.drop_last(), sep);
        if s.last() == sep {
            before.push(Seq::<char>::empty())
        } else {
            before.update(before.len() - 1, before.last().push(s.last()))
        }
    }
}

pub proof fn lemma_split_nonempty(s: Seq<char>, sep: char)
    ensures
        split_spec(s, sep).len() >= 1,
    decreases s.len(),
{
    if s.len() > 0 {
        lemma_split_nonempty(s.drop_last(), sep);
    }
}

pub open spec fn views(v: Seq<String>) -> Seq<Seq<char>> {
    v.map_values(|x: String| x@)
}

pub fn split(s: &str, sep: char) -> (r: Vec<String>)
    ensures
        views(r@) == split_spec(s@, sep),
{
    let sc = chars_of(s);
    let mut done: Vec<String> = Vec::new();
    let mut cur: Vec<char> = Vec::new();
    let mut i: usize = 0;
    proof {
        assert(sc@.take(0) =~= Seq::<char>::empty());
    }
    while i < sc.len()
        invariant
            sc@ == s@,
            i <= sc@.len(),
            views(done@).push(cur@) == split_spec(sc@.take(i as int), sep),
        decreases sc@.len() - i,
    {
        let c = sc[i];
        let ghost prefix = sc@.take(i as int + 1);
        let ghost before = split_spec(sc@.take(i as int), sep);
        let ghost done0 = views(done@);
        let ghost cur0 = cur@;
        assert(prefix.drop_last() =~= sc@.take(i as int));
        assert(prefix.last() == c);
        if c == sep {
            let piece = from_chars(&cur);
            done.push(piece);
            cur = Vec::new();
            assert(views(done@) =~= done0.push(cur0));
            assert(views(done@).push(cur@) =~= before.push(Seq::<char>::empty()));
        } else {
            cur.push(c);
            assert(views(done@).push(cur@) =~= before.update(before.len() - 1, before.last().push(c)));
        }
        i = i + 1;
    }
    let piece = from_chars(&cur);
    done.push(piece);
    assert(sc@.take(sc@.len() as int) =~= sc@);
    assert(views(done@) =~= views(done@.drop_last()).push(cur@));
    done
}

/// `str::lines`: the text between line feeds, a final line feed ending the
/// last line rather than starting an empty one, and the carriage return of a
/// `\r\n` taken off.
pub open spec fn strip_cr(l: Seq<char>) -> Seq<char> {
    if l.len() > 0 && l.last() == '\r' {
        l.drop_last()
    } else {
        l
    }
}

pub open spec fn lines_spec(s: Seq<char>) -> Seq<Seq<char>> {
    let parts = split_spec(s, '\n');
    if parts.last().len() == 0 {
        parts.drop_last().map_values(|l: Seq<char>| strip_cr(l))
    } else {
        parts.drop_last().map_values(|l: Seq<char>| strip_cr(l)).push(parts.last())
    }
}

pub fn strip_cr_exec(l: &str) -> (r: String)
    ensures
        r@ == strip_cr(l@),
{
    let n = l.unicode_len();
    if n > 0 && l.get_char(n - 1) == '\r' {
        slice(l, 0, n - 1)
    } else {
        assert(l@.subrange(0, n as int) =~= l@);
        slice(l, 0, n)
    }
}

pub fn lines(s: &str) -> (r: Vec<String>)
    ensures
        views(r@) == lines_spec(s@),
{
    let parts = split(s, '\n');
    proof {
        lemma_split_nonempty(s@, '\n');
    }
    let n = parts.len();
    let last_empty = parts[n - 1].unicode_len() == 0;
    let mut out: Vec<String> = Vec::new();
    let mut i: usize = 0;
    let ghost want = split_spec(s@, '\n').drop_last().map_values(|l: Seq<char>| strip_cr(l));
    while i + 1 < n
        invariant
            n == parts@.len(),
            n >= 1,
            views(parts@) == split_spec(s@, '\n'),
            want == split_spec(s@, '\n').drop_last().map_values(|l: Seq<char>| strip_cr(l)),
            i + 1 <= n,
            views(out@) == want.take(i as int),
        decreases n - i,
    {
        let line = strip_cr_exec(parts[i].as_str());
        assert(parts@[i as int]@ == split_spec(s@, '\n')[i as int]);
        assert(want[i as int] == strip_cr(split_spec(s@, '\n')[i as int]));
        let ghost out0 = views(out@);
        out.push(line);
        assert(views(out@) =~= out0.push(want[i as int]));
        assert(views(out@) =~= want.take(i as int + 1));
        i = i + 1;
    }
    assert(want.take(i as int) =~= want);
    if !last_empty {
        let tail = owned(parts[n - 1].as_str());
        out.push(tail);
        assert(views(out@) =~= want.push(split_spec(s@, '\n').last()));
    }
    out
}

pub open spec fn words_acc(s: Seq<char>) -> (Seq<Seq<char>>, Seq<char>)
    decreases s.len(),
{
    if s.len() == 0 {
        (Seq::empty(), Seq::empty())
    } else {
        let (w, c) = words_acc(s.drop_last());
        if is_ws(s.last()) {
            if c.len() > 0 {
                (w.push(c), Seq::empty())
            } else {
                (w, Seq::empty())
            }
        } else {
            (w, c.push(s.last()))
        }
    }
}

/// `str::split_whitespace`: the runs of characters between whitespace.
pub open spec fn words_spec(s: Seq<char>) -> Seq<Seq<char>> {
    let (w, c) = words_acc(s);
    if c.len() > 0 {
        w.push(c)
    } else {
        w
    }
}

pub fn words(s: &str) -> (r: Vec<String>)
    ensures
        views(r@) == words_spec(s@),
{
    let sc = chars_of(s);
    let mut done: Vec<String> = Vec::new();
    let mut cur: Vec<char> = Vec::new();
    let mut i: usize = 0;
    assert(sc@.take(0) =~= Seq::<char>::empty());
    while i < sc.len()
        invariant
            sc@ == s@,
            i <= sc@.len(),
            (views(done@), cur@) == words_acc(sc@.take(i as int)),
        decreases sc@.len() - i,
    {
        let c = sc[i];
        let ghost prefix = sc@.take(i as int + 1);
        let ghost done0 = views(done@);
        let ghost cur0 = cur@;
        assert(prefix.drop_last() =~= sc@.take(i as int));
        assert(prefix.last() == c);
        if ws(c) {
            if cur.len() > 0 {
                let piece = from_chars(&cur);
                done.push(piece);
                assert(views(done@) =~= done0.push(cur0));
            }
            cur = Vec::new();
        } else {
            cur.push(c);
        }
        i = i + 1;
    }
    assert(sc@.take(sc@.len() as int) =~= sc@);
    if cur.len() > 0 {
        let ghost done0 = views(done@);
        let piece = from_chars(&cur);
        done.push(piece);
        assert(views(done@) =~= done0.push(cur@));
    }
    done
}

pub open spec fn trim_start_spec(s: Seq<char>) -> Seq<char>
    decreases s.len(),
{
    if s.len() > 0 && is_ws(s[0]) {
        trim_start_spec(s.skip(1))
    } else {
        s
    }
}

pub open spec fn trim_end_spec(s: Seq<char>) -> Seq<char>
    decreases s.len(),
{
    if s.len() > 0 && is_ws(s.last()) {
        trim_end_spec(s.drop_last())
    } else {
        s
    }
}

/// `str::trim`.
pub open spec fn trim_spec(s: Seq<char>) -> Seq<char> {
    trim_end_spec(trim_start_spec(s))
}

pub fn trim(s: &str) -> (r: String)
    ensures
        r@ == trim_spec(s@),
{
    let n = s.unicode_len();
    let mut a: usize = 0;
    assert(s@.skip(0) =~= s@);
    while a < n && ws(s.get_char(a))
        invariant
            n == s@.len(),
            a <= n,
            trim_start_spec(s@) == trim_start_spec(s@.skip(a as int)),
        decreases n - a,
    {
        assert(s@.skip(a as int).skip(1) =~= s@.skip(a as int + 1));
        a = a + 1;
    }
    let mut b: usize = n;
    assert(s@.skip(a as int).take((b - a) as int) =~= s@.skip(a as int));
    while b > a && ws(s.get_char(b - 1))
        invariant
            n == s@.len(),
            a <= b <= n,
            trim_spec(s@) == trim_end_spec(s@.subrange(a as int, b as int)),
        decreases b - a,
    {
        assert(s@.subrange(a as int, b as int).drop_last() =~= s@.subrange(a as int, b - 1));
        b = b - 1;
    }
    let r = slice(s, a, b);
    assert(trim_start_spec(s@.skip(a as int)) == s@.skip(a as int));
    r
}

/// `str::trim_start`.
pub fn trim_start(s: &str) -> (r: String)
    ensures
        r@ == trim_start_spec(s@),
{
    let n = s.unicode_len();
    let mut a: usize = 0;
    assert(s@.skip(0) =~= s@);
    while a < n && ws(s.get_char(a))
        invariant
            n == s@.len(),
            a <= n,
            trim_start_spec(s@) == trim_start_spec(s@.skip(a as int)),
        decreases n - a,
    {
        assert(s@.skip(a as int).skip(1) =~= s@.skip(a as int + 1));
        a = a + 1;
    }
    let r = slice(s, a, n);
    assert(r@ =~= s@.skip(a as int));
    r
}

/// Joins with a separator between each two, as `[..].join(sep)` does.
pub open spec fn join_spec(parts: Seq<Seq<char>>, sep: Seq<char>) -> Seq<char>
    decreases parts.len(),
{
    if parts.len() == 0 {
        Seq::empty()
    } else if parts.len() == 1 {
        parts[0]
    } else {
        join_spec(parts.drop_last(), sep) + sep + parts.last()
    }
}

pub fn join(parts: &Vec<String>, sep: &str) -> (r: String)
    ensures
        r@ == join_spec(views(parts@), sep@),
{
    let mut out = String::new();
    let mut i: usize = 0;
    while i < parts.len()
        invariant
            i <= parts@.len(),
            out@ == join_spec(views(parts@).take(i as int), sep@),
        decreases parts@.len() - i,
    {
        assert(views(parts@).take(i as int + 1).drop_last() =~= views(parts@).take(i as int));
        if i > 0 {
            out.append(sep);
        }
        out.append(parts[i].as_str());
        i = i + 1;
    }
    assert(views(parts@).take(parts@.len() as int) =~= views(parts@));
    out
}

/// Every `from` replaced by `to`.
pub open spec fn swap_char(s: Seq<char>, from: char, to: char) -> Seq<char> {
    s.map_values(|c: char| if c == from { to } else { c })
}

pub fn replace_char(s: &str, from: char, to: char) -> (r: String)
    ensures
        r@ == swap_char(s@, from, to),
{
    let sc = chars_of(s);
    let mut out: Vec<char> = Vec::new();
    let mut i: usize = 0;
    while i < sc.len()
        invariant
            sc@ == s@,
            i <= sc@.len(),
            out@ == swap_char(sc@.take(i as int), from, to),
        decreases sc@.len() - i,
    {
        let c = sc[i];
        out.push(if c == from { to } else { c });
        assert(out@ =~= swap_char(sc@.take(i as int + 1), from, to));
        i = i + 1;
    }
    assert(sc@.take(sc@.len() as int) =~= sc@);
    from_chars(&out)
}

/// `str::replace("{}", with)`: every `{}`, left to right, replaced.
pub open spec fn fill_spec(s: Seq<char>, with: Seq<char>) -> Seq<char>
    decreases s.len(),
{
    if s.len() < 2 {
        s
    } else if s[0] == '{' && s[1] == '}' {
        with + fill_spec(s.skip(2), with)
    } else {
        seq![s[0]] + fill_spec(s.skip(1), with)
    }
}

pub fn fill(s: &str, with: &str) -> (r: String)
    ensures
        r@ == fill_spec(s@, with@),
{
    let sc = chars_of(s);
    let wc = chars_of(with);
    let n = sc.len();
    let mut out: Vec<char> = Vec::new();
    let mut i: usize = 0;
    assert(s@.skip(0) =~= s@);
    assert(out@ + fill_spec(s@, with@) =~= fill_spec(s@, with@));
    while i < n
        invariant
            sc@ == s@,
            wc@ == with@,
            n == sc@.len(),
            i <= n,
            fill_spec(s@, with@) == out@ + fill_spec(s@.skip(i as int), with@),
        decreases n - i,
    {
        let ghost rest = s@.skip(i as int);
        if i + 1 < n && sc[i] == '{' && sc[i + 1] == '}' {
            let mut j: usize = 0;
            let ghost out0 = out@;
            while j < wc.len()
                invariant
                    wc@ == with@,
                    j <= wc@.len(),
                    out@ == out0 + wc@.take(j as int),
                decreases wc@.len() - j,
            {
                out.push(wc[j]);
                assert(out@ =~= out0 + wc@.take(j as int + 1));
                j = j + 1;
            }
            assert(wc@.take(wc@.len() as int) =~= wc@);
            assert(rest.skip(2) =~= s@.skip(i as int + 2));
            assert(out@ + fill_spec(s@.skip(i as int + 2), with@) =~= out0 + fill_spec(rest, with@));
            i = i + 2;
        } else {
            let ghost out0 = out@;
            out.push(sc[i]);
            assert(rest.skip(1) =~= s@.skip(i as int + 1));
            proof {
                if rest.len() < 2 {
                    assert(rest =~= seq![sc@[i as int]]);
                    assert(fill_spec(rest.skip(1), with@) =~= rest.skip(1));
                }
            }
            assert(out@ + fill_spec(s@.skip(i as int + 1), with@) =~= out0 + fill_spec(rest, with@));
            i = i + 1;
        }
    }
    assert(s@.skip(n as int) =~= Seq::<char>::empty());
    assert(out@ + Seq::<char>::empty() =~= out@);
    from_chars(&out)
}

pub open spec fn all_digits(s: Seq<char>) -> bool {
    forall|i: int| 0 <= i < s.len() ==> is_digit(#[trigger] s[i])
}

pub open spec fn digits_value(s: Seq<char>) -> int
    decreases s.len(),
{
    if s.len() == 0 {
        0
    } else {
        digits_value(s.drop_last()) * 10 + (s.last() as int - '0' as int)
    }
}

/// `str::parse::<u32>`: an optional `+`, then decimal digits, and no more
/// than a `u32` holds.
pub open spec fn u32_of(s: Seq<char>) -> Option<u32> {
    let d = if s.len() > 0 && s[0] == '+' {
        s.skip(1)
    } else {
        s
    };
    if d.len() > 0 && all_digits(d) && digits_value(d) <= u32::MAX {
        Some(digits_value(d) as u32)
    } else {
        None
    }
}

proof fn lemma_digits_grow(s: Seq<char>, i: int)
    requires
        all_digits(s),
        0 <= i <= s.len(),
    ensures
        digits_value(s.take(i)) <= digits_value(s),
        digits_value(s.take(i)) >= 0,
    decreases s.len() - i,
{
    lemma_digits_nonneg(s.take(i));
    if i < s.len() {
        lemma_digits_grow(s, i + 1);
        assert(s.take(i + 1).drop_last() =~= s.take(i));
    } else {
        assert(s.take(i) =~= s);
    }
}

proof fn lemma_digits_nonneg(s: Seq<char>)
    requires
        all_digits(s),
    ensures
        digits_value(s) >= 0,
    decreases s.len(),
{
    if s.len() > 0 {
        assert(all_digits(s.drop_last()));
        lemma_digits_nonneg(s.drop_last());
    }
}

pub fn parse_u32(s: &str) -> (r: Option<u32>)
    ensures
        r == u32_of(s@),
{
    let sc = chars_of(s);
    let start: usize = if sc.len() > 0 && sc[0] == '+' { 1 } else { 0 };
    let ghost d = if s@.len() > 0 && s@[0] == '+' { s@.skip(1) } else { s@ };
    assert(d =~= s@.skip(start as int));
    let n = sc.len();
    if start == n {
        return None;
    }
    let mut value: u64 = 0;
    let mut i: usize = start;
    assert(d.take(0) =~= Seq::<char>::empty());
    while i < n
        invariant
            sc@ == s@,
            n == sc@.len(),
            start <= i <= n,
            d =~= s@.skip(start as int),
            d == (if s@.len() > 0 && s@[0] == '+' { s@.skip(1) } else { s@ }),
            all_digits(d.take(i - start)),
            value == digits_value(d.take(i - start)),
            value <= u32::MAX,
        decreases n - i,
    {
        let c = sc[i];
        assert(d.take(i - start + 1).drop_last() =~= d.take(i - start));
        assert(d[i - start] == c);
        if !digit(c) {
            assert(!is_digit(d[i - start]));
            assert(!all_digits(d));
            assert(u32_of(s@) is None);
            return None;
        }
        let next = value * 10 + (c as u64 - '0' as u64);
        assert(d.take(i - start + 1).last() == c);
        assert(digits_value(d.take(i - start + 1)) == next);
        assert(all_digits(d.take(i - start + 1)));
        if next > u32::MAX as u64 {
            proof {
                if all_digits(d) {
                    lemma_digits_grow(d, i - start + 1);
                }
            }
            return None;
        }
        value = next;
        i = i + 1;
    }
    assert(d.take(n - start) =~= d);
    Some(value as u32)
}

/// `str::parse::<u64>`: an optional `+`, then at least one digit, and
/// nothing more, within range.
pub open spec fn u64_of(s: Seq<char>) -> Option<u64> {
    let d = if s.len() > 0 && s[0] == '+' {
        s.skip(1)
    } else {
        s
    };
    if d.len() > 0 && all_digits(d) && digits_value(d) <= u64::MAX {
        Some(digits_value(d) as u64)
    } else {
        None
    }
}

pub fn parse_u64(s: &str) -> (r: Option<u64>)
    ensures
        r == u64_of(s@),
{
    let sc = chars_of(s);
    let start: usize = if sc.len() > 0 && sc[0] == '+' { 1 } else { 0 };
    let ghost d = if s@.len() > 0 && s@[0] == '+' { s@.skip(1) } else { s@ };
    assert(d =~= s@.skip(start as int));
    let n = sc.len();
    if start == n {
        return None;
    }
    let mut value: u128 = 0;
    let mut i: usize = start;
    assert(d.take(0) =~= Seq::<char>::empty());
    while i < n
        invariant
            sc@ == s@,
            n == sc@.len(),
            start <= i <= n,
            d =~= s@.skip(start as int),
            d == (if s@.len() > 0 && s@[0] == '+' { s@.skip(1) } else { s@ }),
            all_digits(d.take(i - start)),
            value == digits_value(d.take(i - start)),
            value <= u64::MAX,
        decreases n - i,
    {
        let c = sc[i];
        assert(d.take(i - start + 1).drop_last() =~= d.take(i - start));
        assert(d[i - start] == c);
        if !digit(c) {
            assert(!is_digit(d[i - start]));
            assert(!all_digits(d));
            assert(u64_of(s@) is None);
            return None;
        }
        let next = value * 10 + (c as u128 - '0' as u128);
        assert(d.take(i - start + 1).last() == c);
        assert(digits_value(d.take(i - start + 1)) == next);
        assert(all_digits(d.take(i - start + 1)));
        if next > u64::MAX as u128 {
            proof {
                if all_digits(d) {
                    lemma_digits_grow(d, i - start + 1);
                }
            }
            return None;
        }
        value = next;
        i = i + 1;
    }
    assert(d.take(n - start) =~= d);
    Some(value as u64)
}

/// `str::replace(pat, with)`: every `pat`, left to right and not
/// overlapping, replaced.
pub open spec fn fill_pattern_spec(s: Seq<char>, pat: Seq<char>, with: Seq<char>) -> Seq<char>
    decreases s.len(),
{
    if pat.len() == 0 || s.len() < pat.len() {
        s
    } else if s.take(pat.len() as int) == pat {
        with + fill_pattern_spec(s.skip(pat.len() as int), pat, with)
    } else {
        seq![s[0]] + fill_pattern_spec(s.skip(1), pat, with)
    }
}

pub fn fill_pattern(s: &str, pat: &str, with: &str) -> (r: String)
    ensures
        r@ == fill_pattern_spec(s@, pat@, with@),
{
    let sc = chars_of(s);
    let pc = chars_of(pat);
    let wc = chars_of(with);
    let n = sc.len();
    let k = pc.len();
    if k == 0 {
        return owned(s);
    }
    let mut out: Vec<char> = Vec::new();
    let mut i: usize = 0;
    assert(s@.skip(0) =~= s@);
    assert(out@ + fill_pattern_spec(s@, pat@, with@) =~= fill_pattern_spec(s@, pat@, with@));
    while i < n
        invariant
            sc@ == s@,
            pc@ == pat@,
            wc@ == with@,
            n == sc@.len(),
            k == pc@.len(),
            k > 0,
            i <= n,
            fill_pattern_spec(s@, pat@, with@) == out@ + fill_pattern_spec(
                s@.skip(i as int),
                pat@,
                with@,
            ),
        decreases n - i,
    {
        let ghost rest = s@.skip(i as int);
        let matched = k <= n - i && at_here(&sc, &pc, i);
        if matched {
            assert(sc@.subrange(i as int, i + k) =~= rest.take(k as int));
            let mut j: usize = 0;
            let ghost out0 = out@;
            while j < wc.len()
                invariant
                    wc@ == with@,
                    j <= wc@.len(),
                    out@ == out0 + wc@.take(j as int),
                decreases wc@.len() - j,
            {
                out.push(wc[j]);
                assert(out@ =~= out0 + wc@.take(j as int + 1));
                j = j + 1;
            }
            assert(wc@.take(wc@.len() as int) =~= wc@);
            assert(rest.skip(k as int) =~= s@.skip(i + k));
            assert(out@ + fill_pattern_spec(s@.skip(i + k), pat@, with@) =~= out0
                + fill_pattern_spec(rest, pat@, with@));
            i = i + k;
        } else {
            proof {
                if k <= n - i {
                    assert(sc@.subrange(i as int, i + k) =~= rest.take(k as int));
                }
            }
            let ghost out0 = out@;
            out.push(sc[i]);
            assert(rest.skip(1) =~= s@.skip(i as int + 1));
            proof {
                if rest.len() < pat@.len() {
                    assert(fill_pattern_spec(rest.skip(1), pat@, with@) =~= rest.skip(1));
                    assert(rest =~= seq![sc@[i as int]] + rest.skip(1));
                }
            }
            assert(out@ + fill_pattern_spec(s@.skip(i as int + 1), pat@, with@) =~= out0
                + fill_pattern_spec(rest, pat@, with@));
            i = i + 1;
        }
    }
    assert(s@.skip(n as int) =~= Seq::<char>::empty());
    assert(out@ + Seq::<char>::empty() =~= out@);
    from_chars(&out)
}

pub open spec fn is_ascii_text(s: Seq<char>) -> bool {
    forall|i: int| 0 <= i < s.len() ==> (#[trigger] s[i] as int) < 128
}

pub open spec fn ascii_upper(c: char) -> char {
    if is_lower(c) {
        ((c as int) - 32) as char
    } else {
        c
    }
}

pub open spec fn ascii_lower(c: char) -> char {
    if is_upper(c) {
        ((c as int) + 32) as char
    } else {
        c
    }
}

/// What `str::to_uppercase` makes of text that is not all ASCII: the Unicode
/// case mapping, which can change its length.
pub uninterp spec fn unicode_upper(s: Seq<char>) -> Seq<char>;

/// What `str::to_lowercase` makes of text that is not all ASCII.
pub uninterp spec fn unicode_lower(s: Seq<char>) -> Seq<char>;

/// `str::to_uppercase`: letter by letter on ASCII, and the Unicode mapping
/// otherwise.
pub open spec fn upper_spec(s: Seq<char>) -> Seq<char> {
    if is_ascii_text(s) {
        s.map_values(|c: char| ascii_upper(c))
    } else {
        unicode_upper(s)
    }
}

/// `str::to_lowercase`, the same way round.
pub open spec fn lower_spec(s: Seq<char>) -> Seq<char> {
    if is_ascii_text(s) {
        s.map_values(|c: char| ascii_lower(c))
    } else {
        unicode_lower(s)
    }
}

/// `str::to_uppercase`, for text that is not all ASCII.
#[verifier::external_body]
fn unicode_uppercase(s: &str) -> (r: String)
    ensures
        r@ == unicode_upper(s@),
{
    s.to_uppercase()
}

/// `str::to_lowercase`, for text that is not all ASCII.
#[verifier::external_body]
fn unicode_lowercase(s: &str) -> (r: String)
    ensures
        r@ == unicode_lower(s@),
{
    s.to_lowercase()
}

pub fn ascii_text(s: &str) -> (r: bool)
    ensures
        r == is_ascii_text(s@),
{
    let sc = chars_of(s);
    let mut i: usize = 0;
    while i < sc.len()
        invariant
            sc@ == s@,
            i <= sc@.len(),
            forall|j: int| 0 <= j < i ==> (sc@[j] as int) < 128,
        decreases sc@.len() - i,
    {
        if sc[i] >= '\u{80}' {
            return false;
        }
        i = i + 1;
    }
    true
}

pub fn to_upper(s: &str) -> (r: String)
    ensures
        r@ == upper_spec(s@),
{
    if !ascii_text(s) {
        return unicode_uppercase(s);
    }
    let sc = chars_of(s);
    let mut out: Vec<char> = Vec::new();
    let mut i: usize = 0;
    while i < sc.len()
        invariant
            sc@ == s@,
            is_ascii_text(s@),
            i <= sc@.len(),
            out@ == sc@.take(i as int).map_values(|c: char| ascii_upper(c)),
        decreases sc@.len() - i,
    {
        let c = sc[i];
        assert((c as int) < 128);
        let u = if lower(c) { ((c as u8) - 32) as char } else { c };
        assert(u == ascii_upper(c));
        out.push(u);
        assert(out@ =~= sc@.take(i as int + 1).map_values(|c: char| ascii_upper(c)));
        i = i + 1;
    }
    assert(sc@.take(sc@.len() as int) =~= sc@);
    from_chars(&out)
}

pub fn to_lower(s: &str) -> (r: String)
    ensures
        r@ == lower_spec(s@),
{
    if !ascii_text(s) {
        return unicode_lowercase(s);
    }
    let sc = chars_of(s);
    let mut out: Vec<char> = Vec::new();
    let mut i: usize = 0;
    while i < sc.len()
        invariant
            sc@ == s@,
            is_ascii_text(s@),
            i <= sc@.len(),
            out@ == sc@.take(i as int).map_values(|c: char| ascii_lower(c)),
        decreases sc@.len() - i,
    {
        let c = sc[i];
        assert((c as int) < 128);
        let u = if upper(c) { ((c as u8) + 32) as char } else { c };
        assert(u == ascii_lower(c));
        out.push(u);
        assert(out@ =~= sc@.take(i as int + 1).map_values(|c: char| ascii_lower(c)));
        i = i + 1;
    }
    assert(sc@.take(sc@.len() as int) =~= sc@);
    from_chars(&out)
}

/// What `{:?}` writes for a string: quoted, with what would not read back
/// as itself escaped.
pub uninterp spec fn debug_quoted(s: Seq<char>) -> Seq<char>;

/// `format!("{s:?}")`.
#[verifier::external_body]
pub fn quoted(s: &str) -> (r: String)
    ensures
        r@ == debug_quoted(s@),
{
    format!("{s:?}")
}


/// The digit that stands for `d`.
pub open spec fn digit_char(d: nat) -> char {
    if d == 0 { '0' } else if d == 1 { '1' } else if d == 2 { '2' } else if d == 3 { '3' }
    else if d == 4 { '4' } else if d == 5 { '5' } else if d == 6 { '6' } else if d == 7 { '7' }
    else if d == 8 { '8' } else { '9' }
}

/// `n` written in decimal, as `Display` writes an unsigned integer.
pub open spec fn decimal_spec(n: nat) -> Seq<char>
    decreases n,
{
    if n < 10 {
        seq![digit_char(n)]
    } else {
        decimal_spec(n / 10).push(digit_char(n % 10))
    }
}

/// A number written in decimal reads back as itself: digits only, worth `n`.
pub proof fn lemma_decimal_reads_back(n: nat)
    ensures
        decimal_spec(n).len() > 0,
        all_digits(decimal_spec(n)),
        digits_value(decimal_spec(n)) == n,
        decimal_spec(n)[0] != '+',
    decreases n,
{
    if n < 10 {
        let s = decimal_spec(n);
        assert(s.drop_last() =~= Seq::<char>::empty());
        assert(digits_value(s.drop_last()) == 0);
        assert(digit_char(n) as int - '0' as int == n);
    } else {
        lemma_decimal_reads_back(n / 10);
        let s = decimal_spec(n);
        let front = decimal_spec(n / 10);
        assert(s.drop_last() =~= front);
        assert(s.last() == digit_char(n % 10));
        assert(digit_char(n % 10) as int - '0' as int == n % 10);
        assert(s[0] == front[0]);
        assert forall|i: int| 0 <= i < s.len() implies is_digit(#[trigger] s[i]) by {
            if i < s.len() - 1 {
                assert(s[i] == front[i]);
            }
        }
    }
}

/// A leading zero adds nothing to what the digits are worth.
pub proof fn lemma_leading_zero(s: Seq<char>)
    requires
        all_digits(s),
    ensures
        all_digits(seq!['0'] + s),
        digits_value(seq!['0'] + s) == digits_value(s),
    decreases s.len(),
{
    let z = seq!['0'] + s;
    assert forall|i: int| 0 <= i < z.len() implies is_digit(#[trigger] z[i]) by {
        if i > 0 {
            assert(z[i] == s[i - 1]);
        }
    }
    if s.len() == 0 {
        assert(z.drop_last() =~= Seq::<char>::empty());
        assert(digits_value(z.drop_last()) == 0);
        assert(z.last() == '0');
        assert(digits_value(z) == digits_value(z.drop_last()) * 10 + (z.last() as int - '0' as int));
    } else {
        assert(all_digits(s.drop_last()));
        lemma_leading_zero(s.drop_last());
        assert(z.drop_last() =~= seq!['0'] + s.drop_last());
        assert(z.last() == s.last());
        assert(digits_value(z) == digits_value(z.drop_last()) * 10 + (z.last() as int - '0' as int));
        assert(digits_value(s) == digits_value(s.drop_last()) * 10 + (s.last() as int - '0' as int));
    }
}

fn digit_of(d: u64) -> (c: char)
    requires
        d < 10,
    ensures
        c == digit_char(d as nat),
{
    if d == 0 { '0' } else if d == 1 { '1' } else if d == 2 { '2' } else if d == 3 { '3' }
    else if d == 4 { '4' } else if d == 5 { '5' } else if d == 6 { '6' } else if d == 7 { '7' }
    else if d == 8 { '8' } else { '9' }
}

/// `n.to_string()`.
pub fn decimal(n: u64) -> (r: String)
    ensures
        r@ == decimal_spec(n as nat),
    decreases n,
{
    if n < 10 {
        let mut s = String::new();
        push_char(&mut s, digit_of(n));
        assert(s@ =~= seq![digit_char(n as nat)]);
        s
    } else {
        let mut s = decimal(n / 10);
        push_char(&mut s, digit_of(n % 10));
        s
    }
}

/// `n.to_string()`, for the widest unsigned integer.
pub fn decimal_wide(n: u128) -> (r: String)
    ensures
        r@ == decimal_spec(n as nat),
    decreases n,
{
    if n < 10 {
        let mut s = String::new();
        push_char(&mut s, digit_of(n as u64));
        assert(s@ =~= seq![digit_char(n as nat)]);
        s
    } else {
        let mut s = decimal_wide(n / 10);
        push_char(&mut s, digit_of((n % 10) as u64));
        s
    }
}

/// A signed integer as `to_string` writes it: a minus sign, then the digits
/// of its magnitude.
pub open spec fn signed_decimal_spec(v: int) -> Seq<char> {
    if v < 0 {
        seq!['-'] + decimal_spec((-v) as nat)
    } else {
        decimal_spec(v as nat)
    }
}

pub fn signed_decimal(v: i128) -> (r: String)
    ensures
        r@ == signed_decimal_spec(v as int),
{
    if v < 0 {
        let m: i128 = -(v + 1);
        let magnitude: u128 = (m as u128) + 1;
        assert(magnitude as int == -(v as int));
        let digits = decimal_wide(magnitude);
        let mut s = String::new();
        push_char(&mut s, '-');
        s.append(digits.as_str());
        assert(s@ =~= seq!['-'] + decimal_spec((-(v as int)) as nat));
        s
    } else {
        decimal_wide(v as u128)
    }
}

/// Where the first `p` in `s` starts, where there is one.
pub open spec fn first_index(s: Seq<char>, p: Seq<char>) -> int {
    choose|at: int| first_at(s, p, at)
}

/// Where `p` occurs at all, it has a first occurrence.
pub proof fn lemma_first_occurrence(s: Seq<char>, p: Seq<char>, w: int)
    requires
        occurs_at(s, p, w),
    ensures
        exists|k: int| first_at(s, p, k),
    decreases w,
{
    if forall|j: int| 0 <= j < w ==> !occurs_at(s, p, j) {
        assert(first_at(s, p, w));
    } else {
        let j = choose|j: int| 0 <= j < w && occurs_at(s, p, j);
        lemma_first_occurrence(s, p, j);
    }
}

pub proof fn lemma_first_at_unique(s: Seq<char>, p: Seq<char>, a: int, b: int)
    requires
        first_at(s, p, a),
        first_at(s, p, b),
    ensures
        a == b,
{
    if a < b {
        assert(!occurs_at(s, p, a));
    } else if b < a {
        assert(!occurs_at(s, p, b));
    }
}

/// What follows the first `c` in `s`, or all of `s` where there is none.
pub open spec fn after_first(s: Seq<char>, c: char) -> Seq<char> {
    if holds(s, seq![c]) {
        s.skip(first_index(s, seq![c]) + 1)
    } else {
        s
    }
}

pub fn after_first_exec(s: &str, c: char) -> (r: String)
    ensures
        r@ == after_first(s@, c),
{
    let mut sep = String::new();
    push_char(&mut sep, c);
    assert(sep@ =~= seq![c]);
    match split_once(s, sep.as_str()) {
        Some((_, rest)) => {
            proof {
                let at = choose|at: int| #![trigger first_at(s@, sep@, at)] first_at(s@, sep@, at) && rest@ == s@.skip(at + sep@.len());
                assert(occurs_at(s@, sep@, at));
                assert(holds(s@, seq![c]));
                let f = first_index(s@, seq![c]);
                assert(first_at(s@, seq![c], f));
                lemma_first_at_unique(s@, seq![c], at, f);
            }
            rest
        },
        None => owned(s),
    }
}

/// The first position holding `id`.
pub open spec fn position(ids: Seq<Seq<char>>, id: Seq<char>) -> Option<int> {
    if exists|i: int| 0 <= i < ids.len() && ids[i] == id {
        Some(choose|i: int| 0 <= i < ids.len() && ids[i] == id && forall|j: int| 0 <= j < i ==> ids[j] != id)
    } else {
        None
    }
}

/// What `position` is, once a loop has found the first match or none.
pub proof fn lemma_position(ids: Seq<Seq<char>>, id: Seq<char>, i: int)
    requires
        0 <= i <= ids.len(),
        forall|j: int| 0 <= j < i ==> ids[j] != id,
        i < ids.len() ==> ids[i] == id,
    ensures
        i < ids.len() ==> position(ids, id) == Some(i),
        i == ids.len() ==> position(ids, id) is None,
{
    if i < ids.len() {
        assert(0 <= i < ids.len() && ids[i] == id && forall|j: int| 0 <= j < i ==> ids[j] != id);
        let c = choose|k: int| 0 <= k < ids.len() && ids[k] == id && forall|j: int| 0 <= j < k ==> ids[j] != id;
        if c < i {
            assert(ids[c] != id);
        } else if i < c {
            assert(ids[i] != id);
        }
    }
}

/// The first position marked.
pub open spec fn first_true(marks: Seq<bool>) -> Option<int> {
    if exists|i: int| 0 <= i < marks.len() && marks[i] {
        Some(choose|i: int| 0 <= i < marks.len() && marks[i] && forall|j: int| 0 <= j < i ==> !marks[j])
    } else {
        None
    }
}

/// What `first_true` is, once a loop has found the first mark or none.
pub proof fn lemma_first_true(marks: Seq<bool>, i: int)
    requires
        0 <= i <= marks.len(),
        forall|j: int| 0 <= j < i ==> !marks[j],
        i < marks.len() ==> marks[i],
    ensures
        i < marks.len() ==> first_true(marks) == Some(i),
        i == marks.len() ==> first_true(marks) is None,
{
    if i < marks.len() {
        assert(0 <= i < marks.len() && marks[i] && forall|j: int| 0 <= j < i ==> !marks[j]);
        let c = choose|k: int| 0 <= k < marks.len() && marks[k] && forall|j: int| 0 <= j < k ==> !marks[j];
        if c < i {
            assert(!marks[c]);
        } else if i < c {
            assert(!marks[i]);
        }
    }
}


/// The order `str` compares in: character by character, a prefix first.
pub open spec fn lex_lt(a: Seq<char>, b: Seq<char>) -> bool
    decreases a.len(),
{
    if a.len() == 0 {
        b.len() > 0
    } else if b.len() == 0 {
        false
    } else if a[0] != b[0] {
        a[0] < b[0]
    } else {
        lex_lt(a.skip(1), b.skip(1))
    }
}

pub proof fn lemma_lex_irreflexive(a: Seq<char>)
    ensures
        !lex_lt(a, a),
    decreases a.len(),
{
    if a.len() > 0 {
        lemma_lex_irreflexive(a.skip(1));
    }
}

pub proof fn lemma_lex_total(a: Seq<char>, b: Seq<char>)
    ensures
        a == b || lex_lt(a, b) || lex_lt(b, a),
    decreases a.len(),
{
    if a.len() > 0 && b.len() > 0 && a[0] == b[0] {
        lemma_lex_total(a.skip(1), b.skip(1));
        if a.skip(1) == b.skip(1) {
            assert(a =~= seq![a[0]] + a.skip(1));
            assert(b =~= seq![b[0]] + b.skip(1));
        }
    } else if a.len() == 0 && b.len() == 0 {
        assert(a =~= b);
    }
}

pub proof fn lemma_lex_asymmetric(a: Seq<char>, b: Seq<char>)
    ensures
        !(lex_lt(a, b) && lex_lt(b, a)),
    decreases a.len(),
{
    if a.len() > 0 && b.len() > 0 && a[0] == b[0] {
        lemma_lex_asymmetric(a.skip(1), b.skip(1));
    }
}

pub proof fn lemma_lex_transitive(a: Seq<char>, b: Seq<char>, c: Seq<char>)
    requires
        lex_lt(a, b),
        lex_lt(b, c),
    ensures
        lex_lt(a, c),
    decreases a.len(),
{
    if a.len() > 0 && b.len() > 0 && c.len() > 0 && a[0] == b[0] && b[0] == c[0] {
        lemma_lex_transitive(a.skip(1), b.skip(1), c.skip(1));
    }
}

/// Whether `a` orders before `b`.
pub fn lex_less(a: &str, b: &str) -> (r: bool)
    ensures
        r == lex_lt(a@, b@),
{
    let ac = chars_of(a);
    let bc = chars_of(b);
    let mut i: usize = 0;
    assert(a@.skip(0) =~= a@);
    assert(b@.skip(0) =~= b@);
    while i < ac.len() && i < bc.len() && ac[i] == bc[i]
        invariant
            ac@ == a@,
            bc@ == b@,
            i <= ac@.len(),
            i <= bc@.len(),
            lex_lt(a@, b@) == lex_lt(a@.skip(i as int), b@.skip(i as int)),
        decreases ac@.len() - i,
    {
        assert(a@.skip(i as int).skip(1) =~= a@.skip(i as int + 1));
        assert(b@.skip(i as int).skip(1) =~= b@.skip(i as int + 1));
        i = i + 1;
    }
    if i == ac.len() {
        i < bc.len()
    } else if i == bc.len() {
        false
    } else {
        ac[i] < bc[i]
    }
}

/// Whether `s` ascends strictly.
pub open spec fn ascending(s: Seq<Seq<char>>) -> bool {
    forall|i: int, j: int| 0 <= i < j < s.len() ==> lex_lt(#[trigger] s[i], #[trigger] s[j])
}

/// How many of `names` order after `x`.
pub open spec fn count_above(names: Seq<Seq<char>>, x: Seq<char>) -> nat
    decreases names.len(),
{
    if names.len() == 0 {
        0
    } else {
        count_above(names.drop_last(), x) + if lex_lt(x, names.last()) { 1nat } else { 0nat }
    }
}

proof fn lemma_count_above_drops(names: Seq<Seq<char>>, lo: Seq<char>, m: Seq<char>)
    requires
        lex_lt(lo, m),
        names.contains(m),
    ensures
        count_above(names, m) < count_above(names, lo),
    decreases names.len(),
{
    lemma_count_above_le(names.drop_last(), lo, m);
    if names.last() == m {
        lemma_lex_irreflexive(m);
    } else {
        let w = choose|w: int| 0 <= w < names.len() && names[w] == m;
        assert(names.drop_last()[w] == m);
        lemma_count_above_drops(names.drop_last(), lo, m);
        if lex_lt(m, names.last()) {
            lemma_lex_transitive(lo, m, names.last());
        }
    }
}

proof fn lemma_count_above_le(names: Seq<Seq<char>>, lo: Seq<char>, m: Seq<char>)
    requires
        lex_lt(lo, m),
    ensures
        count_above(names, m) <= count_above(names, lo),
    decreases names.len(),
{
    if names.len() > 0 {
        lemma_count_above_le(names.drop_last(), lo, m);
        if lex_lt(m, names.last()) {
            lemma_lex_transitive(lo, m, names.last());
        }
    }
}

/// The distinct names in `str` order.
pub fn sorted_distinct(names: &Vec<String>) -> (r: Vec<String>)
    ensures
        ascending(views(r@)),
        forall|x: Seq<char>| #[trigger] views(r@).contains(x) <==> views(names@).contains(x),
{
    let ghost all = views(names@);
    let mut out: Vec<String> = Vec::new();
    let mut done = false;
    let mut last: String = String::new();
    let mut started = false;
    while !done
        invariant
            all == views(names@),
            ascending(views(out@)),
            started == (out@.len() > 0),
            started ==> last@ == views(out@).last(),
            forall|x: Seq<char>| #[trigger] views(out@).contains(x) ==> all.contains(x),
            forall|x: Seq<char>| #[trigger] all.contains(x) && started && !lex_lt(last@, x) ==> views(out@).contains(x),
            done ==> forall|x: Seq<char>| #[trigger] all.contains(x) ==> views(out@).contains(x),
        decreases (if done { 0nat } else { 1nat + if started { count_above(all, last@) } else { all.len() + 1 } }),
    {
        let mut best: Option<usize> = None;
        let mut i: usize = 0;
        while i < names.len()
            invariant
                all == views(names@),
                i <= names@.len(),
                started ==> last@ == views(out@).last(),
                best matches Some(b) ==> b < i && (!started || lex_lt(last@, all[b as int])),
                best matches Some(b) ==> forall|j: int| 0 <= j < i && (!started || lex_lt(last@, all[j])) ==> !lex_lt(all[j], all[b as int]),
                best is None ==> forall|j: int| 0 <= j < i ==> !(!started || lex_lt(last@, all[j])),
            decreases names@.len() - i,
        {
            assert(all[i as int] == names@[i as int]@);
            let above = !started || lex_less(last.as_str(), names[i].as_str());
            if above {
                match best {
                    Some(b) => {
                        assert(all[b as int] == names@[b as int]@);
                        if lex_less(names[i].as_str(), names[b].as_str()) {
                            proof {
                                assert forall|j: int| 0 <= j < i + 1 && (!started || lex_lt(last@, all[j])) implies !lex_lt(all[j], all[i as int]) by {
                                    if j < i {
                                        if lex_lt(all[j], all[i as int]) {
                                            lemma_lex_transitive(all[j], all[i as int], all[b as int]);
                                        }
                                    } else {
                                        lemma_lex_irreflexive(all[i as int]);
                                    }
                                }
                            }
                            best = Some(i);
                        } else {
                            proof {
                                assert forall|j: int| 0 <= j < i + 1 && (!started || lex_lt(last@, all[j])) implies !lex_lt(all[j], all[b as int]) by {
                                    if j == i {
                                        assert(!lex_lt(all[i as int], all[b as int]));
                                    }
                                }
                            }
                        }
                    },
                    None => {
                        proof {
                            assert forall|j: int| 0 <= j < i + 1 && (!started || lex_lt(last@, all[j])) implies !lex_lt(all[j], all[i as int]) by {
                                if j == i {
                                    lemma_lex_irreflexive(all[i as int]);
                                }
                            }
                        }
                        best = Some(i);
                    },
                }
            }
            i = i + 1;
        }
        match best {
            None => {
                proof {
                    assert forall|x: Seq<char>| #[trigger] all.contains(x) implies views(out@).contains(x) by {
                        let w = choose|w: int| 0 <= w < all.len() && all[w] == x;
                        assert(!(!started || lex_lt(last@, all[w])));
                    }
                }
                done = true;
            },
            Some(b) => {
                let ghost m = all[b as int];
                let ghost prior = views(out@);
                let ghost old_count = if started { count_above(all, last@) } else { all.len() + 1 };
                assert(names@[b as int]@ == m);
                proof {
                    assert(all.contains(m)) by {
                        assert(all[b as int] == m);
                    }
                    if started {
                        lemma_count_above_drops(all, last@, m);
                    } else {
                        lemma_count_above_bound(all, m);
                    }
                }
                out.push(names[b].clone());
                last = names[b].clone();
                started = true;
                proof {
                    assert(views(out@) =~= prior.push(m));
                    assert forall|p: int, q: int| 0 <= p < q < views(out@).len() implies lex_lt(#[trigger] views(out@)[p], #[trigger] views(out@)[q]) by {
                        if q == prior.len() {
                            if p < prior.len() - 1 {
                                lemma_lex_transitive(prior[p], prior.last(), m);
                            }
                        } else {
                            assert(views(out@)[p] == prior[p]);
                            assert(views(out@)[q] == prior[q]);
                        }
                    }
                    assert forall|x: Seq<char>| #[trigger] views(out@).contains(x) implies all.contains(x) by {
                        let w = choose|w: int| 0 <= w < views(out@).len() && views(out@)[w] == x;
                        if w < prior.len() {
                            assert(prior[w] == x);
                            assert(prior.contains(x));
                        }
                    }
                    assert forall|x: Seq<char>| #[trigger] all.contains(x) && !lex_lt(m, x) implies views(out@).contains(x) by {
                        lemma_lex_total(m, x);
                        if x == m {
                            assert(views(out@)[prior.len() as int] == m);
                        } else {
                            let w = choose|w: int| 0 <= w < all.len() && all[w] == x;
                            assert(lex_lt(x, m));
                            if prior.len() > 0 && !lex_lt(prior.last(), x) {
                                assert(prior.contains(x));
                                let v = choose|v: int| 0 <= v < prior.len() && prior[v] == x;
                                assert(views(out@)[v] == x);
                            } else {
                                assert(!lex_lt(all[w], m));
                            }
                        }
                    }
                }
            },
        }
    }
    out
}

proof fn lemma_count_above_bound(names: Seq<Seq<char>>, x: Seq<char>)
    ensures
        count_above(names, x) <= names.len(),
    decreases names.len(),
{
    if names.len() > 0 {
        lemma_count_above_bound(names.drop_last(), x);
    }
}

/// `str::eq_ignore_ascii_case`: the same text once ASCII letters are
/// lowercased.
pub open spec fn same_ignoring_case(a: Seq<char>, b: Seq<char>) -> bool {
    a.len() == b.len() && forall|i: int| 0 <= i < a.len() ==> ascii_lower(#[trigger] a[i]) == ascii_lower(b[i])
}

pub fn lower_char(c: char) -> (r: char)
    ensures
        r == ascii_lower(c),
{
    if upper(c) {
        ((c as u8) + 32) as char
    } else {
        c
    }
}

pub fn eq_ignore_case(a: &str, b: &str) -> (r: bool)
    ensures
        r == same_ignoring_case(a@, b@),
{
    let ac = crate::text::chars_of(a);
    let bc = crate::text::chars_of(b);
    if ac.len() != bc.len() {
        return false;
    }
    let mut i: usize = 0;
    while i < ac.len()
        invariant
            ac@ == a@,
            bc@ == b@,
            ac@.len() == bc@.len(),
            i <= ac@.len(),
            forall|j: int| 0 <= j < i ==> ascii_lower(#[trigger] a@[j]) == ascii_lower(b@[j]),
        decreases ac@.len() - i,
    {
        if lower_char(ac[i]) != lower_char(bc[i]) {
            return false;
        }
        i = i + 1;
    }
    true
}



proof fn first_from(ids: Seq<Seq<char>>, id: Seq<char>, k: int) -> (r: int)
    requires
        0 <= k <= ids.len(),
        exists|j: int| k <= j < ids.len() && ids[j] == id,
        forall|j: int| 0 <= j < k ==> ids[j] != id,
    ensures
        k <= r < ids.len(),
        ids[r] == id,
        forall|j: int| 0 <= j < r ==> ids[j] != id,
    decreases ids.len() - k,
{
    if ids[k] == id {
        k
    } else {
        first_from(ids, id, k + 1)
    }
}

/// What `position` finds is where `id` first is.
pub proof fn lemma_position_found(ids: Seq<Seq<char>>, id: Seq<char>)
    ensures
        position(ids, id) matches Some(i) ==> 0 <= i < ids.len() && ids[i] == id,
        position(ids, id) is None <==> !ids.contains(id),
{
    if exists|j: int| 0 <= j < ids.len() && ids[j] == id {
        let r = first_from(ids, id, 0);
        lemma_position(ids, id, r);
    }
}

} // verus!
