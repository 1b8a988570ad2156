//! What no flag gave. Every command takes flags for everything it needs; this
//! fills what they left empty from the answers a run was given, and names the
//! flag when there are none.
//!
//! A prompt here answers from a script or not at all; reading a terminal is
//! the program's, which hands each line it reads to `settle`.

use crate::text::{cat, cat3, cat4, cat5, owned, trim};
use vstd::prelude::*;

verus! {

/// A file of answers, one per line, which a run answers from instead of asking.
pub const SCRIPT: &'static str = "TECT_ANSWERS";

pub struct Prompt {
    pub ask: bool,
    /// Whether an answer may be asked for with a widget rather than plain
    /// lines, which redirected output rules out.
    pub draw: bool,
    /// The answers a scripted run reads.
    pub script: Option<Vec<String>>,
    /// How far through them it is.
    pub at: usize,
    /// What a scripted run shows, line by line, for the program to print.
    pub transcript: Vec<String>,
}

/// What a question settles to once the answer is in: the answer, else the
/// default, else a failure naming the flag.
pub open spec fn settled(answer: Seq<char>, default: Option<Seq<char>>, flag: Seq<char>, question: Seq<char>) -> Result<Seq<char>, Seq<char>> {
    if answer.len() > 0 {
        Ok(answer)
    } else {
        match default {
            Some(d) => Ok(d),
            None => Err("give "@ + flag + ", since nothing can be asked here: "@ + question),
        }
    }
}

pub open spec fn result_view(r: Result<String, String>) -> Result<Seq<char>, Seq<char>> {
    match r {
        Ok(s) => Ok(s@),
        Err(e) => Err(e@),
    }
}

pub open spec fn opt_view(o: Option<&str>) -> Option<Seq<char>> {
    match o {
        Some(s) => Some(s@),
        None => None,
    }
}

/// Whether a flag gave something.
pub open spec fn given_text(given: Option<String>) -> bool {
    given is Some && given->0@.len() > 0
}

/// The question as it is put, with the default shown where there is one.
pub open spec fn put(question: Seq<char>, default: Option<Seq<char>>) -> Seq<char> {
    match default {
        Some(d) => question + " ["@ + d + "]"@,
        None => question,
    }
}

/// How far through its answers a prompt is once it has read one: one
/// further where there was one left, where it was otherwise.
pub open spec fn after_reading(p: Prompt) -> usize {
    match p.script {
        Some(answers) => if p.at < answers@.len() {
            (p.at + 1) as usize
        } else {
            p.at
        },
        None => p.at,
    }
}

/// What `text` answers: the flag where it gave something, else the
/// settled answer read from the script, or the default where nobody can be
/// asked.
pub open spec fn text_spec(
    p: Prompt,
    given: Option<String>,
    question: Seq<char>,
    flag: Seq<char>,
    default: Option<Seq<char>>,
) -> Result<Seq<char>, Seq<char>> {
    if given_text(given) {
        Ok(given->0@)
    } else if !p.ask {
        settled(Seq::empty(), default, flag, question)
    } else {
        match p.script {
            Some(answers) => if p.at < answers@.len() {
                settled(crate::text::trim_spec(answers@[p.at as int]@), default, flag, question)
            } else {
                Err(ran_out(put(question, default)))
            },
            None => Err(ran_out(put(question, default))),
        }
    }
}

/// What a scripted run with no answer left fails with.
pub open spec fn ran_out(question: Seq<char>) -> Seq<char> {
    "nothing left in TECT_ANSWERS to answer `"@ + question + "` with"@
}

impl Prompt {
    /// Nobody to ask: every missing value fails naming its flag.
    pub fn silent() -> (r: Prompt)
        ensures
            !r.ask,
            !r.draw,
            r.script is None,
    {
        Prompt { ask: false, draw: false, script: None, at: 0, transcript: Vec::new() }
    }

    /// The answers in order, whatever the terminal is. A question they run out
    /// for fails, so an unexpected one is a failure rather than a wait.
    pub fn scripted(answers: Vec<String>) -> (r: Prompt)
        ensures
            r.ask,
            !r.draw,
            r.script == Some(answers),
            r.at == 0,
    {
        Prompt { ask: true, draw: false, script: Some(answers), at: 0, transcript: Vec::new() }
    }

    /// Whether there is anyone to ask.
    pub fn asks(&self) -> (r: bool)
        ensures
            r == self.ask,
    {
        self.ask
    }

    /// Whether an answer may be drawn.
    pub fn draws(&self) -> (r: bool)
        ensures
            r == self.draw,
    {
        self.draw
    }

    /// The next scripted answer, trimmed, with the line it is shown as.
    fn answer(&mut self, question: &str, shown: &str) -> (r: Result<String, String>)
        ensures
            final(self).ask == old(self).ask,
            final(self).draw == old(self).draw,
            final(self).script == old(self).script,
            match old(self).script {
                Some(answers) => if old(self).at < answers@.len() {
                    r matches Ok(a) && a@ == crate::text::trim_spec(answers@[old(self).at as int]@)
                        && final(self).at == old(self).at + 1
                } else {
                    r matches Err(e) && e@ == ran_out(question@) && final(self).at == old(self).at
                },
                None => r matches Err(e) && e@ == ran_out(question@) && final(self).at == old(self).at,
            },
    {
        let next: Option<String> = match &self.script {
            Some(answers) => if self.at < answers.len() {
                Some(answers[self.at].clone())
            } else {
                None
            },
            None => None,
        };
        match next {
            Some(line) => {
                self.at = self.at + 1;
                self.transcript.push(cat(shown, line.as_str()));
                Ok(trim(line.as_str()))
            },
            None => Err(cat3("nothing left in TECT_ANSWERS to answer `", question, "` with")),
        }
    }

    /// What a question settles to once `answer` is what was typed.
    pub fn settle(answer: String, default: Option<&str>, flag: &str, question: &str) -> (r: Result<String, String>)
        ensures
            result_view(r) == settled(answer@, opt_view(default), flag@, question@),
    {
        if answer.unicode_len() > 0 {
            return Ok(answer);
        }
        match default {
            Some(d) => Ok(owned(d)),
            None => Err(cat4("give ", flag, ", since nothing can be asked here: ", question)),
        }
    }

    /// What the flag gave, else the answer, else the default, else a failure
    /// naming `flag`.
    pub fn text(
        &mut self,
        given: Option<String>,
        question: &str,
        flag: &str,
        default: Option<&str>,
    ) -> (r: Result<String, String>)
        ensures
            final(self).ask == old(self).ask,
            final(self).script == old(self).script,
            final(self).at == (if given_text(given) || !old(self).ask { old(self).at } else { after_reading(*old(self)) }),
            given_text(given) ==> r == Ok::<String, String>(given->0),
            result_view(r) == text_spec(*old(self), given, question@, flag@, opt_view(default)),
            !given_text(given) && !old(self).ask ==> result_view(r) == settled(
                Seq::empty(),
                opt_view(default),
                flag@,
                question@,
            ),
            !given_text(given) && old(self).ask ==> match old(self).script {
                Some(answers) => if old(self).at < answers@.len() {
                    result_view(r) == settled(
                        crate::text::trim_spec(answers@[old(self).at as int]@),
                        opt_view(default),
                        flag@,
                        question@,
                    )
                } else {
                    result_view(r) == Err::<Seq<char>, Seq<char>>(ran_out(put(question@, opt_view(default))))
                },
                None => result_view(r) == Err::<Seq<char>, Seq<char>>(ran_out(put(question@, opt_view(default)))),
            },
    {
        if let Some(value) = given {
            if value.unicode_len() > 0 {
                return Ok(value);
            }
        }
        if !self.ask {
            return Prompt::settle(String::new(), default, flag, question);
        }
        let asked = match default {
            Some(d) => cat4(question, " [", d, "]"),
            None => owned(question),
        };
        let shown = cat(asked.as_str(), ": ");
        let answer = self.answer(asked.as_str(), shown.as_str())?;
        Prompt::settle(answer, default, flag, question)
    }

    /// The same, asked over two lines: the question on its own, the answer
    /// typed after `prefix`, so what the answer belongs to stays visible.
    pub fn line(
        &mut self,
        given: Option<String>,
        question: &str,
        flag: &str,
        prefix: &str,
        default: Option<&str>,
    ) -> (r: Result<String, String>)
        ensures
            final(self).ask == old(self).ask,
            final(self).script == old(self).script,
            final(self).at == (if given_text(given) || !old(self).ask { old(self).at } else { after_reading(*old(self)) }),
            given_text(given) ==> r == Ok::<String, String>(given->0),
            !given_text(given) && !old(self).ask ==> result_view(r) == settled(
                Seq::empty(),
                opt_view(default),
                flag@,
                question@,
            ),
            !given_text(given) && old(self).ask ==> match old(self).script {
                Some(answers) => if old(self).at < answers@.len() {
                    result_view(r) == settled(
                        crate::text::trim_spec(answers@[old(self).at as int]@),
                        opt_view(default),
                        flag@,
                        question@,
                    )
                } else {
                    result_view(r) == Err::<Seq<char>, Seq<char>>(ran_out(put(question@, opt_view(default))))
                },
                None => result_view(r) == Err::<Seq<char>, Seq<char>>(ran_out(put(question@, opt_view(default)))),
            },
    {
        if let Some(value) = given {
            if value.unicode_len() > 0 {
                return Ok(value);
            }
        }
        if !self.ask {
            return Prompt::settle(String::new(), default, flag, question);
        }
        let asked = match default {
            Some(d) => cat4(question, " [", d, "]"),
            None => owned(question),
        };
        let shown = cat3(asked.as_str(), "\n", prefix);
        let answer = self.answer(asked.as_str(), shown.as_str())?;
        Prompt::settle(answer, default, flag, question)
    }
}


/// What a numbered list answers by: `1` for one option, `1-n` for more.
pub open spec fn range_spec(n: nat) -> Seq<char> {
    if n == 1 {
        "1"@
    } else {
        "1-"@ + crate::text::decimal_spec(n)
    }
}

/// The question a numbered list is put as.
pub open spec fn numbered_question(question: Seq<char>, n: nat) -> Seq<char> {
    question + " ["@ + range_spec(n) + ", 0 for none]"@
}

/// What one answer to a numbered list picks: none for `0`, the option it
/// numbers, else the option it names.
pub open spec fn picked(answer: Seq<char>, labels: Seq<Seq<char>>) -> Result<Option<int>, Seq<char>> {
    match crate::text::u32_of(answer) {
        Some(n) => if n == 0 {
            Ok(None)
        } else if n <= labels.len() {
            Ok(Some(n - 1))
        } else {
            match crate::text::position(labels, answer) {
                Some(i) => Ok(Some(i)),
                None => Err("`"@ + answer + "` is not one of them"@),
            }
        },
        None => match crate::text::position(labels, answer) {
            Some(i) => Ok(Some(i)),
            None => Err("`"@ + answer + "` is not one of them"@),
        },
    }
}

pub open spec fn pick_view(r: Result<Option<usize>, String>) -> Result<Option<int>, Seq<char>> {
    match r {
        Ok(Some(i)) => Ok(Some(i as int)),
        Ok(None) => Ok(None),
        Err(e) => Err(e@),
    }
}

/// What `choose_from` answers from a script.
pub open spec fn choose_spec(p: Prompt, question: Seq<char>, labels: Seq<Seq<char>>) -> Result<Option<int>, Seq<char>> {
    if !p.ask || labels.len() == 0 {
        Ok(None)
    } else {
        match p.script {
            Some(answers) => if p.at < answers@.len() {
                picked(crate::text::trim_spec(answers@[p.at as int]@), labels)
            } else {
                Err(ran_out(numbered_question(question, labels.len())))
            },
            None => Err(ran_out(numbered_question(question, labels.len()))),
        }
    }
}

fn label_index(options: &[crate::ui::Choice], answer: &str) -> (r: Option<usize>)
    ensures
        match crate::text::position(crate::ui::choice_labels(options@), answer@) {
            Some(i) => r matches Some(k) && k as int == i && k < options@.len(),
            None => r is None,
        },
{
    let mut i: usize = 0;
    while i < options.len()
        invariant
            i <= options@.len(),
            forall|j: int| 0 <= j < i ==> crate::ui::choice_labels(options@)[j] != answer@,
        decreases options@.len() - i,
    {
        if crate::text::same(options[i].label.as_str(), answer) {
            proof {
                crate::text::lemma_position(crate::ui::choice_labels(options@), answer@, i as int);
            }
            return Some(i);
        }
        i = i + 1;
    }
    proof {
        crate::text::lemma_position(crate::ui::choice_labels(options@), answer@, i as int);
    }
    None
}

impl Prompt {
    /// One of a set, or none of them, answered from the numbered list by
    /// number or by name. The list itself goes into the transcript.
    pub fn choose_from(&mut self, question: &str, options: &[crate::ui::Choice]) -> (r: Result<Option<usize>, String>)
        ensures
            final(self).ask == old(self).ask,
            final(self).script == old(self).script,
            final(self).at == (if !old(self).ask || options@.len() == 0 { old(self).at } else { after_reading(*old(self)) }),
            pick_view(r) == choose_spec(*old(self), question@, crate::ui::choice_labels(options@)),
            r matches Ok(Some(i)) ==> i < options@.len(),
    {
        if !self.ask || options.len() == 0 {
            return Ok(None);
        }
        let n = options.len();
        let mut i: usize = 0;
        while i < n
            invariant
                n == options@.len(),
                i <= n,
                self.ask == old(self).ask,
                self.script == old(self).script,
                self.at == old(self).at,
            decreases n - i,
        {
            let number = crate::text::decimal((i + 1) as u64);
            let line = cat4("  ", number.as_str(), ") ", options[i].label.as_str());
            let shown = if options[i].detail.unicode_len() > 0 {
                cat3(line.as_str(), "  ", options[i].detail.as_str())
            } else {
                line
            };
            self.transcript.push(shown);
            i = i + 1;
        }
        let range = if n == 1 {
            owned("1")
        } else {
            let count = crate::text::decimal(n as u64);
            cat("1-", count.as_str())
        };
        let put = cat4(question, " [", range.as_str(), ", 0 for none]");
        let shown = cat(put.as_str(), ": ");
        let answer = self.answer(put.as_str(), shown.as_str())?;
        match crate::text::parse_u32(answer.as_str()) {
            Some(k) => {
                if k == 0 {
                    return Ok(None);
                }
                if (k as u64) <= (n as u64) {
                    return Ok(Some((k - 1) as usize));
                }
            },
            None => {},
        }
        match label_index(options, answer.as_str()) {
            Some(at) => Ok(Some(at)),
            None => Err(cat3("`", answer.as_str(), "` is not one of them")),
        }
    }
}


/// Whether `c` parts the words of a multiple answer.
pub open spec fn parts(c: char) -> bool {
    c == ' ' || c == ','
}

pub open spec fn pick_words_acc(s: Seq<char>) -> (Seq<Seq<char>>, Seq<char>)
    decreases s.len(),
{
    if s.len() == 0 {
        (Seq::empty(), Seq::empty())
    } else {
        let (w, c) = pick_words_acc(s.drop_last());
        if parts(s.last()) {
            if c.len() > 0 {
                (w.push(c), Seq::empty())
            } else {
                (w, Seq::empty())
            }
        } else {
            (w, c.push(s.last()))
        }
    }
}

/// The words of an answer that may pick several: the runs between spaces
/// and commas.
pub open spec fn pick_words(s: Seq<char>) -> Seq<Seq<char>> {
    let (w, c) = pick_words_acc(s);
    if c.len() > 0 {
        w.push(c)
    } else {
        w
    }
}

/// What one word picks: `-1` for `0`, which picks nothing at all.
pub open spec fn pick_of(word: Seq<char>, labels: Seq<Seq<char>>) -> Result<int, Seq<char>> {
    match crate::text::u32_of(word) {
        Some(n) if n == 0 => Ok(-1),
        Some(n) if n <= labels.len() => Ok(n - 1),
        _ => match crate::text::position(labels, word) {
            Some(i) => Ok(i),
            None => Err("`"@ + word + "` is not one of them"@),
        },
    }
}

fn pick_one(word: &str, options: &[crate::ui::Choice]) -> (r: Result<Option<usize>, String>)
    ensures
        match pick_of(word@, crate::ui::choice_labels(options@)) {
            Ok(i) => if i < 0 {
                r == Ok::<Option<usize>, String>(None)
            } else {
                r matches Ok(Some(j)) && j as int == i && j < options@.len()
            },
            Err(e) => r matches Err(f) && f@ == e,
        },
{
    let n = options.len();
    match crate::text::parse_u32(word) {
        Some(v) => {
            if v == 0 {
                return Ok(None);
            }
            if (v as u64) <= (n as u64) {
                return Ok(Some((v - 1) as usize));
            }
        },
        None => {},
    }
    match label_index(options, word) {
        Some(i) => Ok(Some(i)),
        None => Err(cat3("`", word, "` is not one of them")),
    }
}

/// What the words from `k` on pick, after `chosen`: `0` picks nothing at
/// all, a number the option it numbers, anything else the option it names;
/// an option picked twice counts once.
pub open spec fn picked_many(words: Seq<Seq<char>>, labels: Seq<Seq<char>>, k: int, chosen: Seq<int>) -> Result<Seq<int>, Seq<char>>
    decreases words.len() - k,
{
    if k < 0 || k >= words.len() {
        Ok(chosen)
    } else {
        match pick_of(words[k], labels) {
            Err(e) => Err(e),
            Ok(i) => if i < 0 {
                Ok(Seq::empty())
            } else if chosen.contains(i) {
                picked_many(words, labels, k + 1, chosen)
            } else {
                picked_many(words, labels, k + 1, chosen.push(i))
            },
        }
    }
}

/// The question a list that takes several is put as.
pub open spec fn several_question(question: Seq<char>, n: nat) -> Seq<char> {
    question + " ["@ + range_spec(n) + (if n == 1 {
        ""@
    } else {
        ", several"@
    }) + ", 0 for none]"@
}

/// What `choose_many` answers from a script.
pub open spec fn choose_many_spec(p: Prompt, question: Seq<char>, labels: Seq<Seq<char>>) -> Result<Seq<int>, Seq<char>> {
    if !p.ask || labels.len() == 0 {
        Ok(Seq::empty())
    } else {
        match p.script {
            Some(answers) => if p.at < answers@.len() {
                picked_many(pick_words(crate::text::trim_spec(answers@[p.at as int]@)), labels, 0, Seq::empty())
            } else {
                Err(ran_out(several_question(question, labels.len())))
            },
            None => Err(ran_out(several_question(question, labels.len()))),
        }
    }
}

pub open spec fn picks_view(r: Result<Vec<usize>, String>) -> Result<Seq<int>, Seq<char>> {
    match r {
        Ok(v) => Ok(v@.map_values(|i: usize| i as int)),
        Err(e) => Err(e@),
    }
}

fn split_picks(s: &str) -> (r: Vec<String>)
    ensures
        crate::text::views(r@) == pick_words(s@),
{
    let sc = crate::text::chars_of(s);
    let mut done: Vec<String> = Vec::new();
    let mut cur: Vec<char> = Vec::new();
    let mut i: usize = 0;
    assert(sc@.take(0) =~= Seq::<char>::empty());
    while i < sc.len()
        invariant
            sc@ == s@,
            i <= sc@.len(),
            (crate::text::views(done@), cur@) == pick_words_acc(sc@.take(i as int)),
        decreases sc@.len() - i,
    {
        let c = sc[i];
        let ghost done0 = crate::text::views(done@);
        let ghost cur0 = cur@;
        assert(sc@.take(i as int + 1).drop_last() =~= sc@.take(i as int));
        assert(sc@.take(i as int + 1).last() == c);
        if c == ' ' || c == ',' {
            if cur.len() > 0 {
                let piece = crate::text::from_chars(&cur);
                done.push(piece);
                assert(crate::text::views(done@) =~= done0.push(cur0));
            }
            cur = Vec::new();
        } else {
            cur.push(c);
        }
        i = i + 1;
    }
    assert(sc@.take(sc@.len() as int) =~= sc@);
    if cur.len() > 0 {
        let ghost done0 = crate::text::views(done@);
        let piece = crate::text::from_chars(&cur);
        done.push(piece);
        assert(crate::text::views(done@) =~= done0.push(cur@));
    }
    done
}

fn picked_all(words: &Vec<String>, options: &[crate::ui::Choice]) -> (r: Result<Vec<usize>, String>)
    ensures
        picks_view(r) == picked_many(crate::text::views(words@), crate::ui::choice_labels(options@), 0, Seq::empty()),
{
    let ghost ws = crate::text::views(words@);
    let ghost labels = crate::ui::choice_labels(options@);
    let mut chosen: Vec<usize> = Vec::new();
    assert(chosen@.map_values(|i: usize| i as int) =~= Seq::<int>::empty());
    let mut k: usize = 0;
    while k < words.len()
        invariant
            ws == crate::text::views(words@),
            labels == crate::ui::choice_labels(options@),
            labels.len() == options@.len(),
            k <= words@.len(),
            forall|j: int| 0 <= j < chosen@.len() ==> chosen@[j] < options@.len(),
            picked_many(ws, labels, 0, Seq::empty()) == picked_many(ws, labels, k as int, chosen@.map_values(|i: usize| i as int)),
        decreases words@.len() - k,
    {
        let ghost cv = chosen@.map_values(|i: usize| i as int);
        let word = &words[k];
        assert(ws[k as int] == word@);
        let at: usize = match pick_one(word.as_str(), options) {
            Ok(Some(i)) => i,
            Ok(None) => {
                assert(Seq::<usize>::empty().map_values(|i: usize| i as int) =~= Seq::<int>::empty());
                return Ok(Vec::new());
            },
            Err(e) => {
                return Err(e);
            },
        };
        let mut seen = false;
        let mut j: usize = 0;
        while j < chosen.len()
            invariant
                j <= chosen@.len(),
                seen == exists|x: int| 0 <= x < j && chosen@[x] == at,
            decreases chosen@.len() - j,
        {
            if chosen[j] == at {
                seen = true;
            }
            j = j + 1;
        }
        proof {
            if seen {
                let x = choose|x: int| 0 <= x < chosen@.len() && chosen@[x] == at;
                assert(cv[x] == at as int);
            } else if cv.contains(at as int) {
                let x = choose|x: int| 0 <= x < cv.len() && cv[x] == at as int;
                assert(chosen@[x] == at);
            }
        }
        if !seen {
            chosen.push(at);
            assert(chosen@.map_values(|i: usize| i as int) =~= cv.push(at as int));
        }
        k = k + 1;
    }
    Ok(chosen)
}

/// The first character of an answer, lowercased, where it has one.
pub open spec fn first_lower(s: Seq<char>) -> Option<char> {
    if s.len() == 0 {
        None
    } else {
        Some(crate::text::ascii_lower(s[0]))
    }
}

/// What `confirm` answers from a script: no with nobody to ask, else
/// whether the answer does not start the way the no answer does.
pub open spec fn confirm_spec(p: Prompt, question: Seq<char>, yes: Seq<char>, no: Seq<char>) -> Result<bool, Seq<char>> {
    if !p.ask {
        Ok(false)
    } else {
        match p.script {
            Some(answers) => if p.at < answers@.len() {
                Ok(first_lower(crate::text::trim_spec(answers@[p.at as int]@)) != first_lower(no))
            } else {
                Err(ran_out(question + " ("@ + yes + "/"@ + no + ")"@))
            },
            None => Err(ran_out(question + " ("@ + yes + "/"@ + no + ")"@)),
        }
    }
}

fn first_lowered(s: &str) -> (r: Option<char>)
    ensures
        r == first_lower(s@),
{
    if s.unicode_len() == 0 {
        None
    } else {
        Some(crate::text::lower_char(s.get_char(0)))
    }
}

impl Prompt {
    /// Any of a set, in the order they were answered, or none of them: the
    /// numbered list taking several numbers or names on the one line.
    pub fn choose_many(&mut self, question: &str, options: &[crate::ui::Choice]) -> (r: Result<Vec<usize>, String>)
        ensures
            final(self).ask == old(self).ask,
            final(self).script == old(self).script,
            final(self).at == (if !old(self).ask || options@.len() == 0 { old(self).at } else { after_reading(*old(self)) }),
            picks_view(r) == choose_many_spec(*old(self), question@, crate::ui::choice_labels(options@)),
    {
        if !self.ask || options.len() == 0 {
            assert(Seq::<usize>::empty().map_values(|i: usize| i as int) =~= Seq::<int>::empty());
            return Ok(Vec::new());
        }
        let n = options.len();
        let mut i: usize = 0;
        while i < n
            invariant
                n == options@.len(),
                i <= n,
                self.ask == old(self).ask,
                self.script == old(self).script,
                self.at == old(self).at,
            decreases n - i,
        {
            let number = crate::text::decimal((i + 1) as u64);
            let line = cat4("  ", number.as_str(), ") ", options[i].label.as_str());
            let shown = if options[i].detail.unicode_len() > 0 {
                cat3(line.as_str(), "  ", options[i].detail.as_str())
            } else {
                line
            };
            self.transcript.push(shown);
            i = i + 1;
        }
        let range = if n == 1 {
            owned("1")
        } else {
            let count = crate::text::decimal(n as u64);
            cat("1-", count.as_str())
        };
        let several = if n == 1 {
            ""
        } else {
            ", several"
        };
        let put = cat5(question, " [", range.as_str(), several, ", 0 for none]");
        let shown = cat(put.as_str(), ": ");
        let answer = self.answer(put.as_str(), shown.as_str())?;
        let words = split_picks(answer.as_str());
        picked_all(&words, options)
    }

    /// A step with no flag of its own: with nobody to ask the answer is no,
    /// and an answer is yes unless it starts the way `no` does.
    pub fn confirm(&mut self, question: &str, yes: &str, no: &str) -> (r: Result<bool, String>)
        ensures
            final(self).ask == old(self).ask,
            final(self).script == old(self).script,
            final(self).at == (if !old(self).ask { old(self).at } else { after_reading(*old(self)) }),
            result_bool(r) == confirm_spec(*old(self), question@, yes@, no@),
    {
        if !self.ask {
            return Ok(false);
        }
        let put = cat5(question, " (", yes, "/", cat(no, ")").as_str());
        assert(put@ =~= question@ + " ("@ + yes@ + "/"@ + no@ + ")"@);
        let shown = cat(put.as_str(), "\n");
        let answer = self.answer(put.as_str(), shown.as_str())?;
        Ok(first_lowered(answer.as_str()) != first_lowered(no))
    }
}

pub open spec fn result_bool(r: Result<bool, String>) -> Result<bool, Seq<char>> {
    match r {
        Ok(b) => Ok(b),
        Err(e) => Err(e@),
    }
}


/// An option picked twice counts once, and every pick is one of the
/// options: whatever a list that takes several is answered with, what it
/// picks holds no option twice and none past the end.
pub proof fn lemma_picks_once(words: Seq<Seq<char>>, labels: Seq<Seq<char>>, k: int, chosen: Seq<int>)
    requires
        chosen.no_duplicates(),
        forall|j: int| 0 <= j < chosen.len() ==> 0 <= #[trigger] chosen[j] < labels.len(),
    ensures
        picked_many(words, labels, k, chosen) matches Ok(r) ==> r.no_duplicates() && forall|j: int|
            0 <= j < r.len() ==> 0 <= #[trigger] r[j] < labels.len(),
    decreases words.len() - k,
{
    if 0 <= k < words.len() {
        match pick_of(words[k], labels) {
            Ok(i) => if i >= 0 && !chosen.contains(i) {
                crate::text::lemma_position_found(labels, words[k]);
                let next = chosen.push(i);
                assert forall|a: int, b: int| 0 <= a < b < next.len() implies next[a] != next[b] by {
                    if b == next.len() - 1 {
                        assert(chosen[a] == next[a]);
                    }
                }
                lemma_picks_once(words, labels, k + 1, next);
            } else if i >= 0 {
                lemma_picks_once(words, labels, k + 1, chosen);
            },
            Err(_) => {},
        }
    }
}

} // verus!
