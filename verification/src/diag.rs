//! Diagnostics: what is wrong, in which file, where in it, and what to do.

use crate::text::{cat3, owned};
use vstd::prelude::*;

verus! {

/// A stretch of a file, in characters from its start.
#[derive(Clone, Copy, Debug, PartialEq, Eq, Default)]
pub struct Span {
    pub offset: usize,
    pub len: usize,
}

impl Span {
    pub fn new(offset: usize, len: usize) -> (r: Span)
        ensures
            r.offset == offset,
            r.len == len,
    {
        Span { offset, len }
    }

    /// Nowhere in particular, for a diagnostic that has no place to point.
    pub fn none() -> (r: Span)
        ensures
            r.offset == 0,
            r.len == 0,
    {
        Span { offset: 0, len: 0 }
    }
}

/// A file a diagnostic is about: what it is called and what it holds.
pub struct Source {
    pub name: String,
    pub text: String,
}

impl Source {
    pub fn new(name: &str, text: &str) -> (r: Source)
        ensures
            r.name@ == name@,
            r.text@ == text@,
    {
        Source { name: owned(name), text: owned(text) }
    }

    pub fn name(&self) -> (r: &str)
        ensures
            r@ == self.name@,
    {
        self.name.as_str()
    }

    pub fn copy(&self) -> (r: Source)
        ensures
            r.name@ == self.name@,
            r.text@ == self.text@,
    {
        Source { name: self.name.clone(), text: self.text.clone() }
    }
}

/// One place a diagnostic points at, and what it says there.
pub struct Label {
    pub span: Span,
    pub text: String,
}

pub struct Issue {
    pub message: String,
    /// The name of the file it is about.
    pub source: String,
    pub labels: Vec<Label>,
    pub help: Option<String>,
}

/// What an issue says, as plain values.
pub struct IssueV {
    pub message: Seq<char>,
    pub source: Seq<char>,
    pub labels: Seq<(Span, Seq<char>)>,
    pub help: Option<Seq<char>>,
}

pub open spec fn label_views(labels: Seq<Label>) -> Seq<(Span, Seq<char>)> {
    labels.map_values(|l: Label| (l.span, l.text@))
}

impl View for Issue {
    type V = IssueV;

    open spec fn view(&self) -> IssueV {
        IssueV {
            message: self.message@,
            source: self.source@,
            labels: label_views(self.labels@),
            help: match self.help {
                Some(h) => Some(h@),
                None => None,
            },
        }
    }
}

/// An issue with nothing but its message and its file.
pub open spec fn bare(message: Seq<char>, source: Seq<char>) -> IssueV {
    IssueV { message, source, labels: Seq::empty(), help: None }
}

/// The same issue, pointing at one more place.
pub open spec fn at_v(issue: IssueV, span: Span, label: Seq<char>) -> IssueV {
    IssueV { labels: issue.labels.push((span, label)), ..issue }
}

/// The same issue, with what to do about it.
pub open spec fn help_v(issue: IssueV, help: Seq<char>) -> IssueV {
    IssueV { help: Some(help), ..issue }
}

impl Issue {
    pub fn new(message: String, src: &Source) -> (r: Issue)
        ensures
            r@ == bare(message@, src.name@),
    {
        let r = Issue { message, source: src.name.clone(), labels: Vec::new(), help: None };
        assert(label_views(r.labels@) =~= Seq::empty());
        r
    }

    /// Points at one more place.
    pub fn at(self, span: Span, label: String) -> (r: Issue)
        ensures
            r@ == at_v(self@, span, label@),
    {
        let mut labels = self.labels;
        let ghost before = labels@;
        labels.push(Label { span, text: label });
        let r = Issue { message: self.message, source: self.source, labels, help: self.help };
        assert(label_views(r.labels@) =~= label_views(before).push((span, label@)));
        r
    }

    /// Says what to do about it.
    pub fn help(self, help: String) -> (r: Issue)
        ensures
            r@ == help_v(self@, help@),
    {
        Issue { message: self.message, source: self.source, labels: self.labels, help: Some(help) }
    }
}

/// Everything wrong, in the order it was found.
pub struct Issues {
    pub list: Vec<Issue>,
}

pub open spec fn issue_views(list: Seq<Issue>) -> Seq<IssueV> {
    list.map_values(|i: Issue| i@)
}

impl View for Issues {
    type V = Seq<IssueV>;

    open spec fn view(&self) -> Seq<IssueV> {
        issue_views(self.list@)
    }
}

impl Issues {
    pub fn new() -> (r: Issues)
        ensures
            r@ == Seq::<IssueV>::empty(),
    {
        let r = Issues { list: Vec::new() };
        assert(r@ =~= Seq::<IssueV>::empty());
        r
    }

    pub fn push(&mut self, issue: Issue)
        ensures
            final(self)@ == old(self)@.push(issue@),
    {
        let ghost before = self.list@;
        self.list.push(issue);
        assert(issue_views(self.list@) =~= issue_views(before).push(issue@));
    }

    pub fn is_empty(&self) -> (r: bool)
        ensures
            r == (self@.len() == 0),
    {
        self.list.len() == 0
    }

    pub fn len(&self) -> (r: usize)
        ensures
            r == self@.len(),
    {
        self.list.len()
    }

    /// Every message, one per line and each behind `  x `, with the places it
    /// points at and the help under it.
    pub fn plain(&self) -> (r: String)
        ensures
            r@ == plain_spec(self@),
    {
        let mut out = String::new();
        let mut i: usize = 0;
        while i < self.list.len()
            invariant
                i <= self@.len(),
                out@ == plain_spec(self@.take(i as int)),
            decreases self@.len() - i,
        {
            let issue = &self.list[i];
            let said = issue_text(issue);
            out.append(said.as_str());
            assert(self@.take(i as int + 1).drop_last() =~= self@.take(i as int));
            i = i + 1;
        }
        assert(self@.take(self@.len() as int) =~= self@);
        out
    }
}

pub open spec fn labels_text(labels: Seq<(Span, Seq<char>)>) -> Seq<char>
    decreases labels.len(),
{
    if labels.len() == 0 {
        Seq::empty()
    } else {
        labels_text(labels.drop_last()) + "    - "@ + labels.last().1 + "\n"@
    }
}

pub open spec fn issue_text_spec(issue: IssueV) -> Seq<char> {
    "  x "@ + issue.message + "\n"@ + labels_text(issue.labels) + match issue.help {
        Some(h) => "  help: "@ + h + "\n"@,
        None => Seq::empty(),
    }
}

pub open spec fn plain_spec(issues: Seq<IssueV>) -> Seq<char>
    decreases issues.len(),
{
    if issues.len() == 0 {
        Seq::empty()
    } else {
        plain_spec(issues.drop_last()) + issue_text_spec(issues.last())
    }
}

fn issue_text(issue: &Issue) -> (r: String)
    ensures
        r@ == issue_text_spec(issue@),
{
    let mut out = cat3("  x ", issue.message.as_str(), "\n");
    let mut i: usize = 0;
    let ghost head = out@;
    while i < issue.labels.len()
        invariant
            i <= issue.labels@.len(),
            out@ == head + labels_text(label_views(issue.labels@).take(i as int)),
        decreases issue.labels@.len() - i,
    {
        let ghost before = out@;
        out.append("    - ");
        out.append(issue.labels[i].text.as_str());
        out.append("\n");
        assert(label_views(issue.labels@).take(i as int + 1).drop_last() =~= label_views(
            issue.labels@,
        ).take(i as int));
        i = i + 1;
    }
    assert(label_views(issue.labels@).take(issue.labels@.len() as int) =~= label_views(
        issue.labels@,
    ));
    match &issue.help {
        Some(h) => {
            out.append("  help: ");
            out.append(h.as_str());
            out.append("\n");
        },
        None => {
            assert(out@ + Seq::<char>::empty() =~= out@);
        },
    }
    out
}

} // verus!
