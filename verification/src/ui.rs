//! What a screen holds, as values: the options a question offers and the
//! fields a form is made of. Drawing them is the program's business.

use crate::text::owned;
use vstd::prelude::*;

verus! {

/// One option a question offers: what it is called, what it costs, and
/// whether it can be picked at all.
pub struct Choice {
    pub label: String,
    pub detail: String,
    pub available: bool,
}

impl Choice {
    pub fn new(label: &str, detail: &str) -> (r: Choice)
        ensures
            r.label@ == label@,
            r.detail@ == detail@,
            r.available,
    {
        Choice { label: owned(label), detail: owned(detail), available: true }
    }

    /// The same option, drawn and refusing the key that would pick it.
    pub fn unavailable(self) -> (r: Choice)
        ensures
            r.label@ == self.label@,
            r.detail@ == self.detail@,
            !r.available,
    {
        Choice { label: self.label, detail: self.detail, available: false }
    }
}

/// What kind of row a field is.
#[derive(Clone, Copy, PartialEq, Eq, Structural, Debug)]
pub enum Kind {
    Text,
    Secret,
    Pick,
    Action,
    Fixed,
}

/// One row of a form.
pub struct Field {
    pub kind: Kind,
    pub label: String,
    /// What a text, secret, action or fixed row holds.
    pub text: String,
    /// What a pick row offers, and which of them is chosen.
    pub choices: Vec<Choice>,
    pub chosen: Option<usize>,
}

pub open spec fn choice_labels(choices: Seq<Choice>) -> Seq<Seq<char>> {
    choices.map_values(|c: Choice| c.label@)
}

/// What a field answers: the chosen option's label for a pick, nothing for a
/// pick with nothing chosen, and the text for anything else.
pub open spec fn field_value(f: Field) -> Seq<char> {
    if f.kind == Kind::Pick {
        match f.chosen {
            Some(i) => if i < f.choices@.len() {
                f.choices@[i as int].label@
            } else {
                Seq::empty()
            },
            None => Seq::empty(),
        }
    } else {
        f.text@
    }
}

impl Field {
    fn with(kind: Kind, label: &str, text: &str) -> (r: Field)
        ensures
            r.kind == kind,
            r.label@ == label@,
            r.text@ == text@,
            r.choices@.len() == 0,
            r.chosen is None,
    {
        Field { kind, label: owned(label), text: owned(text), choices: Vec::new(), chosen: None }
    }

    pub fn text(label: &str, value: &str) -> (r: Field)
        ensures
            r.kind == Kind::Text,
            r.label@ == label@,
            field_value(r) == value@,
    {
        Field::with(Kind::Text, label, value)
    }

    pub fn secret(label: &str, value: &str) -> (r: Field)
        ensures
            r.kind == Kind::Secret,
            r.label@ == label@,
            field_value(r) == value@,
    {
        Field::with(Kind::Secret, label, value)
    }

    pub fn action(label: &str, value: &str) -> (r: Field)
        ensures
            r.kind == Kind::Action,
            r.label@ == label@,
            field_value(r) == value@,
    {
        Field::with(Kind::Action, label, value)
    }

    pub fn fixed(label: &str, value: &str) -> (r: Field)
        ensures
            r.kind == Kind::Fixed,
            r.label@ == label@,
            field_value(r) == value@,
    {
        Field::with(Kind::Fixed, label, value)
    }

    pub fn pick(label: &str, choices: Vec<Choice>, chosen: Option<usize>) -> (r: Field)
        ensures
            r.kind == Kind::Pick,
            r.label@ == label@,
            r.choices == choices,
            r.chosen == chosen,
    {
        Field { kind: Kind::Pick, label: owned(label), text: String::new(), choices, chosen }
    }

    /// What the field answers.
    pub fn value(&self) -> (r: String)
        ensures
            r@ == field_value(*self),
    {
        match self.kind {
            Kind::Pick => match self.chosen {
                Some(i) => if i < self.choices.len() {
                    self.choices[i].label.clone()
                } else {
                    String::new()
                },
                None => String::new(),
            },
            _ => self.text.clone(),
        }
    }
}

} // verus!
