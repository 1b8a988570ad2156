//! A KDL document as plain values: what every reader in `parse` walks. The
//! `kdl` crate reads the text; nothing past this file sees its types.

use crate::diag::Span;
use vstd::prelude::*;

verus! {

/// One value a node carries.
pub enum KValue {
    String(String),
    Integer(i128),
    /// A float, which nothing here reads as one.
    Float,
    Bool(bool),
    Null,
}

/// One entry of a node: an argument, or a property where it has a name.
pub struct KEntry {
    pub name: Option<String>,
    pub value: KValue,
    pub span: Span,
}

/// One node: its name, where the name and the whole node are, what it
/// carries, and its children where it has a block.
pub struct KNode {
    pub name: String,
    pub name_span: Span,
    pub span: Span,
    pub entries: Vec<KEntry>,
    pub children: Option<Vec<KNode>>,
}

/// One thing the parser found wrong: where, what, the label, and the help.
pub struct KProblem {
    pub span: Span,
    pub message: Option<String>,
    pub label: Option<String>,
    pub help: Option<String>,
}

/// Why a text is not a document.
pub struct KSyntax {
    pub problems: Vec<KProblem>,
}

/// What `kdl::KdlDocument::parse` makes of a text: its nodes, or what it
/// found wrong. A function of the text alone.
pub uninterp spec fn kdl_document(text: Seq<char>) -> Result<Seq<KNode>, Seq<KProblem>>;

pub open spec fn parsed_view(r: Result<Vec<KNode>, KSyntax>) -> Result<Seq<KNode>, Seq<KProblem>> {
    match r {
        Ok(nodes) => Ok(nodes@),
        Err(e) => Err(e.problems@),
    }
}

#[verifier::external_type_specification]
#[verifier::external_body]
pub struct ExKdlNode(kdl::KdlNode);

#[verifier::external_type_specification]
#[verifier::external_body]
pub struct ExKdlEntry(kdl::KdlEntry);

#[verifier::external_type_specification]
#[verifier::external_body]
pub struct ExKdlValue(kdl::KdlValue);

#[verifier::external_type_specification]
#[verifier::external_body]
pub struct ExKdlDiagnostic(kdl::KdlDiagnostic);

/// `kdl::KdlDocument::parse`, its nodes and problems turned into plain values
/// one for one. The contract names the result: it is a function of the text,
/// and nothing here says which nodes a text holds.
#[verifier::external_body]
pub fn parse_kdl(text: &str) -> (r: Result<Vec<KNode>, KSyntax>)
    ensures
        parsed_view(r) == kdl_document(text@),
{
    match kdl::KdlDocument::parse(text) {
        Ok(doc) => Ok(doc.nodes().iter().map(plain_node).collect()),
        Err(err) => Err(KSyntax { problems: err.diagnostics.iter().map(plain_problem).collect() }),
    }
}

/// One `kdl::KdlDiagnostic` as plain values.
#[verifier::external_body]
fn plain_problem(d: &kdl::KdlDiagnostic) -> KProblem {
    KProblem {
        span: Span { offset: d.span.offset(), len: d.span.len() },
        message: d.message.clone(),
        label: d.label.clone(),
        help: d.help.clone(),
    }
}

/// One `kdl::KdlNode` as plain values, children and all.
#[verifier::external_body]
fn plain_node(n: &kdl::KdlNode) -> KNode {
    KNode {
        name: n.name().value().to_string(),
        name_span: Span { offset: n.name().span().offset(), len: n.name().span().len() },
        span: Span { offset: n.span().offset(), len: n.span().len() },
        entries: n.entries().iter().map(plain_entry).collect(),
        children: n.children().map(|d| d.nodes().iter().map(plain_node).collect()),
    }
}

/// One `kdl::KdlEntry` as plain values.
#[verifier::external_body]
fn plain_entry(e: &kdl::KdlEntry) -> KEntry {
    KEntry {
        name: e.name().map(|k| k.value().to_string()),
        value: plain_value(e.value()),
        span: Span { offset: e.span().offset(), len: e.span().len() },
    }
}

/// One `kdl::KdlValue` as the plain value it is, a float as no number.
#[verifier::external_body]
fn plain_value(v: &kdl::KdlValue) -> KValue {
    match v {
        kdl::KdlValue::String(s) => KValue::String(s.clone()),
        kdl::KdlValue::Integer(i) => KValue::Integer(*i),
        kdl::KdlValue::Float(_) => KValue::Float,
        kdl::KdlValue::Bool(b) => KValue::Bool(*b),
        kdl::KdlValue::Null => KValue::Null,
    }
}

} // verus!
