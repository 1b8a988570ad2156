use tect::diag::{Issues, Source, Span};
use tect::parse::kdl::{KEntry, KNode, KValue};
use tect::parse::schema::{check, Arg, Kind, Node, Prop, Say};

fn node(name: &str, at: usize, entries: Vec<KEntry>, children: Option<Vec<KNode>>) -> KNode {
    KNode {
        name: name.to_string(),
        name_span: Span { offset: at, len: name.len() },
        span: Span { offset: at, len: name.len() },
        entries,
        children,
    }
}

fn arg(value: KValue, at: usize) -> KEntry {
    KEntry { name: None, value, span: Span { offset: at, len: 1 } }
}

fn prop(key: &str, value: KValue, at: usize) -> KEntry {
    KEntry { name: Some(key.to_string()), value, span: Span { offset: at, len: 1 } }
}

/// A small grammar: `repo` holds one `name "x"`, any number of `flag #true`,
/// and a `labels` block whose children are named by the author.
fn grammar() -> Node {
    Node::new("repo", "The repository.")
        .children(
            vec![
                Node::new("name", "What it is called.")
                    .arg(Arg::Str, Say::new("`name` needs a value", "no value", "`name \"x\"`"))
                    .once("one name is one name")
                    .missing(Say::new("`{}` is missing", "declared nowhere", "")),
                Node::new("flag", "A switch.").arg(Arg::Bool, Say::new("`flag` needs #true or #false", "not a boolean", "")),
                Node::new("labels", "Free-form labels.")
                    .empty(Say::new("`{}` is empty", "nothing in it", "drop the block"))
                    .children(
                        vec![Node::new("", "One label.").arg(Arg::Str, Say::none())],
                        Say::none(),
                    ),
                Node::new("keys", "Keys.").props(
                    vec![Prop { name: "kind".to_string(), desc: "its kind".to_string(), kind: Kind::Str, say: Say::new("`{}` takes a string", "not a string", "") }],
                    Say::new("unknown property `{}`", "not part of the schema", "a key takes `kind`"),
                ),
            ],
            Say::new("unknown node `{}` in repo.kdl", "not part of the schema", "see the reference for `{}`"),
        )
}

fn messages(issues: &Issues) -> Vec<String> {
    issues.list.iter().map(|i| i.message.clone()).collect()
}

#[test]
fn a_document_the_grammar_describes_raises_nothing() {
    let doc = node(
        "repo",
        0,
        vec![],
        Some(vec![
            node("name", 5, vec![arg(KValue::String("x".to_string()), 10)], None),
            node("flag", 15, vec![arg(KValue::Bool(true), 20)], None),
            node("flag", 25, vec![arg(KValue::Bool(false), 30)], None),
            node("labels", 35, vec![], Some(vec![node("anything", 45, vec![arg(KValue::String("v".to_string()), 50)], None)])),
            node("keys", 55, vec![prop("kind", KValue::String("ssh".to_string()), 60)], None),
        ]),
    );
    let mut issues = Issues::new();
    check(&doc, &grammar(), &Source::new("repo.kdl", ""), &mut issues);
    assert!(issues.list.is_empty(), "{}", issues.plain());
}

#[test]
fn the_walker_says_what_the_grammar_says_where_it_does_not_match() {
    let doc = node(
        "repo",
        0,
        vec![],
        Some(vec![
            node("name", 5, vec![], None),
            node("name", 12, vec![arg(KValue::String("y".to_string()), 17)], None),
            node("flag", 20, vec![arg(KValue::String("yes".to_string()), 25)], None),
            node("labels", 30, vec![], None),
            node("keys", 40, vec![prop("kind", KValue::Integer(3), 45), prop("size", KValue::Integer(4), 48)], None),
            node("stray", 60, vec![], None),
        ]),
    );
    let mut issues = Issues::new();
    check(&doc, &grammar(), &Source::new("repo.kdl", ""), &mut issues);
    assert_eq!(
        messages(&issues),
        vec![
            "`name` needs a value",
            "`name` is declared twice",
            "`flag` needs #true or #false",
            "`labels` is empty",
            "`kind` takes a string",
            "unknown property `size`",
            "unknown node `stray` in repo.kdl",
        ]
    );
    let twice = &issues.list[1];
    assert_eq!(twice.labels[0].span.offset, 5);
    assert_eq!(twice.labels[0].text, "first here");
    assert_eq!(twice.labels[1].span.offset, 12);
    assert_eq!(twice.help.as_deref(), Some("one name is one name"));
    assert_eq!(issues.list[6].help.as_deref(), Some("see the reference for `stray`"));
    assert_eq!(issues.list[6].labels[0].span.offset, 60);
}

#[test]
fn a_child_the_schema_says_must_be_there_is_named_where_it_is_not() {
    let doc = node("repo", 0, vec![arg(KValue::String("stray".to_string()), 5)], Some(vec![]));
    let mut issues = Issues::new();
    check(&doc, &grammar(), &Source::new("repo.kdl", ""), &mut issues);
    // A node that takes no argument is silent about one where its grammar
    // says nothing, and a missing `name` is the one absence with a say.
    assert_eq!(messages(&issues), vec!["`name` is missing"]);
    assert_eq!(issues.list[0].labels[0].text, "declared nowhere");
    assert!(issues.list[0].help.is_none());
}
