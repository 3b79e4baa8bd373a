use isahtml::wire::{parse, serialize, Node, ParseError};

fn tag(name: &str, attrs: Vec<(&str, &str)>, children: Vec<Node>) -> Node {
    Node::Tag {
        name: name.to_string(),
        attrs: attrs
            .into_iter()
            .map(|(k, v)| (k.to_string(), v.to_string()))
            .collect(),
        children,
    }
}

fn text(s: &str) -> Node {
    Node::Text(s.to_string())
}

#[test]
fn it_works() {
    assert_eq!(
        parse("\x05\x06tag\x05hi\x05\x06\x05"),
        Ok(vec![tag("tag", vec![], vec![text("hi")])])
    );
}

#[test]
fn equal_sign_in_attribute() {
    assert_eq!(
        parse("\x05\x06tag\x06attr=2+2=4\x05hi\x05\x06\x05"),
        Ok(vec![tag("tag", vec![("attr", "2+2=4")], vec![text("hi")])])
    );
}

#[test]
fn unclosed_tag() {
    assert_eq!(
        parse("\x05\x06tag\x05hi"),
        Err(ParseError::UnclosedTag("tag".to_string()))
    );
}

#[test]
fn no_closing_x() {
    assert_eq!(parse("\x05\x06tag"), Err(ParseError::NoClosingX));
}

#[test]
fn unexpected_content_before_attributes() {
    assert_eq!(
        parse("\x05xxx\x06tag\x05hi\x05\x06\x05"),
        Err(ParseError::UnexpectedContentBeforeAttributes)
    );
}

#[test]
fn missing_name() {
    assert_eq!(parse("\x05\x05hi\x05\x06\x05"), Err(ParseError::MissingName));
}

#[test]
fn malformed_attribute() {
    assert_eq!(
        parse("\x05\x06tag\x06bad_attr\x05hi\x05\x06\x05"),
        Err(ParseError::MalformedAttribute)
    );
}

#[test]
fn unmatched_closing_tag() {
    assert_eq!(
        parse("\x05\x06tag\x05hi\x05\x06\x05\x05\x06\x05"),
        Err(ParseError::UnmatchedClosingTag)
    );
}

#[test]
fn serialize_writes_the_wire_form() {
    let forest = vec![
        text("a"),
        tag(
            "outer",
            vec![("k", "v")],
            vec![text("b"), tag("inner", vec![], vec![])],
        ),
    ];
    assert_eq!(
        serialize(&forest),
        "a\x05\x06outer\x06k=v\x05b\x05\x06inner\x05\x05\x06\x05\x05\x06\x05"
    );
}

#[test]
fn round_trip_restores_the_forest() {
    let forest = vec![
        text("lead"),
        tag(
            "outer",
            vec![("kind", "2+2=4"), ("", "empty-key")],
            vec![
                text("mid\x06with attr-sep"),
                tag("inner", vec![], vec![text("deep")]),
            ],
        ),
        tag("sibling", vec![], vec![]),
        text("trail"),
    ];
    let wirestr = serialize(&forest);
    assert_eq!(parse(&wirestr), Ok(forest));
}

#[test]
fn empty_input_is_empty_forest() {
    assert_eq!(parse(""), Ok(vec![]));
}

#[test]
fn nested_tags_and_trailing_text() {
    assert_eq!(
        parse("a\x05\x06outer\x05b\x05\x06inner\x05c\x05\x06\x05\x05\x06\x05d"),
        Ok(vec![
            text("a"),
            tag(
                "outer",
                vec![],
                vec![text("b"), tag("inner", vec![], vec![text("c")])]
            ),
            text("d"),
        ])
    );
}
