use simple_wml::de::{AttributeDeserializer, validate_document, from_slice};
use simple_wml::error::Error;
use simple_wml::ser::{AttributeSerializer, to_vec};

#[derive(Debug, PartialEq, Clone)]
struct Node {
    attributes: Vec<(Vec<u8>, Vec<u8>)>,
    children: Vec<(Vec<u8>, Node)>,
}

fn read_node(mut d: AttributeDeserializer<'_, '_>) -> Result<Node, Error> {
    let mut attributes = Vec::new();
    while let Some(pair) = d.next_attribute()? {
        attributes.push(pair);
    }
    let mut c = d.start_children();
    let mut children = Vec::new();
    while let Some(child) = c.next_child(|key, d| Ok((key.to_vec(), read_node(d)?)))? {
        children.push(child);
    }
    Ok(Node { attributes, children })
}

fn write_node(mut s: AttributeSerializer<'_>, node: &Node) -> Result<(), Error> {
    for (k, v) in &node.attributes {
        s.push(k, v)?;
    }
    let mut c = s.start_children();
    for (k, child) in &node.children {
        c.push(k, |s| write_node(s, child))?;
    }
    Ok(())
}

fn parse(input: &[u8]) -> Result<Node, Error> {
    from_slice(input, read_node)
}

fn leaf(attributes: &[(&[u8], &[u8])]) -> Node {
    Node {
        attributes: attributes.iter().map(|(k, v)| (k.to_vec(), v.to_vec())).collect(),
        children: Vec::new(),
    }
}

#[test]
fn de_order_enforced() {
    assert_eq!(parse(b"foo=\"1\"\nbar=\"2\""), Err(Error::AttributeOrder));
}

#[test]
fn de_duplicate_key_rejected() {
    assert_eq!(parse(b"a=\"1\" a=\"2\""), Err(Error::AttributeOrder));
}

#[test]
fn de_quote_escaping() {
    assert_eq!(parse(br#"name="Li""sar""#), Ok(leaf(&[(b"name", br#"Li"sar"#)])));
}

#[test]
fn de_nesting() {
    let expected = Node {
        attributes: Vec::new(),
        children: vec![(b"user".to_vec(), leaf(&[(b"name", b"a")]))],
    };
    assert_eq!(parse(b"[user]name=\"a\"[/user]"), Ok(expected));
}

#[test]
fn de_mismatched_close_tag() {
    assert_eq!(parse(b"[user]name=\"a\"[/group]"), Err(Error::MismatchedOrMissingCloseTag));
}

#[test]
fn de_unclosed_tag() {
    assert_eq!(parse(b"[user]"), Err(Error::MismatchedOrMissingCloseTag));
}

#[test]
fn de_spurious_close_tag() {
    assert_eq!(parse(b"[/user]"), Err(Error::MismatchedOrMissingCloseTag));
}

#[test]
fn de_trailing_characters() {
    assert_eq!(parse(b"a=\"1\" ]"), Err(Error::TrailingCharacters));
}

#[test]
fn de_attribute_after_children() {
    assert_eq!(parse(b"[a][/a]b=\"1\""), Err(Error::TrailingCharacters));
    assert_eq!(parse(b"[x][a][/a]b=\"1\"[/x]"), Err(Error::MismatchedOrMissingCloseTag));
}

#[test]
fn de_lexical_errors() {
    assert_eq!(parse(b"a=\"open"), Err(Error::EofWhileParsingString));
    assert_eq!(parse(b"a"), Err(Error::EofWhileParsingAttribute));
    assert_eq!(parse(b"a b"), Err(Error::ExpectedEquals));
    assert_eq!(parse(b"a=b"), Err(Error::ExpectedString));
}

#[test]
fn de_empty_document() {
    assert_eq!(parse(b""), Ok(leaf(&[])));
    assert_eq!(parse(b" \n\t "), Ok(leaf(&[])));
}

#[test]
fn de_whitespace_between_tokens_is_irrelevant() {
    let tight = parse(b"a=\"1\"b=\"2\"[c]d=\"3\"[/c]");
    let loose = parse(b"\n  a =\"1\"\tb=\"2\"\n\n[c]\n  d=\"3\"\n[/c]\n\n");
    assert!(tight.is_ok());
    assert_eq!(tight, loose);
}

#[test]
fn de_action_error_propagates() {
    let r: Result<(), Error> = from_slice(b"a=\"1\"", |_| Err(Error::ExpectedIdent));
    assert_eq!(r, Err(Error::ExpectedIdent));
}

#[test]
fn de_unread_input_is_trailing() {
    let r = from_slice(b"a=\"1\"", |_| Ok(7));
    assert_eq!(r, Err(Error::TrailingCharacters));
}

#[test]
fn de_next_child_none_without_open_tag() {
    let r = from_slice(b"", |d| {
        let mut c = d.start_children();
        c.next_child(|_, _| Ok(1))
    });
    assert_eq!(r, Ok(None));
}

#[test]
fn round_trip_tree() {
    let tree = Node {
        attributes: vec![
            (b"baz".to_vec(), b"quux".to_vec()),
            (b"foo".to_vec(), b"bar \"bar\"".to_vec()),
        ],
        children: vec![
            (b"user".to_vec(), leaf(&[(b"name", b"Li'sar")])),
            (
                b"user".to_vec(),
                Node {
                    attributes: vec![(b"name".to_vec(), b"\"\"".to_vec())],
                    children: vec![(b"item".to_vec(), leaf(&[]))],
                },
            ),
        ],
    };
    let mut output = Vec::new();
    to_vec(&mut output, |s| write_node(s, &tree)).unwrap();
    assert_eq!(parse(&output), Ok(tree));
}

#[test]
fn error_messages() {
    assert_eq!(Error::AttributeOrder.message(), "attribute not in order");
    assert_eq!(Error::EofWhileParsingString.message(), "EOF while parsing a string");
    assert_eq!(Error::MismatchedOrMissingCloseTag.message(), "mismatched or missing close tag");
}

#[test]
fn validate_document_accepts_well_formed() {
    assert_eq!(validate_document(b""), Ok(()));
    assert_eq!(validate_document(b"a=\"1\" b=\"2\"\n[x]c=\"3\"[y][/y][/x][x][/x]"), Ok(()));
    let mut output = Vec::new();
    to_vec(&mut output, |mut s| {
        s.push(b"k", b"v\"")?;
        let mut c = s.start_children();
        c.push(b"child", |mut s| s.push(b"name", b"x"))
    })
    .unwrap();
    assert_eq!(validate_document(&output), Ok(()));
}

#[test]
fn validate_document_errors() {
    assert_eq!(validate_document(b"foo=\"1\"\nbar=\"2\""), Err(Error::AttributeOrder));
    assert_eq!(validate_document(b"[user]name=\"a\"[/group]"), Err(Error::MismatchedOrMissingCloseTag));
    assert_eq!(validate_document(b"[user]"), Err(Error::MismatchedOrMissingCloseTag));
    assert_eq!(validate_document(b"[/user]"), Err(Error::MismatchedOrMissingCloseTag));
    assert_eq!(validate_document(b"a=\"1\" ]"), Err(Error::TrailingCharacters));
    assert_eq!(validate_document(b"[x]a=\"1"), Err(Error::EofWhileParsingString));
    assert_eq!(validate_document(b"[x]b=\"1\" a=\"2\"[/x]"), Err(Error::AttributeOrder));
}

#[test]
fn validate_document_agrees_with_walk() {
    let inputs: [&[u8]; 6] = [
        b"",
        b"[user]name=\"a\"[/user]",
        b"[user]name=\"a\"[/group]",
        b"a=\"1\"[b][/b]c=\"2\"",
        b"z=\"1\"\ny=\"2\"",
        b"[a][b][/b][/a]",
    ];
    for input in inputs {
        assert_eq!(validate_document(input), parse(input).map(|_| ()));
    }
}
