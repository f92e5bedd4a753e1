use simple_wml::error::Error;
use simple_wml::parser::{Parser, Token};

#[test]
fn parser_trans() {
    let mut de = Parser::new(br#"_ "#);
    let result = de.parse_translatable_marker().unwrap();
    de.assert_end().unwrap();
    assert_eq!(result, ());
}

#[test]
fn parser_cis() {
    let mut de = Parser::new(br#""hello""#);
    let result = de.parse_translatable_marker();
    assert!(result.is_none());
}

#[test]
fn parser_string() {
    let mut de = Parser::new(br#""hello""#);
    let result = de.parse_string().unwrap();
    assert_eq!(result, b"hello");
}

#[test]
fn parser_string_escapes() {
    let mut de = Parser::new(br#""hello ""world""""#);
    let result = de.parse_string().unwrap();
    assert_eq!(result, br#"hello "world""#);
}

#[test]
fn parser_tokens_in_order() {
    let mut p = Parser::new(b"  a=\"1\"\n[x]\tb =\"2\" [/x]\n");
    let tokens = p.collect_tokens().unwrap();
    assert_eq!(
        tokens,
        vec![
            Token::Attr { key: b"a".to_vec(), value: b"1".to_vec() },
            Token::Tag { key: b"x".to_vec(), is_open: true },
            Token::Attr { key: b"b".to_vec(), value: b"2".to_vec() },
            Token::Tag { key: b"x".to_vec(), is_open: false },
        ]
    );
    assert!(p.assert_end().is_some());
}

#[test]
fn parser_whitespace_between_tokens_is_irrelevant() {
    let a = Parser::new(b"k=\"v\"[t][/t]").collect_tokens().unwrap();
    let b = Parser::new(b"\n\t k=\"v\"  \n[t]\t\t[/t]\n\n").collect_tokens().unwrap();
    assert_eq!(a, b);
    assert_eq!(a.len(), 3);
}

#[test]
fn parser_whitespace_inside_strings_is_kept() {
    let tokens = Parser::new(b"k=\" a\tb \"").collect_tokens().unwrap();
    assert_eq!(tokens, vec![Token::Attr { key: b"k".to_vec(), value: b" a\tb ".to_vec() }]);
}

#[test]
fn parser_next_at_end_is_none() {
    let mut p = Parser::new(b" \n\t");
    assert_eq!(p.next(), Ok(None));
    let mut empty = Parser::new(b"");
    assert_eq!(empty.next(), Ok(None));
}

#[test]
fn parser_trailing_bytes() {
    let mut p = Parser::new(b"=\"x\"");
    assert_eq!(p.next(), Err(Error::TrailingCharacters));
    assert_eq!(p.peek(), Some(b'='));
}

#[test]
fn parser_tag_kinds() {
    let mut p = Parser::new(b"[open] [/close]");
    assert_eq!(p.parse_tag(), Some((b"open".to_vec(), true)));
    assert_eq!(p.parse_tag(), Some((b"close".to_vec(), false)));
    assert!(p.parse_tag().is_none());
}

#[test]
fn parser_attribute_errors() {
    assert_eq!(Parser::new(b"key").parse_attribute(), Err(Error::EofWhileParsingAttribute));
    assert_eq!(Parser::new(b"key =").parse_attribute(), Err(Error::EofWhileParsingAttribute));
    assert_eq!(Parser::new(b"key x").parse_attribute(), Err(Error::ExpectedEquals));
    assert_eq!(Parser::new(b"key=x").parse_attribute(), Err(Error::ExpectedString));
    assert_eq!(Parser::new(b"key=\"x").parse_attribute(), Err(Error::EofWhileParsingString));
    assert_eq!(Parser::new(b"[key]").parse_attribute(), Ok(None));
}

#[test]
fn parser_failed_attribute_takes_nothing() {
    let mut p = Parser::new(b"key x");
    assert!(p.parse_attribute().is_err());
    assert_eq!(p.peek(), Some(b'k'));
}

#[test]
fn parser_tag_without_key() {
    assert_eq!(Parser::new(b"[]").next(), Err(Error::ExpectedIdent));
    assert_eq!(Parser::new(b"[/9]").next(), Err(Error::ExpectedIdent));
    assert_eq!(Parser::new(b"[").next(), Err(Error::ExpectedIdent));
    assert_eq!(Parser::new(b"[abc").next(), Err(Error::TrailingCharacters));
}
