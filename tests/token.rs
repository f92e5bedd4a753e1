use simple_wml::error::Error;
use simple_wml::token::{Tokens, key_less, same_bytes};

#[test]
fn token_trans() {
    let mut de = Tokens::new(br#"_ "#);
    let result = de.parse_translatable_marker().unwrap();
    de.assert_end().unwrap();
    assert_eq!(result, ());
}

#[test]
fn token_cis() {
    let mut de = Tokens::new(br#""hello""#);
    let result = de.parse_translatable_marker();
    assert!(result.is_none());
}

#[test]
fn token_string() {
    let mut de = Tokens::new(br#""hello""#);
    let result = de.parse_string().unwrap();
    assert_eq!(result, b"hello");
}

#[test]
fn token_string_escapes() {
    let mut de = Tokens::new(br#""hello ""world""""#);
    let result = de.parse_string().unwrap();
    assert_eq!(result, br#"hello "world""#);
}

#[test]
fn token_translatable_marker_then_string() {
    let mut t = Tokens::new(br#"_"hello""#);
    assert_eq!(t.parse_translatable_marker(), Some(()));
    assert_eq!(t.parse_string().unwrap(), b"hello".to_vec());
    assert!(t.assert_end().is_some());
}

#[test]
fn token_required_marker_missing() {
    let mut t = Tokens::new(br#""hello""#);
    assert_eq!(t.expect_translatable_marker(), Err(Error::ExpectedTranslatable));
    assert_eq!(t.parse_string().unwrap(), b"hello".to_vec());
}

#[test]
fn token_required_marker_present() {
    let mut t = Tokens::new(b"_ \"x\"");
    assert_eq!(t.expect_translatable_marker(), Ok(()));
    assert_eq!(t.parse_string().unwrap(), b"x".to_vec());
}

#[test]
fn token_quote_escape_in_attribute() {
    let mut t = Tokens::new(br#"name="Li""sar""#);
    assert_eq!(t.next_attribute(), Ok(Some((b"name".to_vec(), br#"Li"sar"#.to_vec()))));
    assert!(t.assert_end().is_some());
}

#[test]
fn token_empty_string() {
    let mut t = Tokens::new(br#""""#);
    assert_eq!(t.parse_string().unwrap(), Vec::<u8>::new());
    let mut u = Tokens::new(br#""""""#);
    assert_eq!(u.parse_string().unwrap(), b"\"".to_vec());
}

#[test]
fn token_string_errors() {
    let mut t = Tokens::new(b"hello");
    assert_eq!(t.parse_string(), Err(Error::ExpectedString));
    let mut u = Tokens::new(b"\"unterminated");
    assert_eq!(u.parse_string(), Err(Error::EofWhileParsingString));
    assert_eq!(u.peek(), Some(b'"'));
}

#[test]
fn token_open_and_close() {
    let mut t = Tokens::new(b"[user]\n[/user]\n");
    assert_eq!(t.next_close(), None);
    assert_eq!(t.next_open(), Some(b"user".to_vec()));
    assert_eq!(t.next_open(), None);
    assert_eq!(t.next_close(), Some(b"user".to_vec()));
    assert!(t.assert_end().is_some());
}

#[test]
fn token_incomplete_tags_take_nothing() {
    let mut t = Tokens::new(b"[user");
    assert_eq!(t.next_open(), None);
    assert_eq!(t.peek(), Some(b'['));
    let mut u = Tokens::new(b"[]");
    assert_eq!(u.next_open(), None);
    assert_eq!(u.next_close(), None);
}

#[test]
fn token_identifier_and_space() {
    let mut t = Tokens::new(b"ab_c9");
    assert_eq!(t.identifier(), Some(b"ab_c".to_vec()));
    assert_eq!(t.identifier(), None);
    assert_eq!(t.peek(), Some(b'9'));
    let mut u = Tokens::new(b"x \t\n y");
    assert_eq!(u.identifier(), Some(b"x".to_vec()));
    u.space();
    assert_eq!(u.peek(), Some(b'y'));
}

#[test]
fn token_byte_order() {
    assert!(key_less(b"", b"a"));
    assert!(key_less(b"bar", b"foo"));
    assert!(key_less(b"ab", b"abc"));
    assert!(!key_less(b"foo", b"bar"));
    assert!(!key_less(b"foo", b"foo"));
    assert!(!key_less(b"abc", b"ab"));
    assert!(same_bytes(b"user", b"user"));
    assert!(!same_bytes(b"user", b"group"));
}
