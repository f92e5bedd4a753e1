use simple_wml::error::Error;
use simple_wml::ser::to_vec;

#[test]
fn simple() {
    let mut output = Vec::new();

    to_vec(&mut output, |mut attrs| {
        attrs.push(b"baz", b"quux")?;
        attrs.push(b"foo", b"bar \"bar\"")?;

        let mut children = attrs.start_children();
        children.push(b"user", |mut attrs| {
            attrs.push(b"name", b"Li'sar")?;
            Ok(())
        })?;
        children.push(b"user", |mut attrs| {
            attrs.push(b"name", b"Konrad")?;
            Ok(())
        })?;

        Ok(())
    }).unwrap();

    assert_eq!(output, &br#"baz="quux"
foo="bar ""bar"""
[user]
name="Li'sar"
[/user]
[user]
name="Konrad"
[/user]
"#[..]);
}

#[test]
fn ser_quote_escaping() {
    let mut output = Vec::new();
    to_vec(&mut output, |mut attrs| attrs.push(b"name", br#"Li"sar"#)).unwrap();
    assert_eq!(output, b"name=\"Li\"\"sar\"\n".to_vec());
}

#[test]
fn ser_order_enforced() {
    let mut output = Vec::new();
    let result = to_vec(&mut output, |mut attrs| {
        attrs.push(b"foo", b"1")?;
        attrs.push(b"bar", b"2")?;
        Ok(())
    });
    assert_eq!(result, Err(Error::AttributeOrder));
    assert_eq!(output, b"foo=\"1\"\n".to_vec());
}

#[test]
fn ser_duplicate_key_rejected() {
    let mut output = Vec::new();
    let result = to_vec(&mut output, |mut attrs| {
        attrs.push(b"a", b"1")?;
        attrs.push(b"a", b"2")
    });
    assert_eq!(result, Err(Error::AttributeOrder));
}

#[test]
fn ser_nested_children() {
    let mut output = Vec::new();
    to_vec(&mut output, |attrs| {
        let mut children = attrs.start_children();
        children.push(b"a", |attrs| {
            let mut inner = attrs.start_children();
            inner.push(b"b", |_| Ok(()))
        })
    })
    .unwrap();
    assert_eq!(output, b"[a]\n[b]\n[/b]\n[/a]\n".to_vec());
}

#[test]
fn ser_child_error_propagates() {
    let mut output = Vec::new();
    let result = to_vec(&mut output, |attrs| {
        let mut children = attrs.start_children();
        children.push(b"a", |mut attrs| {
            attrs.push(b"y", b"")?;
            attrs.push(b"x", b"")
        })
    });
    assert_eq!(result, Err(Error::AttributeOrder));
}

#[test]
fn ser_empty_document() {
    let mut output = Vec::new();
    to_vec(&mut output, |_| Ok(())).unwrap();
    assert!(output.is_empty());
}
