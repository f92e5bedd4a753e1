//! A parser and a matching serializer for a small tag/attribute markup
//! format: `key="value"` attributes in strictly increasing key order,
//! followed by nested `[name]` ... `[/name]` child elements.
pub mod de;
pub mod error;
pub mod grammar;
pub mod parser;
pub mod ser;
pub mod token;
pub mod tree;
