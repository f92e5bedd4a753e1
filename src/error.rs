use vstd::prelude::*;

verus! {

/// The ways in which reading or writing a document can fail.
#[derive(Clone, Copy, Debug, PartialEq, Eq, Structural)]
pub enum Error {
    /// The input ended inside an attribute, after its key.
    EofWhileParsingAttribute,
    /// The input ended inside a quoted string.
    EofWhileParsingString,
    /// An identifier was required.
    ExpectedIdent,
    /// An attribute key was not followed by `=`.
    ExpectedEquals,
    /// A quoted string was required.
    ExpectedString,
    /// A translatable marker `_` was required.
    ExpectedTranslatable,
    /// Bytes remain after a complete document.
    TrailingCharacters,
    /// An attribute key is not strictly greater than the one before it.
    AttributeOrder,
    /// A close tag does not match the open tag, or is missing, or has no open tag.
    MismatchedOrMissingCloseTag,
}

impl Error {
    /// A short human-readable description of the error.
    pub fn message(&self) -> (r: &'static str)
        ensures
            r@ == match self {
                Error::EofWhileParsingAttribute => "EOF while parsing an attribute"@,
                Error::EofWhileParsingString => "EOF while parsing a string"@,
                Error::ExpectedIdent => "expected ident"@,
                Error::ExpectedEquals => "expected equals"@,
                Error::ExpectedString => "expected string"@,
                Error::ExpectedTranslatable => "expected translatable string"@,
                Error::TrailingCharacters => "extra trailing characters"@,
                Error::AttributeOrder => "attribute not in order"@,
                Error::MismatchedOrMissingCloseTag => "mismatched or missing close tag"@,
            },
    {
        match self {
            Error::EofWhileParsingAttribute => "EOF while parsing an attribute",
            Error::EofWhileParsingString => "EOF while parsing a string",
            Error::ExpectedIdent => "expected ident",
            Error::ExpectedEquals => "expected equals",
            Error::ExpectedString => "expected string",
            Error::ExpectedTranslatable => "expected translatable string",
            Error::TrailingCharacters => "extra trailing characters",
            Error::AttributeOrder => "attribute not in order",
            Error::MismatchedOrMissingCloseTag => "mismatched or missing close tag",
        }
    }
}

} // verus!
