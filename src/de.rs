//! Reading documents by walking them: the attributes of an element first,
//! then its children, each read by a closure of the caller's.
use crate::error::Error;
use crate::grammar::{
    attribute_token, bytes_lt, close_tag, lemma_next_token_len, next_token, open_tag, skip_space,
};
use crate::tree::{parse_attributes, parse_children, parse_document, parse_element};
use crate::token::{LastKey, Tokens, pair_view, same_bytes};
use vstd::prelude::*;

verus! {

/// How a document ends once its top-level element has been read, where
/// `rest` remains: it must be empty.
pub open spec fn document_end<T>(rest: Seq<u8>, value: T) -> Result<T, Error> {
    if rest.len() == 0 {
        Ok(value)
    } else if close_tag(rest) is Some {
        Err(Error::MismatchedOrMissingCloseTag)
    } else {
        Err(Error::TrailingCharacters)
    }
}

/// How a child element `key` ends once its content has been read, where
/// `rest` remains: with the close tag `[/key]`.
pub open spec fn child_end<T>(rest: Seq<u8>, key: Seq<u8>, value: T) -> Result<Option<T>, Error> {
    match close_tag(rest) {
        Some((k, _)) => if k == key {
            Ok(Some(value))
        } else {
            Err(Error::MismatchedOrMissingCloseTag)
        },
        None => Err(Error::MismatchedOrMissingCloseTag),
    }
}

/// Reads `input` as one document: runs `action` on its top-level element and
/// then requires that the whole input has been read.
pub fn from_slice<'de, T, F>(input: &'de [u8], action: F) -> (r: Result<T, Error>) where
    F: for <'a>FnOnce(AttributeDeserializer<'a, 'de>) -> Result<T, Error>,

    requires
        forall|d: AttributeDeserializer<'_, 'de>| #[trigger] action.requires((d,)),
    ensures
        exists|d: AttributeDeserializer<'_, 'de>, res: Result<T, Error>|
            {
                &&& d.rest() == skip_space(input@)
                &&& d.last_key() == Seq::<u8>::empty()
                &&& #[trigger] action.ensures((d,), res)
                &&& res is Err ==> r == res
                &&& res is Ok ==> r == document_end((*final(d.tokens)).rest(), res->Ok_0)
            },
{
    let mut tokens = Tokens::new(input);
    let d = AttributeDeserializer::new(&mut tokens);
    let ghost gd = d;
    let res = action(d);
    let value = match res {
        Err(e) => return Err(e),
        Ok(value) => value,
    };
    let ghost m = tokens.rest();
    assert(m == (*final(gd.tokens)).rest());
    if tokens.assert_end().is_some() {
        return Ok(value);
    }
    if tokens.next_close().is_some() {
        assert(document_end(m, value) == Err::<T, Error>(Error::MismatchedOrMissingCloseTag));
        return Err(Error::MismatchedOrMissingCloseTag);
    }
    Err(Error::TrailingCharacters)
}

/// Reads the attributes of one element, in order.
pub struct AttributeDeserializer<'a, 'de> {
    /// The input, at the next attribute.
    pub tokens: &'a mut Tokens<'de>,
    /// The key of the attribute read last.
    pub last_key: LastKey,
}

impl<'a, 'de> AttributeDeserializer<'a, 'de> {
    /// The input that remains to be read.
    pub closed spec fn rest(&self) -> Seq<u8> {
        self.tokens.rest()
    }

    /// The key of the attribute read last; empty before the first.
    pub closed spec fn last_key(&self) -> Seq<u8> {
        self.last_key@
    }

    fn new(tokens: &'a mut Tokens<'de>) -> (r: Self)
        ensures
            *final(r.tokens) == *final(tokens),
            r.rest() == old(tokens).rest(),
            r.last_key() == Seq::<u8>::empty(),
    {
        AttributeDeserializer { tokens, last_key: LastKey::new() }
    }

    /// Reads the next attribute of this element. `Ok(None)` where none
    /// follows. Fails where its key does not sort strictly after the key
    /// read before it. Takes nothing unless it returns an attribute.
    pub fn next_attribute(&mut self) -> (r: Result<Option<(Vec<u8>, Vec<u8>)>, Error>)
        ensures
            match attribute_token(old(self).rest()) {
                Ok(Some((k, v, rem))) => if bytes_lt(old(self).last_key(), k) {
                    &&& pair_view(r) == Ok::<_, Error>(Some((k, v)))
                    &&& final(self).rest() == rem
                    &&& final(self).last_key() == k
                } else {
                    &&& pair_view(r) == Err::<Option<(Seq<u8>, Seq<u8>)>, Error>(
                        Error::AttributeOrder,
                    )
                    &&& final(self).rest() == old(self).rest()
                    &&& final(self).last_key() == old(self).last_key()
                },
                Ok(None) => {
                    &&& pair_view(r) == Ok::<_, Error>(None::<(Seq<u8>, Seq<u8>)>)
                    &&& final(self).rest() == old(self).rest()
                    &&& final(self).last_key() == old(self).last_key()
                },
                Err(e) => {
                    &&& pair_view(r) == Err::<Option<(Seq<u8>, Seq<u8>)>, Error>(e)
                    &&& final(self).rest() == old(self).rest()
                    &&& final(self).last_key() == old(self).last_key()
                },
            },
    {
        let saved = *self.tokens;
        let (key, value) = match self.tokens.next_attribute() {
            Err(e) => return Err(e),
            Ok(None) => return Ok(None),
            Ok(Some(pair)) => pair,
        };
        if !self.last_key.accepts(key.as_slice()) {
            *self.tokens = saved;
            return Err(Error::AttributeOrder);
        }
        self.last_key.set(key.as_slice());
        Ok(Some((key, value)))
    }

    /// Ends the attributes of this element; its children follow.
    pub fn start_children(self) -> (r: ChildrenDeserializer<'a, 'de>)
        ensures
            r.rest() == self.rest(),
            *final(r.tokens) == *final(self.tokens),
    {
        ChildrenDeserializer::new(self.tokens)
    }
}

/// Reads the child elements of one element, in order.
pub struct ChildrenDeserializer<'a, 'de> {
    /// The input, at the next child.
    pub tokens: &'a mut Tokens<'de>,
}

impl<'a, 'de> ChildrenDeserializer<'a, 'de> {
    /// The input that remains to be read.
    pub closed spec fn rest(&self) -> Seq<u8> {
        self.tokens.rest()
    }

    fn new(tokens: &'a mut Tokens<'de>) -> (r: Self)
        ensures
            r.rest() == old(tokens).rest(),
            *final(r.tokens) == *final(tokens),
    {
        ChildrenDeserializer { tokens }
    }

    /// Reads the next child element: its open tag, then its content, which
    /// `action` reads given the tag's key, then the matching close tag.
    /// `Ok(None)`, taking nothing, where no open tag follows.
    pub fn next_child<F, T>(&mut self, action: F) -> (r: Result<Option<T>, Error>) where
        F: for <'b>FnOnce(&[u8], AttributeDeserializer<'b, 'de>) -> Result<T, Error>,

        requires
            forall|k: &[u8], d: AttributeDeserializer<'_, 'de>| #[trigger] action.requires((k, d)),
        ensures
            match open_tag(old(self).rest()) {
                None => r is Ok && r->Ok_0 is None && final(self).rest() == old(self).rest(),
                Some((key, after)) => exists|
                    k: &[u8],
                    d: AttributeDeserializer<'_, 'de>,
                    res: Result<T, Error>,
                |
                    {
                        &&& k@ == key
                        &&& d.rest() == after
                        &&& d.last_key() == Seq::<u8>::empty()
                        &&& #[trigger] action.ensures((k, d), res)
                        &&& res is Err ==> r == Err::<Option<T>, Error>(res->Err_0)
                        &&& res is Ok ==> {
                            let m = (*final(d.tokens)).rest();
                            &&& r == child_end(m, key, res->Ok_0)
                            &&& r is Ok ==> final(self).rest() == close_tag(m)->Some_0.1
                        }
                    },
            },
    {
        let key = match self.tokens.next_open() {
            None => return Ok(None),
            Some(key) => key,
        };
        let d = AttributeDeserializer::new(self.tokens);
        let ghost gd = d;
        let res = action(key.as_slice(), d);
        let ghost gres = res;
        let value = match res {
            Err(e) => return Err(e),
            Ok(value) => value,
        };
        let ghost m = self.tokens.rest();
        assert(m == (*final(gd.tokens)).rest());
        let close_key = match self.tokens.next_close() {
            None => {
                assert(child_end(m, key@, gres->Ok_0) == Err::<Option<T>, Error>(
                    Error::MismatchedOrMissingCloseTag,
                ));
                return Err(Error::MismatchedOrMissingCloseTag);
            },
            Some(close_key) => close_key,
        };
        if !same_bytes(key.as_slice(), close_key.as_slice()) {
            assert(child_end(m, key@, gres->Ok_0) == Err::<Option<T>, Error>(
                Error::MismatchedOrMissingCloseTag,
            ));
            return Err(Error::MismatchedOrMissingCloseTag);
        }
        assert(child_end(m, key@, gres->Ok_0) == Ok::<Option<T>, Error>(Some(value)));
        Ok(Some(value))
    }
}

/// What remains after a successful read, or its error.
pub open spec fn rest_of<A>(r: Result<(A, Seq<u8>), Error>) -> Result<Seq<u8>, Error> {
    match r {
        Ok((_, rem)) => Ok(rem),
        Err(e) => Err(e),
    }
}

/// Reads every attribute and every child of the element at the read position.
fn skip_element(tokens: &mut Tokens<'_>) -> (r: Result<(), Error>)
    ensures
        match rest_of(parse_element(old(tokens).rest())) {
            Ok(rem) => r is Ok && final(tokens).rest() == rem,
            Err(e) => r == Err::<(), Error>(e),
        },
        r is Ok ==> final(tokens).rest().len() <= old(tokens).rest().len(),
    decreases old(tokens).rest().len(),
{
    let ghost s0 = tokens.rest();
    let mut last = LastKey::new();
    loop
        invariant
            rest_of(parse_attributes(s0, Seq::empty())) == rest_of(
                parse_attributes(tokens.rest(), last@),
            ),
            tokens.rest().len() <= s0.len(),
            s0 == old(tokens).rest(),
        ensures
            rest_of(parse_attributes(s0, Seq::empty())) == Ok::<_, Error>(tokens.rest()),
            tokens.rest().len() <= s0.len(),
        decreases tokens.rest().len(),
    {
        let ghost cur = tokens.rest();
        proof {
            lemma_next_token_len(cur);
        }
        match tokens.next_attribute() {
            Err(e) => return Err(e),
            Ok(None) => break,
            Ok(Some((key, _value))) => {
                if !last.accepts(key.as_slice()) {
                    return Err(Error::AttributeOrder);
                }
                last.set(key.as_slice());
            },
        }
    }
    let ghost c0 = tokens.rest();
    loop
        invariant
            rest_of(parse_children(c0)) == rest_of(parse_children(tokens.rest())),
            tokens.rest().len() <= c0.len(),
            c0.len() <= s0.len(),
            s0 == old(tokens).rest(),
            rest_of(parse_element(s0)) == rest_of(parse_children(c0)),
        decreases tokens.rest().len(),
    {
        let ghost cur = tokens.rest();
        proof {
            lemma_next_token_len(cur);
        }
        let key = match tokens.next_open() {
            None => return Ok(()),
            Some(key) => key,
        };
        let ghost after = tokens.rest();
        match skip_element(tokens) {
            Err(e) => return Err(e),
            Ok(()) => {},
        }
        let ghost m = tokens.rest();
        proof {
            lemma_next_token_len(m);
        }
        let close_key = match tokens.next_close() {
            None => return Err(Error::MismatchedOrMissingCloseTag),
            Some(close_key) => close_key,
        };
        if !same_bytes(key.as_slice(), close_key.as_slice()) {
            return Err(Error::MismatchedOrMissingCloseTag);
        }
    }
}

/// Validates `input` as one well-formed document, reading every attribute
/// and every child: `Ok` exactly where it is, else the first error met.
pub fn validate_document(input: &[u8]) -> (r: Result<(), Error>)
    ensures
        r == match parse_document(input@) {
            Ok(_) => Ok::<(), Error>(()),
            Err(e) => Err(e),
        },
{
    let mut tokens = Tokens::new(input);
    match skip_element(&mut tokens) {
        Err(e) => return Err(e),
        Ok(()) => {},
    }
    if tokens.assert_end().is_some() {
        return Ok(());
    }
    if tokens.next_close().is_some() {
        return Err(Error::MismatchedOrMissingCloseTag);
    }
    Err(Error::TrailingCharacters)
}

} // verus!
