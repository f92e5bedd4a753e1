//! A tokenizer: the input as a sequence of attributes and tags.
use crate::error::Error;
use crate::grammar::{
    Lexeme, attribute_token, lemma_next_token_len, next_token, skip_space, string_token, tag_token,
    tag_without_key, token_list, translatable_marker,
};
use crate::token::{ByteClass, Tokens, pair_view};
use vstd::prelude::*;

verus! {

/// A token of the format.
#[derive(Debug, PartialEq, Eq)]
pub enum Token {
    Tag { key: Vec<u8>, is_open: bool },
    Attr { key: Vec<u8>, value: Vec<u8> },
}

impl View for Token {
    type V = Lexeme;

    open spec fn view(&self) -> Lexeme {
        match self {
            Token::Tag { key, is_open } => Lexeme::Tag { key: key@, is_open: *is_open },
            Token::Attr { key, value } => Lexeme::Attr { key: key@, value: value@ },
        }
    }
}

/// The tokens read so far, followed by the ones still to come.
spec fn after_tokens(p: Seq<Lexeme>, rest: Result<Seq<Lexeme>, Error>) -> Result<
    Seq<Lexeme>,
    Error,
> {
    match rest {
        Ok(ts) => Ok(p + ts),
        Err(e) => Err(e),
    }
}

/// What a list of tokens holds, as byte sequences.
pub open spec fn tokens_view(v: Seq<Token>) -> Seq<Lexeme> {
    v.map_values(|t: Token| t@)
}

/// Reads the tokens of one input in order.
pub struct Parser<'de> {
    tokens: Tokens<'de>,
}

impl<'de> Parser<'de> {
    /// The input that remains to be read.
    pub closed spec fn rest(&self) -> Seq<u8> {
        self.tokens.rest()
    }

    /// Starts at the beginning of `input`, past any leading whitespace.
    pub fn new(input: &'de [u8]) -> (r: Self)
        ensures
            r.rest() == skip_space(input@),
    {
        Parser { tokens: Tokens::new(input) }
    }

    /// The next byte, without taking it.
    pub fn peek(&self) -> (r: Option<u8>)
        ensures
            r == (if self.rest().len() > 0 {
                Some(self.rest()[0])
            } else {
                None::<u8>
            }),
    {
        self.tokens.peek()
    }

    /// `Some` exactly where the whole input has been read.
    pub fn assert_end(&self) -> (r: Option<()>)
        ensures
            r is Some <==> self.rest().len() == 0,
    {
        self.tokens.assert_end()
    }

    /// Reads a tag, open `[key]` or close `[/key]`, and the whitespace after
    /// it; takes nothing where there is none. The flag is true for an open tag.
    pub fn parse_tag(&mut self) -> (r: Option<(Vec<u8>, bool)>)
        ensures
            match tag_token(old(self).rest()) {
                Some((k, o, rem)) => r is Some && r->Some_0.0@ == k && r->Some_0.1 == o
                    && final(self).rest() == rem,
                None => r is None && final(self).rest() == old(self).rest(),
            },
    {
        if let Some(key) = self.tokens.next_open() {
            return Some((key, true));
        }
        match self.tokens.next_close() {
            Some(key) => Some((key, false)),
            None => None,
        }
    }

    /// Reads an attribute `key="value"` and the whitespace after it.
    pub fn parse_attribute(&mut self) -> (r: Result<Option<(Vec<u8>, Vec<u8>)>, Error>)
        ensures
            match attribute_token(old(self).rest()) {
                Ok(Some((k, v, rem))) => pair_view(r) == Ok::<_, Error>(Some((k, v)))
                    && final(self).rest() == rem,
                Ok(None) => pair_view(r) == Ok::<_, Error>(None::<(Seq<u8>, Seq<u8>)>)
                    && final(self).rest() == old(self).rest(),
                Err(e) => pair_view(r) == Err::<Option<(Seq<u8>, Seq<u8>)>, Error>(e)
                    && final(self).rest() == old(self).rest(),
            },
    {
        self.tokens.next_attribute()
    }

    /// Reads a translatable marker `_` and the whitespace after it; takes
    /// nothing where there is none.
    pub fn parse_translatable_marker(&mut self) -> (r: Option<()>)
        ensures
            match translatable_marker(old(self).rest()) {
                Some(rem) => r is Some && final(self).rest() == rem,
                None => r is None && final(self).rest() == old(self).rest(),
            },
    {
        self.tokens.parse_translatable_marker()
    }

    /// Reads a quoted string and the whitespace after it.
    pub fn parse_string(&mut self) -> (r: Result<Vec<u8>, Error>)
        ensures
            match string_token(old(self).rest()) {
                Ok((v, rem)) => r is Ok && r->Ok_0@ == v && final(self).rest() == rem,
                Err(e) => r == Err::<Vec<u8>, Error>(e) && final(self).rest() == old(self).rest(),
            },
    {
        self.tokens.parse_string()
    }

    /// Reads the next token: an attribute where a key starts, else a tag.
    /// `Ok(None)` at the end of the input.
    pub fn next(&mut self) -> (r: Result<Option<Token>, Error>)
        ensures
            match next_token(old(self).rest()) {
                Ok(Some((t, rem))) => r is Ok && r->Ok_0 is Some && r->Ok_0->Some_0@ == t
                    && final(self).rest() == rem,
                Ok(None) => r is Ok && r->Ok_0 is None && final(self).rest() == old(self).rest(),
                Err(e) => r == Err::<Option<Token>, Error>(e) && final(self).rest()
                    == old(self).rest(),
            },
    {
        match self.parse_attribute() {
            Err(e) => return Err(e),
            Ok(Some((key, value))) => return Ok(Some(Token::Attr { key, value })),
            Ok(None) => {},
        }
        match self.parse_tag() {
            Some((key, is_open)) => Ok(Some(Token::Tag { key, is_open })),
            None => if self.assert_end().is_some() {
                Ok(None)
            } else if self.tag_without_key() {
                Err(Error::ExpectedIdent)
            } else {
                Err(Error::TrailingCharacters)
            },
        }
    }

    /// Whether a tag starts here, `[` or `[/`, with no key after it.
    fn tag_without_key(&self) -> (r: bool)
        ensures
            r == tag_without_key(self.rest()),
    {
        let mut probe = self.tokens;
        let ghost s = probe.rest();
        if probe.consume(ByteClass::Exactly(91u8)).is_none() {
            return false;
        }
        proof {
            assert(s.drop_first() =~= s.skip(1));
        }
        if probe.consume(ByteClass::Exactly(47u8)).is_some() {
            proof {
                assert(s.skip(1).drop_first() =~= s.skip(2));
            }
        }
        probe.identifier().is_none()
    }

    /// Reads all the remaining tokens, in order, to the end of the input.
    pub fn collect_tokens(&mut self) -> (r: Result<Vec<Token>, Error>)
        ensures
            match token_list(old(self).rest()) {
                Ok(ts) => r is Ok && tokens_view(r->Ok_0@) == ts && final(self).rest().len() == 0,
                Err(e) => r == Err::<Vec<Token>, Error>(e),
            },
    {
        let ghost r0 = self.rest();
        let mut out: Vec<Token> = Vec::new();
        proof {
            assert(tokens_view(out@) + Seq::<Lexeme>::empty() =~= Seq::<Lexeme>::empty());
            match token_list(r0) {
                Ok(ts) => {
                    assert(tokens_view(out@) + ts =~= ts);
                },
                Err(_) => {},
            }
        }
        loop
            invariant
                r0 == old(self).rest(),
                token_list(r0) == after_tokens(tokens_view(out@), token_list(self.rest())),
            decreases self.rest().len(),
        {
            let ghost s = self.rest();
            let ghost p = tokens_view(out@);
            proof {
                lemma_next_token_len(s);
            }
            match self.next() {
                Err(e) => return Err(e),
                Ok(None) => {
                    proof {
                        assert(p + Seq::<Lexeme>::empty() =~= p);
                    }
                    return Ok(out);
                },
                Ok(Some(t)) => {
                    out.push(t);
                    proof {
                        assert(tokens_view(out@) =~= p.push(t@));
                        match token_list(self.rest()) {
                            Ok(ts) => {
                                assert(p + (seq![t@] + ts) =~= p.push(t@) + ts);
                            },
                            Err(_) => {},
                        }
                    }
                },
            }
        }
    }
}

} // verus!
