//! A cursor over the input that reads attributes and tags, one at a time.
use crate::error::Error;
use crate::grammar::{
    attribute_token, bytes_lt, close_tag, ident_len, is_key_byte, is_space,
    lemma_ident_len_bound, open_tag, skip_space, string_body, string_token, translatable_marker,
};
use vstd::prelude::*;

verus! {

/// A class of bytes that the cursor may take one of.
#[derive(Clone, Copy)]
pub enum ByteClass {
    /// This byte.
    Exactly(u8),
    /// Tab, newline or space.
    Space,
    /// A byte of a key: `a` to `z` or `_`.
    KeyByte,
    /// Any byte.
    Any,
}

impl ByteClass {
    /// Whether `b` belongs to this class.
    pub open spec fn spec_matches(self, b: u8) -> bool {
        match self {
            ByteClass::Exactly(c) => b == c,
            ByteClass::Space => is_space(b),
            ByteClass::KeyByte => is_key_byte(b),
            ByteClass::Any => true,
        }
    }

    /// Whether `b` belongs to this class.
    pub fn matches(&self, b: u8) -> (r: bool)
        ensures
            r == self.spec_matches(b),
    {
        match self {
            ByteClass::Exactly(c) => b == *c,
            ByteClass::Space => b == 9u8 || b == 10u8 || b == 32u8,
            ByteClass::KeyByte => (97u8 <= b && b <= 122u8) || b == 95u8,
            ByteClass::Any => true,
        }
    }
}

/// Whether `a` sorts strictly before `b`, byte by byte.
pub fn key_less(a: &[u8], b: &[u8]) -> (r: bool)
    ensures
        r == bytes_lt(a@, b@),
{
    let mut i: usize = 0;
    proof {
        assert(a@.skip(0) =~= a@);
        assert(b@.skip(0) =~= b@);
    }
    while i < a.len() && i < b.len()
        invariant
            i <= a@.len(),
            i <= b@.len(),
            bytes_lt(a@, b@) == bytes_lt(a@.skip(i as int), b@.skip(i as int)),
        decreases a@.len() - i,
    {
        if a[i] != b[i] {
            return a[i] < b[i];
        }
        proof {
            assert(a@.skip(i as int).drop_first() =~= a@.skip(i as int + 1));
            assert(b@.skip(i as int).drop_first() =~= b@.skip(i as int + 1));
        }
        i = i + 1;
    }
    i < b.len()
}

/// The key of the attribute handled last in an element, which the next key
/// must sort strictly after. Empty before the first.
pub struct LastKey {
    key: Vec<u8>,
}

impl View for LastKey {
    type V = Seq<u8>;

    closed spec fn view(&self) -> Seq<u8> {
        self.key@
    }
}

impl LastKey {
    /// No key yet.
    pub fn new() -> (r: Self)
        ensures
            r@ == Seq::<u8>::empty(),
    {
        LastKey { key: Vec::new() }
    }

    /// Whether `key` sorts strictly after the last key.
    pub fn accepts(&self, key: &[u8]) -> (r: bool)
        ensures
            r == bytes_lt(self@, key@),
    {
        key_less(self.key.as_slice(), key)
    }

    /// Makes `key` the last key.
    pub fn set(&mut self, key: &[u8])
        ensures
            final(self)@ == key@,
    {
        let mut k: Vec<u8> = Vec::new();
        let mut i: usize = 0;
        while i < key.len()
            invariant
                i <= key@.len(),
                k@ == key@.take(i as int),
            decreases key@.len() - i,
        {
            k.push(key[i]);
            i = i + 1;
            proof {
                assert(k@ =~= key@.take(i as int));
            }
        }
        proof {
            assert(key@.take(i as int) =~= key@);
        }
        self.key = k;
    }
}

/// Whether `a` and `b` hold the same bytes.
pub fn same_bytes(a: &[u8], b: &[u8]) -> (r: bool)
    ensures
        r == (a@ == b@),
{
    if a.len() != b.len() {
        return false;
    }
    let mut i: usize = 0;
    while i < a.len()
        invariant
            i <= a@.len(),
            a@.len() == b@.len(),
            forall|j: int| 0 <= j < i ==> a@[j] == b@[j],
        decreases a@.len() - i,
    {
        if a[i] != b[i] {
            return false;
        }
        i = i + 1;
    }
    proof {
        assert(a@ =~= b@);
    }
    true
}

/// The value that a string body read so far, followed by what is still to come.
spec fn prefixed(p: Seq<u8>, o: Option<(Seq<u8>, Seq<u8>)>) -> Option<(Seq<u8>, Seq<u8>)> {
    match o {
        Some((v, r)) => Some((p + v, r)),
        None => None,
    }
}

/// The key and value of an attribute that was read, as byte sequences.
pub open spec fn pair_view(r: Result<Option<(Vec<u8>, Vec<u8>)>, Error>) -> Result<
    Option<(Seq<u8>, Seq<u8>)>,
    Error,
> {
    match r {
        Ok(Some((k, v))) => Ok(Some((k@, v@))),
        Ok(None) => Ok(None),
        Err(e) => Err(e),
    }
}

/// A read position in a byte slice.
#[derive(Clone, Copy)]
pub struct Tokens<'de> {
    input: &'de [u8],
    pos: usize,
}

impl<'de> Tokens<'de> {
    #[verifier::type_invariant]
    spec fn inv(&self) -> bool {
        self.pos <= self.input@.len()
    }

    /// The input that remains to be read.
    pub closed spec fn rest(&self) -> Seq<u8> {
        self.input@.subrange(self.pos as int, self.input@.len() as int)
    }

    /// Starts at the beginning of `input`, past any leading whitespace.
    pub fn new(input: &'de [u8]) -> (r: Self)
        ensures
            r.rest() == skip_space(input@),
    {
        let mut tokens = Tokens { input, pos: 0 };
        proof {
            assert(tokens.rest() =~= input@);
        }
        tokens.space();
        tokens
    }

    /// `Some` exactly where the whole input has been read.
    pub fn assert_end(&self) -> (r: Option<()>)
        ensures
            r is Some <==> self.rest().len() == 0,
    {
        proof {
            use_type_invariant(self);
        }
        if self.pos < self.input.len() {
            return None;
        }
        Some(())
    }

    /// The next byte, without taking it.
    pub fn peek(&self) -> (r: Option<u8>)
        ensures
            r == (if self.rest().len() > 0 {
                Some(self.rest()[0])
            } else {
                None::<u8>
            }),
    {
        proof {
            use_type_invariant(self);
        }
        if self.pos < self.input.len() {
            Some(self.input[self.pos])
        } else {
            None
        }
    }

    /// Takes one byte of the given class. Takes nothing where the next byte
    /// is not of that class or the input has ended.
    pub fn consume(&mut self, class: ByteClass) -> (r: Option<u8>)
        ensures
            match r {
                Some(b) => {
                    &&& old(self).rest().len() > 0
                    &&& b == old(self).rest()[0]
                    &&& class.spec_matches(b)
                    &&& final(self).rest() == old(self).rest().drop_first()
                },
                None => {
                    &&& *final(self) == *old(self)
                    &&& (old(self).rest().len() == 0 || !class.spec_matches(old(self).rest()[0]))
                },
            },
    {
        proof {
            use_type_invariant(&*self);
        }
        if self.pos < self.input.len() {
            let b = self.input[self.pos];
            if class.matches(b) {
                let ghost r0 = self.rest();
                self.pos = self.pos + 1;
                proof {
                    assert(self.rest() =~= r0.drop_first());
                }
                return Some(b);
            }
        }
        None
    }

    /// Skips the whitespace at the read position.
    pub fn space(&mut self)
        ensures
            final(self).rest() == skip_space(old(self).rest()),
    {
        loop
            invariant
                skip_space(self.rest()) == skip_space(old(self).rest()),
            ensures
                self.rest() == skip_space(old(self).rest()),
            decreases self.rest().len(),
        {
            let r = self.consume(ByteClass::Space);
            if r.is_none() {
                break;
            }
        }
    }

    /// Reads the maximal run of key bytes at the read position, if there is one.
    pub fn identifier(&mut self) -> (r: Option<Vec<u8>>)
        ensures
            ({
                let n = ident_len(old(self).rest()) as int;
                match r {
                    Some(k) => {
                        &&& 0 < n <= old(self).rest().len()
                        &&& k@ == old(self).rest().take(n)
                        &&& final(self).rest() == old(self).rest().skip(n)
                    },
                    None => n == 0 && *final(self) == *old(self),
                }
            }),
    {
        let ghost r0 = self.rest();
        proof {
            lemma_ident_len_bound(r0);
        }
        let first = self.consume(ByteClass::KeyByte);
        let b = match first {
            Some(b) => b,
            None => return None,
        };
        let mut result: Vec<u8> = Vec::new();
        result.push(b);
        proof {
            assert(result@ =~= r0.take(1));
            assert(r0.drop_first() =~= r0.skip(1));
        }
        loop
            invariant
                1 <= result@.len() <= r0.len(),
                result@ == r0.take(result@.len() as int),
                self.rest() == r0.skip(result@.len() as int),
                ident_len(r0) == result@.len() + ident_len(self.rest()),
            ensures
                result@ == r0.take(result@.len() as int),
                self.rest() == r0.skip(result@.len() as int),
                ident_len(r0) == result@.len(),
            decreases self.rest().len(),
        {
            let ghost n = result@.len() as int;
            match self.consume(ByteClass::KeyByte) {
                Some(b) => {
                    result.push(b);
                    proof {
                        assert(result@ =~= r0.take(n + 1));
                        assert(r0.skip(n).drop_first() =~= r0.skip(n + 1));
                    }
                },
                None => break,
            }
        }
        Some(result)
    }

    /// Reads a quoted string and the whitespace after it. A doubled quote
    /// inside stands for one quote.
    pub fn parse_string(&mut self) -> (r: Result<Vec<u8>, Error>)
        ensures
            match string_token(old(self).rest()) {
                Ok((v, rem)) => r is Ok && r->Ok_0@ == v && final(self).rest() == rem,
                Err(e) => r == Err::<Vec<u8>, Error>(e) && *final(self) == *old(self),
            },
    {
        let saved = *self;
        if self.consume(ByteClass::Exactly(34u8)).is_none() {
            return Err(Error::ExpectedString);
        }
        let ghost b0 = self.rest();
        let mut result: Vec<u8> = Vec::new();
        proof {
            assert(result@ + Seq::<u8>::empty() =~= Seq::<u8>::empty());
            lemma_prefixed_empty(string_body(b0));
        }
        loop
            invariant_except_break
                string_body(b0) == prefixed(result@, string_body(self.rest())),
            invariant
                *old(self) == saved,
                saved.rest().len() > 0,
                saved.rest()[0] == 34u8,
                b0 == saved.rest().drop_first(),
            ensures
                string_body(b0) == Some((result@, self.rest())),
            decreases self.rest().len(),
        {
            let ghost x = self.rest();
            let ghost p = result@;
            match self.consume(ByteClass::Any) {
                None => {
                    *self = saved;
                    return Err(Error::EofWhileParsingString);
                },
                Some(b) => {
                    if b == 34u8 {
                        if self.consume(ByteClass::Exactly(34u8)).is_some() {
                            result.push(34u8);
                            proof {
                                assert(self.rest() =~= x.subrange(2, x.len() as int));
                                lemma_prefixed_push(p, 34u8, string_body(self.rest()));
                            }
                        } else {
                            proof {
                                assert(p + Seq::<u8>::empty() =~= p);
                            }
                            break;
                        }
                    } else {
                        result.push(b);
                        proof {
                            lemma_prefixed_push(p, b, string_body(self.rest()));
                        }
                    }
                },
            }
        }
        self.space();
        Ok(result)
    }

    /// Reads an attribute `key="value"` and the whitespace after it.
    /// `Ok(None)`, taking nothing, where no key starts here; an error,
    /// taking nothing, where a key is not followed by `=` and a string.
    pub fn next_attribute(&mut self) -> (r: Result<Option<(Vec<u8>, Vec<u8>)>, Error>)
        ensures
            match attribute_token(old(self).rest()) {
                Ok(Some((k, v, rem))) => pair_view(r) == Ok::<_, Error>(Some((k, v)))
                    && final(self).rest() == rem,
                Ok(None) => pair_view(r) == Ok::<_, Error>(None::<(Seq<u8>, Seq<u8>)>)
                    && *final(self) == *old(self),
                Err(e) => pair_view(r) == Err::<Option<(Seq<u8>, Seq<u8>)>, Error>(e)
                    && *final(self) == *old(self),
            },
    {
        let saved = *self;
        let key = match self.identifier() {
            Some(k) => k,
            None => return Ok(None),
        };
        self.space();
        if self.consume(ByteClass::Exactly(61u8)).is_none() {
            let e = if self.assert_end().is_some() {
                Error::EofWhileParsingAttribute
            } else {
                Error::ExpectedEquals
            };
            *self = saved;
            return Err(e);
        }
        if self.assert_end().is_some() {
            *self = saved;
            return Err(Error::EofWhileParsingAttribute);
        }
        match self.parse_string() {
            Ok(value) => Ok(Some((key, value))),
            Err(e) => {
                *self = saved;
                Err(e)
            },
        }
    }

    /// Reads an open tag `[key]` and the whitespace after it; takes nothing
    /// where there is none.
    pub fn next_open(&mut self) -> (r: Option<Vec<u8>>)
        ensures
            match open_tag(old(self).rest()) {
                Some((k, rem)) => r is Some && r->Some_0@ == k && final(self).rest() == rem,
                None => r is None && *final(self) == *old(self),
            },
    {
        let saved = *self;
        let ghost r0 = self.rest();
        if self.consume(ByteClass::Exactly(91u8)).is_none() {
            return None;
        }
        proof {
            assert(r0.drop_first() =~= r0.skip(1));
        }
        let key = match self.identifier() {
            Some(k) => k,
            None => {
                *self = saved;
                return None;
            },
        };
        let ghost n = key@.len() as int;
        proof {
            assert(r0.skip(1).skip(n) =~= r0.skip(n + 1));
            assert(key@ =~= r0.subrange(1, n + 1));
        }
        if self.consume(ByteClass::Exactly(93u8)).is_none() {
            *self = saved;
            return None;
        }
        proof {
            assert(r0.skip(n + 1).drop_first() =~= r0.skip(n + 2));
        }
        self.space();
        Some(key)
    }

    /// Reads a close tag `[/key]` and the whitespace after it; takes nothing
    /// where there is none.
    pub fn next_close(&mut self) -> (r: Option<Vec<u8>>)
        ensures
            match close_tag(old(self).rest()) {
                Some((k, rem)) => r is Some && r->Some_0@ == k && final(self).rest() == rem,
                None => r is None && *final(self) == *old(self),
            },
    {
        let saved = *self;
        let ghost r0 = self.rest();
        if self.consume(ByteClass::Exactly(91u8)).is_none() {
            return None;
        }
        if self.consume(ByteClass::Exactly(47u8)).is_none() {
            *self = saved;
            return None;
        }
        proof {
            assert(r0.drop_first().drop_first() =~= r0.skip(2));
        }
        let key = match self.identifier() {
            Some(k) => k,
            None => {
                *self = saved;
                return None;
            },
        };
        let ghost n = key@.len() as int;
        proof {
            assert(r0.skip(2).skip(n) =~= r0.skip(n + 2));
            assert(key@ =~= r0.subrange(2, n + 2));
        }
        if self.consume(ByteClass::Exactly(93u8)).is_none() {
            *self = saved;
            return None;
        }
        proof {
            assert(r0.skip(n + 2).drop_first() =~= r0.skip(n + 3));
        }
        self.space();
        Some(key)
    }

    /// Reads a translatable marker `_` and the whitespace after it; takes
    /// nothing where there is none.
    pub fn parse_translatable_marker(&mut self) -> (r: Option<()>)
        ensures
            match translatable_marker(old(self).rest()) {
                Some(rem) => r is Some && final(self).rest() == rem,
                None => r is None && *final(self) == *old(self),
            },
    {
        self.consume(ByteClass::Exactly(95u8))?;
        self.space();
        Some(())
    }

    /// Reads a translatable marker where one is required.
    pub fn expect_translatable_marker(&mut self) -> (r: Result<(), Error>)
        ensures
            match translatable_marker(old(self).rest()) {
                Some(rem) => r is Ok && final(self).rest() == rem,
                None => r == Err::<(), Error>(Error::ExpectedTranslatable) && *final(self)
                    == *old(self),
            },
    {
        match self.parse_translatable_marker() {
            Some(()) => Ok(()),
            None => Err(Error::ExpectedTranslatable),
        }
    }
}

proof fn lemma_prefixed_empty(o: Option<(Seq<u8>, Seq<u8>)>)
    ensures
        prefixed(Seq::empty(), o) == o,
{
    match o {
        Some((v, r)) => {
            assert(Seq::<u8>::empty() + v =~= v);
        },
        None => {},
    }
}

proof fn lemma_prefixed_push(p: Seq<u8>, b: u8, o: Option<(Seq<u8>, Seq<u8>)>)
    ensures
        prefixed(p, prefixed(seq![b], o)) == prefixed(p.push(b), o),
{
    match o {
        Some((v, r)) => {
            assert(p + (seq![b] + v) =~= p.push(b) + v);
        },
        None => {},
    }
}

} // verus!
