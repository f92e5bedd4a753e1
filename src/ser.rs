//! Writing documents: attributes first, in strictly increasing key order,
//! then child elements.
use crate::error::Error;
use crate::token::LastKey;
use crate::grammar::{
    attribute_bytes, bytes_lt, close_tag_bytes, escape, escape_byte, lemma_escape_push,
    open_tag_bytes,
};
use vstd::prelude::*;

verus! {

/// Appends `src` to `out`.
fn append(out: &mut Vec<u8>, src: &[u8])
    ensures
        final(out)@ == old(out)@ + src@,
{
    let ghost start = out@;
    let mut i: usize = 0;
    while i < src.len()
        invariant
            i <= src@.len(),
            out@ == start + src@.take(i as int),
        decreases src@.len() - i,
    {
        out.push(src[i]);
        i = i + 1;
        proof {
            assert(out@ =~= start + src@.take(i as int));
        }
    }
    proof {
        assert(src@.take(i as int) =~= src@);
    }
}

/// Appends the escaped form of `value` to `out`.
fn append_escaped(out: &mut Vec<u8>, value: &[u8])
    ensures
        final(out)@ == old(out)@ + escape(value@),
{
    let ghost start = out@;
    let mut i: usize = 0;
    proof {
        assert(value@.take(0) =~= Seq::<u8>::empty());
        assert(start + Seq::<u8>::empty() =~= start);
    }
    while i < value.len()
        invariant
            i <= value@.len(),
            out@ == start + escape(value@.take(i as int)),
        decreases value@.len() - i,
    {
        let b = value[i];
        out.push(b);
        if b == 34u8 {
            out.push(34u8);
        }
        proof {
            assert(value@.take(i as int + 1) =~= value@.take(i as int).push(b));
            lemma_escape_push(value@.take(i as int), b);
            assert(out@ =~= start + escape(value@.take(i as int + 1)));
        }
        i = i + 1;
    }
    proof {
        assert(value@.take(i as int) =~= value@);
    }
}

/// Runs `serialize` on a writer that appends to `output`, and returns what it
/// returns.
pub fn to_vec<'a, F>(output: &'a mut Vec<u8>, serialize: F) -> (r: Result<(), Error>) where
    F: FnOnce(AttributeSerializer<'a>) -> Result<(), Error>,

    requires
        forall|s: AttributeSerializer<'a>| #[trigger] serialize.requires((s,)),
    ensures
        exists|s: AttributeSerializer<'a>|
            {
                &&& s.written() == old(output)@
                &&& s.last_key() == Seq::<u8>::empty()
                &&& #[trigger] serialize.ensures((s,), r)
                &&& final(output)@ == (*final(s.output))@
            },
{
    let s = AttributeSerializer::new(output);
    serialize(s)
}

/// Writes the attributes of one element.
pub struct AttributeSerializer<'a> {
    /// Where the element is written.
    pub output: &'a mut Vec<u8>,
    /// The key of the attribute written last.
    pub last_key: LastKey,
}

impl<'a> AttributeSerializer<'a> {
    /// What has been written so far.
    pub closed spec fn written(&self) -> Seq<u8> {
        self.output@
    }

    /// The key of the attribute written last; empty before the first.
    pub closed spec fn last_key(&self) -> Seq<u8> {
        self.last_key@
    }

    fn new(output: &'a mut Vec<u8>) -> (r: Self)
        ensures
            r.written() == old(output)@,
            *final(r.output) == *final(output),
            r.last_key() == Seq::<u8>::empty(),
    {
        AttributeSerializer { output, last_key: LastKey::new() }
    }

    /// Writes `key="value"` and a newline, with every quote of the value
    /// doubled. Fails, writing nothing, where `key` does not sort strictly
    /// after the key written before it.
    pub fn push(&mut self, key: &[u8], value: &[u8]) -> (r: Result<(), Error>)
        ensures
            bytes_lt(old(self).last_key(), key@) ==> {
                &&& r is Ok
                &&& final(self).written() == old(self).written() + attribute_bytes(key@, value@)
                &&& final(self).last_key() == key@
            },
            !bytes_lt(old(self).last_key(), key@) ==> {
                &&& r == Err::<(), Error>(Error::AttributeOrder)
                &&& final(self).written() == old(self).written()
                &&& final(self).last_key() == old(self).last_key()
            },
    {
        if !self.last_key.accepts(key) {
            return Err(Error::AttributeOrder);
        }
        self.last_key.set(key);
        let ghost w0 = self.output@;
        append(self.output, key);
        self.output.push(61u8);
        self.output.push(34u8);
        append_escaped(self.output, value);
        self.output.push(34u8);
        self.output.push(10u8);
        proof {
            assert(self.output@ =~= w0 + attribute_bytes(key@, value@));
        }
        Ok(())
    }

    /// Ends the attributes of this element; its children follow.
    pub fn start_children(self) -> (r: ChildrenSerializer<'a>)
        ensures
            r.written() == self.written(),
            *final(r.output) == *final(self.output),
    {
        ChildrenSerializer::new(self.output)
    }
}

/// Writes the child elements of one element.
pub struct ChildrenSerializer<'a> {
    /// Where the children are written.
    pub output: &'a mut Vec<u8>,
}

impl<'a> ChildrenSerializer<'a> {
    /// What has been written so far.
    pub closed spec fn written(&self) -> Seq<u8> {
        self.output@
    }

    fn new(output: &'a mut Vec<u8>) -> (r: Self)
        ensures
            r.written() == old(output)@,
            *final(r.output) == *final(output),
    {
        ChildrenSerializer { output }
    }

    /// Writes the child element `name`: its open tag, then what `serialize`
    /// writes, then its close tag. Returns the error of `serialize`, if any.
    pub fn push<F>(&mut self, name: &[u8], serialize: F) -> (r: Result<(), Error>) where
        F: FnOnce(AttributeSerializer<'_>) -> Result<(), Error>,

        requires
            forall|s: AttributeSerializer<'_>| #[trigger] serialize.requires((s,)),
        ensures
            exists|s: AttributeSerializer<'_>|
                {
                    &&& s.written() == old(self).written() + open_tag_bytes(name@)
                    &&& s.last_key() == Seq::<u8>::empty()
                    &&& #[trigger] serialize.ensures((s,), r)
                    &&& r is Ok ==> final(self).written() == (*final(s.output))@ + close_tag_bytes(
                        name@,
                    )
                    &&& r is Err ==> final(self).written() == (*final(s.output))@
                },
    {
        let ghost w0 = self.output@;
        self.output.push(91u8);
        append(self.output, name);
        self.output.push(93u8);
        self.output.push(10u8);
        proof {
            assert(self.output@ =~= w0 + open_tag_bytes(name@));
        }
        let s = AttributeSerializer::new(self.output);
        let ghost gs = s;
        let result = serialize(s);
        match result {
            Err(e) => {
                return Err(e);
            },
            Ok(u) => {
                assert(result is Ok);
                assert(u == ());
            },
        }
        let ghost body = self.output@;
        self.output.push(91u8);
        self.output.push(47u8);
        append(self.output, name);
        self.output.push(93u8);
        self.output.push(10u8);
        proof {
            assert(self.output@ =~= body + close_tag_bytes(name@));
        }
        Ok(())
    }
}

} // verus!
