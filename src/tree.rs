//! Documents as trees: how a tree is written, and what a walk that reads
//! every attribute and every child of an input finds there.
use crate::de::{document_end};
use crate::error::Error;
use crate::grammar::{
    attribute_bytes, attribute_token, bytes_lt, close_tag, close_tag_bytes, escape, is_key,
    is_key_byte, is_space, lemma_attribute_read, lemma_close_read, lemma_open_read, open_tag,
    open_tag_bytes, skip_space,
};
use vstd::prelude::*;

verus! {

/// An element: its attributes in order, then its children in order, each
/// child with the key of its tag.
pub struct Tree {
    pub attributes: Seq<(Seq<u8>, Seq<u8>)>,
    pub children: Seq<(Seq<u8>, Tree)>,
}

/// Whether each key of `a` sorts strictly after the one before it.
pub open spec fn keys_increasing(a: Seq<(Seq<u8>, Seq<u8>)>) -> bool {
    forall|i: int| 0 < i < a.len() ==> bytes_lt(#[trigger] a[i - 1].0, a[i].0)
}

/// Whether every key of `t` and of its descendants is valid, and the
/// attribute keys of each element are strictly increasing.
pub open spec fn well_formed(t: Tree) -> bool
    decreases t,
{
    &&& keys_increasing(t.attributes)
    &&& forall|i: int| 0 <= i < t.attributes.len() ==> is_key(#[trigger] t.attributes[i].0)
    &&& forall|i: int| 0 <= i < t.children.len() ==> is_key(#[trigger] t.children[i].0)
    &&& forall|i: int| 0 <= i < t.children.len() ==> well_formed(#[trigger] t.children[i].1)
}

/// How a run of attributes is written.
pub open spec fn attributes_bytes(a: Seq<(Seq<u8>, Seq<u8>)>) -> Seq<u8>
    decreases a.len(),
{
    if a.len() == 0 {
        Seq::empty()
    } else {
        attribute_bytes(a[0].0, a[0].1) + attributes_bytes(a.drop_first())
    }
}

/// How an element is written: its attributes, then each child between its
/// open and close tags.
pub open spec fn element_bytes(t: Tree) -> Seq<u8>
    decreases t, 1nat,
{
    attributes_bytes(t.attributes) + children_bytes(t, 0)
}

/// How the children of `t` from the `i`-th on are written.
pub open spec fn children_bytes(t: Tree, i: int) -> Seq<u8>
    decreases t, 0nat, t.children.len() - i,
{
    if 0 <= i < t.children.len() {
        open_tag_bytes(t.children[i].0) + element_bytes(t.children[i].1) + close_tag_bytes(
            t.children[i].0,
        ) + children_bytes(t, i + 1)
    } else {
        Seq::empty()
    }
}

/// The attributes at the front of `s`, each key sorting strictly after the
/// one before it (the first after `last`), and what remains after them.
pub open spec fn parse_attributes(s: Seq<u8>, last: Seq<u8>) -> Result<
    (Seq<(Seq<u8>, Seq<u8>)>, Seq<u8>),
    Error,
>
    decreases s.len(),
{
    match attribute_token(s) {
        Err(e) => Err(e),
        Ok(None) => Ok((Seq::empty(), s)),
        Ok(Some((k, v, r))) => if !bytes_lt(last, k) {
            Err(Error::AttributeOrder)
        } else if r.len() < s.len() {
            match parse_attributes(r, k) {
                Ok((a, r2)) => Ok((seq![(k, v)] + a, r2)),
                Err(e) => Err(e),
            }
        } else {
            // an attribute takes at least one byte
            Err(Error::TrailingCharacters)
        },
    }
}

/// The element at the front of `s`, and what remains after it.
pub open spec fn parse_element(s: Seq<u8>) -> Result<(Tree, Seq<u8>), Error>
    decreases s.len(), 1nat,
{
    match parse_attributes(s, Seq::empty()) {
        Err(e) => Err(e),
        Ok((a, r)) => if r.len() <= s.len() {
            match parse_children(r) {
                Ok((cs, r2)) => Ok((Tree { attributes: a, children: cs }, r2)),
                Err(e) => Err(e),
            }
        } else {
            // what remains is never longer than the input
            Err(Error::TrailingCharacters)
        },
    }
}

/// The child elements at the front of `s`, each between an open tag and the
/// matching close tag, and what remains after them.
pub open spec fn parse_children(s: Seq<u8>) -> Result<(Seq<(Seq<u8>, Tree)>, Seq<u8>), Error>
    decreases s.len(), 0nat,
{
    match open_tag(s) {
        None => Ok((Seq::empty(), s)),
        Some((k, r)) => if r.len() < s.len() {
            match parse_element(r) {
                Err(e) => Err(e),
                Ok((t, r2)) => match close_tag(r2) {
                    Some((k2, r3)) => if k2 != k {
                        Err(Error::MismatchedOrMissingCloseTag)
                    } else if r3.len() < s.len() {
                        match parse_children(r3) {
                            Ok((cs, r4)) => Ok((seq![(k, t)] + cs, r4)),
                            Err(e) => Err(e),
                        }
                    } else {
                        // a close tag takes at least one byte
                        Err(Error::TrailingCharacters)
                    },
                    None => Err(Error::MismatchedOrMissingCloseTag),
                },
            }
        } else {
            // an open tag takes at least one byte
            Err(Error::TrailingCharacters)
        },
    }
}

/// The tree that a walk reading every attribute and every child of `input`
/// finds, or the first error it meets.
pub open spec fn parse_document(input: Seq<u8>) -> Result<Tree, Error> {
    match parse_element(skip_space(input)) {
        Err(e) => Err(e),
        Ok((t, r)) => document_end(r, t),
    }
}

/// Whether `s` is empty or starts with a close tag: where an element ends.
pub open spec fn at_element_end(s: Seq<u8>) -> bool {
    s.len() == 0 || (s.len() > 1 && s[0] == 91u8 && s[1] == 47u8)
}

proof fn lemma_element_end_stops(s: Seq<u8>)
    requires
        at_element_end(s),
    ensures
        attribute_token(s) == Ok::<_, Error>(None::<(Seq<u8>, Seq<u8>, Seq<u8>)>),
        open_tag(s) is None,
        skip_space(s) == s,
{
    if s.len() > 0 {
        assert(!is_key_byte(s[0]));
        assert(s.skip(1)[0] == 47u8);
    }
}

/// What an element writes is empty, or starts with a key byte or `[`.
proof fn lemma_element_bytes_start(t: Tree)
    requires
        well_formed(t),
    ensures
        element_bytes(t).len() == 0 || is_key_byte(element_bytes(t)[0])
            || element_bytes(t)[0] == 91u8,
{
    if t.attributes.len() > 0 {
        let k = t.attributes[0].0;
        assert(is_key(k));
        assert(is_key_byte(k[0]));
        assert(attributes_bytes(t.attributes)[0] == k[0]);
    } else {
        assert(attributes_bytes(t.attributes) =~= Seq::<u8>::empty());
        assert(element_bytes(t) =~= children_bytes(t, 0));
    }
}

proof fn lemma_no_space_skip(s: Seq<u8>)
    requires
        s.len() == 0 || !is_space(s[0]),
    ensures
        skip_space(s) == s,
{
}

/// A run of sorted attributes, written, is read back as that run.
proof fn lemma_attributes_read(a: Seq<(Seq<u8>, Seq<u8>)>, last: Seq<u8>, rest: Seq<u8>)
    requires
        keys_increasing(a),
        forall|i: int| 0 <= i < a.len() ==> is_key(#[trigger] a[i].0),
        a.len() > 0 ==> bytes_lt(last, a[0].0),
        attribute_token(rest) == Ok::<_, Error>(None::<(Seq<u8>, Seq<u8>, Seq<u8>)>),
        rest.len() == 0 || !is_space(rest[0]),
    ensures
        parse_attributes(attributes_bytes(a) + rest, last) == Ok::<_, Error>((a, rest)),
    decreases a.len(),
{
    let s = attributes_bytes(a) + rest;
    if a.len() == 0 {
        assert(s =~= rest);
        assert(a =~= Seq::<(Seq<u8>, Seq<u8>)>::empty());
    } else {
        let (k, v) = a[0];
        let a1 = a.drop_first();
        let t = attributes_bytes(a1) + rest;
        assert(is_key(a[0].0));
        assert(s =~= k + seq![61u8, 34u8] + escape(v) + seq![34u8] + (seq![10u8] + t));
        lemma_attribute_read(k, v, seq![10u8] + t);
        assert((seq![10u8] + t).drop_first() =~= t);
        if a1.len() > 0 {
            assert(is_key(a1[0].0));
            assert(is_key_byte(a1[0].0[0]));
            assert(t[0] == a1[0].0[0]);
            assert(bytes_lt(a[0].0, a[1].0));
        }
        lemma_no_space_skip(t);
        assert(skip_space(seq![10u8] + t) == skip_space(t));
        assert forall|i: int| 0 < i < a1.len() implies bytes_lt(#[trigger] a1[i - 1].0, a1[i].0) by {
            assert(a1[i - 1] == a[i]);
            assert(a1[i] == a[i + 1]);
            let j = i + 1;
            assert(bytes_lt(a[j - 1].0, a[j].0));
        }
        assert forall|i: int| 0 <= i < a1.len() implies is_key(#[trigger] a1[i].0) by {
            assert(a1[i] == a[i + 1]);
        }
        lemma_attributes_read(a1, k, rest);
        assert(seq![(k, v)] + a1 =~= a);
    }
}

/// An element, written, is read back as that element, where an element end
/// follows it.
proof fn lemma_element_read(t: Tree, rest: Seq<u8>)
    requires
        well_formed(t),
        at_element_end(rest),
    ensures
        parse_element(element_bytes(t) + rest) == Ok::<_, Error>((t, rest)),
    decreases t, 1nat,
{
    let c = children_bytes(t, 0) + rest;
    let s = element_bytes(t) + rest;
    assert(s =~= attributes_bytes(t.attributes) + c);
    lemma_element_end_stops(rest);
    if t.children.len() > 0 {
        assert(c[0] == 91u8);
        assert(c.skip(1)[0] == t.children[0].0[0]);
        assert(is_key(t.children[0].0));
        assert(is_key_byte(t.children[0].0[0]));
    } else {
        assert(c =~= rest);
    }
    if t.attributes.len() > 0 {
        assert(is_key(t.attributes[0].0));
    }
    lemma_attributes_read(t.attributes, Seq::empty(), c);
    lemma_children_read(t, 0, rest);
    assert(t.children.skip(0) =~= t.children);
}

/// The children of an element from the `i`-th on, written, are read back as
/// those children, where an element end follows them.
#[verifier::rlimit(60)]
proof fn lemma_children_read(t: Tree, i: int, rest: Seq<u8>)
    requires
        well_formed(t),
        0 <= i <= t.children.len(),
        at_element_end(rest),
    ensures
        parse_children(children_bytes(t, i) + rest) == Ok::<_, Error>((t.children.skip(i), rest)),
    decreases t, 0nat, t.children.len() - i,
{
    let s = children_bytes(t, i) + rest;
    if i == t.children.len() {
        assert(s =~= rest);
        lemma_element_end_stops(rest);
        assert(t.children.skip(i) =~= Seq::<(Seq<u8>, Tree)>::empty());
    } else {
        let k = t.children[i].0;
        let child = t.children[i].1;
        assert(is_key(k));
        assert(well_formed(child));
        let r2 = children_bytes(t, i + 1) + rest;
        let x = close_tag_bytes(k) + r2;
        let e = element_bytes(child) + x;
        assert(s =~= seq![91u8] + k + seq![93u8] + (seq![10u8] + e));
        lemma_open_read(k, seq![10u8] + e);
        assert((seq![10u8] + e).drop_first() =~= e);
        lemma_element_bytes_start(child);
        if element_bytes(child).len() == 0 {
            assert(e =~= x);
        } else {
            assert(e[0] == element_bytes(child)[0]);
        }
        lemma_no_space_skip(e);
        assert(at_element_end(x));
        lemma_element_read(child, x);
        assert(x =~= seq![91u8, 47u8] + k + seq![93u8] + (seq![10u8] + r2));
        lemma_close_read(k, seq![10u8] + r2);
        assert((seq![10u8] + r2).drop_first() =~= r2);
        if i + 1 < t.children.len() {
            assert(r2[0] == 91u8);
        } else {
            assert(r2 =~= rest);
        }
        lemma_no_space_skip(r2);
        lemma_children_read(t, i + 1, rest);
        assert(seq![(k, child)] + t.children.skip(i + 1) =~= t.children.skip(i));
    }
}

/// Writing a well-formed tree and reading the bytes back yields that tree.
pub proof fn lemma_round_trip(t: Tree)
    requires
        well_formed(t),
    ensures
        parse_document(element_bytes(t)) == Ok::<Tree, Error>(t),
{
    lemma_element_bytes_start(t);
    lemma_no_space_skip(element_bytes(t));
    assert(element_bytes(t) + Seq::<u8>::empty() =~= element_bytes(t));
    lemma_element_read(t, Seq::empty());
}

/// Attributes out of order are refused: a document of two attributes whose
/// second key does not sort strictly after the first fails with
/// `AttributeOrder`.
pub proof fn lemma_order_enforced(k1: Seq<u8>, v1: Seq<u8>, k2: Seq<u8>, v2: Seq<u8>)
    requires
        is_key(k1),
        is_key(k2),
        !bytes_lt(k1, k2),
    ensures
        parse_document(attribute_bytes(k1, v1) + attribute_bytes(k2, v2)) == Err::<Tree, Error>(
            Error::AttributeOrder,
        ),
{
    let b2 = attribute_bytes(k2, v2);
    let s = attribute_bytes(k1, v1) + b2;
    assert(s =~= k1 + seq![61u8, 34u8] + escape(v1) + seq![34u8] + (seq![10u8] + b2));
    lemma_attribute_read(k1, v1, seq![10u8] + b2);
    assert((seq![10u8] + b2).drop_first() =~= b2);
    assert(b2[0] == k2[0]);
    assert(is_key_byte(k2[0]));
    lemma_no_space_skip(b2);
    assert(b2 =~= k2 + seq![61u8, 34u8] + escape(v2) + seq![34u8] + seq![10u8]);
    lemma_attribute_read(k2, v2, seq![10u8]);
    assert(s[0] == k1[0]);
    assert(is_key_byte(k1[0]));
    lemma_no_space_skip(s);
    assert(skip_space(seq![10u8] + b2) == skip_space(b2));
    assert(attribute_token(s) == Ok::<_, Error>(Some((k1, v1, b2))));
    assert(bytes_lt(Seq::empty(), k1));
    assert(parse_attributes(b2, k1) == Err::<(Seq<(Seq<u8>, Seq<u8>)>, Seq<u8>), Error>(
        Error::AttributeOrder,
    ));
    assert(parse_attributes(s, Seq::empty()) == Err::<(Seq<(Seq<u8>, Seq<u8>)>, Seq<u8>), Error>(
        Error::AttributeOrder,
    ));
}

/// An element left open fails: an open tag followed by a well-formed
/// element and the end of the input fails with `MismatchedOrMissingCloseTag`.
pub proof fn lemma_unclosed_element(k: Seq<u8>, t: Tree)
    requires
        is_key(k),
        well_formed(t),
    ensures
        parse_document(open_tag_bytes(k) + element_bytes(t)) == Err::<Tree, Error>(
            Error::MismatchedOrMissingCloseTag,
        ),
{
    let e = element_bytes(t);
    let s = open_tag_bytes(k) + e;
    assert(s =~= seq![91u8] + k + seq![93u8] + (seq![10u8] + e));
    lemma_open_read(k, seq![10u8] + e);
    assert((seq![10u8] + e).drop_first() =~= e);
    lemma_element_bytes_start(t);
    lemma_no_space_skip(e);
    assert(e + Seq::<u8>::empty() =~= e);
    lemma_element_read(t, Seq::empty());
    assert(!is_key_byte(91u8));
    lemma_no_space_skip(s);
}

/// A close tag must match its open tag: an element between `[k1]` and
/// `[/k2]` with different keys fails with `MismatchedOrMissingCloseTag`.
pub proof fn lemma_mismatched_close(k1: Seq<u8>, t: Tree, k2: Seq<u8>)
    requires
        is_key(k1),
        is_key(k2),
        k1 != k2,
        well_formed(t),
    ensures
        parse_document(open_tag_bytes(k1) + element_bytes(t) + close_tag_bytes(k2)) == Err::<
            Tree,
            Error,
        >(Error::MismatchedOrMissingCloseTag),
{
    let c = close_tag_bytes(k2);
    let e = element_bytes(t) + c;
    let s = open_tag_bytes(k1) + element_bytes(t) + c;
    assert(s =~= seq![91u8] + k1 + seq![93u8] + (seq![10u8] + e));
    lemma_open_read(k1, seq![10u8] + e);
    assert((seq![10u8] + e).drop_first() =~= e);
    lemma_element_bytes_start(t);
    if element_bytes(t).len() == 0 {
        assert(e =~= c);
    } else {
        assert(e[0] == element_bytes(t)[0]);
    }
    lemma_no_space_skip(e);
    assert(at_element_end(c));
    lemma_element_read(t, c);
    assert(c =~= seq![91u8, 47u8] + k2 + seq![93u8] + seq![10u8]);
    lemma_close_read(k2, seq![10u8]);
    assert(!is_key_byte(91u8));
    lemma_no_space_skip(s);
}

/// A close tag with no open tag fails: a well-formed element followed by a
/// close tag fails with `MismatchedOrMissingCloseTag`.
pub proof fn lemma_spurious_close(t: Tree, k: Seq<u8>)
    requires
        is_key(k),
        well_formed(t),
    ensures
        parse_document(element_bytes(t) + close_tag_bytes(k)) == Err::<Tree, Error>(
            Error::MismatchedOrMissingCloseTag,
        ),
{
    let c = close_tag_bytes(k);
    let s = element_bytes(t) + c;
    lemma_element_bytes_start(t);
    if element_bytes(t).len() == 0 {
        assert(s =~= c);
    } else {
        assert(s[0] == element_bytes(t)[0]);
    }
    lemma_no_space_skip(s);
    assert(at_element_end(c));
    lemma_element_read(t, c);
    assert(c =~= seq![91u8, 47u8] + k + seq![93u8] + seq![10u8]);
    lemma_close_read(k, seq![10u8]);
}

} // verus!
