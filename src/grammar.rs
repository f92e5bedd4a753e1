//! The wire format, stated over byte sequences.
//!
//! Each rule takes the input that remains at the current position and says
//! what the rule reads there and what remains after it (trailing whitespace
//! included).
use crate::error::Error;
use vstd::prelude::*;

verus! {

/// Tab, newline or space.
pub open spec fn is_space(b: u8) -> bool {
    b == 9u8 || b == 10u8 || b == 32u8
}

/// A byte that may appear in a key: `a` to `z` or `_`.
pub open spec fn is_key_byte(b: u8) -> bool {
    (97u8 <= b && b <= 122u8) || b == 95u8
}

/// What remains after the maximal run of whitespace at the front of `s`.
pub open spec fn skip_space(s: Seq<u8>) -> Seq<u8>
    decreases s.len(),
{
    if s.len() > 0 && is_space(s[0]) {
        skip_space(s.drop_first())
    } else {
        s
    }
}

/// The length of the maximal run of key bytes at the front of `s`.
pub open spec fn ident_len(s: Seq<u8>) -> nat
    decreases s.len(),
{
    if s.len() > 0 && is_key_byte(s[0]) {
        1 + ident_len(s.drop_first())
    } else {
        0
    }
}

/// Whether `k` is a valid key: one or more key bytes.
pub open spec fn is_key(k: Seq<u8>) -> bool {
    k.len() > 0 && forall|i: int| 0 <= i < k.len() ==> #[trigger] is_key_byte(k[i])
}

/// The body of a quoted string whose opening quote has been read: the
/// unescaped value and what follows the closing quote, or `None` where the
/// input ends first. A doubled quote stands for one quote.
pub open spec fn string_body(s: Seq<u8>) -> Option<(Seq<u8>, Seq<u8>)>
    decreases s.len(),
{
    if s.len() == 0 {
        None
    } else if s[0] == 34u8 {
        if s.len() > 1 && s[1] == 34u8 {
            match string_body(s.subrange(2, s.len() as int)) {
                Some((v, r)) => Some((seq![34u8] + v, r)),
                None => None,
            }
        } else {
            Some((Seq::empty(), s.drop_first()))
        }
    } else {
        match string_body(s.drop_first()) {
            Some((v, r)) => Some((seq![s[0]] + v, r)),
            None => None,
        }
    }
}

/// A quoted string with its trailing whitespace: its value and what remains.
pub open spec fn string_token(s: Seq<u8>) -> Result<(Seq<u8>, Seq<u8>), Error> {
    if s.len() == 0 || s[0] != 34u8 {
        Err(Error::ExpectedString)
    } else {
        match string_body(s.drop_first()) {
            Some((v, r)) => Ok((v, skip_space(r))),
            None => Err(Error::EofWhileParsingString),
        }
    }
}

/// An attribute `key WS? = "value"` with its trailing whitespace.
/// `Ok(None)` where no key starts here; an error once a key has been read.
pub open spec fn attribute_token(s: Seq<u8>) -> Result<Option<(Seq<u8>, Seq<u8>, Seq<u8>)>, Error> {
    let n = ident_len(s);
    if n == 0 {
        Ok(None)
    } else {
        let after = skip_space(s.skip(n as int));
        if after.len() == 0 {
            Err(Error::EofWhileParsingAttribute)
        } else if after[0] != 61u8 {
            Err(Error::ExpectedEquals)
        } else if after.len() == 1 {
            Err(Error::EofWhileParsingAttribute)
        } else {
            match string_token(after.drop_first()) {
                Ok((v, r)) => Ok(Some((s.take(n as int), v, r))),
                Err(e) => Err(e),
            }
        }
    }
}

/// An open tag `[key]` with its trailing whitespace: its key and what remains.
pub open spec fn open_tag(s: Seq<u8>) -> Option<(Seq<u8>, Seq<u8>)> {
    let n = ident_len(s.skip(1)) as int;
    if s.len() > 0 && s[0] == 91u8 && n > 0 && s.len() > n + 1 && s[n + 1] == 93u8 {
        Some((s.subrange(1, n + 1), skip_space(s.skip(n + 2))))
    } else {
        None
    }
}

/// A close tag `[/key]` with its trailing whitespace: its key and what remains.
pub open spec fn close_tag(s: Seq<u8>) -> Option<(Seq<u8>, Seq<u8>)> {
    let n = ident_len(s.skip(2)) as int;
    if s.len() > 1 && s[0] == 91u8 && s[1] == 47u8 && n > 0 && s.len() > n + 2 && s[n + 2]
        == 93u8 {
        Some((s.subrange(2, n + 2), skip_space(s.skip(n + 3))))
    } else {
        None
    }
}

/// A tag `[key]` or `[/key]` with its trailing whitespace: its key, whether
/// it opens, and what remains.
pub open spec fn tag_token(s: Seq<u8>) -> Option<(Seq<u8>, bool, Seq<u8>)> {
    match open_tag(s) {
        Some((k, r)) => Some((k, true, r)),
        None => match close_tag(s) {
            Some((k, r)) => Some((k, false, r)),
            None => None,
        },
    }
}

/// A token of the format, as byte sequences.
pub enum Lexeme {
    Tag { key: Seq<u8>, is_open: bool },
    Attr { key: Seq<u8>, value: Seq<u8> },
}

/// Whether `s` starts a tag, `[` or `[/`, with no key after it.
pub open spec fn tag_without_key(s: Seq<u8>) -> bool {
    &&& s.len() > 0
    &&& s[0] == 91u8
    &&& if s.len() > 1 && s[1] == 47u8 {
        ident_len(s.skip(2)) == 0
    } else {
        ident_len(s.skip(1)) == 0
    }
}

/// The next token and what remains after it: an attribute is tried first,
/// then a tag. `Ok(None)` at the end of the input; an error where bytes
/// remain that start neither.
pub open spec fn next_token(s: Seq<u8>) -> Result<Option<(Lexeme, Seq<u8>)>, Error> {
    match attribute_token(s) {
        Err(e) => Err(e),
        Ok(Some((k, v, r))) => Ok(Some((Lexeme::Attr { key: k, value: v }, r))),
        Ok(None) => match tag_token(s) {
            Some((k, o, r)) => Ok(Some((Lexeme::Tag { key: k, is_open: o }, r))),
            None => if s.len() == 0 {
                Ok(None)
            } else if tag_without_key(s) {
                Err(Error::ExpectedIdent)
            } else {
                Err(Error::TrailingCharacters)
            },
        },
    }
}

/// The tokens at the front of `s`, read one after another to the end.
pub open spec fn token_list(s: Seq<u8>) -> Result<Seq<Lexeme>, Error>
    decreases s.len(),
{
    match next_token(s) {
        Err(e) => Err(e),
        Ok(None) => Ok(Seq::empty()),
        Ok(Some((t, r))) => if r.len() < s.len() {
            match token_list(r) {
                Ok(ts) => Ok(seq![t] + ts),
                Err(e) => Err(e),
            }
        } else {
            // a token takes at least one byte
            Err(Error::TrailingCharacters)
        },
    }
}

/// The tokens of an input, read after its leading whitespace.
pub open spec fn tokens_of(input: Seq<u8>) -> Result<Seq<Lexeme>, Error> {
    token_list(skip_space(input))
}

/// A translatable marker `_` with its trailing whitespace: what remains.
pub open spec fn translatable_marker(s: Seq<u8>) -> Option<Seq<u8>> {
    if s.len() > 0 && s[0] == 95u8 {
        Some(skip_space(s.drop_first()))
    } else {
        None
    }
}

/// A byte as it is written inside a quoted string: a quote is doubled.
pub open spec fn escape_byte(b: u8) -> Seq<u8> {
    if b == 34u8 {
        seq![34u8, 34u8]
    } else {
        seq![b]
    }
}

/// A value as it is written inside a quoted string.
pub open spec fn escape(v: Seq<u8>) -> Seq<u8>
    decreases v.len(),
{
    if v.len() == 0 {
        Seq::empty()
    } else {
        escape_byte(v[0]) + escape(v.drop_first())
    }
}

/// How an attribute is written: `key="escaped value"` and a newline.
pub open spec fn attribute_bytes(k: Seq<u8>, v: Seq<u8>) -> Seq<u8> {
    k + seq![61u8, 34u8] + escape(v) + seq![34u8, 10u8]
}

/// How an open tag is written: `[name]` and a newline.
pub open spec fn open_tag_bytes(name: Seq<u8>) -> Seq<u8> {
    seq![91u8] + name + seq![93u8, 10u8]
}

/// How a close tag is written: `[/name]` and a newline.
pub open spec fn close_tag_bytes(name: Seq<u8>) -> Seq<u8> {
    seq![91u8, 47u8] + name + seq![93u8, 10u8]
}

/// How a token is written, without whitespace around it.
pub open spec fn lexeme_bytes(t: Lexeme) -> Seq<u8> {
    match t {
        Lexeme::Attr { key, value } => key + seq![61u8, 34u8] + escape(value) + seq![34u8],
        Lexeme::Tag { key, is_open } => if is_open {
            seq![91u8] + key + seq![93u8]
        } else {
            seq![91u8, 47u8] + key + seq![93u8]
        },
    }
}

/// Whether the key of a token is valid.
pub open spec fn lexeme_valid(t: Lexeme) -> bool {
    match t {
        Lexeme::Attr { key, .. } => is_key(key),
        Lexeme::Tag { key, .. } => is_key(key),
    }
}

/// Whether every byte of `w` is whitespace.
pub open spec fn all_space(w: Seq<u8>) -> bool {
    forall|i: int| 0 <= i < w.len() ==> #[trigger] is_space(w[i])
}

/// The tokens `ts` written one after another, the `i`-th followed by `seps[i]`.
pub open spec fn layout(ts: Seq<Lexeme>, seps: Seq<Seq<u8>>) -> Seq<u8>
    decreases ts.len(),
{
    if ts.len() == 0 || seps.len() == 0 {
        Seq::empty()
    } else {
        lexeme_bytes(ts[0]) + seps[0] + layout(ts.drop_first(), seps.drop_first())
    }
}

/// Byte-wise lexicographic order: `a` sorts strictly before `b`.
pub open spec fn bytes_lt(a: Seq<u8>, b: Seq<u8>) -> bool
    decreases a.len(),
{
    if b.len() == 0 {
        false
    } else if a.len() == 0 {
        true
    } else if a[0] != b[0] {
        a[0] < b[0]
    } else {
        bytes_lt(a.drop_first(), b.drop_first())
    }
}

/// A run of key bytes is no longer than the input it stands at.
pub proof fn lemma_ident_len_bound(s: Seq<u8>)
    ensures
        ident_len(s) <= s.len(),
    decreases s.len(),
{
    if s.len() > 0 && is_key_byte(s[0]) {
        lemma_ident_len_bound(s.drop_first());
    }
}

/// Whitespace at the front of the input is skipped whatever its amount.
pub proof fn lemma_skip_space_prefix(w: Seq<u8>, s: Seq<u8>)
    requires
        forall|i: int| 0 <= i < w.len() ==> #[trigger] is_space(w[i]),
    ensures
        skip_space(w + s) == skip_space(s),
    decreases w.len(),
{
    if w.len() == 0 {
        assert(w + s =~= s);
    } else {
        assert((w + s).drop_first() =~= w.drop_first() + s);
        assert(is_space(w[0]));
        lemma_skip_space_prefix(w.drop_first(), s);
    }
}

/// A key followed by a byte that is not a key byte is read whole.
pub proof fn lemma_ident_len_key(k: Seq<u8>, x: Seq<u8>)
    requires
        forall|i: int| 0 <= i < k.len() ==> #[trigger] is_key_byte(k[i]),
        x.len() == 0 || !is_key_byte(x[0]),
    ensures
        ident_len(k + x) == k.len(),
    decreases k.len(),
{
    if k.len() == 0 {
        assert(k + x =~= x);
    } else {
        assert((k + x).drop_first() =~= k.drop_first() + x);
        assert(is_key_byte(k[0]));
        assert forall|i: int| 0 <= i < k.drop_first().len() implies #[trigger] is_key_byte(
            k.drop_first()[i],
        ) by {
            assert(is_key_byte(k[i + 1]));
        }
        lemma_ident_len_key(k.drop_first(), x);
    }
}

/// An escaped value followed by a lone quote is read back as the value.
pub proof fn lemma_string_body_escape(v: Seq<u8>, y: Seq<u8>)
    requires
        y.len() == 0 || y[0] != 34u8,
    ensures
        string_body(escape(v) + seq![34u8] + y) == Some((v, y)),
    decreases v.len(),
{
    let s = escape(v) + seq![34u8] + y;
    if v.len() == 0 {
        assert(escape(v) == Seq::<u8>::empty());
        assert(s =~= seq![34u8] + y);
        assert(s.drop_first() =~= y);
        assert(v =~= Seq::<u8>::empty());
    } else {
        let v1 = v.drop_first();
        lemma_string_body_escape(v1, y);
        if v[0] == 34u8 {
            assert(s =~= seq![34u8, 34u8] + (escape(v1) + seq![34u8] + y));
            assert(s.subrange(2, s.len() as int) =~= escape(v1) + seq![34u8] + y);
            assert(seq![34u8] + v1 =~= v);
        } else {
            assert(s =~= seq![v[0]] + (escape(v1) + seq![34u8] + y));
            assert(s.drop_first() =~= escape(v1) + seq![34u8] + y);
            assert(seq![v[0]] + v1 =~= v);
        }
    }
}

/// An attribute `key="escaped value"` is read back as its key and value,
/// where no quote follows it at once.
pub proof fn lemma_attribute_read(k: Seq<u8>, v: Seq<u8>, y: Seq<u8>)
    requires
        is_key(k),
        y.len() == 0 || y[0] != 34u8,
    ensures
        attribute_token(k + seq![61u8, 34u8] + escape(v) + seq![34u8] + y) == Ok::<
            _,
            Error,
        >(Some((k, v, skip_space(y)))),
{
    let q = seq![61u8, 34u8] + escape(v) + seq![34u8] + y;
    let s = k + seq![61u8, 34u8] + escape(v) + seq![34u8] + y;
    assert(s =~= k + q);
    assert(q[0] == 61u8);
    lemma_ident_len_key(k, q);
    let n = k.len() as int;
    assert(s.skip(n) =~= q);
    assert(skip_space(q) == q);
    assert(s.take(n) =~= k);
    let t = q.drop_first();
    assert(t =~= seq![34u8] + (escape(v) + seq![34u8] + y));
    assert(t.drop_first() =~= escape(v) + seq![34u8] + y);
    lemma_string_body_escape(v, y);
}

/// An open tag `[key]` is read back as its key.
pub proof fn lemma_open_read(k: Seq<u8>, y: Seq<u8>)
    requires
        is_key(k),
    ensures
        open_tag(seq![91u8] + k + seq![93u8] + y) == Some((k, skip_space(y))),
{
    let s = seq![91u8] + k + seq![93u8] + y;
    let n = k.len() as int;
    assert(s.skip(1) =~= k + (seq![93u8] + y));
    lemma_ident_len_key(k, seq![93u8] + y);
    assert(s[n + 1] == 93u8);
    assert(s.subrange(1, n + 1) =~= k);
    assert(s.skip(n + 2) =~= y);
}

/// A close tag `[/key]` is read back as its key.
pub proof fn lemma_close_read(k: Seq<u8>, y: Seq<u8>)
    requires
        is_key(k),
    ensures
        close_tag(seq![91u8, 47u8] + k + seq![93u8] + y) == Some((k, skip_space(y))),
{
    let s = seq![91u8, 47u8] + k + seq![93u8] + y;
    let n = k.len() as int;
    assert(s.skip(2) =~= k + (seq![93u8] + y));
    lemma_ident_len_key(k, seq![93u8] + y);
    assert(s[n + 2] == 93u8);
    assert(s.subrange(2, n + 2) =~= k);
    assert(s.skip(n + 3) =~= y);
}

/// Tokens written with whitespace runs between them are read back as those
/// tokens.
proof fn lemma_layout_read(ts: Seq<Lexeme>, seps: Seq<Seq<u8>>)
    requires
        ts.len() == seps.len(),
        forall|i: int| 0 <= i < ts.len() ==> lexeme_valid(#[trigger] ts[i]),
        forall|i: int| 0 <= i < seps.len() ==> all_space(#[trigger] seps[i]),
    ensures
        token_list(layout(ts, seps)) == Ok::<_, Error>(ts),
        layout(ts, seps).len() == 0 || is_key_byte(layout(ts, seps)[0]) || layout(ts, seps)[0]
            == 91u8,
    decreases ts.len(),
{
    let s = layout(ts, seps);
    if ts.len() == 0 {
        assert(ts =~= Seq::<Lexeme>::empty());
    } else {
        let t = ts[0];
        let ts1 = ts.drop_first();
        let seps1 = seps.drop_first();
        assert forall|i: int| 0 <= i < ts1.len() implies lexeme_valid(#[trigger] ts1[i]) by {
            assert(lexeme_valid(ts[i + 1]));
        }
        assert forall|i: int| 0 <= i < seps1.len() implies all_space(#[trigger] seps1[i]) by {
            assert(all_space(seps[i + 1]));
        }
        lemma_layout_read(ts1, seps1);
        let l1 = layout(ts1, seps1);
        let y = seps[0] + l1;
        assert(lexeme_valid(t));
        assert(all_space(seps[0]));
        lemma_skip_space_prefix(seps[0], l1);
        assert(skip_space(l1) == l1);
        assert(skip_space(y) == l1);
        if seps[0].len() > 0 {
            assert(y[0] == seps[0][0]);
            assert(is_space(seps[0][0]));
        } else {
            assert(y =~= l1);
        }
        match t {
            Lexeme::Attr { key, value } => {
                assert(s =~= key + seq![61u8, 34u8] + escape(value) + seq![34u8] + y);
                lemma_attribute_read(key, value, y);
                assert(is_key_byte(key[0]));
                assert(s[0] == key[0]);
            },
            Lexeme::Tag { key, is_open } => {
                assert(!is_key_byte(91u8));
                if is_open {
                    assert(s =~= seq![91u8] + key + seq![93u8] + y);
                    lemma_open_read(key, y);
                } else {
                    assert(s =~= seq![91u8, 47u8] + key + seq![93u8] + y);
                    assert(s.skip(1)[0] == 47u8);
                    lemma_close_read(key, y);
                }
            },
        }
        assert(seq![t] + ts1 =~= ts);
    }
}

/// Whitespace between tokens does not matter: two inputs that hold the same
/// tokens, with any amount of tabs, newlines and spaces before the first
/// token and after each one, are read as the same tokens, the ones they hold.
pub proof fn lemma_whitespace_irrelevant(
    ts: Seq<Lexeme>,
    lead1: Seq<u8>,
    seps1: Seq<Seq<u8>>,
    lead2: Seq<u8>,
    seps2: Seq<Seq<u8>>,
)
    requires
        forall|i: int| 0 <= i < ts.len() ==> lexeme_valid(#[trigger] ts[i]),
        all_space(lead1),
        all_space(lead2),
        seps1.len() == ts.len(),
        seps2.len() == ts.len(),
        forall|i: int| 0 <= i < seps1.len() ==> all_space(#[trigger] seps1[i]),
        forall|i: int| 0 <= i < seps2.len() ==> all_space(#[trigger] seps2[i]),
    ensures
        tokens_of(lead1 + layout(ts, seps1)) == tokens_of(lead2 + layout(ts, seps2)),
        tokens_of(lead1 + layout(ts, seps1)) == Ok::<_, Error>(ts),
{
    lemma_layout_read(ts, seps1);
    lemma_layout_read(ts, seps2);
    lemma_skip_space_prefix(lead1, layout(ts, seps1));
    lemma_skip_space_prefix(lead2, layout(ts, seps2));
    assert(skip_space(layout(ts, seps1)) == layout(ts, seps1));
    assert(skip_space(layout(ts, seps2)) == layout(ts, seps2));
}

proof fn lemma_skip_space_len(s: Seq<u8>)
    ensures
        skip_space(s).len() <= s.len(),
    decreases s.len(),
{
    if s.len() > 0 && is_space(s[0]) {
        lemma_skip_space_len(s.drop_first());
    }
}

proof fn lemma_string_body_len(s: Seq<u8>)
    ensures
        string_body(s) matches Some((_, r)) ==> r.len() < s.len(),
    decreases s.len(),
{
    if s.len() > 0 {
        if s[0] == 34u8 {
            if s.len() > 1 && s[1] == 34u8 {
                lemma_string_body_len(s.subrange(2, s.len() as int));
            }
        } else {
            lemma_string_body_len(s.drop_first());
        }
    }
}

/// Every token takes at least one byte.
pub proof fn lemma_next_token_len(s: Seq<u8>)
    ensures
        next_token(s) matches Ok(Some((_, r))) ==> r.len() < s.len(),
{
    lemma_ident_len_bound(s);
    let n = ident_len(s) as int;
    if n > 0 {
        lemma_skip_space_len(s.skip(n));
        let after = skip_space(s.skip(n));
        if after.len() > 1 {
            let t = after.drop_first().drop_first();
            lemma_string_body_len(t);
            if let Some((_, r)) = string_body(t) {
                lemma_skip_space_len(r);
            }
        }
    }
    lemma_ident_len_bound(s.skip(1));
    lemma_ident_len_bound(s.skip(2));
    let m1 = ident_len(s.skip(1)) as int;
    let m2 = ident_len(s.skip(2)) as int;
    if s.len() > m1 + 2 {
        lemma_skip_space_len(s.skip(m1 + 2));
    }
    if s.len() > m2 + 3 {
        lemma_skip_space_len(s.skip(m2 + 3));
    }
}

/// Escaping a value one byte longer appends the escape of that byte.
pub proof fn lemma_escape_push(v: Seq<u8>, b: u8)
    ensures
        escape(v.push(b)) == escape(v) + escape_byte(b),
    decreases v.len(),
{
    let w = v.push(b);
    assert(w.len() > 0);
    assert(escape(w) == escape_byte(w[0]) + escape(w.drop_first()));
    if v.len() == 0 {
        assert(w.drop_first() =~= Seq::<u8>::empty());
        assert(v =~= Seq::<u8>::empty());
        assert(escape(Seq::<u8>::empty()) == Seq::<u8>::empty());
        assert(escape_byte(b) + Seq::<u8>::empty() =~= escape_byte(b));
        assert(Seq::<u8>::empty() + escape_byte(b) =~= escape_byte(b));
    } else {
        assert(w.drop_first() =~= v.drop_first().push(b));
        assert(w[0] == v[0]);
        lemma_escape_push(v.drop_first(), b);
        assert(escape_byte(v[0]) + (escape(v.drop_first()) + escape_byte(b)) =~= escape_byte(v[0])
            + escape(v.drop_first()) + escape_byte(b));
    }
}

} // verus!
