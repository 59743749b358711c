//! Tagged values: the one shape of JSON that the store and the wire protocol
//! read and write.
//!
//! A tagged value is a tag with a payload. A tag without a payload is written
//! as a string, `"Tag"`. With a payload it is an object with one entry, whose
//! key is the tag: `{"Tag":null}`, `{"Tag":"text"}` or
//! `{"Tag":["first","second"]}`.

use crate::json::{
    byte_token, lemma_byte_token_bounds, lemma_byte_token_window, lemma_null_token_bounds,
    lemma_null_token_window, lemma_skip_space_bounds, lemma_skip_space_window,
    lemma_string_token_bounds, lemma_string_token_window, null_token, json_literal, read_byte,
    read_null, read_string, same_window, skip_space, skip_spaces, string_token, write_literal,
};
use vstd::prelude::*;

verus! {

/// What comes with a tag.
#[derive(Clone, Debug, PartialEq, Eq)]
pub enum Payload {
    Unit,
    Null,
    Text(String),
    Pair(String, String),
}

/// A tag and its payload.
#[derive(Clone, Debug, PartialEq, Eq)]
pub struct Tagged {
    pub tag: String,
    pub payload: Payload,
}

/// A payload, its texts as sequences of characters.
pub enum PayloadView {
    Unit,
    Null,
    Text(Seq<char>),
    Pair(Seq<char>, Seq<char>),
}

/// A tagged value, its texts as sequences of characters.
pub struct TaggedView {
    pub tag: Seq<char>,
    pub payload: PayloadView,
}

impl View for Payload {
    type V = PayloadView;

    open spec fn view(&self) -> PayloadView {
        match self {
            Payload::Unit => PayloadView::Unit,
            Payload::Null => PayloadView::Null,
            Payload::Text(t) => PayloadView::Text(t@),
            Payload::Pair(a, b) => PayloadView::Pair(a@, b@),
        }
    }
}

impl View for Tagged {
    type V = TaggedView;

    open spec fn view(&self) -> TaggedView {
        TaggedView { tag: self.tag@, payload: self.payload@ }
    }
}

/// After white space, a payload: a string, `null`, or an array of two strings.
pub open spec fn payload_at(s: Seq<u8>, i: int) -> Option<(PayloadView, int)> {
    let j = skip_space(s, i);
    if !(0 <= j < s.len()) {
        None
    } else if s[j] == 0x22 {
        match string_token(s, j) {
            Some((text, e)) => Some((PayloadView::Text(text), e)),
            None => None,
        }
    } else if s[j] == 0x6e {
        match null_token(s, j) {
            Some(e) => Some((PayloadView::Null, e)),
            None => None,
        }
    } else if s[j] == 0x5b {
        match string_token(s, j + 1) {
            Some((first, e1)) => match byte_token(s, e1, 0x2c) {
                Some(e2) => match string_token(s, e2) {
                    Some((second, e3)) => match byte_token(s, e3, 0x5d) {
                        Some(e4) => Some((PayloadView::Pair(first, second), e4)),
                        None => None,
                    },
                    None => None,
                },
                None => None,
            },
            None => None,
        }
    } else {
        None
    }
}

/// After white space, a tagged value: the value and the position behind it.
pub open spec fn value_at(s: Seq<u8>, i: int) -> Option<(TaggedView, int)> {
    let j = skip_space(s, i);
    if !(0 <= j < s.len()) {
        None
    } else if s[j] == 0x22 {
        match string_token(s, j) {
            Some((tag, e)) => Some((TaggedView { tag, payload: PayloadView::Unit }, e)),
            None => None,
        }
    } else if s[j] == 0x7b {
        match string_token(s, j + 1) {
            Some((tag, e1)) => match byte_token(s, e1, 0x3a) {
                Some(e2) => match payload_at(s, e2) {
                    Some((payload, e3)) => match byte_token(s, e3, 0x7d) {
                        Some(e4) => Some((TaggedView { tag, payload }, e4)),
                        None => None,
                    },
                    None => None,
                },
                None => None,
            },
            None => None,
        }
    } else {
        None
    }
}

/// A payload takes at least one byte and ends inside the sequence.
pub proof fn lemma_payload_at_bounds(s: Seq<u8>, i: int)
    requires
        0 <= i <= s.len(),
        payload_at(s, i).is_some(),
    ensures
        i <= skip_space(s, i) < payload_at(s, i).unwrap().1 <= s.len(),
{
    lemma_skip_space_bounds(s, i);
    let j = skip_space(s, i);
    if s[j] == 0x22 {
        lemma_string_token_bounds(s, j);
    } else if s[j] == 0x6e {
        lemma_null_token_bounds(s, j);
    } else {
        lemma_string_token_bounds(s, j + 1);
        let e1 = string_token(s, j + 1).unwrap().1;
        lemma_byte_token_bounds(s, e1, 0x2c);
        let e2 = byte_token(s, e1, 0x2c).unwrap();
        lemma_string_token_bounds(s, e2);
        let e3 = string_token(s, e2).unwrap().1;
        lemma_byte_token_bounds(s, e3, 0x5d);
    }
}

/// A value takes at least one byte and ends inside the sequence.
pub proof fn lemma_value_at_bounds(s: Seq<u8>, i: int)
    requires
        0 <= i <= s.len(),
        value_at(s, i).is_some(),
    ensures
        i <= skip_space(s, i) < value_at(s, i).unwrap().1 <= s.len(),
{
    lemma_skip_space_bounds(s, i);
    let j = skip_space(s, i);
    if s[j] == 0x22 {
        lemma_string_token_bounds(s, j);
    } else {
        lemma_string_token_bounds(s, j + 1);
        let e1 = string_token(s, j + 1).unwrap().1;
        lemma_byte_token_bounds(s, e1, 0x3a);
        let e2 = byte_token(s, e1, 0x3a).unwrap();
        lemma_payload_at_bounds(s, e2);
        let e3 = payload_at(s, e2).unwrap().1;
        lemma_byte_token_bounds(s, e3, 0x7d);
    }
}

/// A payload read inside a window is read, with the same result, at the same
/// place of any other sequence that holds the same window.
pub proof fn lemma_payload_at_window(s: Seq<u8>, p: int, t: Seq<u8>, q: int, n: int, a: int)
    requires
        same_window(s, p, t, q, n),
        0 <= a <= n,
        payload_at(s, p + a).is_some(),
        payload_at(s, p + a).unwrap().1 <= p + n,
    ensures
        payload_at(t, q + a).is_some(),
        payload_at(t, q + a).unwrap().0 == payload_at(s, p + a).unwrap().0,
        payload_at(t, q + a).unwrap().1 - q == payload_at(s, p + a).unwrap().1 - p,
{
    lemma_skip_space_bounds(s, p + a);
    lemma_payload_at_bounds(s, p + a);
    let js = skip_space(s, p + a);
    let j = js - p;
    lemma_skip_space_window(s, p, t, q, n, a);
    assert(s[p + j] == t[q + j]);
    assert(skip_space(t, q + a) == q + j);
    if s[js] == 0x22 {
        lemma_string_token_window(s, p, t, q, n, j);
    } else if s[js] == 0x6e {
        lemma_null_token_window(s, p, t, q, n, j);
    } else {
        lemma_string_token_bounds(s, js + 1);
        let e1 = string_token(s, js + 1).unwrap().1;
        lemma_byte_token_bounds(s, e1, 0x2c);
        let e2 = byte_token(s, e1, 0x2c).unwrap();
        lemma_string_token_bounds(s, e2);
        let e3 = string_token(s, e2).unwrap().1;
        lemma_byte_token_bounds(s, e3, 0x5d);
        lemma_string_token_window(s, p, t, q, n, j + 1);
        assert(string_token(t, q + j + 1).unwrap().1 == q + (e1 - p));
        lemma_byte_token_window(s, p, t, q, n, e1 - p, 0x2c);
        assert(byte_token(t, q + (e1 - p), 0x2c).unwrap() == q + (e2 - p));
        lemma_string_token_window(s, p, t, q, n, e2 - p);
        assert(string_token(t, q + (e2 - p)).unwrap().1 == q + (e3 - p));
        lemma_byte_token_window(s, p, t, q, n, e3 - p, 0x5d);
    }
}

/// A value read inside a window is read, with the same result, at the same
/// place of any other sequence that holds the same window.
pub proof fn lemma_value_at_window(s: Seq<u8>, p: int, t: Seq<u8>, q: int, n: int, a: int)
    requires
        same_window(s, p, t, q, n),
        0 <= a <= n,
        value_at(s, p + a).is_some(),
        value_at(s, p + a).unwrap().1 <= p + n,
    ensures
        value_at(t, q + a).is_some(),
        value_at(t, q + a).unwrap().0 == value_at(s, p + a).unwrap().0,
        value_at(t, q + a).unwrap().1 - q == value_at(s, p + a).unwrap().1 - p,
{
    lemma_skip_space_bounds(s, p + a);
    lemma_value_at_bounds(s, p + a);
    let js = skip_space(s, p + a);
    let j = js - p;
    lemma_skip_space_window(s, p, t, q, n, a);
    assert(s[p + j] == t[q + j]);
    assert(skip_space(t, q + a) == q + j);
    if s[js] == 0x22 {
        lemma_string_token_window(s, p, t, q, n, j);
    } else {
        lemma_string_token_bounds(s, js + 1);
        let e1 = string_token(s, js + 1).unwrap().1;
        lemma_byte_token_bounds(s, e1, 0x3a);
        let e2 = byte_token(s, e1, 0x3a).unwrap();
        lemma_payload_at_bounds(s, e2);
        let e3 = payload_at(s, e2).unwrap().1;
        lemma_byte_token_bounds(s, e3, 0x7d);
        lemma_string_token_window(s, p, t, q, n, j + 1);
        assert(string_token(t, q + j + 1).unwrap().1 == q + (e1 - p));
        lemma_byte_token_window(s, p, t, q, n, e1 - p, 0x3a);
        assert(byte_token(t, q + (e1 - p), 0x3a).unwrap() == q + (e2 - p));
        lemma_payload_at_window(s, p, t, q, n, e2 - p);
        assert(payload_at(t, q + (e2 - p)).unwrap().1 == q + (e3 - p));
        lemma_byte_token_window(s, p, t, q, n, e3 - p, 0x7d);
    }
}

/// The one value that a byte sequence holds, with white space allowed around
/// it and nothing else.
pub open spec fn whole_value(s: Seq<u8>) -> Option<TaggedView> {
    match value_at(s, 0) {
        Some((v, e)) => if skip_space(s, e) == s.len() {
            Some(v)
        } else {
            None
        },
        None => None,
    }
}

/// The bytes of a payload behind the colon, without white space.
pub open spec fn payload_bytes(p: PayloadView) -> Option<Seq<u8>> {
    match p {
        PayloadView::Unit => None,
        PayloadView::Null => Some(seq![0x6eu8, 0x75u8, 0x6cu8, 0x6cu8]),
        PayloadView::Text(text) => json_literal(text),
        PayloadView::Pair(first, second) => match (json_literal(first), json_literal(second)) {
            (Some(a), Some(b)) => Some(seq![0x5bu8] + a + seq![0x2cu8] + b + seq![0x5du8]),
            _ => None,
        },
    }
}

/// The bytes of a tagged value, without white space.
pub open spec fn value_bytes(v: TaggedView) -> Option<Seq<u8>> {
    match json_literal(v.tag) {
        Some(tag) => match v.payload {
            PayloadView::Unit => Some(tag),
            payload => match payload_bytes(payload) {
                Some(body) => Some(seq![0x7bu8] + tag + seq![0x3au8] + body + seq![0x7du8]),
                None => None,
            },
        },
        None => None,
    }
}

/// `bytes` is how `v` is written, and reading `bytes` gives `v` again and
/// takes all of them.
pub open spec fn encodes(v: TaggedView, bytes: Seq<u8>) -> bool {
    &&& value_bytes(v) == Some(bytes)
    &&& value_at(bytes, 0) == Some((v, bytes.len() as int))
}

/// `v` can be written, and what is written reads back as `v`.
pub open spec fn encodable(v: TaggedView) -> bool {
    value_bytes(v).is_some() && encodes(v, value_bytes(v).unwrap())
}

/// Appends the bytes of `src` to `dst`.
pub fn push_all(dst: &mut Vec<u8>, src: &[u8])
    ensures
        final(dst)@ == old(dst)@ + src@,
{
    let mut i: usize = 0;
    while i < src.len()
        invariant
            i <= src@.len(),
            dst@ == old(dst)@ + src@.subrange(0, i as int),
        decreases src@.len() - i,
    {
        dst.push(src[i]);
        i = i + 1;
        assert(dst@ =~= old(dst)@ + src@.subrange(0, i as int));
    }
    assert(src@.subrange(0, i as int) =~= src@);
}

/// Reads a payload after white space: the payload and the position behind it.
pub fn read_payload(s: &[u8], i: usize) -> (r: Option<(Payload, usize)>)
    requires
        i <= s@.len(),
    ensures
        match r {
            Some((p, e)) => payload_at(s@, i as int) == Some((p@, e as int)) && i < e <= s@.len(),
            None => payload_at(s@, i as int).is_none(),
        },
{
    let j = skip_spaces(s, i);
    if j >= s.len() {
        return None;
    }
    if s[j] == 0x22 {
        match read_string(s, j) {
            Some((text, e)) => Some((Payload::Text(text), e)),
            None => None,
        }
    } else if s[j] == 0x6e {
        match read_null(s, j) {
            Some(e) => Some((Payload::Null, e)),
            None => None,
        }
    } else if s[j] == 0x5b {
        let (first, e1) = match read_string(s, j + 1) {
            Some(x) => x,
            None => { return None; },
        };
        let e2 = match read_byte(s, e1, 0x2c) {
            Some(x) => x,
            None => { return None; },
        };
        let (second, e3) = match read_string(s, e2) {
            Some(x) => x,
            None => { return None; },
        };
        let e4 = match read_byte(s, e3, 0x5d) {
            Some(x) => x,
            None => { return None; },
        };
        Some((Payload::Pair(first, second), e4))
    } else {
        None
    }
}

/// Reads one tagged value from `i` on: the value and the position behind it,
/// or `None` where no tagged value starts there.
pub fn read_value(s: &[u8], i: usize) -> (r: Option<(Tagged, usize)>)
    requires
        i <= s@.len(),
    ensures
        match r {
            Some((v, e)) => value_at(s@, i as int) == Some((v@, e as int)) && i < e <= s@.len(),
            None => value_at(s@, i as int).is_none(),
        },
{
    let j = skip_spaces(s, i);
    if j >= s.len() {
        return None;
    }
    if s[j] == 0x22 {
        match read_string(s, j) {
            Some((tag, e)) => Some((Tagged { tag, payload: Payload::Unit }, e)),
            None => None,
        }
    } else if s[j] == 0x7b {
        let (tag, e1) = match read_string(s, j + 1) {
            Some(x) => x,
            None => { return None; },
        };
        let e2 = match read_byte(s, e1, 0x3a) {
            Some(x) => x,
            None => { return None; },
        };
        let (payload, e3) = match read_payload(s, e2) {
            Some(x) => x,
            None => { return None; },
        };
        let e4 = match read_byte(s, e3, 0x7d) {
            Some(x) => x,
            None => { return None; },
        };
        Some((Tagged { tag, payload }, e4))
    } else {
        None
    }
}

/// Reads the one tagged value that `s` holds.
pub fn read_whole(s: &[u8]) -> (r: Option<Tagged>)
    ensures
        match r {
            Some(v) => whole_value(s@) == Some(v@),
            None => whole_value(s@).is_none(),
        },
{
    match read_value(s, 0) {
        Some((v, e)) => {
            if skip_spaces(s, e) == s.len() {
                Some(v)
            } else {
                None
            }
        },
        None => None,
    }
}

fn write_payload(p: &Payload) -> (r: Option<Vec<u8>>)
    ensures
        match r {
            Some(bytes) => payload_bytes(p@) == Some(bytes@),
            None => payload_bytes(p@).is_none(),
        },
{
    match p {
        Payload::Unit => None,
        Payload::Null => {
            let mut out: Vec<u8> = Vec::new();
            out.push(0x6e);
            out.push(0x75);
            out.push(0x6c);
            out.push(0x6c);
            assert(out@ =~= seq![0x6eu8, 0x75u8, 0x6cu8, 0x6cu8]);
            Some(out)
        },
        Payload::Text(text) => write_literal(text.as_str()),
        Payload::Pair(first, second) => {
            let a = match write_literal(first.as_str()) {
                Some(x) => x,
                None => { return None; },
            };
            let b = match write_literal(second.as_str()) {
                Some(x) => x,
                None => { return None; },
            };
            let mut out: Vec<u8> = Vec::new();
            out.push(0x5b);
            push_all(&mut out, a.as_slice());
            out.push(0x2c);
            push_all(&mut out, b.as_slice());
            out.push(0x5d);
            assert(out@ =~= seq![0x5bu8] + a@ + seq![0x2cu8] + b@ + seq![0x5du8]);
            Some(out)
        },
    }
}

/// Writes a tagged value, without white space.
pub fn write_value(v: &Tagged) -> (r: Option<Vec<u8>>)
    ensures
        match r {
            Some(bytes) => value_bytes(v@) == Some(bytes@),
            None => value_bytes(v@).is_none(),
        },
{
    let tag = match write_literal(v.tag.as_str()) {
        Some(x) => x,
        None => { return None; },
    };
    match &v.payload {
        Payload::Unit => Some(tag),
        payload => {
            let body = match write_payload(payload) {
                Some(x) => x,
                None => { return None; },
            };
            let mut out: Vec<u8> = Vec::new();
            out.push(0x7b);
            push_all(&mut out, tag.as_slice());
            out.push(0x3a);
            push_all(&mut out, body.as_slice());
            out.push(0x7d);
            assert(out@ =~= seq![0x7bu8] + tag@ + seq![0x3au8] + body@ + seq![0x7du8]);
            Some(out)
        },
    }
}

/// Whether two payloads are the same.
pub fn same_payload(a: &Payload, b: &Payload) -> (r: bool)
    ensures
        r == (a@ == b@),
{
    match a {
        Payload::Unit => match b {
            Payload::Unit => true,
            _ => false,
        },
        Payload::Null => match b {
            Payload::Null => true,
            _ => false,
        },
        Payload::Text(x) => match b {
            Payload::Text(y) => *x == *y,
            _ => false,
        },
        Payload::Pair(x1, x2) => match b {
            Payload::Pair(y1, y2) => *x1 == *y1 && *x2 == *y2,
            _ => false,
        },
    }
}

/// Whether two tagged values are the same.
pub fn same_value(a: &Tagged, b: &Tagged) -> (r: bool)
    ensures
        r == (a@ == b@),
{
    a.tag == b.tag && same_payload(&a.payload, &b.payload)
}

/// Writes a tagged value and reads the result back. The bytes are handed out
/// only where they read back as the value that was written, so that whatever
/// this function returns can be decoded again.
pub fn encode(v: &Tagged) -> (r: Option<Vec<u8>>)
    ensures
        match r {
            Some(bytes) => encodes(v@, bytes@),
            None => !encodable(v@),
        },
{
    let bytes = match write_value(v) {
        Some(x) => x,
        None => { return None; },
    };
    match read_value(bytes.as_slice(), 0) {
        Some((back, e)) => {
            if e == bytes.len() && same_value(v, &back) {
                Some(bytes)
            } else {
                None
            }
        },
        None => None,
    }
}

} // verus!
