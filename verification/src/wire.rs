//! The wire protocol: requests and responses as JSON, each behind its length
//! as four bytes, the most significant first.

use crate::error::{CodecError, KvsError, Result};
use crate::tagged::{
    encodable, encode, encodes, push_all, read_whole, value_bytes, whole_value, Payload,
    PayloadView, Tagged, TaggedView,
};
use vstd::prelude::*;

verus! {

/// What a client asks of the server. On the wire: `{"Get":"key"}`,
/// `{"Set":["key","value"]}` and `{"Rm":"key"}`.
#[derive(Clone, Debug, PartialEq, Eq)]
pub enum Query {
    Get(String),
    Put(String, String),
    Rm(String),
}

/// What the server answers. On the wire: `"Success"`, `"KeyNotFound"`,
/// `{"Ok":"value"}` or `{"Ok":null}`, and `"Err"`.
#[derive(Clone, Debug, PartialEq, Eq)]
pub enum Response {
    /// A `Put` or an `Rm` was done.
    Success,
    /// The key of an `Rm` is not in the store.
    KeyNotFound,
    /// The answer to a `Get`: the value, or `None` where the key is absent.
    Value(Option<String>),
    /// The server failed, and does not say how.
    Failure,
}

/// A request, its texts as sequences of characters.
pub enum QueryView {
    Get(Seq<char>),
    Put(Seq<char>, Seq<char>),
    Rm(Seq<char>),
}

/// A response, its text as a sequence of characters.
pub enum ResponseView {
    Success,
    KeyNotFound,
    Value(Option<Seq<char>>),
    Failure,
}

impl View for Query {
    type V = QueryView;

    open spec fn view(&self) -> QueryView {
        match self {
            Query::Get(k) => QueryView::Get(k@),
            Query::Put(k, v) => QueryView::Put(k@, v@),
            Query::Rm(k) => QueryView::Rm(k@),
        }
    }
}

impl View for Response {
    type V = ResponseView;

    open spec fn view(&self) -> ResponseView {
        match self {
            Response::Success => ResponseView::Success,
            Response::KeyNotFound => ResponseView::KeyNotFound,
            Response::Value(Some(v)) => ResponseView::Value(Some(v@)),
            Response::Value(None) => ResponseView::Value(None),
            Response::Failure => ResponseView::Failure,
        }
    }
}

/// The tagged value that stands for a request.
pub open spec fn tagged_of_query(q: QueryView) -> TaggedView {
    match q {
        QueryView::Get(k) => TaggedView { tag: "Get"@, payload: PayloadView::Text(k) },
        QueryView::Put(k, v) => TaggedView { tag: "Set"@, payload: PayloadView::Pair(k, v) },
        QueryView::Rm(k) => TaggedView { tag: "Rm"@, payload: PayloadView::Text(k) },
    }
}

/// The request that a tagged value stands for, if it stands for one.
pub open spec fn query_of(t: TaggedView) -> Option<QueryView> {
    match t.payload {
        PayloadView::Text(k) => if t.tag == "Get"@ {
            Some(QueryView::Get(k))
        } else if t.tag == "Rm"@ {
            Some(QueryView::Rm(k))
        } else {
            None
        },
        PayloadView::Pair(k, v) => if t.tag == "Set"@ {
            Some(QueryView::Put(k, v))
        } else {
            None
        },
        _ => None,
    }
}

/// The tagged value that stands for a response.
pub open spec fn tagged_of_response(r: ResponseView) -> TaggedView {
    match r {
        ResponseView::Success => TaggedView { tag: "Success"@, payload: PayloadView::Unit },
        ResponseView::KeyNotFound => TaggedView { tag: "KeyNotFound"@, payload: PayloadView::Unit },
        ResponseView::Value(Some(v)) => TaggedView { tag: "Ok"@, payload: PayloadView::Text(v) },
        ResponseView::Value(None) => TaggedView { tag: "Ok"@, payload: PayloadView::Null },
        ResponseView::Failure => TaggedView { tag: "Err"@, payload: PayloadView::Unit },
    }
}

/// The response that a tagged value stands for, if it stands for one.
pub open spec fn response_of(t: TaggedView) -> Option<ResponseView> {
    match t.payload {
        PayloadView::Unit => if t.tag == "Success"@ {
            Some(ResponseView::Success)
        } else if t.tag == "KeyNotFound"@ {
            Some(ResponseView::KeyNotFound)
        } else if t.tag == "Err"@ {
            Some(ResponseView::Failure)
        } else {
            None
        },
        PayloadView::Text(v) => if t.tag == "Ok"@ {
            Some(ResponseView::Value(Some(v)))
        } else {
            None
        },
        PayloadView::Null => if t.tag == "Ok"@ {
            Some(ResponseView::Value(None))
        } else {
            None
        },
        _ => None,
    }
}

/// The request that the bytes of a payload hold.
pub open spec fn decoded_query(bytes: Seq<u8>) -> Option<QueryView> {
    match whole_value(bytes) {
        Some(t) => query_of(t),
        None => None,
    }
}

/// The response that the bytes of a payload hold.
pub open spec fn decoded_response(bytes: Seq<u8>) -> Option<ResponseView> {
    match whole_value(bytes) {
        Some(t) => response_of(t),
        None => None,
    }
}

/// A request is the request of its tagged value.
pub proof fn lemma_query_of_tagged(q: QueryView)
    ensures
        query_of(tagged_of_query(q)) == Some(q),
{
    reveal_strlit("Get");
    reveal_strlit("Rm");
    assert("Get"@.len() != "Rm"@.len());
}

/// A response is the response of its tagged value.
pub proof fn lemma_response_of_tagged(r: ResponseView)
    ensures
        response_of(tagged_of_response(r)) == Some(r),
{
    reveal_strlit("Success");
    reveal_strlit("KeyNotFound");
    reveal_strlit("Err");
    assert("Success"@.len() != "KeyNotFound"@.len());
    assert("Success"@.len() != "Err"@.len());
    assert("KeyNotFound"@.len() != "Err"@.len());
}

/// Bytes that are written for a request are read as that request.
pub proof fn query_round_trip(q: QueryView, bytes: Seq<u8>)
    requires
        encodes(tagged_of_query(q), bytes),
    ensures
        decoded_query(bytes) == Some(q),
{
    lemma_query_of_tagged(q);
}

/// Bytes that are written for a response are read as that response.
pub proof fn response_round_trip(r: ResponseView, bytes: Seq<u8>)
    requires
        encodes(tagged_of_response(r), bytes),
    ensures
        decoded_response(bytes) == Some(r),
{
    lemma_response_of_tagged(r);
}

impl Query {
    fn to_tagged(&self) -> (t: Tagged)
        ensures
            t@ == tagged_of_query(self@),
    {
        match self {
            Query::Get(k) => Tagged { tag: "Get".to_owned(), payload: Payload::Text(k.clone()) },
            Query::Put(k, v) => Tagged {
                tag: "Set".to_owned(),
                payload: Payload::Pair(k.clone(), v.clone()),
            },
            Query::Rm(k) => Tagged { tag: "Rm".to_owned(), payload: Payload::Text(k.clone()) },
        }
    }

    fn from_tagged(t: Tagged) -> (r: Option<Query>)
        ensures
            match r {
                Some(q) => query_of(t@) == Some(q@),
                None => query_of(t@).is_none(),
            },
    {
        let Tagged { tag, payload } = t;
        match payload {
            Payload::Text(k) => {
                if tag == "Get".to_owned() {
                    Some(Query::Get(k))
                } else if tag == "Rm".to_owned() {
                    Some(Query::Rm(k))
                } else {
                    None
                }
            },
            Payload::Pair(k, v) => {
                if tag == "Set".to_owned() {
                    Some(Query::Put(k, v))
                } else {
                    None
                }
            },
            _ => None,
        }
    }

    /// The JSON of the request. It is handed out only where it reads back as
    /// the request.
    pub fn encode(&self) -> (r: Result<Vec<u8>>)
        ensures
            match r {
                Ok(bytes) => encodes(tagged_of_query(self@), bytes@) && decoded_query(bytes@)
                    == Some(self@),
                Err(e) => !encodable(tagged_of_query(self@)) && e == KvsError::Codec(
                    CodecError::Unwritable,
                ),
            },
    {
        let t = self.to_tagged();
        match encode(&t) {
            Some(bytes) => {
                proof {
                    query_round_trip(self@, bytes@);
                }
                Ok(bytes)
            },
            None => Err(KvsError::Codec(CodecError::Unwritable)),
        }
    }

    /// The request that a payload holds.
    pub fn decode(bytes: &[u8]) -> (r: Result<Query>)
        ensures
            match r {
                Ok(q) => decoded_query(bytes@) == Some(q@),
                Err(e) => decoded_query(bytes@).is_none() && e == KvsError::Codec(
                    CodecError::Malformed,
                ),
            },
    {
        match read_whole(bytes) {
            Some(t) => match Query::from_tagged(t) {
                Some(q) => Ok(q),
                None => Err(KvsError::Codec(CodecError::Malformed)),
            },
            None => Err(KvsError::Codec(CodecError::Malformed)),
        }
    }
}

impl Response {
    fn to_tagged(&self) -> (t: Tagged)
        ensures
            t@ == tagged_of_response(self@),
    {
        match self {
            Response::Success => Tagged { tag: "Success".to_owned(), payload: Payload::Unit },
            Response::KeyNotFound => Tagged {
                tag: "KeyNotFound".to_owned(),
                payload: Payload::Unit,
            },
            Response::Value(Some(v)) => Tagged {
                tag: "Ok".to_owned(),
                payload: Payload::Text(v.clone()),
            },
            Response::Value(None) => Tagged { tag: "Ok".to_owned(), payload: Payload::Null },
            Response::Failure => Tagged { tag: "Err".to_owned(), payload: Payload::Unit },
        }
    }

    fn from_tagged(t: Tagged) -> (r: Option<Response>)
        ensures
            match r {
                Some(x) => response_of(t@) == Some(x@),
                None => response_of(t@).is_none(),
            },
    {
        let Tagged { tag, payload } = t;
        match payload {
            Payload::Unit => {
                if tag == "Success".to_owned() {
                    Some(Response::Success)
                } else if tag == "KeyNotFound".to_owned() {
                    Some(Response::KeyNotFound)
                } else if tag == "Err".to_owned() {
                    Some(Response::Failure)
                } else {
                    None
                }
            },
            Payload::Text(v) => {
                if tag == "Ok".to_owned() {
                    Some(Response::Value(Some(v)))
                } else {
                    None
                }
            },
            Payload::Null => {
                if tag == "Ok".to_owned() {
                    Some(Response::Value(None))
                } else {
                    None
                }
            },
            _ => None,
        }
    }

    /// The JSON of the response. It is handed out only where it reads back as
    /// the response.
    pub fn encode(&self) -> (r: Result<Vec<u8>>)
        ensures
            match r {
                Ok(bytes) => encodes(tagged_of_response(self@), bytes@) && decoded_response(bytes@)
                    == Some(self@),
                Err(e) => !encodable(tagged_of_response(self@)) && e == KvsError::Codec(
                    CodecError::Unwritable,
                ),
            },
    {
        let t = self.to_tagged();
        match encode(&t) {
            Some(bytes) => {
                proof {
                    response_round_trip(self@, bytes@);
                }
                Ok(bytes)
            },
            None => Err(KvsError::Codec(CodecError::Unwritable)),
        }
    }

    /// The response that a payload holds.
    pub fn decode(bytes: &[u8]) -> (r: Result<Response>)
        ensures
            match r {
                Ok(x) => decoded_response(bytes@) == Some(x@),
                Err(e) => decoded_response(bytes@).is_none() && e == KvsError::Codec(
                    CodecError::Malformed,
                ),
            },
    {
        match read_whole(bytes) {
            Some(t) => match Response::from_tagged(t) {
                Some(x) => Ok(x),
                None => Err(KvsError::Codec(CodecError::Malformed)),
            },
            None => Err(KvsError::Codec(CodecError::Malformed)),
        }
    }
}

/// A length as four bytes, the most significant first.
#[verifier::opaque]
pub open spec fn be32(n: u32) -> Seq<u8> {
    seq![
        (n / 0x100_0000) as u8,
        (n / 0x1_0000 % 0x100) as u8,
        (n / 0x100 % 0x100) as u8,
        (n % 0x100) as u8,
    ]
}

/// The length that the first four bytes say.
#[verifier::opaque]
pub open spec fn be32_value(b: Seq<u8>) -> int {
    b[0] * 0x100_0000 + b[1] * 0x1_0000 + b[2] * 0x100 + b[3]
}

/// A message: the length of the payload, then the payload.
pub open spec fn framed(payload: Seq<u8>) -> Seq<u8> {
    be32(payload.len() as u32) + payload
}

/// The payload of the message that the bytes start with, if they hold all of
/// it.
pub open spec fn frame_at(bytes: Seq<u8>) -> Option<Seq<u8>> {
    if bytes.len() >= 4 && 4 + be32_value(bytes) <= bytes.len() {
        Some(bytes.subrange(4, 4 + be32_value(bytes)))
    } else {
        None
    }
}

/// The four bytes of a length say that length.
pub proof fn be32_round_trip(n: u32)
    ensures
        be32(n).len() == 4,
        be32_value(be32(n)) == n,
{
    reveal(be32);
    reveal(be32_value);
}

/// The payload of a message is read back from the message, whatever follows
/// it.
pub proof fn frame_round_trip(payload: Seq<u8>, rest: Seq<u8>)
    requires
        payload.len() <= u32::MAX,
    ensures
        frame_at(framed(payload) + rest) == Some(payload),
{
    let n = payload.len() as u32;
    be32_round_trip(n);
    let all = framed(payload) + rest;
    assert(be32_value(all) == be32_value(be32(n))) by {
        reveal(be32_value);
        assert(all[0] == be32(n)[0]);
        assert(all[1] == be32(n)[1]);
        assert(all[2] == be32(n)[2]);
        assert(all[3] == be32(n)[3]);
    }
    assert(all.subrange(4, 4 + n) =~= payload);
}

/// A message holds its payload behind the first four bytes.
pub proof fn lemma_framed(payload: Seq<u8>)
    requires
        payload.len() <= u32::MAX,
    ensures
        frame_at(framed(payload)) == Some(payload),
        framed(payload).len() == 4 + payload.len(),
        framed(payload).subrange(4, framed(payload).len() as int) == payload,
{
    frame_round_trip(payload, Seq::empty());
    be32_round_trip(payload.len() as u32);
    assert(framed(payload) + Seq::<u8>::empty() =~= framed(payload));
    assert(framed(payload).subrange(4, framed(payload).len() as int) =~= payload);
}

/// Writes a length as four bytes, the most significant first.
pub fn length_prefix(n: u32) -> (r: Vec<u8>)
    ensures
        r@ == be32(n),
{
    let mut out: Vec<u8> = Vec::new();
    out.push((n / 0x100_0000) as u8);
    out.push((n / 0x1_0000 % 0x100) as u8);
    out.push((n / 0x100 % 0x100) as u8);
    out.push((n % 0x100) as u8);
    proof {
        reveal(be32);
    }
    assert(out@ =~= be32(n));
    out
}

/// Reads the length that a message starts with.
pub fn read_length(header: &[u8]) -> (r: Result<u32>)
    ensures
        match r {
            Ok(n) => header@.len() >= 4 && n == be32_value(header@),
            Err(e) => header@.len() < 4 && e == KvsError::Codec(CodecError::Truncated),
        },
{
    if header.len() < 4 {
        return Err(KvsError::Codec(CodecError::Truncated));
    }
    let b0: u32 = header[0] as u32;
    let b1: u32 = header[1] as u32;
    let b2: u32 = header[2] as u32;
    let b3: u32 = header[3] as u32;
    proof {
        reveal(be32_value);
    }
    Ok(b0 * 0x100_0000 + b1 * 0x1_0000 + b2 * 0x100 + b3)
}

/// Puts the length of a payload in front of it.
pub fn frame(payload: &[u8]) -> (r: Result<Vec<u8>>)
    ensures
        match r {
            Ok(bytes) => payload@.len() <= u32::MAX && bytes@ == framed(payload@),
            Err(e) => payload@.len() > u32::MAX && e == KvsError::Codec(CodecError::TooLong),
        },
{
    if payload.len() > 0xffff_ffff {
        return Err(KvsError::Codec(CodecError::TooLong));
    }
    let mut out = length_prefix(payload.len() as u32);
    push_all(&mut out, payload);
    Ok(out)
}

/// Takes the payload out of the message that the bytes start with.
pub fn unframe(bytes: &[u8]) -> (r: Result<Vec<u8>>)
    ensures
        match r {
            Ok(payload) => frame_at(bytes@) == Some(payload@),
            Err(e) => frame_at(bytes@).is_none() && e == KvsError::Codec(CodecError::Truncated),
        },
{
    let n = match read_length(bytes) {
        Ok(n) => n as usize,
        Err(e) => { return Err(e); },
    };
    if bytes.len() - 4 < n {
        return Err(KvsError::Codec(CodecError::Truncated));
    }
    let mut out: Vec<u8> = Vec::new();
    push_all(&mut out, vstd::slice::slice_subrange(bytes, 4, 4 + n));
    Ok(out)
}

/// The request that a message holds.
pub open spec fn message_query(bytes: Seq<u8>) -> Option<QueryView> {
    match frame_at(bytes) {
        Some(payload) => decoded_query(payload),
        None => None,
    }
}

/// The response that a message holds.
pub open spec fn message_response(bytes: Seq<u8>) -> Option<ResponseView> {
    match frame_at(bytes) {
        Some(payload) => decoded_response(payload),
        None => None,
    }
}

impl Query {
    /// The message for the request: its JSON behind the length of the JSON.
    pub fn to_message(&self) -> (r: Result<Vec<u8>>)
        ensures
            match r {
                Ok(bytes) => {
                    &&& encodable(tagged_of_query(self@))
                    &&& bytes@ == framed(value_bytes(tagged_of_query(self@)).unwrap())
                    &&& message_query(bytes@) == Some(self@)
                },
                Err(e) => if encodable(tagged_of_query(self@)) {
                    value_bytes(tagged_of_query(self@)).unwrap().len() > u32::MAX && e
                        == KvsError::Codec(CodecError::TooLong)
                } else {
                    e == KvsError::Codec(CodecError::Unwritable)
                },
            },
    {
        let json = match self.encode() {
            Ok(json) => json,
            Err(e) => { return Err(e); },
        };
        proof {
            if json@.len() <= u32::MAX {
                lemma_framed(json@);
            }
        }
        frame(json.as_slice())
    }

    /// The request that a message holds.
    pub fn from_message(bytes: &[u8]) -> (r: Result<Query>)
        ensures
            match r {
                Ok(q) => message_query(bytes@) == Some(q@),
                Err(e) => message_query(bytes@).is_none() && e == KvsError::Codec(
                    if frame_at(bytes@).is_none() {
                        CodecError::Truncated
                    } else {
                        CodecError::Malformed
                    },
                ),
            },
    {
        match unframe(bytes) {
            Ok(payload) => Query::decode(payload.as_slice()),
            Err(e) => Err(e),
        }
    }
}

/// `r` is what sending the response `x` gives: the message that holds `x`,
/// where the JSON of `x` can be written so that it reads back and its length
/// fits in four bytes; else the error that says which of the two failed.
pub open spec fn sent(x: ResponseView, r: Result<Vec<u8>>) -> bool {
    match r {
        Ok(bytes) => {
            &&& encodable(tagged_of_response(x))
            &&& value_bytes(tagged_of_response(x)).unwrap().len() <= u32::MAX
            &&& bytes@ == framed(value_bytes(tagged_of_response(x)).unwrap())
            &&& message_response(bytes@) == Some(x)
        },
        Err(e) => if encodable(tagged_of_response(x)) {
            value_bytes(tagged_of_response(x)).unwrap().len() > u32::MAX && e == KvsError::Codec(
                CodecError::TooLong,
            )
        } else {
            e == KvsError::Codec(CodecError::Unwritable)
        },
    }
}

impl Response {
    /// The message for the response: its JSON behind the length of the JSON.
    pub fn to_message(&self) -> (r: Result<Vec<u8>>)
        ensures
            sent(self@, r),
    {
        let json = match self.encode() {
            Ok(json) => json,
            Err(e) => { return Err(e); },
        };
        proof {
            if json@.len() <= u32::MAX {
                lemma_framed(json@);
            }
        }
        frame(json.as_slice())
    }

    /// The response that a message holds.
    pub fn from_message(bytes: &[u8]) -> (r: Result<Response>)
        ensures
            match r {
                Ok(x) => message_response(bytes@) == Some(x@),
                Err(e) => message_response(bytes@).is_none() && e == KvsError::Codec(
                    if frame_at(bytes@).is_none() {
                        CodecError::Truncated
                    } else {
                        CodecError::Malformed
                    },
                ),
            },
    {
        match unframe(bytes) {
            Ok(payload) => Response::decode(payload.as_slice()),
            Err(e) => Err(e),
        }
    }
}

} // verus!
