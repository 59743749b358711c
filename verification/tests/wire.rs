use kvs::client::{get_query, get_result, remove_query, remove_result, set_query, set_result};
use kvs::error::CodecError;
use kvs::server::{handle, respond_get, respond_remove, respond_set};
use kvs::wire::{frame, length_prefix, read_length, unframe, Query, Response};
use kvs::{KvStore, KvsError};

fn text(s: &str) -> String {
    s.to_string()
}

#[test]
fn queries_are_written_as_tagged_json() {
    assert_eq!(Query::Get(text("k")).encode().unwrap(), b"{\"Get\":\"k\"}".to_vec());
    assert_eq!(Query::Put(text("k"), text("v")).encode().unwrap(), b"{\"Set\":[\"k\",\"v\"]}".to_vec());
    assert_eq!(Query::Rm(text("k")).encode().unwrap(), b"{\"Rm\":\"k\"}".to_vec());
}

#[test]
fn responses_are_written_as_tagged_json() {
    assert_eq!(Response::Success.encode().unwrap(), b"\"Success\"".to_vec());
    assert_eq!(Response::KeyNotFound.encode().unwrap(), b"\"KeyNotFound\"".to_vec());
    assert_eq!(Response::Value(Some(text("v"))).encode().unwrap(), b"{\"Ok\":\"v\"}".to_vec());
    assert_eq!(Response::Value(None).encode().unwrap(), b"{\"Ok\":null}".to_vec());
    assert_eq!(Response::Failure.encode().unwrap(), b"\"Err\"".to_vec());
}

#[test]
fn queries_round_trip() {
    let queries = vec![
        Query::Get(text("")),
        Query::Get(text("a \"quoted\" key")),
        Query::Put(text("k\\"), text("v\n\u{7f}\u{0}")),
        Query::Put(text("ключ"), text("значение 🔑")),
        Query::Rm(text("{\"Get\":\"k\"}")),
    ];
    for q in queries {
        let bytes = q.encode().unwrap();
        assert_eq!(Query::decode(&bytes), Ok(q.clone()));
        let message = q.to_message().unwrap();
        assert_eq!(Query::from_message(&message), Ok(q));
    }
}

#[test]
fn responses_round_trip() {
    let responses = vec![
        Response::Success,
        Response::KeyNotFound,
        Response::Value(Some(text("v"))),
        Response::Value(Some(text("null"))),
        Response::Value(Some(text(""))),
        Response::Value(None),
        Response::Failure,
    ];
    for r in responses {
        let bytes = r.encode().unwrap();
        assert_eq!(Response::decode(&bytes), Ok(r.clone()));
        let message = r.to_message().unwrap();
        assert_eq!(Response::from_message(&message), Ok(r));
    }
}

#[test]
fn a_message_is_the_length_then_the_json() {
    let message = Query::Get(text("key")).to_message().unwrap();
    assert_eq!(&message[..4], &[0, 0, 0, 13]);
    assert_eq!(&message[4..], b"{\"Get\":\"key\"}".as_slice());
}

#[test]
fn lengths_are_written_most_significant_byte_first() {
    assert_eq!(length_prefix(0), vec![0, 0, 0, 0]);
    assert_eq!(length_prefix(1), vec![0, 0, 0, 1]);
    assert_eq!(length_prefix(0x0102_0304), vec![1, 2, 3, 4]);
    assert_eq!(length_prefix(u32::MAX), vec![255, 255, 255, 255]);
    assert_eq!(read_length(&[1, 2, 3, 4]), Ok(0x0102_0304));
    assert_eq!(read_length(&[255, 255, 255, 255, 9]), Ok(u32::MAX));
    assert_eq!(read_length(&[0, 0, 1]), Err(KvsError::Codec(CodecError::Truncated)));
}

#[test]
fn frame_and_unframe() {
    assert_eq!(frame(b"abc"), Ok(vec![0, 0, 0, 3, b'a', b'b', b'c']));
    assert_eq!(frame(b""), Ok(vec![0, 0, 0, 0]));
    assert_eq!(unframe(&[0, 0, 0, 3, b'a', b'b', b'c']), Ok(b"abc".to_vec()));
    assert_eq!(unframe(&[0, 0, 0, 2, b'a', b'b', b'c']), Ok(b"ab".to_vec()));
    assert_eq!(unframe(&[0, 0, 0, 0]), Ok(Vec::new()));
}

#[test]
fn a_truncated_length_is_refused() {
    assert_eq!(unframe(&[]), Err(KvsError::Codec(CodecError::Truncated)));
    assert_eq!(unframe(&[0, 0, 0]), Err(KvsError::Codec(CodecError::Truncated)));
    assert_eq!(Query::from_message(&[0, 0]), Err(KvsError::Codec(CodecError::Truncated)));
}

#[test]
fn a_truncated_payload_is_refused() {
    assert_eq!(unframe(&[0, 0, 0, 4, b'a', b'b', b'c']), Err(KvsError::Codec(CodecError::Truncated)));
    let mut message = Query::Get(text("key")).to_message().unwrap();
    message.pop();
    assert_eq!(Query::from_message(&message), Err(KvsError::Codec(CodecError::Truncated)));
}

#[test]
fn invalid_json_is_refused() {
    let malformed = Err(KvsError::Codec(CodecError::Malformed));
    assert_eq!(Query::decode(b""), malformed);
    assert_eq!(Query::decode(b"{\"Get\":\"k\""), malformed);
    assert_eq!(Query::decode(b"{\"Get\":\"k\"}x"), malformed);
    assert_eq!(Query::decode(b"{\"Get\":\"bad \\q escape\"}"), malformed);
    assert_eq!(Query::decode(b"{\"Get\":\"raw \n newline\"}"), malformed);
    assert_eq!(Query::decode(b"{\"Get\":k}"), malformed);
    assert_eq!(Response::decode(b"\"Success"), Err(KvsError::Codec(CodecError::Malformed)));
    assert_eq!(Response::decode(b"{\"Ok\":nul}"), Err(KvsError::Codec(CodecError::Malformed)));
}

#[test]
fn json_of_another_variant_is_refused() {
    let malformed = Err(KvsError::Codec(CodecError::Malformed));
    assert_eq!(Query::decode(b"{\"Put\":[\"k\",\"v\"]}"), malformed);
    assert_eq!(Query::decode(b"{\"Get\":[\"k\",\"v\"]}"), malformed);
    assert_eq!(Query::decode(b"{\"Set\":\"k\"}"), malformed);
    assert_eq!(Query::decode(b"\"Get\""), malformed);
    assert_eq!(Query::decode(b"{\"Rm\":null}"), malformed);
    assert_eq!(Response::decode(b"\"Ok\""), Err(KvsError::Codec(CodecError::Malformed)));
    assert_eq!(Response::decode(b"{\"Success\":\"x\"}"), Err(KvsError::Codec(CodecError::Malformed)));
    assert_eq!(Response::decode(b"{\"Get\":\"k\"}"), Err(KvsError::Codec(CodecError::Malformed)));
}

#[test]
fn white_space_around_tokens_is_accepted() {
    assert_eq!(Query::decode(b" { \"Get\" :\t\"k\" }\r\n"), Ok(Query::Get(text("k"))));
    assert_eq!(Response::decode(b"\n{\"Ok\" : null }"), Ok(Response::Value(None)));
    assert_eq!(Response::decode(b" \"Err\" "), Ok(Response::Failure));
}

#[test]
fn escapes_in_tags_and_texts_are_resolved() {
    assert_eq!(Query::decode(b"{\"\\u0047et\":\"a\\u0062\\n\"}"), Ok(Query::Get(text("ab\n"))));
}

#[test]
fn responses_follow_what_the_engine_returned() {
    assert_eq!(respond_get(Ok(Some(text("v")))), Response::Value(Some(text("v"))));
    assert_eq!(respond_get(Ok(None)), Response::Value(None));
    assert_eq!(respond_get(Err(KvsError::Io(text("disk")))), Response::Failure);
    assert_eq!(respond_get(Err(KvsError::KeyNotFound)), Response::Failure);
    assert_eq!(respond_set(Ok(())), Response::Success);
    assert_eq!(respond_set(Err(KvsError::Io(text("disk")))), Response::Failure);
    assert_eq!(respond_remove(Ok(())), Response::Success);
    assert_eq!(respond_remove(Err(KvsError::KeyNotFound)), Response::KeyNotFound);
    assert_eq!(respond_remove(Err(KvsError::BackendError(text("tree")))), Response::Failure);
}

#[test]
fn results_follow_the_response() {
    assert_eq!(get_result(Response::Value(Some(text("v")))), Ok(Some(text("v"))));
    assert_eq!(get_result(Response::Value(None)), Ok(None));
    assert_eq!(get_result(Response::KeyNotFound), Err(KvsError::KeyNotFound));
    assert_eq!(get_result(Response::Failure), Err(KvsError::ServerError));
    assert_eq!(set_result(Response::Success), Ok(()));
    assert_eq!(set_result(Response::Failure), Err(KvsError::ServerError));
    assert_eq!(remove_result(Response::Success), Ok(()));
    assert_eq!(remove_result(Response::KeyNotFound), Err(KvsError::KeyNotFound));
    assert_eq!(remove_result(Response::Failure), Err(KvsError::ServerError));
}

#[test]
fn the_server_serves_requests_on_the_store() {
    let mut store = KvStore::open(0, Vec::new()).unwrap();
    assert_eq!(handle(&mut store, set_query(text("a"), text("1"))), Response::Success);
    assert_eq!(handle(&mut store, get_query(text("a"))), Response::Value(Some(text("1"))));
    assert_eq!(handle(&mut store, get_query(text("b"))), Response::Value(None));
    assert_eq!(handle(&mut store, remove_query(text("a"))), Response::Success);
    assert_eq!(handle(&mut store, remove_query(text("a"))), Response::KeyNotFound);
    assert_eq!(handle(&mut store, get_query(text("a"))), Response::Value(None));
}

#[test]
fn two_clients_writing_in_turns_are_both_served() {
    let mut store = KvStore::open(0, Vec::new()).unwrap();
    for _ in 0..1000 {
        let a = Query::from_message(&set_query(text("x"), text("A")).to_message().unwrap()).unwrap();
        assert_eq!(set_result(handle(&mut store, a)), Ok(()));
        let b = Query::from_message(&set_query(text("y"), text("B")).to_message().unwrap()).unwrap();
        assert_eq!(set_result(handle(&mut store, b)), Ok(()));
    }
    let answer = handle(&mut store, get_query(text("x"))).to_message().unwrap();
    assert_eq!(get_result(Response::from_message(&answer).unwrap()), Ok(Some(text("A"))));
    let answer = handle(&mut store, get_query(text("y"))).to_message().unwrap();
    assert_eq!(get_result(Response::from_message(&answer).unwrap()), Ok(Some(text("B"))));
}
