use kvs::command::Command;
use kvs::error::CodecError;
use kvs::server::{accept_step, serve, Step};
use kvs::tagged::{encode, read_value, read_whole, write_value, Payload, Tagged};
use kvs::wire::{Query, Response};
use kvs::{KvStore, KvsError};

fn text(s: &str) -> String {
    s.to_string()
}

fn tagged(tag: &str, payload: Payload) -> Tagged {
    Tagged { tag: text(tag), payload }
}

#[test]
fn tagged_values_are_written_without_white_space() {
    assert_eq!(write_value(&tagged("T", Payload::Unit)), Some(b"\"T\"".to_vec()));
    assert_eq!(write_value(&tagged("T", Payload::Null)), Some(b"{\"T\":null}".to_vec()));
    assert_eq!(write_value(&tagged("T", Payload::Text(text("x")))), Some(b"{\"T\":\"x\"}".to_vec()));
    assert_eq!(
        write_value(&tagged("T", Payload::Pair(text("x"), text("y")))),
        Some(b"{\"T\":[\"x\",\"y\"]}".to_vec())
    );
}

#[test]
fn texts_are_escaped_as_json_strings() {
    assert_eq!(
        encode(&tagged("a\"b", Payload::Text(text("c\\d\n\u{1}")))),
        Some(b"{\"a\\\"b\":\"c\\\\d\\n\\u0001\"}".to_vec())
    );
}

#[test]
fn tagged_values_read_back() {
    let values = vec![
        tagged("Unit", Payload::Unit),
        tagged("", Payload::Null),
        tagged("Text", Payload::Text(text("with \"quotes\" and \\"))),
        tagged("Pair", Payload::Pair(text(""), text("\u{10FFFF}\r\n"))),
    ];
    for v in values {
        let bytes = encode(&v).unwrap();
        assert_eq!(read_value(&bytes, 0), Some((v.clone(), bytes.len())));
        assert_eq!(read_whole(&bytes), Some(v));
    }
}

#[test]
fn a_value_is_read_where_it_starts_and_no_further() {
    let bytes = b"xx {\"A\":\"b\"}{\"C\":null} ";
    assert_eq!(read_value(bytes, 2), Some((tagged("A", Payload::Text(text("b"))), 12)));
    assert_eq!(read_value(bytes, 12), Some((tagged("C", Payload::Null), 22)));
    assert_eq!(read_value(bytes, 22), None);
    assert_eq!(read_value(bytes, 23), None);
    assert_eq!(read_value(bytes, 0), None);
    assert_eq!(read_whole(bytes), None);
}

#[test]
fn what_is_not_a_tagged_value_is_not_read() {
    assert_eq!(read_whole(b"null"), None);
    assert_eq!(read_whole(b"[\"a\",\"b\"]"), None);
    assert_eq!(read_whole(b"{}"), None);
    assert_eq!(read_whole(b"{\"A\":1}"), None);
    assert_eq!(read_whole(b"{\"A\":[\"a\"]}"), None);
    assert_eq!(read_whole(b"{\"A\":[\"a\",\"b\",\"c\"]}"), None);
    assert_eq!(read_whole(b"{\"A\":\"a\",\"B\":\"b\"}"), None);
    assert_eq!(read_whole(b"{\"A\":\"\\\"}"), None);
    assert_eq!(read_whole(b"{\"A\":\"\xff\"}"), None);
    assert_eq!(read_whole(b"\"unterminated\\"), None);
}

#[test]
fn commands_and_their_records() {
    let put = Command::Put(text("k"), text("v"));
    let remove = Command::Remove(text("k"));
    assert_eq!(put.encode(), Ok(b"{\"Set\":[\"k\",\"v\"]}".to_vec()));
    assert_eq!(remove.encode(), Ok(b"{\"Rm\":\"k\"}".to_vec()));
    assert_eq!(put.key(), "k");
    assert_eq!(Command::from_tagged(put.to_tagged()), Some(put));
    assert_eq!(Command::from_tagged(remove.to_tagged()), Some(remove));
    assert_eq!(Command::from_tagged(tagged("Set", Payload::Text(text("k")))), None);
    assert_eq!(Command::from_tagged(tagged("Rm", Payload::Pair(text("k"), text("v")))), None);
    assert_eq!(Command::from_tagged(tagged("Get", Payload::Text(text("k")))), None);
}

#[test]
fn the_acceptor_stops_before_it_serves() {
    assert_eq!(accept_step(true, true), Step::Stop);
    assert_eq!(accept_step(true, false), Step::Stop);
    assert_eq!(accept_step(false, true), Step::Serve);
    assert_eq!(accept_step(false, false), Step::Skip);
}

#[test]
fn a_connection_gets_the_response_to_its_request() {
    let mut store = KvStore::open(0, Vec::new()).unwrap();
    let request = Query::Put(text("x"), text("A")).to_message().unwrap();
    let response = serve(&mut store, &request).unwrap();
    assert_eq!(response, Response::Success.to_message().unwrap());
    let request = Query::Get(text("x")).to_message().unwrap();
    let response = serve(&mut store, &request).unwrap();
    assert_eq!(response, vec![0, 0, 0, 10, b'{', b'"', b'O', b'k', b'"', b':', b'"', b'A', b'"', b'}']);
    let request = Query::Rm(text("y")).to_message().unwrap();
    let response = serve(&mut store, &request).unwrap();
    assert_eq!(Response::from_message(&response), Ok(Response::KeyNotFound));
}

#[test]
fn a_connection_without_a_request_is_refused() {
    let mut store = KvStore::open(0, Vec::new()).unwrap();
    store.set(text("x"), text("A")).unwrap();
    let before = store.log().to_vec();
    assert_eq!(serve(&mut store, &[0, 0]), Err(KvsError::Codec(CodecError::Truncated)));
    assert_eq!(serve(&mut store, &[0, 0, 0, 9, b'{']), Err(KvsError::Codec(CodecError::Truncated)));
    assert_eq!(
        serve(&mut store, &[0, 0, 0, 2, b'{', b'}']),
        Err(KvsError::Codec(CodecError::Malformed))
    );
    let answer = Response::Success.to_message().unwrap();
    assert_eq!(serve(&mut store, &answer), Err(KvsError::Codec(CodecError::Malformed)));
    assert_eq!(store.log(), before.as_slice());
}
