use kvs::store::COMPACTION_THRESHOLD;
use kvs::error::CodecError;
use kvs::{KvStore, KvsEngine, KvsError, LogIndex};

fn text(s: &str) -> String {
    s.to_string()
}

#[test]
fn set_then_get_finds_the_value() {
    let mut store = KvStore::open(0, Vec::new()).unwrap();
    store.set(text("a"), text("1")).unwrap();
    store.set(text("b"), text("2")).unwrap();
    assert_eq!(store.get(text("a")).unwrap(), Some(text("1")));
    assert_eq!(store.get(text("b")).unwrap(), Some(text("2")));
    assert_eq!(store.get(text("c")).unwrap(), None);
}

#[test]
fn remove_then_get_finds_nothing() {
    let mut store = KvStore::open(0, Vec::new()).unwrap();
    store.set(text("a"), text("1")).unwrap();
    store.set(text("b"), text("2")).unwrap();
    store.remove(text("a")).unwrap();
    assert_eq!(store.get(text("a")).unwrap(), None);
    assert_eq!(store.remove(text("a")), Err(KvsError::KeyNotFound));
    assert_eq!(store.get(text("b")).unwrap(), Some(text("2")));
}

#[test]
fn remove_of_a_key_never_set_is_refused_and_writes_nothing() {
    let mut store = KvStore::open(0, Vec::new()).unwrap();
    assert_eq!(store.remove(text("ghost")), Err(KvsError::KeyNotFound));
    assert!(store.log().is_empty());
    assert_eq!(store.redundant(), 0);
}

#[test]
fn restart_finds_what_was_written() {
    let mut store = KvStore::open(0, Vec::new()).unwrap();
    store.set(text("a"), text("1")).unwrap();
    store.set(text("b"), text("2")).unwrap();
    store.remove(text("a")).unwrap();
    let again = KvStore::open(store.epoch(), store.log().to_vec()).unwrap();
    assert_eq!(again.get(text("a")).unwrap(), None);
    assert_eq!(again.get(text("b")).unwrap(), Some(text("2")));
    assert_eq!(again.log(), store.log());
}

#[test]
fn log_holds_the_records_as_json() {
    let mut store = KvStore::open(0, Vec::new()).unwrap();
    store.set(text("a"), text("1")).unwrap();
    store.remove(text("a")).unwrap();
    assert_eq!(store.log(), b"{\"Set\":[\"a\",\"1\"]}{\"Rm\":\"a\"}".as_slice());
}

#[test]
fn set_twice_is_set_once() {
    let mut store = KvStore::open(0, Vec::new()).unwrap();
    store.set(text("k"), text("v")).unwrap();
    store.set(text("k"), text("v")).unwrap();
    assert_eq!(store.get(text("k")).unwrap(), Some(text("v")));
    assert_eq!(store.redundant(), 1);
}

#[test]
fn latest_write_wins() {
    let mut store = KvStore::open(0, Vec::new()).unwrap();
    store.set(text("k"), text("old")).unwrap();
    store.set(text("k"), text("new")).unwrap();
    assert_eq!(store.get(text("k")).unwrap(), Some(text("new")));
}

#[test]
fn values_with_escapes_come_back_as_they_went_in() {
    let mut store = KvStore::open(0, Vec::new()).unwrap();
    let key = text("quote\" and \\ backslash");
    let value = text("line\nbreak\ttab \u{1F600} \u{0001} é");
    store.set(key.clone(), value.clone()).unwrap();
    assert_eq!(store.get(key.clone()).unwrap(), Some(value.clone()));
    let again = KvStore::open(0, store.log().to_vec()).unwrap();
    assert_eq!(again.get(key).unwrap(), Some(value));
}

#[test]
fn locate_gives_the_place_of_the_latest_record() {
    let mut store = KvStore::open(3, Vec::new()).unwrap();
    store.set(text("a"), text("1")).unwrap();
    let first = store.log().len() as u64;
    store.set(text("b"), text("22")).unwrap();
    assert_eq!(store.locate("a"), Some(LogIndex::new(3, 0, first)));
    let place = store.locate("b").unwrap();
    assert_eq!(place, LogIndex { epoch: 3, offset: first, len: store.log().len() as u64 - first });
    assert_eq!(
        &store.log()[place.offset as usize..(place.offset + place.len) as usize],
        b"{\"Set\":[\"b\",\"22\"]}".as_slice()
    );
    assert_eq!(store.locate("c"), None);
}

#[test]
fn open_reads_records_with_white_space_between_tokens() {
    let bytes = b" {\"Set\" : [ \"a\" , \"1\" ] }\n{ \"Rm\":\"zz\" }\t{\"Set\":[\"b\",\"2\"]}".to_vec();
    let store = KvStore::open(0, bytes.clone()).unwrap();
    assert_eq!(store.get(text("a")).unwrap(), Some(text("1")));
    assert_eq!(store.get(text("b")).unwrap(), Some(text("2")));
    assert_eq!(store.get(text("zz")).unwrap(), None);
    assert_eq!(store.log(), bytes.as_slice());
}

#[test]
fn open_drops_what_follows_the_last_complete_record() {
    let mut bytes = b"{\"Set\":[\"a\",\"1\"]}".to_vec();
    let complete = bytes.len();
    bytes.extend_from_slice(b"{\"Set\":[\"b\",\"2");
    let mut store = KvStore::open(0, bytes).unwrap();
    assert_eq!(store.log().len(), complete);
    assert_eq!(store.get(text("a")).unwrap(), Some(text("1")));
    assert_eq!(store.get(text("b")).unwrap(), None);
    store.set(text("c"), text("3")).unwrap();
    let again = KvStore::open(0, store.log().to_vec()).unwrap();
    assert_eq!(again.get(text("c")).unwrap(), Some(text("3")));
}

#[test]
fn a_malformed_record_in_the_middle_of_a_log_is_reported() {
    let malformed = Err(KvsError::Codec(CodecError::Malformed));
    let logs: Vec<&[u8]> = vec![
        b"{\"Set\":[\"a\",\"1\"]}{\"Put\":[\"b\",\"2\"]}{\"Set\":[\"c\",\"3\"]}",
        b"{\"Set\":[\"a\",\"1\"]}x{\"Set\":[\"c\",\"3\"]}",
        b"{\"Set\":[\"a\",\"1\"]}{\"Set\":\"b\"}",
        b"{\"Set\":[\"a\",\"1\"]}{\"Rm\":[\"b\",\"c\"]}",
        b"{\"Set\":[\"a\",\"1\"]}{\"Set\":[\"b\" \"2\"]}",
        b"{\"Set\":[\"a\",\"bad \\q escape\"]}{\"Set\":[\"c\",\"3\"]}",
        b"{\"Set\":[\"a\",\"1\"]}{\"Set\":[\"b\",\"2\"]]",
        b"{\"Zzz\":[\"a\",\"",
        b"{\"Set\":\"a",
        b"{\"Rm\":[\"a",
        b"{\"Rm\":nu",
        b"\"Set\"",
        b"[",
    ];
    for log in logs {
        let opened = KvStore::open(0, log.to_vec()).map(|store| store.log().to_vec());
        assert_eq!((log, opened), (log, malformed.clone()));
    }
}

#[test]
fn the_beginning_of_a_record_at_the_end_of_a_log_is_dropped() {
    let complete = b"{\"Set\":[\"a\",\"1\"]}".to_vec();
    let tails: Vec<&[u8]> = vec![
        b"",
        b" \n",
        b"{",
        b" { ",
        b"{\"",
        b"{\"Se",
        b"{\"Set\"",
        b"{\"Set\" :",
        b"{\"Set\":[",
        b"{\"Set\":[\"b",
        b"{\"Set\":[\"b\\",
        b"{\"Set\":[\"b\"",
        b"{\"Set\":[\"b\",",
        b"{\"Set\":[\"b\",\"2",
        b"{\"Set\":[\"b\",\"2\"",
        b"{\"Set\":[\"b\",\"2\"]",
        b"{\"Rm\":",
        b"{\"Rm\":\"a",
        b"{\"Rm\":\"a\" ",
    ];
    for tail in tails {
        let mut bytes = complete.clone();
        bytes.extend_from_slice(tail);
        let store = KvStore::open(0, bytes).unwrap();
        assert_eq!(store.log(), complete.as_slice());
        assert_eq!(store.get(text("a")).unwrap(), Some(text("1")));
        assert_eq!(store.get(text("b")).unwrap(), None);
    }
}

#[test]
fn many_removed_keys_do_not_wear_the_index_out() {
    let mut store = KvStore::open(0, Vec::new()).unwrap();
    for i in 0..5000 {
        store.set(format!("key{}", i), text("v")).unwrap();
        store.remove(format!("key{}", i)).unwrap();
    }
    assert_eq!(store.epoch(), 0);
    assert_eq!(store.get(text("absent")).unwrap(), None);
    assert_eq!(store.get(text("key17")).unwrap(), None);
    assert_eq!(store.locate("absent"), None);
    assert_eq!(store.locate("key4999"), None);
    assert_eq!(store.remove(text("absent")), Err(KvsError::KeyNotFound));
    assert_eq!(store.remove(text("key0")), Err(KvsError::KeyNotFound));
    let again = KvStore::open(0, store.log().to_vec()).unwrap();
    assert_eq!(again.get(text("absent")).unwrap(), None);
    assert_eq!(again.get(text("key4999")).unwrap(), None);
    let mut bytes = b"{\"Rm\":\"never\"}".to_vec();
    bytes.extend_from_slice(store.log());
    let replayed = KvStore::open(0, bytes).unwrap();
    assert_eq!(replayed.get(text("never")).unwrap(), None);
    assert_eq!(replayed.get(text("other")).unwrap(), None);
}

#[test]
fn a_removed_key_can_be_set_again() {
    let mut store = KvStore::open(0, Vec::new()).unwrap();
    store.set(text("k"), text("1")).unwrap();
    store.remove(text("k")).unwrap();
    assert_eq!(store.redundant(), 1);
    store.set(text("k"), text("2")).unwrap();
    assert_eq!(store.redundant(), 2);
    assert_eq!(store.get(text("k")).unwrap(), Some(text("2")));
    store.remove(text("k")).unwrap();
    assert_eq!(store.get(text("k")).unwrap(), None);
    assert_eq!(store.remove(text("k")), Err(KvsError::KeyNotFound));
    store.compact();
    assert!(store.log().is_empty());
    assert_eq!(store.get(text("k")).unwrap(), None);
}

#[test]
fn a_log_cut_at_any_byte_still_opens() {
    let mut store = KvStore::open(0, Vec::new()).unwrap();
    let mut ends = Vec::new();
    for i in 0..6 {
        store.set(format!("key{}", i), format!("value{}", i)).unwrap();
        ends.push(store.log().len());
    }
    let whole = store.log().to_vec();
    for cut in 0..=whole.len() {
        let part = KvStore::open(0, whole[..cut].to_vec()).unwrap();
        for i in 0..6 {
            let expected = if ends[i] <= cut { Some(format!("value{}", i)) } else { None };
            assert_eq!(part.get(format!("key{}", i)).unwrap(), expected);
        }
    }
}

#[test]
fn compaction_keeps_what_the_store_holds() {
    let mut store = KvStore::open(0, Vec::new()).unwrap();
    for i in 0..50 {
        store.set(format!("k{}", i % 7), format!("v{}", i)).unwrap();
    }
    store.remove(text("k3")).unwrap();
    let before: Vec<Option<String>> = (0..8).map(|i| store.get(format!("k{}", i)).unwrap()).collect();
    let size = store.log().len();
    store.compact();
    let after: Vec<Option<String>> = (0..8).map(|i| store.get(format!("k{}", i)).unwrap()).collect();
    assert_eq!(before, after);
    assert_eq!(store.epoch(), 1);
    assert_eq!(store.redundant(), 0);
    assert!(store.log().len() < size);
    let again = KvStore::open(1, store.log().to_vec()).unwrap();
    let restarted: Vec<Option<String>> = (0..8).map(|i| again.get(format!("k{}", i)).unwrap()).collect();
    assert_eq!(before, restarted);
}

#[test]
fn compacted_log_holds_one_record_for_each_live_key() {
    let mut store = KvStore::open(0, Vec::new()).unwrap();
    store.set(text("a"), text("1")).unwrap();
    store.set(text("a"), text("2")).unwrap();
    store.set(text("a"), text("3")).unwrap();
    store.compact();
    assert_eq!(store.log(), b"{\"Set\":[\"a\",\"3\"]}".as_slice());
    assert_eq!(store.locate("a"), Some(LogIndex::new(1, 0, 17)));
}

#[test]
fn a_write_beyond_the_threshold_compacts() {
    let mut store = KvStore::open_with_threshold(0, Vec::new(), 2).unwrap();
    store.set(text("k"), text("0")).unwrap();
    store.set(text("k"), text("1")).unwrap();
    store.set(text("k"), text("2")).unwrap();
    assert_eq!(store.epoch(), 0);
    assert_eq!(store.redundant(), 2);
    store.set(text("k"), text("3")).unwrap();
    assert_eq!(store.epoch(), 1);
    assert_eq!(store.redundant(), 0);
    assert_eq!(store.log(), b"{\"Set\":[\"k\",\"3\"]}".as_slice());
    assert_eq!(store.get(text("k")).unwrap(), Some(text("3")));
}

#[test]
fn a_remove_beyond_the_threshold_compacts() {
    let mut store = KvStore::open_with_threshold(0, Vec::new(), 0).unwrap();
    store.set(text("a"), text("1")).unwrap();
    store.set(text("b"), text("2")).unwrap();
    assert_eq!(store.epoch(), 0);
    store.remove(text("a")).unwrap();
    assert_eq!(store.epoch(), 1);
    assert_eq!(store.log(), b"{\"Set\":[\"b\",\"2\"]}".as_slice());
}

#[test]
fn twenty_thousand_writes_of_one_key_keep_the_log_small() {
    let mut store = KvStore::open(0, Vec::new()).unwrap();
    let mut largest = 0;
    for i in 1..=20000 {
        store.set(text("k"), format!("v_{}", i)).unwrap();
        largest = largest.max(store.log().len());
    }
    assert_eq!(store.get(text("k")).unwrap(), Some(text("v_20000")));
    assert_eq!(store.epoch(), 1);
    assert!(store.redundant() <= COMPACTION_THRESHOLD);
    assert!(largest <= (COMPACTION_THRESHOLD as usize + 2) * "{\"Set\":[\"k\",\"v_20000\"]}".len());
    let again = KvStore::open(store.epoch(), store.log().to_vec()).unwrap();
    assert_eq!(again.get(text("k")).unwrap(), Some(text("v_20000")));
}

#[test]
fn the_store_serves_as_an_engine() {
    fn exercise<E: KvsEngine>(engine: &mut E) {
        engine.set(text("x"), text("A")).unwrap();
        assert_eq!(engine.get(text("x")).unwrap(), Some(text("A")));
        engine.remove(text("x")).unwrap();
        assert_eq!(engine.get(text("x")).unwrap(), None);
        assert_eq!(engine.remove(text("x")), Err(KvsError::KeyNotFound));
    }
    let mut store = KvStore::open(0, Vec::new()).unwrap();
    exercise(&mut store);
}

#[test]
fn what_a_write_appended_is_what_the_file_needs() {
    let mut store = KvStore::open_with_threshold(0, Vec::new(), 1).unwrap();
    store.set(text("a"), text("1")).unwrap();
    let len = store.log().len();
    store.set(text("b"), text("2")).unwrap();
    assert_eq!(store.appended_since(0, len), Some(b"{\"Set\":[\"b\",\"2\"]}".as_slice()));
    assert_eq!(store.appended_since(0, store.log().len()), Some(b"".as_slice()));
    assert_eq!(store.appended_since(0, store.log().len() + 1), None);
    let len = store.log().len();
    store.set(text("a"), text("3")).unwrap();
    store.set(text("a"), text("4")).unwrap();
    assert_eq!(store.epoch(), 1);
    assert_eq!(store.appended_since(0, len), None);
}

#[test]
fn compaction_does_not_lengthen_the_log() {
    let mut store = KvStore::open(0, Vec::new()).unwrap();
    for i in 0..20 {
        store.set(format!("k{}", i), format!("v{}", i)).unwrap();
    }
    let size = store.log().len();
    store.compact();
    assert_eq!(store.log().len(), size);
    store.remove(text("k0")).unwrap();
    store.compact();
    assert!(store.log().len() < size);
    assert_eq!(store.epoch(), 2);
}
