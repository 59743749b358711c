use kvs::engine::try_add_engine_type;
use kvs::error::CodecError;
use kvs::files::{latest_epoch, log_epoch, log_name};
use kvs::thread_pool::{RayonThreadPool, ThreadPool};
use kvs::{EngineType, KvsError};
use std::str::FromStr;
use std::sync::mpsc::channel;

#[test]
fn engine_names() {
    assert_eq!(EngineType::KvStore.name(), "kvs");
    assert_eq!(EngineType::Sled.name(), "sled");
    assert_eq!(EngineType::parse("kvs"), Ok(EngineType::KvStore));
    assert_eq!(EngineType::parse("sled"), Ok(EngineType::Sled));
    assert_eq!(EngineType::parse("kvs\n"), Err(KvsError::WrongEngine));
    assert_eq!(EngineType::parse(""), Err(KvsError::WrongEngine));
    assert_eq!(EngineType::from_str("sled"), Ok(EngineType::Sled));
    assert_eq!(EngineType::from_str("Sled"), Err(KvsError::WrongEngine));
}

#[test]
fn a_directory_without_a_mark_gets_one() {
    assert_eq!(try_add_engine_type(None, EngineType::KvStore), Ok(true));
    assert_eq!(try_add_engine_type(None, EngineType::Sled), Ok(true));
}

#[test]
fn a_marked_directory_opens_with_its_engine_only() {
    let kvs = EngineType::KvStore.name();
    let sled = EngineType::Sled.name();
    assert_eq!(try_add_engine_type(Some(&kvs), EngineType::KvStore), Ok(false));
    assert_eq!(try_add_engine_type(Some(&sled), EngineType::Sled), Ok(false));
    assert_eq!(try_add_engine_type(Some(&kvs), EngineType::Sled), Err(KvsError::WrongEngine));
    assert_eq!(try_add_engine_type(Some(&sled), EngineType::KvStore), Err(KvsError::WrongEngine));
    assert_eq!(try_add_engine_type(Some("rocks"), EngineType::KvStore), Err(KvsError::WrongEngine));
}

#[test]
fn failures_in_words() {
    assert_eq!(KvsError::KeyNotFound.message(), "key not found");
    assert_eq!(KvsError::WrongEngine.message(), "wrong engine");
    assert_eq!(KvsError::ServerError.message(), "server error");
    assert_eq!(KvsError::ThreadPoolError.message(), "thread pool error");
    assert_eq!(KvsError::Io("disk full".to_string()).message(), "io error: disk full");
    assert_eq!(KvsError::BackendError("tree".to_string()).message(), "sled error: tree");
    assert_eq!(KvsError::Codec(CodecError::Unwritable).message(), "serde_json error: value cannot be written");
    assert_eq!(KvsError::Codec(CodecError::TooLong).message(), "serde_json error: payload too long");
    assert_eq!(KvsError::Codec(CodecError::Truncated).message(), "serde_json error: input truncated");
    assert_eq!(KvsError::Codec(CodecError::Malformed).message(), "serde_json error: malformed input");
}

#[test]
fn log_file_names() {
    assert_eq!(log_name(0), b"0.log".to_vec());
    assert_eq!(log_name(7), b"7.log".to_vec());
    assert_eq!(log_name(10), b"10.log".to_vec());
    assert_eq!(log_name(1234567890), b"1234567890.log".to_vec());
    assert_eq!(log_name(usize::MAX), format!("{}.log", usize::MAX).into_bytes());
    assert_eq!(log_epoch(b"0.log"), Some(0));
    assert_eq!(log_epoch(b"42.log"), Some(42));
    assert_eq!(log_epoch(b"007.log"), Some(7));
    assert_eq!(log_epoch(&log_name(usize::MAX)), Some(usize::MAX));
}

#[test]
fn other_names_are_not_log_files() {
    assert_eq!(log_epoch(b".log"), None);
    assert_eq!(log_epoch(b"log"), None);
    assert_eq!(log_epoch(b""), None);
    assert_eq!(log_epoch(b".engine"), None);
    assert_eq!(log_epoch(b"temp"), None);
    assert_eq!(log_epoch(b"1.logs"), None);
    assert_eq!(log_epoch(b"1.LOG"), None);
    assert_eq!(log_epoch(b"a1.log"), None);
    assert_eq!(log_epoch(b"-1.log"), None);
    assert_eq!(log_epoch(b"+1.log"), None);
    assert_eq!(log_epoch(b"1.log.log"), None);
    assert_eq!(log_epoch(b"99999999999999999999999999.log"), None);
    let mut too_large = format!("{}", usize::MAX).into_bytes();
    let last = too_large.len() - 1;
    too_large[last] += 1;
    too_large.extend_from_slice(b".log");
    assert_eq!(log_epoch(&too_large), None);
}

#[test]
fn the_highest_epoch_is_the_active_log() {
    let names: Vec<Vec<u8>> = vec![
        b".engine".to_vec(),
        b"3.log".to_vec(),
        b"12.log".to_vec(),
        b"temp".to_vec(),
        b"4.log".to_vec(),
    ];
    assert_eq!(latest_epoch(&names), Some(12));
    assert_eq!(latest_epoch(&vec![b".engine".to_vec()]), None);
    assert_eq!(latest_epoch(&Vec::new()), None);
    assert_eq!(latest_epoch(&vec![b"0.log".to_vec()]), Some(0));
}

#[test]
fn the_pool_runs_the_jobs_it_is_given() {
    let pool = RayonThreadPool::new(2).unwrap();
    let (tx, rx) = channel();
    for i in 0..8 {
        let tx = tx.clone();
        pool.spawn(move || {
            tx.send(i).unwrap();
        });
    }
    let mut seen: Vec<i32> = (0..8).map(|_| rx.recv().unwrap()).collect();
    seen.sort();
    assert_eq!(seen, vec![0, 1, 2, 3, 4, 5, 6, 7]);
}

#[test]
fn a_pool_of_no_given_size_still_runs_jobs() {
    let pool = RayonThreadPool::new(0).unwrap();
    let (tx, rx) = channel();
    pool.spawn(move || {
        tx.send(41 + 1).unwrap();
    });
    assert_eq!(rx.recv().unwrap(), 42);
}
