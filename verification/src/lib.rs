//! A persistent key-value store with string keys and string values.
//!
//! The storage engine, `KvStore`, is an append-only log of JSON records with
//! an in-memory index from each live key to the place of its latest record.
//! It works on the bytes of its log; who owns it keeps them in a file. The
//! store is proved to hold, at every moment, exactly what a replay of its log
//! gives, so that nothing is lost by a restart, and a compaction is proved to
//! keep what the store holds.
//!
//! - `json`, `tagged`: the part of JSON that records and messages are made of.
//! - `command`, `log`, `cut`, `index`, `store`, `files`: the storage engine.
//! - `wire`, `server`, `client`: the protocol between a client and the server.
//! - `engine`: what every engine offers, and the mark of a directory.
//! - `thread_pool`: where the server runs its work.

pub mod client;
pub mod command;
pub mod cut;
pub mod engine;
pub mod error;
pub mod files;
pub mod index;
pub mod json;
pub mod log;
pub mod server;
pub mod store;
pub mod tagged;
pub mod thread_pool;
pub mod wire;

pub use engine::{EngineType, KvsEngine};
pub use error::{KvsError, Result};
pub use index::LogIndex;
pub use store::KvStore;
pub use thread_pool::{RayonThreadPool, ThreadPool};
