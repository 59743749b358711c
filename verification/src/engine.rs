//! What every storage engine offers, and the mark that says which engine a
//! directory belongs to.

use crate::error::{KvsError, Result};
use crate::store::KvStore;
use vstd::prelude::*;

verus! {

/// A key-value store with string keys and string values.
///
/// Nothing is stated here of what a method returns: an engine keeps its data
/// where this library cannot look. What the store of this library returns is
/// stated at `KvStore`.
pub trait KvsEngine {
    /// The value of a key, or `None` where the engine does not hold the key.
    fn get(&mut self, key: String) -> Result<Option<String>>;

    /// Binds the key to the value.
    fn set(&mut self, key: String, value: String) -> Result<()>;

    /// Takes the key out. A key that the engine does not hold is refused with
    /// `KeyNotFound`.
    fn remove(&mut self, key: String) -> Result<()>;
}

impl KvsEngine for KvStore {
    fn get(&mut self, key: String) -> (r: Result<Option<String>>)
        ensures
            *final(self) == *old(self),
            match r {
                Ok(Some(v)) => old(self).spec_get(key@) == Some(v@),
                Ok(None) => old(self).spec_get(key@).is_none(),
                Err(_) => false,
            },
    {
        KvStore::get(self, key)
    }

    fn set(&mut self, key: String, value: String) -> (r: Result<()>)
        ensures
            final(self).after_set(old(self), key@, value@, r),
    {
        KvStore::set(self, key, value)
    }

    fn remove(&mut self, key: String) -> (r: Result<()>)
        ensures
            final(self).after_remove(old(self), key@, r),
    {
        KvStore::remove(self, key)
    }
}

/// The engines that a directory can belong to.
#[derive(Clone, Copy, Debug, PartialEq, Eq, Structural)]
pub enum EngineType {
    /// The embedded B-tree library.
    Sled,
    /// The log-structured store of this crate.
    KvStore,
}

impl EngineType {
    /// The name of the engine, as the mark in a directory holds it.
    pub open spec fn spec_name(self) -> Seq<char> {
        match self {
            EngineType::Sled => "sled"@,
            EngineType::KvStore => "kvs"@,
        }
    }

    /// The engine of a name.
    pub open spec fn spec_parse(s: Seq<char>) -> Option<EngineType> {
        if s == "kvs"@ {
            Some(EngineType::KvStore)
        } else if s == "sled"@ {
            Some(EngineType::Sled)
        } else {
            None
        }
    }

    /// The name of the engine: `kvs` or `sled`.
    pub fn name(&self) -> (s: String)
        ensures
            s@ == self.spec_name(),
    {
        match self {
            EngineType::Sled => "sled".to_owned(),
            EngineType::KvStore => "kvs".to_owned(),
        }
    }

    /// The engine of a name. Another name is refused with `WrongEngine`.
    pub fn parse(s: &str) -> (r: Result<EngineType>)
        ensures
            match r {
                Ok(t) => EngineType::spec_parse(s@) == Some(t),
                Err(e) => EngineType::spec_parse(s@).is_none() && e == KvsError::WrongEngine,
            },
    {
        let name = s.to_owned();
        if name == "kvs".to_owned() {
            Ok(EngineType::KvStore)
        } else if name == "sled".to_owned() {
            Ok(EngineType::Sled)
        } else {
            Err(KvsError::WrongEngine)
        }
    }
}

impl core::str::FromStr for EngineType {
    type Err = KvsError;

    fn from_str(s: &str) -> (r: Result<EngineType>)
        ensures
            match r {
                Ok(t) => EngineType::spec_parse(s@) == Some(t),
                Err(e) => EngineType::spec_parse(s@).is_none() && e == KvsError::WrongEngine,
            },
    {
        EngineType::parse(s)
    }
}

/// What opening a directory with the engine `wanted` does about the mark,
/// given the mark that the directory holds, if it holds one. `Ok(true)`: the
/// name of `wanted` is to be written as the mark. `Ok(false)`: the mark is
/// there and agrees.
pub open spec fn mark_check(mark: Option<Seq<char>>, wanted: EngineType) -> core::result::Result<
    bool,
    KvsError,
> {
    match mark {
        Some(text) => if EngineType::spec_parse(text) == Some(wanted) {
            Ok(false)
        } else {
            Err(KvsError::WrongEngine)
        },
        None => Ok(true),
    }
}

/// Checks the mark of a directory against the engine that opens it. A
/// directory without a mark gets the mark of that engine; one with the mark of
/// another engine, or with a mark that names no engine, is refused.
pub fn try_add_engine_type(mark: Option<&str>, engine_type: EngineType) -> (r: Result<bool>)
    ensures
        r == mark_check(
            match mark {
                Some(text) => Some(text@),
                None => None,
            },
            engine_type,
        ),
{
    match mark {
        Some(text) => {
            let actual = match EngineType::parse(text) {
                Ok(t) => t,
                Err(e) => { return Err(e); },
            };
            if actual == engine_type {
                Ok(false)
            } else {
                Err(KvsError::WrongEngine)
            }
        },
        None => Ok(true),
    }
}

/// An engine's name names that engine.
pub proof fn lemma_parse_name(t: EngineType)
    ensures
        EngineType::spec_parse(t.spec_name()) == Some(t),
{
    reveal_strlit("kvs");
    reveal_strlit("sled");
    assert("kvs"@.len() != "sled"@.len());
}

/// A directory that one engine has marked opens with that engine and with no
/// other: the other is refused with `WrongEngine`.
pub proof fn mark_fidelity(first: EngineType, second: EngineType)
    ensures
        mark_check(None, first) == Ok::<bool, KvsError>(true),
        first == second ==> mark_check(Some(first.spec_name()), second) == Ok::<bool, KvsError>(
            false,
        ),
        first != second ==> mark_check(Some(first.spec_name()), second) == Err::<bool, KvsError>(
            KvsError::WrongEngine,
        ),
{
    lemma_parse_name(first);
}

} // verus!
