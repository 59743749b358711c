//! The in-memory index: a concurrent hash map from a key to the place of its
//! latest record in the log.
//!
//! Nothing is ever taken out of the map: a key that was removed stays in it,
//! at the place of its `Remove` record, until a compaction builds a new map.
//! A map that only grows always has a free bucket at which a search for an
//! absent key ends.
//!
//! The map's search adds a counter to the hash of the key and lets the sum
//! wrap. What is stated here of the map is stated of a build in which
//! arithmetic wraps, as it does where overflow checks are off.

use chashmap::CHashMap;
use vstd::prelude::*;

verus! {

/// The place of one record: the log file it is in, the byte offset at which it
/// starts and its length in bytes.
#[derive(Clone, Copy, Debug, PartialEq, Eq, Structural)]
pub struct LogIndex {
    pub epoch: usize,
    pub offset: u64,
    pub len: u64,
}

impl LogIndex {
    /// The place of the record of `len` bytes at `offset` in the log of `epoch`.
    pub fn new(epoch: usize, offset: u64, len: u64) -> (r: Self)
        ensures
            r.epoch == epoch,
            r.offset == offset,
            r.len == len,
    {
        Self { epoch, offset, len }
    }

    /// The place as a tuple of integers, the form in which the index holds it.
    pub open spec fn spec_triple(self) -> (usize, u64, u64) {
        (self.epoch, self.offset, self.len)
    }
}

/// `chashmap::CHashMap`, carried as it is: nothing of its inside is seen here.
#[verifier::external_type_specification]
#[verifier::external_body]
#[verifier::reject_recursive_types(K)]
#[verifier::reject_recursive_types(V)]
pub struct ExCHashMap<K, V>(CHashMap<K, V>);

/// What an index holds: each key with the place of its record.
pub uninterp spec fn index_entries(m: CHashMap<String, (usize, u64, u64)>) -> Map<
    Seq<char>,
    (usize, u64, u64),
>;

/// `CHashMap::new`: the new map holds nothing.
#[verifier::external_body]
pub(crate) fn index_new() -> (m: CHashMap<String, (usize, u64, u64)>)
    ensures
        index_entries(m) =~= Map::empty(),
{
    CHashMap::new()
}

/// `CHashMap::get`: the value stored under the key, copied out, if there is one.
#[verifier::external_body]
pub(crate) fn index_get(m: &CHashMap<String, (usize, u64, u64)>, key: &str) -> (r: Option<
    (usize, u64, u64),
>)
    ensures
        r == (if index_entries(*m).contains_key(key@) {
            Some(index_entries(*m)[key@])
        } else {
            None
        }),
{
    m.get(key).map(|guard| *guard)
}

/// `CHashMap::insert`: the key now maps to the value, the other keys are as
/// before, and the value that the key had is returned.
#[verifier::external_body]
pub(crate) fn index_insert(
    m: &mut CHashMap<String, (usize, u64, u64)>,
    key: String,
    value: (usize, u64, u64),
) -> (r: Option<(usize, u64, u64)>)
    ensures
        index_entries(*final(m)) == index_entries(*old(m)).insert(key@, value),
        r == (if index_entries(*old(m)).contains_key(key@) {
            Some(index_entries(*old(m))[key@])
        } else {
            None
        }),
{
    m.insert(key, value)
}

/// The key `k` is among the first `n` entries.
pub open spec fn key_among(
    entries: Seq<(String, (usize, u64, u64))>,
    n: int,
    k: Seq<char>,
) -> bool {
    exists|j: int| 0 <= j < n && (#[trigger] entries[j]).0@ == k
}

/// The entries are those of the map, each key once.
pub open spec fn snapshot_of(
    entries: Seq<(String, (usize, u64, u64))>,
    m: Map<Seq<char>, (usize, u64, u64)>,
) -> bool {
    &&& forall|i: int|
        0 <= i < entries.len() ==> m.contains_key((#[trigger] entries[i]).0@) && m[entries[i].0@]
            == entries[i].1
    &&& forall|i: int, j: int|
        0 <= i < j < entries.len() ==> (#[trigger] entries[i]).0@ != (#[trigger] entries[j]).0@
    &&& forall|k: Seq<char>| #[trigger]
        m.contains_key(k) ==> key_among(entries, entries.len() as int, k)
}

/// `CHashMap::clone` and `CHashMap::into_iter`: the entries of the map, each
/// key once, in an order that is not stated.
#[verifier::external_body]
pub(crate) fn index_snapshot(m: &CHashMap<String, (usize, u64, u64)>) -> (r: Vec<
    (String, (usize, u64, u64)),
>)
    ensures
        snapshot_of(r@, index_entries(*m)),
{
    m.clone().into_iter().collect()
}

} // verus!
