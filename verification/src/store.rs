//! The log-structured store: an append-only log of records with an index from
//! each live key to the place of its latest record.
//!
//! The store keeps the bytes of its active log. Who owns the store writes the
//! bytes that an operation appended to the file of the store's epoch, and after
//! a compaction writes the new log to the file of the new epoch.
//!
//! The index keeps the place of the latest record of every key, of a `Remove`
//! too: a key is held where its latest record is a `Put`. A compaction writes
//! the records of the keys that are held, and starts a new index with them.

use crate::command::{record_at, tagged_of, Command, CommandView};
use crate::error::{CodecError, KvsError, Result};
use crate::index::{
    index_entries, index_get, index_insert, index_new, index_snapshot, key_among, snapshot_of,
    LogIndex,
};
use crate::cut::{lemma_record_cut, record_cut, record_is_cut};
use crate::json::{same_window, skip_space};
use crate::log::{
    apply, contents_of, entry_ok, index_ok, is_live, lemma_index_ok_extend,
    lemma_record_at_bounds, lemma_record_at_window, lemma_replay_append, lemma_replay_cut,
    lemma_replay_index_ok, lemma_replay_limited_stop, lemma_replay_ranges, lemma_replay_step,
    lemma_replay_stop, ranges_ok, recovered, replay, replay_from, replay_limited, value_of,
    IndexModel,
};
use crate::tagged::{encodable, push_all, read_value, value_bytes};
use chashmap::CHashMap;
use vstd::prelude::*;
use vstd::set_lib::{lemma_int_range, lemma_len_subset, lemma_set_disjoint_lens, set_int_range};

verus! {

/// After this many overwritten records a write compacts the log, unless the
/// store was opened with another threshold.
pub const COMPACTION_THRESHOLD: u32 = 10_000;

/// A key-value store on an append-only log.
pub struct KvStore {
    epoch: usize,
    log: Vec<u8>,
    index: CHashMap<String, (usize, u64, u64)>,
    redundant: u32,
    threshold: u32,
}

impl View for KvStore {
    type V = Map<Seq<char>, Seq<char>>;

    /// What the store holds: each live key with the value of its record.
    open spec fn view(&self) -> Map<Seq<char>, Seq<char>> {
        contents_of(self.spec_index(), self.spec_log())
    }
}

impl KvStore {
    /// The number of the active log.
    pub closed spec fn spec_epoch(&self) -> usize {
        self.epoch
    }

    /// The bytes of the active log.
    pub closed spec fn spec_log(&self) -> Seq<u8> {
        self.log@
    }

    /// The index: each live key with the place of its record.
    pub closed spec fn spec_index(&self) -> IndexModel {
        index_entries(self.index)
    }

    /// How many records were overwritten since the log was last compacted.
    pub closed spec fn spec_redundant(&self) -> u32 {
        self.redundant
    }

    /// The number of overwritten records beyond which a write compacts.
    pub closed spec fn spec_threshold(&self) -> u32 {
        self.threshold
    }

    /// The number of records in the log.
    pub open spec fn spec_records(&self) -> nat {
        replay(self.spec_log(), self.spec_epoch()).2
    }

    /// The log is made of complete records only, and the index is what a
    /// replay of the log gives. Every store is so.
    #[verifier::type_invariant]
    pub open spec fn wf(&self) -> bool {
        &&& replay(self.spec_log(), self.spec_epoch()).0 == self.spec_index()
        &&& replay(self.spec_log(), self.spec_epoch()).1 == self.spec_log().len()
    }

    /// A store with an empty log.
    fn blank() -> (store: KvStore)
        ensures
            store.wf(),
    {
        let store = KvStore {
            epoch: 0,
            log: Vec::new(),
            index: index_new(),
            redundant: 0,
            threshold: 0,
        };
        proof {
            if record_at(store.log@, 0).is_some() {
                lemma_record_at_bounds(store.log@, 0);
            }
        }
        store
    }

    /// What opening a store on the bytes of a log gives. The records are
    /// replayed from the start. Where the bytes behind the last complete
    /// record are the beginning of a record, or nothing, they are dropped and
    /// the store holds what the replay gives; where they are no record at all,
    /// the log is refused as malformed.
    pub open spec fn opened(
        r: Result<KvStore>,
        epoch: usize,
        bytes: Seq<u8>,
        threshold: u32,
    ) -> bool {
        match r {
            Ok(store) => {
                &&& tail_ok(bytes, epoch)
                &&& store.wf()
                &&& store.spec_epoch() == epoch
                &&& store.spec_index() == replay(bytes, epoch).0
                &&& store.spec_log() == bytes.subrange(0, replay(bytes, epoch).1)
                &&& store@ == recovered(bytes, epoch)
                &&& store.spec_redundant() == 0
                &&& store.spec_threshold() == threshold
            },
            Err(e) => !tail_ok(bytes, epoch) && e == KvsError::Codec(CodecError::Malformed),
        }
    }

    /// Opens a store on the bytes of the log of the given epoch, with the
    /// default threshold.
    pub fn open(epoch: usize, bytes: Vec<u8>) -> (r: Result<KvStore>)
        ensures
            KvStore::opened(r, epoch, bytes@, COMPACTION_THRESHOLD),
    {
        KvStore::open_with_threshold(epoch, bytes, COMPACTION_THRESHOLD)
    }

    /// Opens a store on the bytes of the log of the given epoch.
    pub fn open_with_threshold(epoch: usize, bytes: Vec<u8>, threshold: u32) -> (r: Result<
        KvStore,
    >)
        ensures
            KvStore::opened(r, epoch, bytes@, threshold),
    {
        let mut log = bytes;
        let mut index = index_new();
        let mut pos: usize = 0;
        let mut done = false;
        let ghost whole = log@;
        assert(whole.subrange(0, 0) =~= Seq::<u8>::empty());
        while !done
            invariant
                log@ == whole,
                0 <= pos <= whole.len(),
                replay(whole.subrange(0, pos as int), epoch).0 == index_entries(index),
                replay(whole.subrange(0, pos as int), epoch).1 == pos,
                replay(whole, epoch).0 == replay_from(
                    whole,
                    epoch,
                    pos as int,
                    index_entries(index),
                ).0,
                replay(whole, epoch).1 == replay_from(
                    whole,
                    epoch,
                    pos as int,
                    index_entries(index),
                ).1,
                done ==> replay_from(whole, epoch, pos as int, index_entries(index)) == (
                    index_entries(index),
                    pos as int,
                    0nat,
                ),
            decreases whole.len() - pos + (if done { 0int } else { 1int }),
        {
            let next = match read_value(log.as_slice(), pos) {
                Some((t, e)) => match Command::from_tagged(t) {
                    Some(c) => Some((c, e)),
                    None => None,
                },
                None => None,
            };
            match next {
                Some((c, e)) => {
                    proof {
                        lemma_replay_step(
                            whole,
                            epoch,
                            pos as int,
                            e as int,
                            index_entries(index),
                            c@,
                        );
                    }
                    index_insert(&mut index, c.into_key(), (epoch, pos as u64, (e - pos) as u64));
                    pos = e;
                },
                None => {
                    proof {
                        lemma_replay_stop(whole, epoch, pos as int, index_entries(index));
                    }
                    done = true;
                },
            }
        }
        if !record_is_cut(log.as_slice(), pos) {
            return Err(KvsError::Codec(CodecError::Malformed));
        }
        log.truncate(pos);
        let store = KvStore { epoch, log, index, redundant: 0, threshold };
        proof {
            let kept = whole.subrange(0, pos as int);
            lemma_replay_index_ok(kept, epoch, 0, Map::empty(), kept.len() as int);
            lemma_index_ok_extend(store.spec_index(), kept, whole, epoch);
        }
        Ok(store)
    }

    /// The value of a key, or `None` where the store does not hold the key.
    pub fn get(&self, key: String) -> (r: Result<Option<String>>)
        ensures
            match r {
                Ok(Some(v)) => self.spec_get(key@) == Some(v@),
                Ok(None) => self.spec_get(key@).is_none(),
                Err(_) => false,
            },
    {
        let size = self.log.len();
        proof {
            use_type_invariant(self);
            lemma_replay_index_ok(self.log@, self.epoch, 0, Map::empty(), size as int);
        }
        match index_get(&self.index, key.as_str()) {
            Some((_, offset, _)) => {
                assert(entry_ok(self.log@, self.epoch, key@, index_entries(self.index)[key@]));
                match read_record(self.log.as_slice(), offset as usize) {
                    Some(Command::Put(_, v)) => Ok(Some(v)),
                    Some(Command::Remove(_)) => Ok(None),
                    None => Err(KvsError::Codec(CodecError::Malformed)),
                }
            },
            None => Ok(None),
        }
    }

    /// Whether the store holds the key.
    fn holds(&self, key: &str) -> (r: bool)
        ensures
            r == self@.contains_key(key@),
    {
        let size = self.log.len();
        proof {
            use_type_invariant(self);
            lemma_replay_index_ok(self.log@, self.epoch, 0, Map::empty(), size as int);
        }
        match index_get(&self.index, key) {
            Some((_, offset, _)) => {
                assert(entry_ok(self.log@, self.epoch, key@, index_entries(self.index)[key@]));
                match read_record(self.log.as_slice(), offset as usize) {
                    Some(Command::Put(_, _)) => true,
                    _ => false,
                }
            },
            None => false,
        }
    }

    /// What `get` finds for the key `k`.
    pub open spec fn spec_get(&self, k: Seq<char>) -> Option<Seq<char>> {
        if self@.contains_key(k) {
            Some(self@[k])
        } else {
            None
        }
    }

    /// The counter of overwritten records after a write to the key `k`: it
    /// grows by one where the index has a record of the key.
    pub open spec fn counted(&self, k: Seq<char>) -> u32 {
        if self.spec_index().contains_key(k) && self.spec_redundant() < u32::MAX {
            (self.spec_redundant() + 1) as u32
        } else {
            self.spec_redundant()
        }
    }

    /// Whether a write to the key `k` compacts the log: it overwrites a
    /// record, and the counter of overwritten records then exceeds the
    /// threshold. (At the last epoch that the machine can count, it does not.)
    pub open spec fn compacts_on(&self, k: Seq<char>) -> bool {
        &&& self.spec_index().contains_key(k)
        &&& self.counted(k) > self.spec_threshold()
        &&& self.spec_epoch() < usize::MAX
    }

    /// The state after a write of the command `c`, whose record is `bytes`.
    pub open spec fn written(&self, before: &KvStore, c: CommandView, bytes: Seq<u8>) -> bool {
        &&& self.wf()
        &&& self.spec_threshold() == before.spec_threshold()
        &&& self@ == step(before@, c)
        &&& if before.compacts_on(c.key()) {
            &&& self.spec_epoch() == before.spec_epoch() + 1
            &&& self.spec_redundant() == 0
            &&& self@.dom().finite()
            &&& self.spec_records() == self@.len()
            &&& self.spec_log().len() <= before.spec_log().len() + bytes.len()
        } else {
            &&& self.spec_epoch() == before.spec_epoch()
            &&& self.spec_redundant() == before.counted(c.key())
            &&& self.spec_log() == before.spec_log() + bytes
        }
    }

    /// Nothing of the state has changed.
    pub open spec fn unchanged(&self, before: &KvStore) -> bool {
        &&& self@ == before@
        &&& self.spec_epoch() == before.spec_epoch()
        &&& self.spec_log() == before.spec_log()
        &&& self.spec_index() == before.spec_index()
        &&& self.spec_redundant() == before.spec_redundant()
        &&& self.spec_threshold() == before.spec_threshold()
    }

    /// The state after `set(k, v)` on the state `before`, and the result `r`.
    /// The call succeeds where the record can be written so that it reads
    /// back; else nothing changes.
    pub open spec fn after_set(
        &self,
        before: &KvStore,
        k: Seq<char>,
        v: Seq<char>,
        r: Result<()>,
    ) -> bool {
        let c = CommandView::Put(k, v);
        &&& self.wf()
        &&& match r {
            Ok(_) => {
                &&& encodable(tagged_of(c))
                &&& self.written(before, c, value_bytes(tagged_of(c)).unwrap())
            },
            Err(e) => {
                &&& !encodable(tagged_of(c))
                &&& e == KvsError::Codec(CodecError::Unwritable)
                &&& self.unchanged(before)
            },
        }
    }

    /// The state after `remove(k)` on the state `before`, and the result `r`.
    /// A key that the store does not hold is refused with `KeyNotFound`. Else
    /// the call succeeds where the record can be written so that it reads
    /// back. Where it fails nothing changes.
    pub open spec fn after_remove(&self, before: &KvStore, k: Seq<char>, r: Result<()>) -> bool {
        let c = CommandView::Remove(k);
        &&& self.wf()
        &&& match r {
            Ok(_) => {
                &&& before@.contains_key(k)
                &&& encodable(tagged_of(c))
                &&& self.written(before, c, value_bytes(tagged_of(c)).unwrap())
            },
            Err(e) => {
                &&& self.unchanged(before)
                &&& if before@.contains_key(k) {
                    !encodable(tagged_of(c)) && e == KvsError::Codec(CodecError::Unwritable)
                } else {
                    e == KvsError::KeyNotFound
                }
            },
        }
    }

    /// Writes the record `bytes` of the command `c`, and compacts the log
    /// where the write calls for it.
    fn write(&mut self, c: Command, bytes: Vec<u8>)
        requires
            record_at(bytes@, 0) == Some((c@, bytes@.len() as int)),
        ensures
            final(self).written(old(self), c@, bytes@),
    {
        proof {
            use_type_invariant(&*self);
        }
        // The log and the index change together: the store is taken apart
        // and put together again, so that it is well-formed at every step.
        let mut taken = KvStore::blank();
        core::mem::swap(self, &mut taken);
        let KvStore { epoch, log, index, redundant, threshold } = taken;
        let mut log = log;
        let mut index = index;
        let existed = append_record(&mut log, &mut index, epoch, c, bytes);
        let redundant = if existed && redundant < u32::MAX {
            redundant + 1
        } else {
            redundant
        };
        *self = KvStore { epoch, log, index, redundant, threshold };
        if existed && self.redundant > self.threshold && self.epoch < usize::MAX {
            self.compact();
        }
    }

    /// Binds the key to the value. The record is appended to the log before
    /// the index learns of it.
    pub fn set(&mut self, key: String, value: String) -> (r: Result<()>)
        ensures
            final(self).after_set(old(self), key@, value@, r),
    {
        proof {
            use_type_invariant(&*self);
        }
        let c = Command::Put(key, value);
        match c.encode() {
            Ok(bytes) => {
                self.write(c, bytes);
                Ok(())
            },
            Err(e) => Err(e),
        }
    }

    /// Takes the key out of the store. A key that the store does not hold is
    /// an error, and nothing is written for it.
    pub fn remove(&mut self, key: String) -> (r: Result<()>)
        ensures
            final(self).after_remove(old(self), key@, r),
    {
        proof {
            use_type_invariant(&*self);
        }
        if !self.holds(key.as_str()) {
            return Err(KvsError::KeyNotFound);
        }
        let c = Command::Remove(key);
        match c.encode() {
            Ok(bytes) => {
                self.write(c, bytes);
                Ok(())
            },
            Err(e) => Err(e),
        }
    }

    /// Rewrites the log: the new log, of the next epoch, holds one record for
    /// each live key and nothing else. What the store holds stays as it is.
    pub fn compact(&mut self)
        requires
            old(self).spec_epoch() < usize::MAX,
        ensures
            final(self).wf(),
            final(self)@ == old(self)@,
            final(self).spec_epoch() == old(self).spec_epoch() + 1,
            final(self).spec_threshold() == old(self).spec_threshold(),
            final(self).spec_redundant() == 0,
            final(self)@.dom().finite(),
            final(self).spec_records() == final(self)@.len(),
            final(self).spec_log().len() <= old(self).spec_log().len(),
    {
        let entries = index_snapshot(&self.index);
        let new_epoch = self.epoch + 1;
        let mut new_log: Vec<u8> = Vec::new();
        let mut new_index = index_new();
        let mut i: usize = 0;
        let ghost m = index_entries(self.index);
        let ghost old_log = self.log@;
        let size = self.log.len();
        proof {
            use_type_invariant(&*self);
            lemma_replay_index_ok(old_log, self.epoch, 0, Map::empty(), size as int);
            lemma_replay_ranges(old_log, self.epoch, 0, Map::empty(), size as int);
            assert(replay(new_log@, new_epoch) == (index_entries(new_index), 0int, 0nat)) by {
                if record_at(new_log@, 0).is_some() {
                    lemma_record_at_bounds(new_log@, 0);
                }
            }
            assert(index_entries(new_index).dom() =~= Set::<Seq<char>>::empty());
        }
        while i < entries.len()
            invariant
                i <= entries@.len(),
                self.log@ == old_log,
                old_log.len() == size,
                index_entries(self.index) == m,
                self.epoch == old(self).epoch,
                new_epoch == self.epoch + 1,
                self.threshold == old(self).threshold,
                snapshot_of(entries@, m),
                index_ok(m, old_log, self.epoch),
                ranges_ok(m, size as int),
                replay(new_log@, new_epoch).0 == index_entries(new_index),
                replay(new_log@, new_epoch).1 == new_log@.len(),
                replay(new_log@, new_epoch).2 == index_entries(new_index).dom().len(),
                forall|k: Seq<char>| #[trigger]
                    index_entries(new_index).contains_key(k) <==> live_among(
                        entries@,
                        i as int,
                        k,
                        old_log,
                    ),
                forall|k: Seq<char>| #[trigger]
                    index_entries(new_index).contains_key(k) ==> m.contains_key(k) && is_live(
                        new_log@,
                        index_entries(new_index)[k],
                    ) && value_of(new_log@, index_entries(new_index)[k]) == value_of(old_log, m[k]),
                index_entries(new_index).dom().finite(),
                covered(entries@, i as int).finite(),
                new_log@.len() <= covered(entries@, i as int).len(),
                covered(entries@, i as int).subset_of(set_int_range(0, size as int)),
            decreases entries@.len() - i,
        {
            let (_, offset, len) = entries[i].1;
            let ghost k = entries@[i as int].0@;
            let ghost loc = entries@[i as int].1;
            let ghost new_m = index_entries(new_index);
            let ghost before = new_log@;
            assert(m.contains_key(k) && m[k] == loc);
            assert(entry_ok(old_log, self.epoch, k, loc));
            proof {
                lemma_covered_step(entries@, i as int, m, size as int);
            }
            let live = match read_record(self.log.as_slice(), offset as usize) {
                Some(Command::Put(_, _)) => true,
                _ => false,
            };
            if live {
                let key = entries[i].0.clone();
                let chunk = vstd::slice::slice_subrange(
                    self.log.as_slice(),
                    offset as usize,
                    (offset + len) as usize,
                );
                let start = new_log.len();
                push_all(&mut new_log, chunk);
                let end = new_log.len();
                let ghost c = record_at(old_log, offset as int).unwrap().0;
                proof {
                    assert(same_window(old_log, offset as int, chunk@, 0, len as int)) by {
                        assert forall|j: int| 0 <= j < len implies #[trigger] old_log[offset + j]
                            == chunk@[0 + j] by {}
                    }
                    lemma_record_at_window(old_log, offset as int, chunk@, 0, len as int);
                    assert(record_at(chunk@, 0) == Some((c, chunk@.len() as int)));
                    lemma_replay_append(before, chunk@, new_epoch, 0, Map::empty(), c);
                    lemma_replay_index_ok(before, new_epoch, 0, Map::empty(), before.len() as int);
                    assert(new_log@.subrange(0, before.len() as int) =~= before);
                    lemma_index_ok_extend(new_m, before, new_log@, new_epoch);
                    assert(same_window(chunk@, 0, new_log@, start as int, len as int)) by {
                        assert forall|j: int| 0 <= j < len implies #[trigger] chunk@[0 + j]
                            == new_log@[start + j] by {}
                    }
                    lemma_record_at_window(chunk@, 0, new_log@, start as int, len as int);
                    assert(!new_m.contains_key(k)) by {
                        if new_m.contains_key(k) {
                            assert(live_among(entries@, i as int, k, old_log));
                        }
                    }
                }
                index_insert(&mut new_index, key, (new_epoch, start as u64, len));
                proof {
                    let m2 = index_entries(new_index);
                    assert(m2 == apply(new_m, c, new_epoch, start as int, end as int));
                    assert(m2.dom() =~= new_m.dom().insert(k));
                    assert forall|k2: Seq<char>| #[trigger]
                        m2.contains_key(k2) <==> live_among(entries@, i + 1, k2, old_log) by {
                        if m2.contains_key(k2) {
                            if k2 == k {
                                assert(entries@[i as int].0@ == k2 && is_live(
                                    old_log,
                                    entries@[i as int].1,
                                ));
                            } else {
                                assert(new_m.contains_key(k2));
                                assert(live_among(entries@, i as int, k2, old_log));
                            }
                        }
                        if live_among(entries@, i + 1, k2, old_log) {
                            let j = choose|j: int|
                                0 <= j < i + 1 && (#[trigger] entries@[j]).0@ == k2 && is_live(
                                    old_log,
                                    entries@[j].1,
                                );
                            if j < i {
                                assert(live_among(entries@, i as int, k2, old_log));
                            }
                        }
                    }
                    assert forall|k2: Seq<char>| #[trigger]
                        m2.contains_key(k2) implies m.contains_key(k2) && is_live(
                        new_log@,
                        m2[k2],
                    ) && value_of(new_log@, m2[k2]) == value_of(old_log, m[k2]) by {
                        if k2 != k {
                            assert(new_m.contains_key(k2));
                            assert(contents_of(new_m, new_log@).contains_key(k2)
                                == contents_of(new_m, before).contains_key(k2));
                            assert(contents_of(new_m, new_log@)[k2] == contents_of(
                                new_m,
                                before,
                            )[k2]);
                        }
                    }
                }
            } else {
                proof {
                    assert forall|k2: Seq<char>| #[trigger]
                        new_m.contains_key(k2) <==> live_among(entries@, i + 1, k2, old_log) by {
                        if new_m.contains_key(k2) {
                            assert(live_among(entries@, i as int, k2, old_log));
                            let j = choose|j: int|
                                0 <= j < i && (#[trigger] entries@[j]).0@ == k2 && is_live(
                                    old_log,
                                    entries@[j].1,
                                );
                            assert(0 <= j < i + 1);
                        }
                        if live_among(entries@, i + 1, k2, old_log) {
                            let j = choose|j: int|
                                0 <= j < i + 1 && (#[trigger] entries@[j]).0@ == k2 && is_live(
                                    old_log,
                                    entries@[j].1,
                                );
                            assert(j < i);
                            assert(live_among(entries@, i as int, k2, old_log));
                        }
                    }
                }
            }
            i = i + 1;
        }
        proof {
            let m2 = index_entries(new_index);
            assert forall|k: Seq<char>| m2.contains_key(k) <==> (m.contains_key(k) && is_live(
                old_log,
                m[k],
            )) by {
                if m2.contains_key(k) {
                    assert(live_among(entries@, i as int, k, old_log));
                    let j = choose|j: int|
                        0 <= j < i && (#[trigger] entries@[j]).0@ == k && is_live(
                            old_log,
                            entries@[j].1,
                        );
                    assert(m.contains_key(entries@[j].0@) && m[entries@[j].0@] == entries@[j].1);
                }
                if m.contains_key(k) && is_live(old_log, m[k]) {
                    assert(key_among(entries@, entries@.len() as int, k));
                    let j = choose|j: int|
                        0 <= j < entries@.len() && (#[trigger] entries@[j]).0@ == k;
                    assert(m.contains_key(entries@[j].0@) && m[entries@[j].0@] == entries@[j].1);
                    assert(live_among(entries@, i as int, k, old_log));
                }
            }
            assert(contents_of(m2, new_log@) =~= contents_of(m, old_log));
            assert(contents_of(m2, new_log@).dom() =~= m2.dom());
            lemma_int_range(0, size as int);
            lemma_len_subset(covered(entries@, i as int), set_int_range(0, size as int));
        }
        *self = KvStore {
            epoch: new_epoch,
            log: new_log,
            index: new_index,
            redundant: 0,
            threshold: self.threshold,
        };
    }

    /// A store that is opened again on its own log, under its own epoch, holds
    /// what it held, and nothing of the log is dropped: every write that
    /// returned is there after a restart.
    pub proof fn restart_keeps_contents(&self)
        requires
            self.wf(),
        ensures
            tail_ok(self.spec_log(), self.spec_epoch()),
            recovered(self.spec_log(), self.spec_epoch()) == self@,
            replay(self.spec_log(), self.spec_epoch()).0 == self.spec_index(),
            self.spec_log().subrange(0, replay(self.spec_log(), self.spec_epoch()).1)
                == self.spec_log(),
    {
        assert(self.spec_log().subrange(0, self.spec_log().len() as int) =~= self.spec_log());
    }

    /// After `set(k, v)` has returned `Ok`, `get(k)` finds `v`, and the other
    /// keys are as they were.
    pub proof fn set_then_get(&self, before: &KvStore, k: Seq<char>, v: Seq<char>, bytes: Seq<u8>)
        requires
            self.written(before, CommandView::Put(k, v), bytes),
        ensures
            self.spec_get(k) == Some(v),
            forall|other: Seq<char>| other != k ==> self.spec_get(other) == before.spec_get(other),
    {
    }

    /// Setting a key to the same value twice leaves the store holding what it
    /// held after the first time.
    pub proof fn set_twice(
        &self,
        first: &KvStore,
        before: &KvStore,
        k: Seq<char>,
        v: Seq<char>,
        bytes: Seq<u8>,
    )
        requires
            first.written(before, CommandView::Put(k, v), bytes),
            self.written(first, CommandView::Put(k, v), bytes),
        ensures
            self.spec_get(k) == Some(v),
            self@ == first@,
    {
        assert(self@ =~= first@);
    }

    /// After `remove(k)` has returned `Ok`, `get(k)` finds nothing and a
    /// second `remove(k)` is refused with `KeyNotFound`; the other keys are as
    /// they were.
    pub proof fn removed_key_is_absent(&self, before: &KvStore, k: Seq<char>, bytes: Seq<u8>)
        requires
            self.written(before, CommandView::Remove(k), bytes),
        ensures
            self.spec_get(k).is_none(),
            !self@.contains_key(k),
            forall|other: Seq<char>| other != k ==> self.spec_get(other) == before.spec_get(other),
    {
    }

    /// After `set(k, v)` and then `remove(k)`, `get(k)` finds nothing.
    pub proof fn set_then_remove(
        &self,
        middle: &KvStore,
        before: &KvStore,
        k: Seq<char>,
        v: Seq<char>,
        put: Seq<u8>,
        rm: Seq<u8>,
    )
        requires
            middle.written(before, CommandView::Put(k, v), put),
            self.written(middle, CommandView::Remove(k), rm),
        ensures
            middle.spec_get(k) == Some(v),
            self.spec_get(k).is_none(),
    {
    }

    /// Where the record of a key is, or `None` where the store does not hold
    /// the key.
    pub fn locate(&self, key: &str) -> (r: Option<LogIndex>)
        ensures
            match r {
                Some(place) => {
                    &&& self@.contains_key(key@)
                    &&& self.spec_index().contains_key(key@)
                    &&& self.spec_index()[key@] == place.spec_triple()
                    &&& place.epoch == self.spec_epoch()
                    &&& place.offset + place.len <= self.spec_log().len()
                    &&& entry_ok(self.spec_log(), self.spec_epoch(), key@, place.spec_triple())
                    &&& is_live(self.spec_log(), place.spec_triple())
                },
                None => !self@.contains_key(key@),
            },
    {
        let size = self.log.len();
        proof {
            use_type_invariant(self);
            lemma_replay_index_ok(self.log@, self.epoch, 0, Map::empty(), size as int);
        }
        match index_get(&self.index, key) {
            Some((epoch, offset, len)) => {
                assert(entry_ok(self.log@, self.epoch, key@, index_entries(self.index)[key@]));
                match read_record(self.log.as_slice(), offset as usize) {
                    Some(Command::Put(_, _)) => Some(LogIndex::new(epoch, offset, len)),
                    _ => None,
                }
            },
            None => None,
        }
    }

    /// What the store has appended to its log since the log was `len` bytes
    /// long, in the epoch `epoch`: the bytes to append to a file that holds the
    /// log as it then was. `None` where the store has since gone on to another
    /// log, which is then to be written as a whole.
    pub fn appended_since(&self, epoch: usize, len: usize) -> (r: Option<&[u8]>)
        ensures
            match r {
                Some(tail) => {
                    &&& self.spec_epoch() == epoch
                    &&& len <= self.spec_log().len()
                    &&& tail@ == self.spec_log().subrange(len as int, self.spec_log().len() as int)
                },
                None => self.spec_epoch() != epoch || len > self.spec_log().len(),
            },
    {
        if self.epoch == epoch && len <= self.log.len() {
            Some(vstd::slice::slice_subrange(self.log.as_slice(), len, self.log.len()))
        } else {
            None
        }
    }

    /// The number of the active log.
    pub fn epoch(&self) -> (e: usize)
        ensures
            e == self.spec_epoch(),
    {
        self.epoch
    }

    /// The bytes of the active log.
    pub fn log(&self) -> (bytes: &[u8])
        ensures
            bytes@ == self.spec_log(),
    {
        self.log.as_slice()
    }

    /// How many records were overwritten since the log was last compacted.
    pub fn redundant(&self) -> (n: u32)
        ensures
            n == self.spec_redundant(),
    {
        self.redundant
    }
}

/// Reads the record that starts at an offset of a log.
fn read_record(log: &[u8], offset: usize) -> (r: Option<Command>)
    requires
        offset <= log@.len(),
    ensures
        match r {
            Some(c) => record_at(log@, offset as int).is_some() && record_at(
                log@,
                offset as int,
            ).unwrap().0 == c@,
            None => record_at(log@, offset as int).is_none(),
        },
{
    match read_value(log, offset) {
        Some((t, _)) => Command::from_tagged(t),
        None => None,
    }
}

/// Appends the record `bytes` of the command `c` to a log and brings the index
/// of the log up to date. Returns whether the index held the key.
fn append_record(
    log: &mut Vec<u8>,
    index: &mut CHashMap<String, (usize, u64, u64)>,
    epoch: usize,
    c: Command,
    bytes: Vec<u8>,
) -> (existed: bool)
    requires
        replay(old(log)@, epoch).0 == index_entries(*old(index)),
        replay(old(log)@, epoch).1 == old(log)@.len(),
        record_at(bytes@, 0) == Some((c@, bytes@.len() as int)),
    ensures
        replay(final(log)@, epoch).0 == index_entries(*final(index)),
        replay(final(log)@, epoch).1 == final(log)@.len(),
        final(log)@ == old(log)@ + bytes@,
        index_entries(*final(index)) == apply(
            index_entries(*old(index)),
            c@,
            epoch,
            old(log)@.len() as int,
            (old(log)@.len() + bytes@.len()) as int,
        ),
        contents_of(index_entries(*final(index)), final(log)@) == step(
            contents_of(index_entries(*old(index)), old(log)@),
            c@,
        ),
        existed == index_entries(*old(index)).contains_key(c@.key()),
{
    let ghost before = log@;
    let ghost m = index_entries(*index);
    let start = log.len();
    push_all(log, bytes.as_slice());
    let end = log.len();
    proof {
        lemma_replay_append(before, bytes@, epoch, 0, Map::empty(), c@);
        lemma_replay_index_ok(before, epoch, 0, Map::empty(), before.len() as int);
        assert(log@.subrange(0, before.len() as int) =~= before);
        lemma_index_ok_extend(m, before, log@, epoch);
        assert(same_window(bytes@, 0, log@, start as int, bytes@.len() as int)) by {
            assert forall|j: int| 0 <= j < bytes@.len() implies #[trigger] bytes@[0 + j] == log@[start
                + j] by {}
        }
        lemma_record_at_bounds(bytes@, 0);
        lemma_record_at_window(bytes@, 0, log@, start as int, bytes@.len() as int);
    }
    let ghost command = c@;
    let existed = index_insert(
        index,
        c.into_key(),
        (epoch, start as u64, (end - start) as u64),
    ).is_some();
    proof {
        let m2 = index_entries(*index);
        match command {
            CommandView::Put(k, v) => {
                assert(value_of(log@, m2[k]) == v);
                assert(contents_of(m2, log@) =~= contents_of(m, before).insert(k, v));
            },
            CommandView::Remove(k) => {
                assert(contents_of(m2, log@) =~= contents_of(m, before).remove(k));
            },
        }
    }
    existed
}

/// The key `k` is among the first `n` entries, at a place that holds a `Put`.
pub open spec fn live_among(
    entries: Seq<(String, (usize, u64, u64))>,
    n: int,
    k: Seq<char>,
    log: Seq<u8>,
) -> bool {
    exists|j: int| 0 <= j < n && (#[trigger] entries[j]).0@ == k && is_live(log, entries[j].1)
}

/// The positions of a log that the records of the first `n` entries take.
pub open spec fn covered(entries: Seq<(String, (usize, u64, u64))>, n: int) -> Set<int>
    decreases n,
{
    if n <= 0 {
        Set::empty()
    } else {
        covered(entries, n - 1) + set_int_range(
            entries[n - 1].1.1 as int,
            entries[n - 1].1.1 + entries[n - 1].1.2,
        )
    }
}

/// A position that the first `n` entries take is taken by one of them.
proof fn lemma_covered_by(entries: Seq<(String, (usize, u64, u64))>, n: int, p: int)
    requires
        0 <= n <= entries.len(),
        covered(entries, n).contains(p),
    ensures
        exists|j: int|
            0 <= j < n && (#[trigger] entries[j]).1.1 <= p < entries[j].1.1 + entries[j].1.2,
    decreases n,
{
    if n > 0 {
        if covered(entries, n - 1).contains(p) {
            lemma_covered_by(entries, n - 1, p);
        } else {
            assert(entries[n - 1].1.1 <= p < entries[n - 1].1.1 + entries[n - 1].1.2);
        }
    }
}

/// The records of different keys do not overlap, so one more entry takes as
/// many more positions as its record is long.
proof fn lemma_covered_step(
    entries: Seq<(String, (usize, u64, u64))>,
    i: int,
    m: IndexModel,
    size: int,
)
    requires
        0 <= i < entries.len(),
        snapshot_of(entries, m),
        ranges_ok(m, size),
        covered(entries, i).finite(),
        covered(entries, i).subset_of(set_int_range(0, size)),
    ensures
        covered(entries, i + 1).finite(),
        covered(entries, i + 1).len() == covered(entries, i).len() + entries[i].1.2,
        covered(entries, i + 1).subset_of(set_int_range(0, size)),
{
    let lo = entries[i].1.1 as int;
    let hi = entries[i].1.1 + entries[i].1.2;
    let range = set_int_range(lo, hi);
    let before = covered(entries, i);
    lemma_int_range(lo, hi);
    assert(m.contains_key(entries[i].0@) && m[entries[i].0@] == entries[i].1);
    assert(before.disjoint(range)) by {
        assert forall|p: int| before.contains(p) implies !range.contains(p) by {
            lemma_covered_by(entries, i, p);
            let j = choose|j: int|
                0 <= j < i && (#[trigger] entries[j]).1.1 <= p < entries[j].1.1 + entries[j].1.2;
            assert(entries[j].0@ != entries[i].0@);
            assert(m.contains_key(entries[j].0@) && m[entries[j].0@] == entries[j].1);
        }
    }
    lemma_set_disjoint_lens(before, range);
    assert(covered(entries, i + 1) == before + range);
    assert((before + range).finite());
}

/// What a store that held `m` holds after the command `c`.
pub open spec fn step(m: Map<Seq<char>, Seq<char>>, c: CommandView) -> Map<Seq<char>, Seq<char>> {
    match c {
        CommandView::Put(k, v) => m.insert(k, v),
        CommandView::Remove(k) => m.remove(k),
    }
}

/// What a store that held `m` holds after the commands `ops`, one after the
/// other.
pub open spec fn after_all(m: Map<Seq<char>, Seq<char>>, ops: Seq<CommandView>) -> Map<
    Seq<char>,
    Seq<char>,
>
    decreases ops.len(),
{
    if ops.len() == 0 {
        m
    } else {
        step(after_all(m, ops.drop_last()), ops.last())
    }
}

/// The last command about a key decides what the store holds for it,
/// whatever commands about other keys come before, between or after: writers
/// of different keys do not disturb each other, in whatever order their
/// writes are taken.
pub proof fn last_write_wins(m: Map<Seq<char>, Seq<char>>, ops: Seq<CommandView>, i: int)
    requires
        0 <= i < ops.len(),
        forall|j: int| i < j < ops.len() ==> (#[trigger] ops[j]).key() != ops[i].key(),
    ensures
        match ops[i] {
            CommandView::Put(k, v) => after_all(m, ops).contains_key(k) && after_all(m, ops)[k]
                == v,
            CommandView::Remove(k) => !after_all(m, ops).contains_key(k),
        },
    decreases ops.len(),
{
    if i < ops.len() - 1 {
        let head = ops.drop_last();
        assert(head[i] == ops[i]);
        assert forall|j: int| i < j < head.len() implies (#[trigger] head[j]).key()
            != head[i].key() by {
            assert(head[j] == ops[j]);
        }
        last_write_wins(m, head, i);
        assert(ops.last() == ops[ops.len() - 1]);
    }
}

/// What follows the last complete record of the bytes is the beginning of a
/// record, or nothing.
pub open spec fn tail_ok(bytes: Seq<u8>, epoch: usize) -> bool {
    record_cut(bytes, replay(bytes, epoch).1)
}

/// A log that is cut at any byte inside its records still opens, and what it
/// then holds is what the records give that end at or before the cut: the
/// keys of those records are recovered, the later ones are not. The log of a
/// store is made of records only, so it opens wherever it is cut.
pub proof fn cut_log_replays_prefix(bytes: Seq<u8>, epoch: usize, cut: int)
    requires
        0 <= cut <= bytes.len() <= u64::MAX,
    ensures
        cut <= replay(bytes, epoch).1 ==> tail_ok(bytes.subrange(0, cut), epoch),
        replay(bytes.subrange(0, cut), epoch) == replay_limited(bytes, epoch, 0, Map::empty(), cut),
        recovered(bytes.subrange(0, cut), epoch) == contents_of(
            replay_limited(bytes, epoch, 0, Map::empty(), cut).0,
            bytes,
        ),
{
    let part = bytes.subrange(0, cut);
    lemma_replay_cut(bytes, epoch, 0, Map::empty(), cut);
    lemma_replay_limited_stop(bytes, epoch, 0, Map::empty(), cut);
    if cut <= replay(bytes, epoch).1 {
        let q = replay(part, epoch).1;
        if replay(bytes, epoch).1 == q {
            assert(skip_space(part, q) == q);
        } else {
            lemma_record_cut(bytes, q, cut);
        }
    }
    lemma_replay_index_ok(part, epoch, 0, Map::empty(), part.len() as int);
    assert(bytes.subrange(0, part.len() as int) =~= part);
    lemma_index_ok_extend(replay(part, epoch).0, part, bytes, epoch);
}

} // verus!
