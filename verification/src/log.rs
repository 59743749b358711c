//! Reading a log back: which key ends up at which place.
//!
//! A log is a sequence of records, one behind the other. Replaying it reads
//! record after record from the start and keeps, for each key, the place of
//! its latest record. A key whose latest record is a `Put` is live, and the
//! store holds it with the value of that record; a key whose latest record is
//! a `Remove` is not held, whether or not it was held before. Replay stops at
//! the first position at which no complete record starts.

use crate::command::{record_at, CommandView};
use crate::json::same_window;
use crate::tagged::{lemma_value_at_bounds, lemma_value_at_window, value_at};
use vstd::prelude::*;

verus! {

/// The index as a map: each key with the epoch, offset and length of its latest
/// record.
pub type IndexModel = Map<Seq<char>, (usize, u64, u64)>;

/// The index after the command that was read at `start` and ends at `end`.
pub open spec fn apply(
    m: IndexModel,
    c: CommandView,
    epoch: usize,
    start: int,
    end: int,
) -> IndexModel {
    m.insert(c.key(), (epoch, start as u64, (end - start) as u64))
}

/// Replays the records of `s` that end at or before `limit`, from `pos` on and
/// starting with the index `m`: the index, the position behind the last
/// record read, and the number of records read.
pub open spec fn replay_limited(s: Seq<u8>, epoch: usize, pos: int, m: IndexModel, limit: int) -> (
    IndexModel,
    int,
    nat,
)
    decreases s.len() - pos,
{
    match record_at(s, pos) {
        Some((c, e)) => if pos < e <= s.len() && e <= limit {
            let rest = replay_limited(s, epoch, e, apply(m, c, epoch, pos, e), limit);
            (rest.0, rest.1, rest.2 + 1)
        } else {
            (m, pos, 0)
        },
        None => (m, pos, 0),
    }
}

/// Replays all records of `s` from `pos` on.
pub open spec fn replay_from(s: Seq<u8>, epoch: usize, pos: int, m: IndexModel) -> (
    IndexModel,
    int,
    nat,
) {
    replay_limited(s, epoch, pos, m, s.len() as int)
}

/// Replays a log from its start.
pub open spec fn replay(s: Seq<u8>, epoch: usize) -> (IndexModel, int, nat) {
    replay_from(s, epoch, 0, Map::empty())
}

/// A record read in `s` is read, with the same result, in any sequence that
/// holds the bytes of the record at the same place.
pub proof fn lemma_record_at_window(s: Seq<u8>, p: int, t: Seq<u8>, q: int, n: int)
    requires
        same_window(s, p, t, q, n),
        record_at(s, p).is_some(),
        record_at(s, p).unwrap().1 <= p + n,
    ensures
        record_at(t, q).is_some(),
        record_at(t, q).unwrap().0 == record_at(s, p).unwrap().0,
        record_at(t, q).unwrap().1 - q == record_at(s, p).unwrap().1 - p,
{
    lemma_value_at_window(s, p, t, q, n, 0);
}

/// A record takes at least one byte and ends inside the sequence.
pub proof fn lemma_record_at_bounds(s: Seq<u8>, i: int)
    requires
        0 <= i <= s.len(),
        record_at(s, i).is_some(),
    ensures
        i < record_at(s, i).unwrap().1 <= s.len(),
{
    lemma_value_at_bounds(s, i);
}

/// Replay ends between the position at which it starts and the limit.
pub proof fn lemma_replay_bounds(s: Seq<u8>, epoch: usize, pos: int, m: IndexModel, limit: int)
    requires
        0 <= pos <= s.len(),
    ensures
        pos <= replay_limited(s, epoch, pos, m, limit).1 <= s.len(),
        replay_limited(s, epoch, pos, m, limit).2 > 0 ==> replay_limited(s, epoch, pos, m, limit).1
            <= limit,
    decreases s.len() - pos,
{
    match record_at(s, pos) {
        Some((c, e)) => {
            if pos < e <= s.len() && e <= limit {
                lemma_replay_bounds(s, epoch, e, apply(m, c, epoch, pos, e), limit);
            }
        },
        None => {},
    }
}

/// Appending one record to a log that replays to its end: the replay of the
/// longer log is that of the shorter one followed by the new record.
pub proof fn lemma_replay_append(
    s: Seq<u8>,
    r: Seq<u8>,
    epoch: usize,
    pos: int,
    m: IndexModel,
    c: CommandView,
)
    requires
        0 <= pos <= s.len(),
        replay_from(s, epoch, pos, m).1 == s.len(),
        record_at(r, 0) == Some((c, r.len() as int)),
    ensures
        replay_from(s + r, epoch, pos, m) == (
            apply(
                replay_from(s, epoch, pos, m).0,
                c,
                epoch,
                s.len() as int,
                (s.len() + r.len()) as int,
            ),
            (s.len() + r.len()) as int,
            replay_from(s, epoch, pos, m).2 + 1,
        ),
    decreases s.len() - pos,
{
    let t = s + r;
    if pos == s.len() {
        assert(record_at(s, pos).is_none()) by {
            if record_at(s, pos).is_some() {
                lemma_record_at_bounds(s, pos);
            }
        }
        assert(same_window(r, 0, t, pos, r.len() as int)) by {
            assert forall|j: int| 0 <= j < r.len() implies #[trigger] r[0 + j] == t[pos + j] by {}
        }
        lemma_record_at_bounds(r, 0);
        lemma_record_at_window(r, 0, t, pos, r.len() as int);
        let end: int = (s.len() + r.len()) as int;
        assert(record_at(t, pos) == Some((c, end)));
        assert(record_at(t, end).is_none()) by {
            if record_at(t, end).is_some() {
                lemma_record_at_bounds(t, end);
            }
        }
        let m2 = apply(m, c, epoch, pos, end);
        assert(replay_limited(t, epoch, end, m2, t.len() as int) == (m2, end, 0nat));
    } else {
        let first = record_at(s, pos);
        assert(first.is_some());
        let (c0, e) = first.unwrap();
        assert(pos < e <= s.len());
        assert(same_window(s, pos, t, pos, e - pos)) by {
            assert forall|j: int| 0 <= j < e - pos implies #[trigger] s[pos + j] == t[pos + j] by {}
        }
        lemma_record_at_window(s, pos, t, pos, e - pos);
        assert(record_at(t, pos) == Some((c0, e)));
        lemma_replay_append(s, r, epoch, e, apply(m, c0, epoch, pos, e), c);
    }
}

/// The place `loc` holds, inside `s`, a record for the key `k`.
pub open spec fn entry_ok(s: Seq<u8>, epoch: usize, k: Seq<char>, loc: (usize, u64, u64)) -> bool {
    &&& loc.0 == epoch
    &&& loc.1 + loc.2 <= s.len()
    &&& record_at(s, loc.1 as int).is_some()
    &&& record_at(s, loc.1 as int).unwrap().0.key() == k
    &&& record_at(s, loc.1 as int).unwrap().1 == loc.1 + loc.2
}

/// Every key of the index is at a place that holds a record for it.
pub open spec fn index_ok(m: IndexModel, s: Seq<u8>, epoch: usize) -> bool {
    forall|k: Seq<char>| #[trigger] m.contains_key(k) ==> entry_ok(s, epoch, k, m[k])
}

/// Whether the record at a place is a `Put`.
pub open spec fn is_live(s: Seq<u8>, loc: (usize, u64, u64)) -> bool {
    match record_at(s, loc.1 as int) {
        Some((CommandView::Put(_, _), _)) => true,
        _ => false,
    }
}

/// The value of the `Put` record at a place.
pub open spec fn value_of(s: Seq<u8>, loc: (usize, u64, u64)) -> Seq<char> {
    match record_at(s, loc.1 as int) {
        Some((CommandView::Put(_, v), _)) => v,
        _ => Seq::empty(),
    }
}

/// What a store holds: each live key of the index with the value of its
/// record.
pub open spec fn contents_of(m: IndexModel, s: Seq<u8>) -> Map<Seq<char>, Seq<char>> {
    Map::new(
        |k: Seq<char>| m.contains_key(k) && is_live(s, m[k]),
        |k: Seq<char>| value_of(s, m[k]),
    )
}

/// What a store holds after it was opened on the bytes `s` of a log.
pub open spec fn recovered(s: Seq<u8>, epoch: usize) -> Map<Seq<char>, Seq<char>> {
    contents_of(replay(s, epoch).0, s)
}

/// Replay keeps every key at a place that holds a record for it.
pub proof fn lemma_replay_index_ok(s: Seq<u8>, epoch: usize, pos: int, m: IndexModel, limit: int)
    requires
        0 <= pos <= s.len(),
        s.len() <= u64::MAX,
        index_ok(m, s, epoch),
    ensures
        index_ok(replay_limited(s, epoch, pos, m, limit).0, s, epoch),
    decreases s.len() - pos,
{
    match record_at(s, pos) {
        Some((c, e)) => {
            if pos < e <= s.len() && e <= limit {
                let m2 = apply(m, c, epoch, pos, e);
                assert(index_ok(m2, s, epoch)) by {
                    assert forall|k: Seq<char>| #[trigger] m2.contains_key(k) implies entry_ok(
                        s,
                        epoch,
                        k,
                        m2[k],
                    ) by {
                        if m.contains_key(k) {
                        }
                    }
                }
                lemma_replay_index_ok(s, epoch, e, m2, limit);
            }
        },
        None => {},
    }
}

/// A log cut at `cut` replays as the records of the whole log that end at or
/// before `cut`.
pub proof fn lemma_replay_cut(s: Seq<u8>, epoch: usize, pos: int, m: IndexModel, cut: int)
    requires
        0 <= pos <= cut <= s.len(),
    ensures
        replay_from(s.subrange(0, cut), epoch, pos, m) == replay_limited(s, epoch, pos, m, cut),
    decreases s.len() - pos,
{
    let t = s.subrange(0, cut);
    let whole = record_at(s, pos);
    if whole.is_some() && pos < whole.unwrap().1 <= s.len() && whole.unwrap().1 <= cut {
        let (c, e) = whole.unwrap();
        assert(same_window(s, pos, t, pos, e - pos)) by {
            assert forall|j: int| 0 <= j < e - pos implies #[trigger] s[pos + j] == t[pos + j] by {}
        }
        lemma_record_at_window(s, pos, t, pos, e - pos);
        assert(record_at(t, pos) == Some((c, e)));
        lemma_replay_cut(s, epoch, e, apply(m, c, epoch, pos, e), cut);
    } else {
        let part = record_at(t, pos);
        if part.is_some() {
            lemma_record_at_bounds(t, pos);
            let (c, e) = part.unwrap();
            assert(same_window(t, pos, s, pos, e - pos)) by {
                assert forall|j: int| 0 <= j < e - pos implies #[trigger] t[pos + j] == s[pos
                    + j] by {}
            }
            lemma_record_at_window(t, pos, s, pos, e - pos);
            assert(false);
        }
    }
}

/// A longer log holds the records of a shorter one at the same places.
pub proof fn lemma_index_ok_extend(m: IndexModel, s: Seq<u8>, t: Seq<u8>, epoch: usize)
    requires
        index_ok(m, s, epoch),
        s.len() <= t.len(),
        t.subrange(0, s.len() as int) == s,
    ensures
        index_ok(m, t, epoch),
        contents_of(m, t) == contents_of(m, s),
{
    assert forall|k: Seq<char>| #[trigger] m.contains_key(k) implies entry_ok(t, epoch, k, m[k])
        && value_of(t, m[k]) == value_of(s, m[k]) && is_live(t, m[k]) == is_live(s, m[k]) by {
        let loc = m[k];
        let p = loc.1 as int;
        let n = loc.2 as int;
        assert(entry_ok(s, epoch, k, loc));
        assert(same_window(s, p, t, p, n)) by {
            assert forall|j: int| 0 <= j < n implies #[trigger] s[p + j] == t[p + j] by {
                assert(t.subrange(0, s.len() as int)[p + j] == t[p + j]);
            }
        }
        lemma_record_at_window(s, p, t, p, n);
    }
    assert(contents_of(m, t) =~= contents_of(m, s));
}

/// Replay stops where no record starts.
pub proof fn lemma_replay_stop(s: Seq<u8>, epoch: usize, pos: int, m: IndexModel)
    requires
        record_at(s, pos).is_none(),
    ensures
        replay_from(s, epoch, pos, m) == (m, pos, 0nat),
{
}

/// One step of a replay: with the record that starts at `pos`, the replay of
/// the log up to the end of that record is that of the log up to `pos`
/// followed by the record, and the replay of the whole log goes on behind it.
pub proof fn lemma_replay_step(
    s: Seq<u8>,
    epoch: usize,
    pos: int,
    e: int,
    m: IndexModel,
    c: CommandView,
)
    requires
        0 <= pos,
        record_at(s, pos) == Some((c, e)),
        replay(s.subrange(0, pos), epoch).0 == m,
        replay(s.subrange(0, pos), epoch).1 == pos,
    ensures
        pos < e <= s.len(),
        replay(s.subrange(0, e), epoch).0 == apply(m, c, epoch, pos, e),
        replay(s.subrange(0, e), epoch).1 == e,
        replay_from(s, epoch, pos, m).0 == replay_from(s, epoch, e, apply(m, c, epoch, pos, e)).0,
        replay_from(s, epoch, pos, m).1 == replay_from(s, epoch, e, apply(m, c, epoch, pos, e)).1,
{
    lemma_replay_bounds(s.subrange(0, pos), epoch, 0, Map::empty(), pos);
    if pos > s.len() {
        assert(value_at(s, pos).is_none());
    }
    lemma_record_at_bounds(s, pos);
    let head = s.subrange(0, pos);
    let r = s.subrange(pos, e);
    assert(same_window(s, pos, r, 0, e - pos)) by {
        assert forall|j: int| 0 <= j < e - pos implies #[trigger] s[pos + j] == r[0 + j] by {}
    }
    lemma_record_at_window(s, pos, r, 0, e - pos);
    lemma_replay_append(head, r, epoch, 0, Map::empty(), c);
    assert(head + r =~= s.subrange(0, e));
}

/// No two keys have records that overlap, and every record ends at or before
/// `pos`.
pub open spec fn ranges_ok(m: IndexModel, pos: int) -> bool {
    &&& forall|k: Seq<char>| #[trigger] m.contains_key(k) ==> m[k].1 + m[k].2 <= pos
    &&& forall|a: Seq<char>, b: Seq<char>|
        #![trigger m.contains_key(a), m.contains_key(b)]
        m.contains_key(a) && m.contains_key(b) && a != b ==> m[a].1 + m[a].2 <= m[b].1 || m[b].1
            + m[b].2 <= m[a].1
}

/// Replay keeps the records of different keys apart.
pub proof fn lemma_replay_ranges(s: Seq<u8>, epoch: usize, pos: int, m: IndexModel, limit: int)
    requires
        0 <= pos <= s.len(),
        s.len() <= u64::MAX,
        ranges_ok(m, pos),
    ensures
        ranges_ok(
            replay_limited(s, epoch, pos, m, limit).0,
            replay_limited(s, epoch, pos, m, limit).1,
        ),
    decreases s.len() - pos,
{
    match record_at(s, pos) {
        Some((c, e)) => {
            if pos < e <= s.len() && e <= limit {
                let m2 = apply(m, c, epoch, pos, e);
                assert(ranges_ok(m2, e)) by {
                    assert forall|k: Seq<char>| #[trigger] m2.contains_key(k) implies m2[k].1
                        + m2[k].2 <= e by {
                        if m.contains_key(k) {
                        }
                    }
                    assert forall|a: Seq<char>, b: Seq<char>|
                        #![trigger m2.contains_key(a), m2.contains_key(b)]
                        m2.contains_key(a) && m2.contains_key(b) && a != b implies m2[a].1
                        + m2[a].2 <= m2[b].1 || m2[b].1 + m2[b].2 <= m2[a].1 by {
                        if m.contains_key(a) {
                        }
                        if m.contains_key(b) {
                        }
                    }
                }
                lemma_replay_ranges(s, epoch, e, m2, limit);
            }
        },
        None => {},
    }
}

/// Where a replay under a limit stops: before a record that ends behind the
/// limit, or where the replay without a limit stops too.
pub proof fn lemma_replay_limited_stop(
    s: Seq<u8>,
    epoch: usize,
    pos: int,
    m: IndexModel,
    limit: int,
)
    requires
        0 <= pos <= s.len(),
        pos <= limit,
    ensures
        pos <= replay_limited(s, epoch, pos, m, limit).1 <= limit,
        replay_from(s, epoch, pos, m).1 == replay_limited(s, epoch, pos, m, limit).1 || ({
            let q = replay_limited(s, epoch, pos, m, limit).1;
            &&& record_at(s, q).is_some()
            &&& limit < record_at(s, q).unwrap().1 <= s.len()
        }),
    decreases s.len() - pos,
{
    match record_at(s, pos) {
        Some((c, e)) => {
            if pos < e <= s.len() && e <= limit {
                lemma_replay_limited_stop(s, epoch, e, apply(m, c, epoch, pos, e), limit);
            }
        },
        None => {},
    }
}

} // verus!
