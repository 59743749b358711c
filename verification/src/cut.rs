//! Telling a record that is cut off from one that is malformed.
//!
//! Where no record starts at a position of a log, the bytes from there on are
//! either the beginning of a record, which ends before the record is complete,
//! or they are no record at all. The first is what a crash in the middle of a
//! write leaves; it is dropped when the log is opened. The second is damage,
//! and is reported.

use crate::command::{command_of, record_at, CommandView};
use crate::json::{
    byte_token, ends_in_space, lemma_byte_token_bounds, lemma_byte_token_cut,
    lemma_byte_token_window, lemma_cut_window, lemma_skip_space_bounds, lemma_skip_space_cut,
    lemma_skip_space_window, lemma_string_token_bounds, lemma_string_token_cut,
    lemma_string_token_window, only_space, read_byte, read_string, skip_space, skip_spaces,
    string_cut, string_is_cut, string_token,
};
use crate::tagged::{
    lemma_payload_at_bounds, lemma_payload_at_window, payload_at, read_payload, Payload,
    PayloadView, TaggedView,
};
use vstd::prelude::*;

verus! {

/// From `i` on, after white space, the bytes end before the payload of a
/// record is complete: the two strings of a `Set` where `pair` holds, else the
/// one string of an `Rm`.
pub open spec fn payload_cut(s: Seq<u8>, i: int, pair: bool) -> bool {
    let j = skip_space(s, i);
    if j >= s.len() {
        true
    } else if pair {
        s[j] == 0x5b && match string_token(s, j + 1) {
            None => string_cut(s, j + 1),
            Some((_, f1)) => match byte_token(s, f1, 0x2c) {
                None => ends_in_space(s, f1),
                Some(f2) => match string_token(s, f2) {
                    None => string_cut(s, f2),
                    Some((_, f3)) => byte_token(s, f3, 0x5d).is_none() && ends_in_space(s, f3),
                },
            },
        }
    } else {
        string_token(s, j).is_none() && string_cut(s, j)
    }
}

/// From `i` on, the bytes are the beginning of a record and end before the
/// record is complete. Bytes that are only white space, or none, count as
/// such a beginning.
pub open spec fn record_cut(s: Seq<u8>, i: int) -> bool {
    let j = skip_space(s, i);
    if j >= s.len() {
        true
    } else if s[j] != 0x7b {
        false
    } else {
        match string_token(s, j + 1) {
            None => string_cut(s, j + 1),
            Some((tag, e1)) => (tag == "Set"@ || tag == "Rm"@) && match byte_token(s, e1, 0x3a) {
                None => ends_in_space(s, e1),
                Some(e2) => match payload_at(s, e2) {
                    None => payload_cut(s, e2, tag == "Set"@),
                    Some((payload, e3)) => command_of(TaggedView { tag, payload }).is_some()
                        && byte_token(s, e3, 0x7d).is_none() && ends_in_space(s, e3),
                },
            },
        }
    }
}

fn payload_is_cut(s: &[u8], i: usize, pair: bool) -> (r: bool)
    requires
        i <= s@.len(),
    ensures
        r == payload_cut(s@, i as int, pair),
{
    let j = skip_spaces(s, i);
    if j >= s.len() {
        return true;
    }
    if !pair {
        return read_string(s, j).is_none() && string_is_cut(s, j);
    }
    if s[j] != 0x5b {
        return false;
    }
    let f1 = match read_string(s, j + 1) {
        Some((_, f1)) => f1,
        None => { return string_is_cut(s, j + 1); },
    };
    let f2 = match read_byte(s, f1, 0x2c) {
        Some(f2) => f2,
        None => { return only_space(s, f1); },
    };
    let f3 = match read_string(s, f2) {
        Some((_, f3)) => f3,
        None => { return string_is_cut(s, f2); },
    };
    read_byte(s, f3, 0x5d).is_none() && only_space(s, f3)
}

/// Whether the bytes from `i` on are the beginning of a record that is cut
/// off.
pub fn record_is_cut(s: &[u8], i: usize) -> (r: bool)
    requires
        i <= s@.len(),
    ensures
        r == record_cut(s@, i as int),
{
    let j = skip_spaces(s, i);
    if j >= s.len() {
        return true;
    }
    if s[j] != 0x7b {
        return false;
    }
    let (tag, e1) = match read_string(s, j + 1) {
        Some(x) => x,
        None => { return string_is_cut(s, j + 1); },
    };
    let is_set = tag == "Set".to_owned();
    let is_rm = tag == "Rm".to_owned();
    if !is_set && !is_rm {
        return false;
    }
    let e2 = match read_byte(s, e1, 0x3a) {
        Some(e2) => e2,
        None => { return only_space(s, e1); },
    };
    match read_payload(s, e2) {
        None => payload_is_cut(s, e2, is_set),
        Some((payload, e3)) => {
            let fits = match payload {
                Payload::Pair(_, _) => is_set,
                Payload::Text(_) => is_rm,
                _ => false,
            };
            fits && read_byte(s, e3, 0x7d).is_none() && only_space(s, e3)
        },
    }
}

/// A payload that ends behind the cut is not found in what is left, and what
/// is left ends before the payload is complete.
proof fn lemma_payload_cut(s: Seq<u8>, i: int, cut: int)
    requires
        0 <= i <= cut <= s.len(),
        payload_at(s, i).is_some(),
        payload_at(s, i).unwrap().1 > cut,
        payload_at(s, i).unwrap().0 is Text || payload_at(s, i).unwrap().0 is Pair,
    ensures
        payload_at(s.subrange(0, cut), i).is_none(),
        payload_cut(s.subrange(0, cut), i, payload_at(s, i).unwrap().0 is Pair),
{
    let t = s.subrange(0, cut);
    let j = skip_space(s, i);
    lemma_skip_space_bounds(s, i);
    lemma_payload_at_bounds(s, i);
    lemma_cut_window(s, cut);
    if j >= cut {
        lemma_skip_space_cut(s, i, cut);
    } else {
        lemma_skip_space_window(s, 0, t, 0, cut, i);
        assert(t[j] == s[j]);
        if s[j] == 0x22 {
            lemma_string_token_cut(s, j, cut);
        } else {
            assert(s[j] == 0x5b);
            lemma_string_token_bounds(s, j + 1);
            let f1 = string_token(s, j + 1).unwrap().1;
            lemma_byte_token_bounds(s, f1, 0x2c);
            let f2 = byte_token(s, f1, 0x2c).unwrap();
            lemma_string_token_bounds(s, f2);
            let f3 = string_token(s, f2).unwrap().1;
            lemma_byte_token_bounds(s, f3, 0x5d);
            if f1 > cut {
                lemma_string_token_cut(s, j + 1, cut);
            } else {
                lemma_string_token_window(s, 0, t, 0, cut, j + 1);
                if f2 > cut {
                    lemma_byte_token_cut(s, f1, 0x2c, cut);
                } else {
                    lemma_byte_token_window(s, 0, t, 0, cut, f1, 0x2c);
                    if f3 > cut {
                        lemma_string_token_cut(s, f2, cut);
                    } else {
                        lemma_string_token_window(s, 0, t, 0, cut, f2);
                        lemma_byte_token_cut(s, f3, 0x5d, cut);
                    }
                }
            }
        }
    }
}

/// A record that is cut anywhere before its end leaves the beginning of a
/// record: no record is found in what is left, and what is left is cut off,
/// not malformed.
pub proof fn lemma_record_cut(s: Seq<u8>, p: int, cut: int)
    requires
        0 <= p <= cut <= s.len(),
        record_at(s, p).is_some(),
        record_at(s, p).unwrap().1 > cut,
    ensures
        record_at(s.subrange(0, cut), p).is_none(),
        record_cut(s.subrange(0, cut), p),
{
    reveal_strlit("Set");
    reveal_strlit("Rm");
    assert("Set"@.len() != "Rm"@.len());
    let t = s.subrange(0, cut);
    let j = skip_space(s, p);
    lemma_skip_space_bounds(s, p);
    lemma_cut_window(s, cut);
    if j >= cut {
        lemma_skip_space_cut(s, p, cut);
    } else {
        lemma_skip_space_window(s, 0, t, 0, cut, p);
        assert(t[j] == s[j]);
        assert(s[j] == 0x7b);
        lemma_string_token_bounds(s, j + 1);
        let (tag, e1) = string_token(s, j + 1).unwrap();
        lemma_byte_token_bounds(s, e1, 0x3a);
        let e2 = byte_token(s, e1, 0x3a).unwrap();
        lemma_payload_at_bounds(s, e2);
        let (payload, e3) = payload_at(s, e2).unwrap();
        lemma_byte_token_bounds(s, e3, 0x7d);
        assert(command_of(TaggedView { tag, payload }).is_some());
        if e1 > cut {
            lemma_string_token_cut(s, j + 1, cut);
        } else {
            lemma_string_token_window(s, 0, t, 0, cut, j + 1);
            if e2 > cut {
                lemma_byte_token_cut(s, e1, 0x3a, cut);
            } else {
                lemma_byte_token_window(s, 0, t, 0, cut, e1, 0x3a);
                if e3 > cut {
                    lemma_payload_cut(s, e2, cut);
                } else {
                    lemma_payload_at_window(s, 0, t, 0, cut, e2);
                    lemma_byte_token_cut(s, e3, 0x7d, cut);
                }
            }
        }
    }
}

} // verus!
