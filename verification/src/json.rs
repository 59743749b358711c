//! Scanning of JSON text at the level of bytes.
//!
//! The store and the wire protocol use a small part of JSON: string literals,
//! `null`, and the punctuation of one-entry objects and two-element arrays.
//! This module finds those tokens in a byte sequence. White space between
//! tokens is skipped. What a string literal denotes (its escapes resolved, its
//! bytes read as UTF-8) is left to `serde_json`.

use vstd::prelude::*;

verus! {

/// What a JSON string literal denotes: the text that `serde_json` reads from
/// exactly these bytes, if it accepts them as one string literal.
pub uninterp spec fn json_text(literal: Seq<u8>) -> Option<Seq<char>>;

/// How `serde_json` writes a text as a JSON string literal, if it does.
pub uninterp spec fn json_literal(text: Seq<char>) -> Option<Seq<u8>>;

/// `serde_json::from_slice::<String>`: the text of a string literal, or `None`
/// where the bytes are not one JSON string.
#[verifier::external_body]
pub(crate) fn read_literal(literal: &[u8]) -> (r: Option<String>)
    ensures
        match r {
            Some(text) => json_text(literal@) == Some(text@),
            None => json_text(literal@).is_none(),
        },
{
    serde_json::from_slice::<String>(literal).ok()
}

/// `serde_json::to_vec` on a string slice: the string literal for a text, or
/// `None` where the serializer reports an error.
#[verifier::external_body]
pub(crate) fn write_literal(text: &str) -> (r: Option<Vec<u8>>)
    ensures
        match r {
            Some(literal) => json_literal(text@) == Some(literal@),
            None => json_literal(text@).is_none(),
        },
{
    serde_json::to_vec(text).ok()
}

/// The white space of JSON: space, tab, line feed and carriage return.
pub open spec fn is_space(b: u8) -> bool {
    b == 0x20 || b == 0x09 || b == 0x0a || b == 0x0d
}

/// The `n` bytes of `s` from `p` on are the `n` bytes of `t` from `q` on.
pub open spec fn same_window(s: Seq<u8>, p: int, t: Seq<u8>, q: int, n: int) -> bool {
    &&& 0 <= p
    &&& 0 <= q
    &&& 0 <= n
    &&& p + n <= s.len()
    &&& q + n <= t.len()
    &&& forall|j: int| 0 <= j < n ==> #[trigger] s[p + j] == t[q + j]
}

/// The first position from `i` on that holds no white space, or the length.
pub open spec fn skip_space(s: Seq<u8>, i: int) -> int
    decreases s.len() - i,
{
    if 0 <= i < s.len() && is_space(s[i]) {
        skip_space(s, i + 1)
    } else {
        i
    }
}

/// Where the string literal ends whose body starts at `i`, that is the position
/// just behind its closing quote. A backslash takes the next byte with it.
pub open spec fn literal_end(s: Seq<u8>, i: int) -> Option<int>
    decreases s.len() - i,
{
    if i < 0 || i >= s.len() {
        None
    } else if s[i] == 0x22 {
        Some(i + 1)
    } else if s[i] == 0x5c {
        if i + 1 < s.len() {
            literal_end(s, i + 2)
        } else {
            None
        }
    } else {
        literal_end(s, i + 1)
    }
}

/// After white space, the byte `b`: the position behind it.
pub open spec fn byte_token(s: Seq<u8>, i: int, b: u8) -> Option<int> {
    let j = skip_space(s, i);
    if 0 <= j < s.len() && s[j] == b {
        Some(j + 1)
    } else {
        None
    }
}

/// After white space, a string literal: its text and the position behind it.
pub open spec fn string_token(s: Seq<u8>, i: int) -> Option<(Seq<char>, int)> {
    let j = skip_space(s, i);
    if 0 <= j < s.len() && s[j] == 0x22 {
        match literal_end(s, j + 1) {
            Some(e) => match json_text(s.subrange(j, e)) {
                Some(text) => Some((text, e)),
                None => None,
            },
            None => None,
        }
    } else {
        None
    }
}

/// After white space, the word `null`: the position behind it.
pub open spec fn null_token(s: Seq<u8>, i: int) -> Option<int> {
    let j = skip_space(s, i);
    if 0 <= j && j + 4 <= s.len() && s[j] == 0x6e && s[j + 1] == 0x75 && s[j + 2] == 0x6c && s[j + 3]
        == 0x6c {
        Some(j + 4)
    } else {
        None
    }
}

/// Skipping white space goes forward, stays inside the sequence and stops at
/// a byte that is no white space.
pub proof fn lemma_skip_space_bounds(s: Seq<u8>, i: int)
    requires
        0 <= i <= s.len(),
    ensures
        i <= skip_space(s, i) <= s.len(),
        skip_space(s, i) < s.len() ==> !is_space(s[skip_space(s, i)]),
    decreases s.len() - i,
{
    if i < s.len() && is_space(s[i]) {
        lemma_skip_space_bounds(s, i + 1);
    }
}

/// A string literal ends behind the position at which its body starts, inside
/// the sequence.
pub proof fn lemma_literal_end_bounds(s: Seq<u8>, i: int)
    requires
        0 <= i,
        literal_end(s, i).is_some(),
    ensures
        i < literal_end(s, i).unwrap() <= s.len(),
    decreases s.len() - i,
{
    if i < s.len() && s[i] != 0x22 {
        if s[i] == 0x5c {
            lemma_literal_end_bounds(s, i + 2);
        } else {
            lemma_literal_end_bounds(s, i + 1);
        }
    }
}

/// A byte token ends behind the white space before it, inside the sequence.
pub proof fn lemma_byte_token_bounds(s: Seq<u8>, i: int, b: u8)
    requires
        0 <= i <= s.len(),
        byte_token(s, i, b).is_some(),
    ensures
        i <= skip_space(s, i) < byte_token(s, i, b).unwrap() <= s.len(),
{
    lemma_skip_space_bounds(s, i);
}

/// A `null` ends behind the white space before it, inside the sequence.
pub proof fn lemma_null_token_bounds(s: Seq<u8>, i: int)
    requires
        0 <= i <= s.len(),
        null_token(s, i).is_some(),
    ensures
        i <= skip_space(s, i) < null_token(s, i).unwrap() <= s.len(),
{
    lemma_skip_space_bounds(s, i);
}

/// A string token ends behind the white space before it, inside the sequence.
pub proof fn lemma_string_token_bounds(s: Seq<u8>, i: int)
    requires
        0 <= i <= s.len(),
        string_token(s, i).is_some(),
    ensures
        i <= skip_space(s, i) < string_token(s, i).unwrap().1 <= s.len(),
{
    lemma_skip_space_bounds(s, i);
    lemma_literal_end_bounds(s, skip_space(s, i) + 1);
}

/// White space that ends inside a window ends at the same place of any other
/// sequence that holds the same window.
pub proof fn lemma_skip_space_window(s: Seq<u8>, p: int, t: Seq<u8>, q: int, n: int, a: int)
    requires
        same_window(s, p, t, q, n),
        0 <= a <= n,
        skip_space(s, p + a) < p + n,
    ensures
        skip_space(t, q + a) - q == skip_space(s, p + a) - p,
    decreases n - a,
{
    lemma_skip_space_bounds(s, p + a);
    assert(a < n);
    assert(s[p + a] == t[q + a]);
    if is_space(s[p + a]) {
        assert(skip_space(s, p + a) == skip_space(s, p + a + 1));
        assert(skip_space(t, q + a) == skip_space(t, q + a + 1));
        lemma_skip_space_window(s, p, t, q, n, a + 1);
    }
}

/// A string literal that ends inside a window ends at the same place of any
/// other sequence that holds the same window.
pub proof fn lemma_literal_end_window(s: Seq<u8>, p: int, t: Seq<u8>, q: int, n: int, a: int)
    requires
        same_window(s, p, t, q, n),
        0 <= a <= n,
        literal_end(s, p + a).is_some(),
        literal_end(s, p + a).unwrap() <= p + n,
    ensures
        literal_end(t, q + a).is_some(),
        literal_end(t, q + a).unwrap() - q == literal_end(s, p + a).unwrap() - p,
    decreases n - a,
{
    lemma_literal_end_bounds(s, p + a);
    assert(a < n);
    assert(s[p + a] == t[q + a]);
    if s[p + a] == 0x22 {
    } else if s[p + a] == 0x5c {
        assert(literal_end(s, p + a) == literal_end(s, p + a + 2));
        lemma_literal_end_bounds(s, p + a + 2);
        assert(q + a + 1 < t.len());
        assert(literal_end(t, q + a) == literal_end(t, q + a + 2));
        lemma_literal_end_window(s, p, t, q, n, a + 2);
    } else {
        assert(literal_end(s, p + a) == literal_end(s, p + a + 1));
        assert(literal_end(t, q + a) == literal_end(t, q + a + 1));
        lemma_literal_end_window(s, p, t, q, n, a + 1);
    }
}

/// A byte token found inside a window is found at the same place of any other
/// sequence that holds the same window.
pub proof fn lemma_byte_token_window(s: Seq<u8>, p: int, t: Seq<u8>, q: int, n: int, a: int, b: u8)
    requires
        same_window(s, p, t, q, n),
        0 <= a <= n,
        byte_token(s, p + a, b).is_some(),
        byte_token(s, p + a, b).unwrap() <= p + n,
    ensures
        byte_token(t, q + a, b).is_some(),
        byte_token(t, q + a, b).unwrap() - q == byte_token(s, p + a, b).unwrap() - p,
        p + a < byte_token(s, p + a, b).unwrap(),
{
    lemma_skip_space_bounds(s, p + a);
    lemma_skip_space_window(s, p, t, q, n, a);
    let j = skip_space(s, p + a) - p;
    assert(s[p + j] == t[q + j]);
}

/// A `null` found inside a window is found at the same place of any other
/// sequence that holds the same window.
pub proof fn lemma_null_token_window(s: Seq<u8>, p: int, t: Seq<u8>, q: int, n: int, a: int)
    requires
        same_window(s, p, t, q, n),
        0 <= a <= n,
        null_token(s, p + a).is_some(),
        null_token(s, p + a).unwrap() <= p + n,
    ensures
        null_token(t, q + a).is_some(),
        null_token(t, q + a).unwrap() - q == null_token(s, p + a).unwrap() - p,
        p + a < null_token(s, p + a).unwrap(),
{
    lemma_skip_space_bounds(s, p + a);
    lemma_skip_space_window(s, p, t, q, n, a);
    let j = skip_space(s, p + a) - p;
    assert(s[p + j] == t[q + j]);
    assert(s[p + (j + 1)] == t[q + (j + 1)]);
    assert(s[p + (j + 2)] == t[q + (j + 2)]);
    assert(s[p + (j + 3)] == t[q + (j + 3)]);
}

/// A string token found inside a window is found, with the same text, at the
/// same place of any other sequence that holds the same window.
pub proof fn lemma_string_token_window(s: Seq<u8>, p: int, t: Seq<u8>, q: int, n: int, a: int)
    requires
        same_window(s, p, t, q, n),
        0 <= a <= n,
        string_token(s, p + a).is_some(),
        string_token(s, p + a).unwrap().1 <= p + n,
    ensures
        string_token(t, q + a).is_some(),
        string_token(t, q + a).unwrap().0 == string_token(s, p + a).unwrap().0,
        string_token(t, q + a).unwrap().1 - q == string_token(s, p + a).unwrap().1 - p,
        p + a < string_token(s, p + a).unwrap().1,
{
    lemma_skip_space_bounds(s, p + a);
    let js = skip_space(s, p + a);
    let j = js - p;
    let es = literal_end(s, js + 1).unwrap();
    lemma_literal_end_bounds(s, js + 1);
    lemma_skip_space_window(s, p, t, q, n, a);
    assert(s[p + j] == t[q + j]);
    lemma_literal_end_window(s, p, t, q, n, j + 1);
    let e = es - p;
    assert(literal_end(t, q + j + 1).unwrap() == q + e);
    let ls = s.subrange(p + j, p + e);
    let lt = t.subrange(q + j, q + e);
    assert(ls =~= lt) by {
        assert forall|k: int| 0 <= k < e - j implies #[trigger] ls[k] == lt[k] by {
            assert(s[p + (j + k)] == t[q + (j + k)]);
        }
    }
}

/// Skips white space from `i` on.
pub fn skip_spaces(s: &[u8], i: usize) -> (j: usize)
    requires
        i <= s@.len(),
    ensures
        j == skip_space(s@, i as int),
        i <= j <= s@.len(),
{
    let mut j: usize = i;
    while j < s.len() && (s[j] == 0x20 || s[j] == 0x09 || s[j] == 0x0a || s[j] == 0x0d)
        invariant
            i <= j <= s@.len(),
            skip_space(s@, i as int) == skip_space(s@, j as int),
        decreases s@.len() - j,
    {
        j = j + 1;
    }
    j
}

/// Finds the end of the string literal whose body starts at `i`.
pub fn find_literal_end(s: &[u8], i: usize) -> (r: Option<usize>)
    requires
        i <= s@.len(),
    ensures
        match r {
            Some(e) => literal_end(s@, i as int) == Some(e as int) && i < e <= s@.len(),
            None => literal_end(s@, i as int).is_none(),
        },
{
    let mut j: usize = i;
    while j < s.len()
        invariant
            i <= j <= s@.len(),
            literal_end(s@, i as int) == literal_end(s@, j as int),
        decreases s@.len() - j,
    {
        if s[j] == 0x22 {
            return Some(j + 1);
        } else if s[j] == 0x5c {
            if s.len() - j < 2 {
                return None;
            }
            j = j + 2;
        } else {
            j = j + 1;
        }
    }
    None
}

/// Reads the byte `b` after white space.
pub fn read_byte(s: &[u8], i: usize, b: u8) -> (r: Option<usize>)
    requires
        i <= s@.len(),
    ensures
        match r {
            Some(e) => byte_token(s@, i as int, b) == Some(e as int) && i < e <= s@.len(),
            None => byte_token(s@, i as int, b).is_none(),
        },
{
    let j = skip_spaces(s, i);
    if j < s.len() && s[j] == b {
        Some(j + 1)
    } else {
        None
    }
}

/// Reads the word `null` after white space.
pub fn read_null(s: &[u8], i: usize) -> (r: Option<usize>)
    requires
        i <= s@.len(),
    ensures
        match r {
            Some(e) => null_token(s@, i as int) == Some(e as int) && i < e <= s@.len(),
            None => null_token(s@, i as int).is_none(),
        },
{
    let j = skip_spaces(s, i);
    if s.len() - j >= 4 && s[j] == 0x6e && s[j + 1] == 0x75 && s[j + 2] == 0x6c && s[j + 3] == 0x6c {
        Some(j + 4)
    } else {
        None
    }
}

/// Reads a string literal after white space.
pub fn read_string(s: &[u8], i: usize) -> (r: Option<(String, usize)>)
    requires
        i <= s@.len(),
    ensures
        match r {
            Some((text, e)) => string_token(s@, i as int) == Some((text@, e as int)) && i < e
                <= s@.len(),
            None => string_token(s@, i as int).is_none(),
        },
{
    let j = skip_spaces(s, i);
    if j < s.len() && s[j] == 0x22 {
        match find_literal_end(s, j + 1) {
            Some(e) => match read_literal(vstd::slice::slice_subrange(s, j, e)) {
                Some(text) => Some((text, e)),
                None => None,
            },
            None => None,
        }
    } else {
        None
    }
}

/// From `i` on there is only white space: the bytes end before the next
/// token begins.
pub open spec fn ends_in_space(s: Seq<u8>, i: int) -> bool {
    skip_space(s, i) >= s.len()
}

/// From `i` on, after white space, the bytes end before a string literal
/// begins or before it is closed.
pub open spec fn string_cut(s: Seq<u8>, i: int) -> bool {
    let j = skip_space(s, i);
    j >= s.len() || (s[j] == 0x22 && literal_end(s, j + 1).is_none())
}

/// A sequence and what is left of it when it is cut at `cut` hold the same
/// bytes up to the cut.
pub proof fn lemma_cut_window(s: Seq<u8>, cut: int)
    requires
        0 <= cut <= s.len(),
    ensures
        same_window(s, 0, s.subrange(0, cut), 0, cut),
{
    let t = s.subrange(0, cut);
    assert forall|j: int| 0 <= j < cut implies #[trigger] s[0 + j] == t[0 + j] by {}
}

/// White space that reaches the cut is all that is left behind `i`.
pub proof fn lemma_skip_space_cut(s: Seq<u8>, i: int, cut: int)
    requires
        0 <= i <= cut <= s.len(),
        skip_space(s, i) >= cut,
    ensures
        skip_space(s.subrange(0, cut), i) == cut,
    decreases cut - i,
{
    let t = s.subrange(0, cut);
    if i < cut {
        assert(t[i] == s[i]);
        assert(is_space(s[i]));
        lemma_skip_space_cut(s, i + 1, cut);
    }
}

/// A string literal that ends behind the cut is not closed before it.
pub proof fn lemma_literal_end_cut(s: Seq<u8>, a: int, cut: int)
    requires
        0 <= a <= cut <= s.len(),
        literal_end(s, a).is_some(),
        literal_end(s, a).unwrap() > cut,
    ensures
        literal_end(s.subrange(0, cut), a).is_none(),
    decreases cut - a,
{
    let t = s.subrange(0, cut);
    if a < cut {
        assert(t[a] == s[a]);
        if s[a] == 0x22 {
        } else if s[a] == 0x5c {
            if a + 1 < cut {
                lemma_literal_end_cut(s, a + 2, cut);
            }
        } else {
            lemma_literal_end_cut(s, a + 1, cut);
        }
    }
}

/// A byte token that ends behind the cut is not found in what is left, and
/// what is left ends in white space.
pub proof fn lemma_byte_token_cut(s: Seq<u8>, i: int, b: u8, cut: int)
    requires
        0 <= i <= cut <= s.len(),
        byte_token(s, i, b).is_some(),
        byte_token(s, i, b).unwrap() > cut,
    ensures
        byte_token(s.subrange(0, cut), i, b).is_none(),
        ends_in_space(s.subrange(0, cut), i),
{
    lemma_skip_space_cut(s, i, cut);
}

/// A string token that ends behind the cut is not found in what is left, and
/// what is left ends before the literal is closed.
pub proof fn lemma_string_token_cut(s: Seq<u8>, i: int, cut: int)
    requires
        0 <= i <= cut <= s.len(),
        string_token(s, i).is_some(),
        string_token(s, i).unwrap().1 > cut,
    ensures
        string_token(s.subrange(0, cut), i).is_none(),
        string_cut(s.subrange(0, cut), i),
{
    let t = s.subrange(0, cut);
    let j = skip_space(s, i);
    lemma_skip_space_bounds(s, i);
    if j >= cut {
        lemma_skip_space_cut(s, i, cut);
    } else {
        lemma_cut_window(s, cut);
        lemma_skip_space_window(s, 0, t, 0, cut, i);
        assert(t[j] == s[j]);
        lemma_literal_end_cut(s, j + 1, cut);
    }
}

/// Whether the bytes end in white space from `i` on.
pub fn only_space(s: &[u8], i: usize) -> (r: bool)
    requires
        i <= s@.len(),
    ensures
        r == ends_in_space(s@, i as int),
{
    skip_spaces(s, i) >= s.len()
}

/// Whether the bytes end, from `i` on, before a string literal begins or
/// before it is closed.
pub fn string_is_cut(s: &[u8], i: usize) -> (r: bool)
    requires
        i <= s@.len(),
    ensures
        r == string_cut(s@, i as int),
{
    let j = skip_spaces(s, i);
    if j >= s.len() {
        true
    } else {
        s[j] == 0x22 && find_literal_end(s, j + 1).is_none()
    }
}

} // verus!
