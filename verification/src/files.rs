//! The names of the log files: `<epoch>.log`, the epoch in decimal digits.

use vstd::prelude::*;

verus! {

/// The decimal digits `0` to `9`.
pub open spec fn is_digit(b: u8) -> bool {
    0x30 <= b <= 0x39
}

/// Every byte is a decimal digit.
pub open spec fn all_digits(s: Seq<u8>) -> bool {
    forall|i: int| 0 <= i < s.len() ==> is_digit(#[trigger] s[i])
}

/// The number that decimal digits say.
pub open spec fn decimal(s: Seq<u8>) -> nat
    decreases s.len(),
{
    if s.len() == 0 {
        0
    } else {
        decimal(s.drop_last()) * 10 + (s.last() - 0x30) as nat
    }
}

/// The decimal digits of a number, without leading zeros.
pub open spec fn digits(n: nat) -> Seq<u8>
    decreases n,
{
    if n < 10 {
        seq![(0x30 + n) as u8]
    } else {
        digits(n / 10).push((0x30 + n % 10) as u8)
    }
}

/// The four bytes `.log`.
pub open spec fn log_suffix() -> Seq<u8> {
    seq![0x2eu8, 0x6cu8, 0x6fu8, 0x67u8]
}

/// The epoch of a log file's name: the name is decimal digits, at least one,
/// followed by `.log`, and the number fits the machine. Another name is not
/// that of a log file.
pub open spec fn epoch_of(name: Seq<u8>) -> Option<usize> {
    let stem = name.subrange(0, name.len() - 4);
    if name.len() > 4 && name.subrange(name.len() - 4, name.len() as int) == log_suffix()
        && all_digits(stem) && decimal(stem) <= usize::MAX {
        Some(decimal(stem) as usize)
    } else {
        None
    }
}

/// The name of the log file of an epoch.
pub open spec fn name_of(epoch: usize) -> Seq<u8> {
    digits(epoch as nat) + log_suffix()
}

/// More digits do not say less.
pub proof fn lemma_decimal_prefix(s: Seq<u8>, i: int)
    requires
        0 <= i <= s.len(),
        all_digits(s),
    ensures
        decimal(s.subrange(0, i)) <= decimal(s),
    decreases s.len() - i,
{
    if i < s.len() {
        let t = s.subrange(0, i + 1);
        assert(t.drop_last() =~= s.subrange(0, i));
        assert(is_digit(s[i]));
        assert(t.last() == s[i]);
        lemma_decimal_prefix(s, i + 1);
    } else {
        assert(s.subrange(0, i) =~= s);
    }
}

/// The digits of a number are digits, and they say the number.
pub proof fn lemma_digits(n: nat)
    ensures
        digits(n).len() >= 1,
        all_digits(digits(n)),
        decimal(digits(n)) == n,
    decreases n,
{
    if n < 10 {
        let s = digits(n);
        assert(s.drop_last() =~= Seq::<u8>::empty());
        assert(decimal(s.drop_last()) == 0);
    } else {
        lemma_digits(n / 10);
        let s = digits(n);
        assert(s.drop_last() =~= digits(n / 10));
        assert(s.last() == (0x30 + n % 10) as u8);
    }
}

/// The name of an epoch's log file is the name of a log file, of that epoch.
pub proof fn name_round_trip(epoch: usize)
    ensures
        epoch_of(name_of(epoch)) == Some(epoch),
{
    lemma_digits(epoch as nat);
    let name = name_of(epoch);
    let d = digits(epoch as nat);
    assert(name.subrange(0, name.len() - 4) =~= d);
    assert(name.subrange(name.len() - 4, name.len() as int) =~= log_suffix());
}

/// The epoch of a log file's name, or `None` for another name.
pub fn log_epoch(name: &[u8]) -> (r: Option<usize>)
    ensures
        r == epoch_of(name@),
{
    let n = name.len();
    if n <= 4 {
        return None;
    }
    let stem_len = n - 4;
    if !(name[stem_len] == 0x2e && name[stem_len + 1] == 0x6c && name[stem_len + 2] == 0x6f
        && name[stem_len + 3] == 0x67) {
        assert(name@.subrange(n - 4, n as int)[0] == name@[stem_len as int]);
        assert(name@.subrange(n - 4, n as int)[1] == name@[stem_len + 1]);
        assert(name@.subrange(n - 4, n as int)[2] == name@[stem_len + 2]);
        assert(name@.subrange(n - 4, n as int)[3] == name@[stem_len + 3]);
        return None;
    }
    assert(name@.subrange(n - 4, n as int) =~= log_suffix());
    let ghost stem = name@.subrange(0, stem_len as int);
    let mut value: usize = 0;
    let mut i: usize = 0;
    assert(stem.subrange(0, 0) =~= Seq::<u8>::empty());
    while i < stem_len
        invariant
            i <= stem_len,
            stem_len == n - 4,
            n == name@.len(),
            stem == name@.subrange(0, stem_len as int),
            all_digits(stem.subrange(0, i as int)),
            decimal(stem.subrange(0, i as int)) == value,
        decreases stem_len - i,
    {
        let b = name[i];
        let ghost head = stem.subrange(0, i as int);
        let ghost next = stem.subrange(0, i + 1);
        assert(next.drop_last() =~= head);
        assert(next.last() == b);
        if !(0x30 <= b && b <= 0x39) {
            assert(!all_digits(stem)) by {
                assert(stem[i as int] == b);
            }
            return None;
        }
        let d = (b - 0x30) as usize;
        if value > (usize::MAX - d) / 10 {
            proof {
                assert(decimal(next) > usize::MAX);
                if all_digits(stem) {
                    lemma_decimal_prefix(stem, i + 1);
                }
            }
            return None;
        }
        value = value * 10 + d;
        i = i + 1;
        assert(all_digits(next)) by {
            assert forall|j: int| 0 <= j < next.len() implies is_digit(#[trigger] next[j]) by {
                if j < i - 1 {
                    assert(head[j] == next[j]);
                }
            }
        }
    }
    assert(stem.subrange(0, stem_len as int) =~= stem);
    Some(value)
}

/// The highest epoch among the names of a directory, or `None` where no name
/// is that of a log file.
pub fn latest_epoch(names: &Vec<Vec<u8>>) -> (r: Option<usize>)
    ensures
        match r {
            Some(e) => {
                &&& exists|i: int| 0 <= i < names@.len() && epoch_of(#[trigger] names@[i]@) == Some(e)
                &&& forall|i: int|
                    0 <= i < names@.len() ==> match epoch_of(#[trigger] names@[i]@) {
                        Some(other) => other <= e,
                        None => true,
                    }
            },
            None => forall|i: int| 0 <= i < names@.len() ==> epoch_of(#[trigger] names@[i]@).is_none(),
        },
{
    let mut best: Option<usize> = None;
    let mut k: usize = 0;
    while k < names.len()
        invariant
            k <= names@.len(),
            match best {
                Some(e) => {
                    &&& exists|i: int| 0 <= i < k && epoch_of(#[trigger] names@[i]@) == Some(e)
                    &&& forall|i: int|
                        0 <= i < k ==> match epoch_of(#[trigger] names@[i]@) {
                            Some(other) => other <= e,
                            None => true,
                        }
                },
                None => forall|i: int| 0 <= i < k ==> epoch_of(#[trigger] names@[i]@).is_none(),
            },
        decreases names@.len() - k,
    {
        match log_epoch(names[k].as_slice()) {
            Some(e) => {
                let higher = match best {
                    Some(b) => e > b,
                    None => true,
                };
                if higher {
                    best = Some(e);
                }
            },
            None => {},
        }
        k = k + 1;
    }
    best
}

fn push_digits(out: &mut Vec<u8>, n: usize)
    ensures
        final(out)@ == old(out)@ + digits(n as nat),
    decreases n,
{
    if n < 10 {
        out.push(0x30 + n as u8);
        assert(out@ =~= old(out)@ + digits(n as nat));
    } else {
        push_digits(out, n / 10);
        out.push(0x30 + (n % 10) as u8);
        assert(out@ =~= old(out)@ + digits(n as nat));
    }
}

/// The name of the log file of an epoch.
pub fn log_name(epoch: usize) -> (r: Vec<u8>)
    ensures
        r@ == name_of(epoch),
        epoch_of(r@) == Some(epoch),
{
    let mut out: Vec<u8> = Vec::new();
    push_digits(&mut out, epoch);
    out.push(0x2e);
    out.push(0x6c);
    out.push(0x6f);
    out.push(0x67);
    proof {
        assert(out@ =~= name_of(epoch));
        name_round_trip(epoch);
    }
    out
}

} // verus!
