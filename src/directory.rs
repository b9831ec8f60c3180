//! What a log directory's file names say about its segments.
//!
//! Each segment at base offset `N` has the files `N.store` and `N.index`;
//! the store files name the segments.
use vstd::prelude::*;

use crate::commit_log::CommitLogError;

verus! {

/// The suffix of a store file's name.
pub open spec fn store_suffix() -> Seq<char> {
    seq!['.', 's', 't', 'o', 'r', 'e']
}

pub open spec fn is_digit(c: char) -> bool {
    '0' <= c && c <= '9'
}

/// The value of the decimal digit `c`.
pub open spec fn digit_value(c: char) -> nat {
    ((c as u32) - ('0' as u32)) as nat
}

/// The number written in decimal by the digits `s`.
pub open spec fn decimal_value(s: Seq<char>) -> nat
    decreases s.len(),
{
    if s.len() == 0 {
        0
    } else {
        decimal_value(s.drop_last()) * 10 + digit_value(s.last())
    }
}

/// Whether `name` names a store file.
pub open spec fn is_store_name(name: Seq<char>) -> bool {
    name.len() >= 6 && name.subrange(name.len() - 6, name.len() as int) == store_suffix()
}

/// The part of a store file's name before its suffix.
pub open spec fn stem(name: Seq<char>) -> Seq<char> {
    name.subrange(0, name.len() - 6)
}

/// A stem that gives a base offset: one or more decimal digits whose value
/// fits in a `u64`.
pub open spec fn valid_stem(s: Seq<char>) -> bool {
    &&& s.len() > 0
    &&& forall|i: int| 0 <= i < s.len() ==> is_digit(#[trigger] s[i])
    &&& decimal_value(s) <= u64::MAX
}

/// The base offset named by store file `name`.
pub open spec fn named_offset(name: Seq<char>) -> u64 {
    decimal_value(stem(name)) as u64
}

/// Every store file among `names` names a base offset, and no two name the same.
pub open spec fn names_ok(names: Seq<Seq<char>>) -> bool {
    &&& forall|i: int|
        0 <= i < names.len() && is_store_name(#[trigger] names[i]) ==> valid_stem(stem(names[i]))
    &&& forall|i: int, j: int|
        0 <= i < j < names.len() && is_store_name(#[trigger] names[i]) && is_store_name(
            #[trigger] names[j],
        ) ==> named_offset(names[i]) != named_offset(names[j])
}

pub open spec fn strictly_increasing(s: Seq<u64>) -> bool {
    forall|i: int, j: int| 0 <= i < j < s.len() ==> s[i] < s[j]
}

/// Whether `x` is the base offset named by one of the store files among `names`.
pub open spec fn named_by(names: Seq<Seq<char>>, x: u64) -> bool {
    exists|i: int|
        0 <= i < names.len() && is_store_name(#[trigger] names[i]) && named_offset(names[i]) == x
}

/// Reads the base offset named by `name`: `Ok(None)` where it is not a
/// store file, `CorruptDirectory` where its stem is not a valid offset.
fn parse_store_name(name: &str) -> (r: Result<Option<u64>, CommitLogError>)
    ensures
        !is_store_name(name@) ==> r == Ok::<Option<u64>, CommitLogError>(None),
        is_store_name(name@) && valid_stem(stem(name@)) ==> r == Ok::<Option<u64>, CommitLogError>(
            Some(named_offset(name@)),
        ),
        is_store_name(name@) && !valid_stem(stem(name@)) ==> r == Err::<
            Option<u64>,
            CommitLogError,
        >(CommitLogError::CorruptDirectory),
{
    let n = name.unicode_len();
    if n < 6 {
        return Ok(None);
    }
    let k = n - 6;
    if name.get_char(k) != '.' || name.get_char(k + 1) != 's' || name.get_char(k + 2) != 't'
        || name.get_char(k + 3) != 'o' || name.get_char(k + 4) != 'r' || name.get_char(k + 5)
        != 'e' {
        assert(!is_store_name(name@)) by {
            if is_store_name(name@) {
                let t = name@.subrange(k as int, n as int);
                assert(t[0] == name@[k as int]);
                assert(t[1] == name@[k + 1]);
                assert(t[2] == name@[k + 2]);
                assert(t[3] == name@[k + 3]);
                assert(t[4] == name@[k + 4]);
                assert(t[5] == name@[k + 5]);
            }
        }
        return Ok(None);
    }
    assert(name@.subrange(k as int, n as int) =~= store_suffix());
    let ghost s = stem(name@);
    if k == 0 {
        return Err(CommitLogError::CorruptDirectory);
    }
    let mut value: u64 = 0;
    let mut i: usize = 0;
    while i < k
        invariant
            is_store_name(name@),
            s == stem(name@),
            s == name@.subrange(0, k as int),
            k == s.len(),
            n == name@.len(),
            k + 6 == n,
            i <= k,
            forall|j: int| 0 <= j < i ==> is_digit(#[trigger] s[j]),
            value == decimal_value(s.subrange(0, i as int)),
        decreases k - i,
    {
        let c = name.get_char(i);
        assert(c == s[i as int]);
        if c < '0' || c > '9' {
            return Err(CommitLogError::CorruptDirectory);
        }
        let d = (c as u32 - '0' as u32) as u64;
        assert(s.subrange(0, i + 1).drop_last() =~= s.subrange(0, i as int));
        if value > (u64::MAX - d) / 10 {
            proof {
                assert(value * 10 + d > u64::MAX) by (nonlinear_arith)
                    requires
                        value > (u64::MAX - d) / 10,
                        d <= 9,
                ;
                if valid_stem(s) {
                    lemma_decimal_value_grows(s, (i + 1) as int);
                }
            }
            return Err(CommitLogError::CorruptDirectory);
        }
        assert(value * 10 + d <= u64::MAX) by (nonlinear_arith)
            requires
                value <= (u64::MAX - d) / 10,
                d <= 9,
        ;
        value = value * 10 + d;
        i = i + 1;
    }
    assert(s.subrange(0, k as int) =~= s);
    Ok(Some(value))
}

/// The value of a prefix of a digit string is at most the value of the whole.
proof fn lemma_decimal_value_grows(s: Seq<char>, m: int)
    requires
        0 <= m <= s.len(),
        forall|j: int| 0 <= j < s.len() ==> is_digit(#[trigger] s[j]),
    ensures
        decimal_value(s.subrange(0, m)) <= decimal_value(s),
    decreases s.len() - m,
{
    if m < s.len() {
        lemma_decimal_value_grows(s, m + 1);
        assert(s.subrange(0, m + 1).drop_last() =~= s.subrange(0, m));
    }
    assert(s.subrange(0, s.len() as int) =~= s);
}

/// Puts `v` in its place in the strictly increasing `offsets`; fails, leaving
/// them as they were, where `v` is already there.
fn insert_sorted(offsets: &mut Vec<u64>, v: u64) -> (r: bool)
    requires
        strictly_increasing(old(offsets)@),
    ensures
        strictly_increasing(final(offsets)@),
        r == !old(offsets)@.contains(v),
        r ==> forall|x: u64| final(offsets)@.contains(x) <==> (old(offsets)@.contains(x) || x == v),
        !r ==> final(offsets)@ == old(offsets)@,
{
    let n = offsets.len();
    let mut pos: usize = 0;
    while pos < n && offsets[pos] < v
        invariant
            pos <= n,
            n == offsets@.len(),
            forall|j: int| 0 <= j < pos ==> offsets@[j] < v,
        decreases n - pos,
    {
        pos = pos + 1;
    }
    if pos < n && offsets[pos] == v {
        return false;
    }
    assert(!offsets@.contains(v)) by {
        if offsets@.contains(v) {
            let j = choose|j: int| 0 <= j < n && offsets@[j] == v;
            if j >= pos {
                assert(offsets@[pos as int] <= offsets@[j]);
            }
        }
    }
    let ghost before = offsets@;
    offsets.insert(pos, v);
    assert forall|x: u64| offsets@.contains(x) <==> (before.contains(x) || x == v) by {
        if offsets@.contains(x) {
            let j = choose|j: int| 0 <= j < offsets@.len() && offsets@[j] == x;
            if j < pos {
                assert(before[j] == x);
            } else if j > pos {
                assert(before[j - 1] == x);
            }
        }
        if before.contains(x) {
            let j = choose|j: int| 0 <= j < before.len() && before[j] == x;
            if j < pos {
                assert(offsets@[j] == x);
            } else {
                assert(offsets@[j + 1] == x);
            }
        }
        if x == v {
            assert(offsets@[pos as int] == v);
        }
    }
    true
}

/// The base offsets of the segments in a directory whose entries are named
/// `file_names`, in ascending order: one for each name ending in `.store`,
/// read from the decimal digits before that suffix.
///
/// Fails with `CorruptDirectory` where such a name has anything but one or
/// more digits before the suffix, a value past `u64::MAX`, or the same
/// value as another.
pub fn store_offsets(file_names: &Vec<String>) -> (r: Result<Vec<u64>, CommitLogError>)
    ensures
        names_ok(file_names@.map_values(|s: String| s@)) ==> (r matches Ok(offsets)
            && strictly_increasing(offsets@) && forall|x: u64|
            offsets@.contains(x) <==> named_by(file_names@.map_values(|s: String| s@), x)),
        !names_ok(file_names@.map_values(|s: String| s@)) ==> r == Err::<
            Vec<u64>,
            CommitLogError,
        >(CommitLogError::CorruptDirectory),
{
    let ghost names = file_names@.map_values(|s: String| s@);
    let mut offsets: Vec<u64> = Vec::new();
    let mut i: usize = 0;
    while i < file_names.len()
        invariant
            names == file_names@.map_values(|s: String| s@),
            i <= names.len(),
            strictly_increasing(offsets@),
            names_ok(names.subrange(0, i as int)),
            forall|x: u64| offsets@.contains(x) <==> named_by(names.subrange(0, i as int), x),
        decreases names.len() - i,
    {
        let name = file_names[i].as_str();
        assert(name@ == names[i as int]);
        let ghost pre = names.subrange(0, i as int);
        let ghost next = names.subrange(0, i + 1);
        assert(next =~= pre.push(names[i as int]));
        match parse_store_name(name) {
            Err(e) => {
                assert(!names_ok(names)) by {
                    assert(names[i as int] == name@);
                }
                return Err(e);
            },
            Ok(None) => {
                assert forall|x: u64| named_by(next, x) implies named_by(pre, x) by {
                    let j = choose|j: int|
                        0 <= j < next.len() && is_store_name(#[trigger] next[j])
                            && named_offset(next[j]) == x;
                    assert(pre[j] == next[j]);
                }
                assert forall|x: u64| named_by(pre, x) implies named_by(next, x) by {
                    let j = choose|j: int|
                        0 <= j < pre.len() && is_store_name(#[trigger] pre[j])
                            && named_offset(pre[j]) == x;
                    assert(pre[j] == next[j]);
                }
                assert(names_ok(next)) by {
                    assert forall|a: int, b: int|
                        0 <= a < b < next.len() && is_store_name(#[trigger] next[a])
                            && is_store_name(#[trigger] next[b]) implies named_offset(next[a])
                        != named_offset(next[b]) by {
                        assert(pre[a] == next[a] && pre[b] == next[b]);
                    }
                }
            },
            Ok(Some(v)) => {
                if !insert_sorted(&mut offsets, v) {
                    assert(!names_ok(names)) by {
                        assert(named_by(pre, v));
                        let j = choose|j: int|
                            0 <= j < pre.len() && is_store_name(#[trigger] pre[j])
                                && named_offset(pre[j]) == v;
                        assert(names[j] == pre[j]);
                    }
                    return Err(CommitLogError::CorruptDirectory);
                }
                assert forall|x: u64| named_by(next, x) <==> (named_by(pre, x) || x == v) by {
                    if named_by(next, x) {
                        let j = choose|j: int|
                            0 <= j < next.len() && is_store_name(#[trigger] next[j])
                                && named_offset(next[j]) == x;
                        if j < i {
                            assert(pre[j] == next[j]);
                        }
                    }
                    if named_by(pre, x) {
                        let j = choose|j: int|
                            0 <= j < pre.len() && is_store_name(#[trigger] pre[j])
                                && named_offset(pre[j]) == x;
                        assert(pre[j] == next[j]);
                    }
                    if x == v {
                        assert(next[i as int] == names[i as int]);
                    }
                }
                assert(names_ok(next)) by {
                    assert forall|a: int, b: int|
                        0 <= a < b < next.len() && is_store_name(#[trigger] next[a])
                            && is_store_name(#[trigger] next[b]) implies named_offset(next[a])
                        != named_offset(next[b]) by {
                        if b == i {
                            assert(pre[a] == next[a]);
                            assert(named_by(pre, named_offset(next[a])));
                        } else {
                            assert(pre[a] == next[a] && pre[b] == next[b]);
                        }
                    }
                }
            },
        }
        i = i + 1;
    }
    assert(names.subrange(0, names.len() as int) =~= names);
    Ok(offsets)
}

} // verus!
