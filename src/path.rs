//! Paths: segments joined by `.`, each a map key or a decimal array index.
use vstd::prelude::*;

use crate::format::{decimal_value, dot_from, index_of, is_digit, lemma_dot_from_range};

verus! {

/// The position of the first `.` in `path`, or its length.
pub fn segment_end(path: &[u8]) -> (r: usize)
    ensures
        r == dot_from(path@, 0),
{
    let mut i: usize = 0;
    while i < path.len()
        invariant
            i <= path@.len(),
            dot_from(path@, i as int) == dot_from(path@, 0),
        decreases path@.len() - i,
    {
        if path[i] == 46 {
            return i;
        }
        i = i + 1;
    }
    i
}

/// Longer digit strings are worth at least as much as their prefixes.
proof fn lemma_decimal_prefix(s: Seq<u8>, i: int)
    requires
        0 <= i <= s.len(),
        forall|j: int| 0 <= j < s.len() ==> is_digit(#[trigger] s[j]),
    ensures
        decimal_value(s.subrange(0, i)) <= decimal_value(s),
    decreases s.len() - i,
{
    if i < s.len() {
        lemma_decimal_prefix(s, i + 1);
        assert(s.subrange(0, i + 1).drop_last() =~= s.subrange(0, i));
        assert(is_digit(s[i]));
    } else {
        assert(s.subrange(0, i) =~= s);
    }
}

/// Whether `segment` names an index: one or more decimal digits.
pub fn is_index(segment: &[u8]) -> (r: bool)
    ensures
        r == index_of(segment@) is Some,
{
    if segment.len() == 0 {
        return false;
    }
    let mut i: usize = 0;
    while i < segment.len()
        invariant
            i <= segment@.len(),
            forall|j: int| 0 <= j < i ==> is_digit(#[trigger] segment@[j]),
        decreases segment@.len() - i,
    {
        if segment[i] < 48 || segment[i] > 57 {
            return false;
        }
        i = i + 1;
    }
    true
}

/// The index that `segment` names, where it is one and below `limit`.
pub fn parse_index(segment: &[u8], limit: usize) -> (r: Option<usize>)
    ensures
        match index_of(segment@) {
            Some(v) => if v < limit {
                r == Some(v as usize)
            } else {
                r is None
            },
            None => r is None,
        },
{
    let len = segment.len();
    if len == 0 || limit == 0 {
        return None;
    }
    let mut acc: u128 = 0;
    let mut i: usize = 0;
    while i < len
        invariant
            len == segment@.len(),
            i <= len,
            acc == decimal_value(segment@.subrange(0, i as int)),
            acc < limit,
            forall|j: int| 0 <= j < i ==> is_digit(#[trigger] segment@[j]),
        decreases len - i,
    {
        let b = segment[i];
        if b < 48 || b > 57 {
            return None;
        }
        proof {
            assert(segment@.subrange(0, i + 1).drop_last() =~= segment@.subrange(0, i as int));
        }
        acc = acc * 10 + (b - 48) as u128;
        i = i + 1;
        if acc >= limit as u128 {
            proof {
                if index_of(segment@) is Some {
                    lemma_decimal_prefix(segment@, i as int);
                }
            }
            return None;
        }
    }
    assert(segment@.subrange(0, len as int) =~= segment@);
    Some(acc as usize)
}

/// Whether two byte strings are equal.
pub fn bytes_eq(a: &[u8], b: &[u8]) -> (r: bool)
    ensures
        r == (a@ == b@),
{
    if a.len() != b.len() {
        return false;
    }
    let mut i: usize = 0;
    while i < a.len()
        invariant
            a@.len() == b@.len(),
            i <= a@.len(),
            forall|j: int| 0 <= j < i ==> a@[j] == b@[j],
        decreases a@.len() - i,
    {
        if a[i] != b[i] {
            return false;
        }
        i = i + 1;
    }
    assert(a@ =~= b@);
    true
}

} // verus!
