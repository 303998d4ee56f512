//! Locating the first occurrence of a byte.
//!
//! `find_byte` is the specification-level search; the executable search is
//! `memchr::memchr`, trusted to return the first occurrence.

use vstd::prelude::*;

verus! {

/// Relies on memchr::memchr: it returns the index of the first occurrence
/// of `needle` in `haystack`, or `None` when `needle` does not occur.
pub assume_specification[ memchr::memchr ](needle: u8, haystack: &[u8]) -> (r: Option<usize>)
    ensures
        match r {
            Some(i) => i < haystack@.len() && haystack@[i as int] == needle && forall|j: int|
                0 <= j < i ==> haystack@[j] != needle,
            None => forall|j: int| 0 <= j < haystack@.len() ==> haystack@[j] != needle,
        },
;

/// Index of the first occurrence of `c` in `s`, if any.
pub open spec fn find_byte(s: Seq<u8>, c: u8) -> Option<int>
    decreases s.len(),
{
    if s.len() == 0 {
        None
    } else if s[0] == c {
        Some(0)
    } else {
        match find_byte(s.drop_first(), c) {
            Some(i) => Some(i + 1),
            None => None,
        }
    }
}

/// `find_byte` returns the first occurrence, and `None` exactly when there
/// is none.
pub proof fn lemma_find_byte_props(s: Seq<u8>, c: u8)
    ensures
        match find_byte(s, c) {
            Some(i) => 0 <= i < s.len() && s[i] == c && forall|j: int| 0 <= j < i ==> s[j] != c,
            None => forall|j: int| 0 <= j < s.len() ==> s[j] != c,
        },
    decreases s.len(),
{
    if s.len() == 0 {
    } else if s[0] == c {
    } else {
        lemma_find_byte_props(s.drop_first(), c);
        match find_byte(s.drop_first(), c) {
            Some(i) => {
                assert forall|j: int| 0 <= j < i + 1 implies s[j] != c by {
                    if j > 0 {
                        assert(s.drop_first()[j - 1] == s[j]);
                    }
                }
            },
            None => {
                assert forall|j: int| 0 <= j < s.len() implies s[j] != c by {
                    if j > 0 {
                        assert(s.drop_first()[j - 1] == s[j]);
                    }
                }
            },
        }
    }
}

/// A first occurrence determines `find_byte`.
pub proof fn lemma_find_byte_is(s: Seq<u8>, c: u8, k: int)
    requires
        0 <= k < s.len(),
        s[k] == c,
        forall|j: int| 0 <= j < k ==> s[j] != c,
    ensures
        find_byte(s, c) == Some(k),
{
    lemma_find_byte_props(s, c);
    match find_byte(s, c) {
        Some(i) => {
            if i < k {
                assert(s[i] == c);
                assert(false);
            }
            if k < i {
                assert(s[k] != c);
                assert(false);
            }
        },
        None => {
            assert(s[k] != c);
            assert(false);
        },
    }
}

/// Absence of the byte determines `find_byte`.
pub proof fn lemma_find_byte_none(s: Seq<u8>, c: u8)
    requires
        forall|j: int| 0 <= j < s.len() ==> s[j] != c,
    ensures
        find_byte(s, c) is None,
{
    lemma_find_byte_props(s, c);
    match find_byte(s, c) {
        Some(i) => {
            assert(s[i] == c);
            assert(false);
        },
        None => {},
    }
}

} // verus!
