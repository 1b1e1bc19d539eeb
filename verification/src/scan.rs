//! Locating the first occurrence of a separator in a sequence.
//!
//! The whole wire format is split on single separator occurrences: `\n`
//! between lines, a space between request-line tokens, `?` between path and
//! query, `&` between query pairs, `=` inside a pair, `:` inside a header
//! line.  [`find_first`] is the one specification all of those share.

use vstd::prelude::*;

verus! {

/// Index of the first occurrence of `x` in `s`, if any.
pub open spec fn find_first<T>(s: Seq<T>, x: T) -> Option<int>
    decreases s.len(),
{
    if s.len() == 0 {
        None
    } else if s[0] == x {
        Some(0int)
    } else {
        match find_first(s.drop_first(), x) {
            None => None,
            Some(i) => Some(i + 1),
        }
    }
}

/// `find_first` returns exactly the first occurrence: `None` when `x` does
/// not occur, and otherwise the least index holding `x`.
pub proof fn lemma_find_first<T>(s: Seq<T>, x: T)
    ensures
        match find_first(s, x) {
            None => forall|j: int| 0 <= j < s.len() ==> s[j] != x,
            Some(i) => 0 <= i < s.len() && s[i] == x && (forall|j: int| 0 <= j < i ==> s[j] != x),
        },
    decreases s.len(),
{
    if s.len() > 0 && s[0] != x {
        lemma_find_first(s.drop_first(), x);
        assert forall|j: int| 1 <= j < s.len() implies s.drop_first()[j - 1] == s[j] by {}
    }
}

/// If `s[k]` is the first occurrence of `x`, then `find_first` returns `k`.
pub proof fn lemma_find_first_is<T>(s: Seq<T>, x: T, k: int)
    requires
        0 <= k < s.len(),
        s[k] == x,
        forall|j: int| 0 <= j < k ==> s[j] != x,
    ensures
        find_first(s, x) == Some(k),
{
    lemma_find_first(s, x);
    match find_first(s, x) {
        None => {
            assert(false);
        },
        Some(i) => {
            if i < k {
                assert(s[i] != x);
            }
            if k < i {
                assert(s[k] != x);
            }
        },
    }
}

/// If `x` does not occur in `s`, then `find_first` returns `None`.
pub proof fn lemma_find_first_none<T>(s: Seq<T>, x: T)
    requires
        forall|j: int| 0 <= j < s.len() ==> s[j] != x,
    ensures
        find_first(s, x) is None,
{
    lemma_find_first(s, x);
    match find_first(s, x) {
        None => {},
        Some(i) => {
            assert(s[i] != x);
        },
    }
}

/// First occurrence of the byte `x` in the slice `s`.
pub fn find_byte(s: &[u8], x: u8) -> (r: Option<usize>)
    ensures
        match r {
            Some(i) => find_first(s@, x) == Some(i as int),
            None => find_first(s@, x) is None,
        },
{
    let n = s.len();
    let mut i: usize = 0;
    while i < n
        invariant
            0 <= i <= n,
            n == s@.len(),
            forall|j: int| 0 <= j < i ==> s@[j] != x,
        decreases n - i,
    {
        if s[i] == x {
            proof {
                lemma_find_first_is(s@, x, i as int);
            }
            return Some(i);
        }
        i = i + 1;
    }
    proof {
        lemma_find_first_none(s@, x);
    }
    None
}

/// First occurrence of the character `x` in the slice `s`.
pub fn find_char(s: &[char], x: char) -> (r: Option<usize>)
    ensures
        match r {
            Some(i) => find_first(s@, x) == Some(i as int),
            None => find_first(s@, x) is None,
        },
{
    let n = s.len();
    let mut i: usize = 0;
    while i < n
        invariant
            0 <= i <= n,
            n == s@.len(),
            forall|j: int| 0 <= j < i ==> s@[j] != x,
        decreases n - i,
    {
        if s[i] == x {
            proof {
                lemma_find_first_is(s@, x, i as int);
            }
            return Some(i);
        }
        i = i + 1;
    }
    proof {
        lemma_find_first_none(s@, x);
    }
    None
}

} // verus!
