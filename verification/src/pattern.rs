//! Substring search over byte sequences.
//!
//! The parser recognises two tokens in its input: the part delimiter and the
//! blank line that ends a header block. Both are found by the same search,
//! whose meaning is given here once, together with the facts about it that the
//! cross-chunk reasoning needs: a search result does not change when more
//! input is appended, nor when the consumed prefix of the input is cut away.

use vstd::prelude::*;

verus! {

/// `pattern` occurs in `data` starting at index `at`.
pub open spec fn matches_at(data: Seq<u8>, at: int, pattern: Seq<u8>) -> bool {
    &&& 0 <= at
    &&& at + pattern.len() <= data.len()
    &&& forall|k: int| 0 <= k < pattern.len() ==> #[trigger] data[at + k] == pattern[k]
}

/// The least index `i >= from` at which `pattern` occurs in `data`, if any.
pub open spec fn first_match(data: Seq<u8>, from: int, pattern: Seq<u8>) -> Option<int>
    decreases data.len() - from,
{
    if from < 0 || from + pattern.len() > data.len() {
        None
    } else if matches_at(data, from, pattern) {
        Some(from)
    } else {
        first_match(data, from + 1, pattern)
    }
}

/// `first_match` returns the least occurrence at or after `from`, and `None`
/// exactly when there is no occurrence at or after `from`.
pub proof fn lemma_first_match_least(data: Seq<u8>, from: int, pattern: Seq<u8>)
    requires
        0 <= from,
    ensures
        match first_match(data, from, pattern) {
            Some(i) => {
                &&& from <= i
                &&& matches_at(data, i, pattern)
                &&& forall|j: int| from <= j < i ==> !matches_at(data, j, pattern)
            },
            None => forall|j: int| from <= j ==> !matches_at(data, j, pattern),
        },
    decreases data.len() - from,
{
    if from + pattern.len() > data.len() {
    } else if matches_at(data, from, pattern) {
    } else {
        lemma_first_match_least(data, from + 1, pattern);
    }
}

/// Any index that is a least occurrence is the one `first_match` returns.
pub proof fn lemma_first_match_unique(data: Seq<u8>, from: int, pattern: Seq<u8>, i: int)
    requires
        0 <= from <= i,
        matches_at(data, i, pattern),
        forall|j: int| from <= j < i ==> !matches_at(data, j, pattern),
    ensures
        first_match(data, from, pattern) == Some(i),
{
    lemma_first_match_least(data, from, pattern);
}

/// Where nothing occurs at or after `from`, the search returns `None`.
pub proof fn lemma_first_match_none(data: Seq<u8>, from: int, pattern: Seq<u8>)
    requires
        0 <= from,
        forall|j: int| from <= j ==> !matches_at(data, j, pattern),
    ensures
        first_match(data, from, pattern) is None,
{
    lemma_first_match_least(data, from, pattern);
}

/// An occurrence inside `data` is still an occurrence after input is appended,
/// and an occurrence in the longer input that ends inside `data` was one before.
pub proof fn lemma_matches_at_extend(data: Seq<u8>, more: Seq<u8>, at: int, pattern: Seq<u8>)
    requires
        0 <= at,
        at + pattern.len() <= data.len(),
    ensures
        matches_at(data + more, at, pattern) == matches_at(data, at, pattern),
{
    let longer = data + more;
    if matches_at(data, at, pattern) {
        assert forall|k: int| 0 <= k < pattern.len() implies #[trigger] longer[at + k]
            == pattern[k] by {
            assert(longer[at + k] == data[at + k]);
        }
    }
    if matches_at(longer, at, pattern) {
        assert forall|k: int| 0 <= k < pattern.len() implies #[trigger] data[at + k]
            == pattern[k] by {
            assert(longer[at + k] == data[at + k]);
        }
    }
}

/// A search that succeeded keeps its result when more input arrives.
pub proof fn lemma_first_match_extend(data: Seq<u8>, more: Seq<u8>, from: int, pattern: Seq<u8>)
    requires
        0 <= from,
        first_match(data, from, pattern) is Some,
    ensures
        first_match(data + more, from, pattern) == first_match(data, from, pattern),
{
    let i = first_match(data, from, pattern).unwrap();
    lemma_first_match_least(data, from, pattern);
    lemma_matches_at_extend(data, more, i, pattern);
    assert forall|j: int| from <= j < i implies !matches_at(data + more, j, pattern) by {
        lemma_matches_at_extend(data, more, j, pattern);
    }
    lemma_first_match_unique(data + more, from, pattern, i);
}

/// After a search that failed on `data`, every occurrence in the extended
/// input starts within the last `pattern.len() - 1` bytes of `data` or later.
pub proof fn lemma_first_match_after_miss(
    data: Seq<u8>,
    more: Seq<u8>,
    from: int,
    pattern: Seq<u8>,
)
    requires
        0 <= from,
        first_match(data, from, pattern) is None,
    ensures
        forall|j: int|
            from <= j && j + pattern.len() <= data.len() ==> !matches_at(data + more, j, pattern),
        match first_match(data + more, from, pattern) {
            Some(i) => i + pattern.len() > data.len(),
            None => true,
        },
{
    lemma_first_match_least(data, from, pattern);
    assert forall|j: int| from <= j && j + pattern.len() <= data.len() implies !matches_at(
        data + more,
        j,
        pattern,
    ) by {
        lemma_matches_at_extend(data, more, j, pattern);
    }
    lemma_first_match_least(data + more, from, pattern);
}

/// Searching from a later start gives the same result as long as nothing
/// occurs in the skipped stretch.
pub proof fn lemma_first_match_skip(data: Seq<u8>, from: int, later: int, pattern: Seq<u8>)
    requires
        0 <= from <= later,
        forall|j: int| from <= j < later ==> !matches_at(data, j, pattern),
    ensures
        first_match(data, later, pattern) == first_match(data, from, pattern),
{
    lemma_first_match_least(data, later, pattern);
    match first_match(data, later, pattern) {
        Some(i) => {
            lemma_first_match_unique(data, from, pattern, i);
        },
        None => {
            lemma_first_match_none(data, from, pattern);
        },
    }
}

/// Cutting away the first `cut` bytes shifts every occurrence by `cut`.
pub proof fn lemma_matches_at_shift(data: Seq<u8>, cut: int, at: int, pattern: Seq<u8>)
    requires
        0 <= cut <= data.len(),
        0 <= at,
    ensures
        matches_at(data.subrange(cut, data.len() as int), at, pattern) == matches_at(
            data,
            cut + at,
            pattern,
        ),
{
    let tail = data.subrange(cut, data.len() as int);
    if matches_at(data, cut + at, pattern) {
        assert forall|k: int| 0 <= k < pattern.len() implies #[trigger] tail[at + k]
            == pattern[k] by {
            assert(tail[at + k] == data[cut + at + k]);
        }
    }
    if matches_at(tail, at, pattern) {
        assert forall|k: int| 0 <= k < pattern.len() implies #[trigger] data[cut + at + k]
            == pattern[k] by {
            assert(tail[at + k] == data[cut + at + k]);
        }
    }
}

/// A search in the input with its first `cut` bytes removed finds what the
/// search in the whole input finds from `cut` on, shifted by `cut`.
pub proof fn lemma_first_match_shift(data: Seq<u8>, cut: int, from: int, pattern: Seq<u8>)
    requires
        0 <= cut <= data.len(),
        0 <= from,
    ensures
        first_match(data.subrange(cut, data.len() as int), from, pattern) == (match first_match(
            data,
            cut + from,
            pattern,
        ) {
            Some(i) => Some(i - cut),
            None => None,
        }),
{
    let tail = data.subrange(cut, data.len() as int);
    lemma_first_match_least(data, cut + from, pattern);
    match first_match(data, cut + from, pattern) {
        Some(i) => {
            lemma_matches_at_shift(data, cut, i - cut, pattern);
            assert forall|j: int| from <= j < i - cut implies !matches_at(tail, j, pattern) by {
                lemma_matches_at_shift(data, cut, j, pattern);
            }
            lemma_first_match_unique(tail, from, pattern, i - cut);
        },
        None => {
            assert forall|j: int| from <= j implies !matches_at(tail, j, pattern) by {
                lemma_matches_at_shift(data, cut, j, pattern);
            }
            lemma_first_match_none(tail, from, pattern);
        },
    }
}

/// Whether `pattern` occurs in `data` at index `at`.
pub fn occurs_at(data: &[u8], at: usize, pattern: &[u8]) -> (found: bool)
    ensures
        found == matches_at(data@, at as int, pattern@),
{
    if pattern.len() > data.len() || at > data.len() - pattern.len() {
        return false;
    }
    let mut k: usize = 0;
    while k < pattern.len()
        invariant
            k <= pattern.len(),
            at + pattern.len() <= data.len(),
            forall|m: int| 0 <= m < k ==> #[trigger] data@[at + m] == pattern@[m],
        decreases pattern.len() - k,
    {
        if data[at + k] != pattern[k] {
            return false;
        }
        k += 1;
    }
    true
}

/// Finds the first occurrence of `pattern` in `data` at or after `from`.
pub fn find_from(data: &[u8], from: usize, pattern: &[u8]) -> (found: Option<usize>)
    ensures
        match found {
            Some(i) => first_match(data@, from as int, pattern@) == Some(i as int),
            None => first_match(data@, from as int, pattern@) is None,
        },
{
    if pattern.len() > data.len() || from > data.len() - pattern.len() {
        return None;
    }
    let last: usize = data.len() - pattern.len();
    let mut i: usize = from;
    while i <= last
        invariant
            from <= i <= last + 1,
            last == data.len() - pattern.len(),
            first_match(data@, i as int, pattern@) == first_match(data@, from as int, pattern@),
        decreases last + 1 - i,
    {
        if occurs_at(data, i, pattern) {
            return Some(i);
        }
        i += 1;
    }
    None
}

} // verus!
