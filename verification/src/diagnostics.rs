//! What can be told about a single chunk.
//!
//! A chunk is a window on the body with no memory of what came before it.
//! These functions look at one such window: whether it ends in the middle of
//! a delimiter, how many delimiters it holds, and what the delimiter that
//! closes a body looks like.

use crate::pattern::{find_from, first_match, lemma_first_match_least, matches_at, occurs_at};
use crate::request::HYPHEN;
use vstd::prelude::*;
use vstd::slice::slice_subrange;

verus! {

/// `data` ends with the first `n` bytes of `boundary`, where `n` is at
/// least one and less than the length of the boundary.
pub open spec fn ends_with_start_of(data: Seq<u8>, boundary: Seq<u8>, n: int) -> bool {
    &&& 1 <= n < boundary.len()
    &&& n <= data.len()
    &&& matches_at(data, data.len() - n, boundary.subrange(0, n))
}

/// Number of occurrences of `pattern` in `data` at or after `from` that do
/// not overlap, counted from the left. The empty pattern occurs once at
/// every position, the end included.
pub open spec fn match_count(data: Seq<u8>, from: int, pattern: Seq<u8>) -> nat
    decreases data.len() + 1 - from,
    via match_count_decreases
{
    match first_match(data, from, pattern) {
        Some(at) => 1 + match_count(
            data,
            at + if pattern.len() > 0 {
                pattern.len() as int
            } else {
                1
            },
            pattern,
        ),
        None => 0,
    }
}

#[via_fn]
proof fn match_count_decreases(data: Seq<u8>, from: int, pattern: Seq<u8>) {
    if from >= 0 {
        lemma_first_match_least(data, from, pattern);
        match first_match(data, from, pattern) {
            Some(at) => {
                assert(matches_at(data, at, pattern));
                assert(from <= at && at + pattern.len() <= data.len());
            },
            None => {},
        }
    }
}

/// The delimiter that closes a body: the boundary followed by two hyphens.
pub open spec fn closing_boundary(boundary: Seq<u8>) -> Seq<u8> {
    boundary + seq![HYPHEN, HYPHEN]
}

/// Length of the shortest beginning of `boundary`, of at least one byte and
/// not the whole of it, with which `data` ends. `None` where `data` ends
/// with no such beginning.
pub fn partial_boundary_at_end(data: &[u8], boundary: &[u8]) -> (found: Option<usize>)
    ensures
        match found {
            Some(n) => {
                &&& ends_with_start_of(data@, boundary@, n as int)
                &&& forall|k: int| 1 <= k < n ==> !ends_with_start_of(data@, boundary@, k)
            },
            None => forall|k: int| !ends_with_start_of(data@, boundary@, k),
        },
{
    let mut n: usize = 1;
    while n < boundary.len() && n <= data.len()
        invariant
            1 <= n,
            forall|k: int| 1 <= k < n ==> !ends_with_start_of(data@, boundary@, k),
        decreases boundary.len() - n,
    {
        if occurs_at(data, data.len() - n, slice_subrange(boundary, 0, n)) {
            return Some(n);
        }
        n += 1;
    }
    None
}

/// Counts the occurrences of `pattern` in `data` that do not overlap.
pub fn count_matches(data: &[u8], pattern: &[u8]) -> (count: usize)
    requires
        pattern.len() > 0 || data.len() < usize::MAX,
    ensures
        count == match_count(data@, 0, pattern@),
{
    let stride: usize = if pattern.len() > 0 {
        pattern.len()
    } else {
        1
    };
    let mut count: usize = 0;
    let mut from: usize = 0;
    loop
        invariant
            count <= from <= data.len() + 1,
            pattern@.len() > 0 || data@.len() < usize::MAX,
            stride == if pattern@.len() > 0 {
                pattern@.len() as int
            } else {
                1
            },
            count + match_count(data@, from as int, pattern@) == match_count(data@, 0, pattern@),
        decreases data.len() + 1 - from,
    {
        proof {
            lemma_first_match_least(data@, from as int, pattern@);
        }
        match find_from(data, from, pattern) {
            Some(at) => {
                assert(matches_at(data@, at as int, pattern@));
                count += 1;
                from = at + stride;
            },
            None => {
                return count;
            },
        }
    }
}

/// The delimiter that closes a body.
pub fn closing_delimiter(boundary: &[u8]) -> (closing: Vec<u8>)
    ensures
        closing@ == closing_boundary(boundary@),
{
    let mut closing: Vec<u8> = Vec::new();
    let mut k: usize = 0;
    while k < boundary.len()
        invariant
            k <= boundary.len(),
            closing@ == boundary@.subrange(0, k as int),
        decreases boundary.len() - k,
    {
        closing.push(boundary[k]);
        assert(closing@ =~= boundary@.subrange(0, k + 1));
        k += 1;
    }
    closing.push(HYPHEN);
    closing.push(HYPHEN);
    assert(closing@ =~= closing_boundary(boundary@));
    closing
}

} // verus!
