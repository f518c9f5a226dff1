//! The head of an upload request.
//!
//! The head is the header block of the request, up to and including its
//! blank line. It declares the boundary token of the body in its
//! `Content-Type` line and the length of the body in its `Content-Length`
//! line. This module reads both, and says how many bytes of the body are to
//! be read next.

use crate::headers::{
    ascii, content_type_prefix, content_type_prefix_bytes, has_prefix_ignoring_case,
    header_lines, split_line, starts_with_ignoring_case, trim, trim_bytes, CR, LF,
};
use crate::model::header_end;
use crate::pattern::{find_from, first_match, lemma_first_match_least, matches_at, occurs_at};
use vstd::prelude::*;
use vstd::slice::slice_subrange;

verus! {

pub const COLON: u8 = 58;

pub const PLUS: u8 = 43;

pub const HYPHEN: u8 = 45;

/// Header name that introduces the declared length, in lower case.
pub open spec fn content_length_prefix() -> Seq<u8> {
    ascii("content-length:"@)
}

/// The parameter of the content type that gives the boundary token.
pub open spec fn boundary_key() -> Seq<u8> {
    ascii("boundary="@)
}

/// The head is complete: it ends with the blank line.
pub open spec fn head_complete(buffer: Seq<u8>) -> bool {
    buffer.len() >= 4 && matches_at(buffer, buffer.len() - 4, header_end())
}

/// The first of `lines` that begins with `prefix`, letters compared without
/// regard to case.
pub open spec fn first_line_with(lines: Seq<Seq<u8>>, prefix: Seq<u8>) -> Option<Seq<u8>>
    decreases lines.len(),
{
    if lines.len() == 0 {
        None
    } else if has_prefix_ignoring_case(lines[0], prefix) {
        Some(lines[0])
    } else {
        first_line_with(lines.drop_first(), prefix)
    }
}

/// The delimiter that the head declares: two hyphens followed by the
/// boundary token, which is what follows `boundary=` in the first
/// content-type line, without white space at its ends. Empty where the head
/// has no content-type line or that line names no boundary.
pub open spec fn declared_boundary(head: Seq<u8>) -> Seq<u8> {
    match first_line_with(header_lines(head), content_type_prefix()) {
        Some(line) => match first_match(line, 0, boundary_key()) {
            Some(at) => seq![HYPHEN, HYPHEN] + trim(
                line.subrange(at + boundary_key().len(), line.len() as int),
            ),
            None => Seq::empty(),
        },
        None => Seq::empty(),
    }
}

/// What stands between the first colon of `line` and the next one, or the
/// end of the line.
pub open spec fn second_field(line: Seq<u8>) -> Option<Seq<u8>> {
    match first_match(line, 0, seq![COLON]) {
        Some(first) => match first_match(line, first + 1, seq![COLON]) {
            Some(second) => Some(line.subrange(first + 1, second)),
            None => Some(line.subrange(first + 1, line.len() as int)),
        },
        None => None,
    }
}

/// Whether a byte is a decimal digit.
pub open spec fn is_digit(b: u8) -> bool {
    48 <= b <= 57
}

/// The number that a run of decimal digits writes.
pub open spec fn digits_value(digits: Seq<u8>) -> nat
    decreases digits.len(),
{
    if digits.len() == 0 {
        0
    } else {
        digits_value(digits.drop_last()) * 10 + if is_digit(digits.last()) {
            (digits.last() - 48) as nat
        } else {
            0
        }
    }
}

/// Every byte is a decimal digit.
pub open spec fn all_digits(text: Seq<u8>) -> bool {
    forall|k: int| 0 <= k < text.len() ==> is_digit(#[trigger] text[k])
}

/// The count that `text` writes: decimal digits, at least one, with or
/// without a plus sign before them, of a value that a `usize` holds. 0 for
/// any other text.
pub open spec fn count_value(text: Seq<u8>) -> nat {
    let digits = if text.len() > 0 && text[0] == PLUS {
        text.drop_first()
    } else {
        text
    };
    if digits.len() > 0 && all_digits(digits) && digits_value(digits) <= usize::MAX {
        digits_value(digits)
    } else {
        0
    }
}

/// The length that the head declares: the count written in the first
/// content-length line, after its colon. 0 where the head has no such line
/// or no count is written there.
pub open spec fn declared_length(head: Seq<u8>) -> nat {
    match first_line_with(header_lines(head), content_length_prefix()) {
        Some(line) => match second_field(line) {
            Some(field) => count_value(trim(field)),
            None => 0,
        },
        None => 0,
    }
}

/// The body is read in full: a length was declared and reached.
pub open spec fn body_read(content_length: nat, bytes_read: nat) -> bool {
    content_length > 0 && bytes_read >= content_length
}

/// How many bytes to ask for next: what is missing of a declared length,
/// and a full buffer where it is more than that or no length was declared.
pub open spec fn read_size(content_length: nat, bytes_read: nat, capacity: nat) -> nat {
    if content_length == 0 {
        capacity
    } else if bytes_read >= content_length {
        0
    } else if content_length - bytes_read < capacity {
        (content_length - bytes_read) as nat
    } else {
        capacity
    }
}

/// Whether a progress line is due, and if so the mark to remember. A line
/// is due at every full ten per cent of a declared length, and at every
/// full ten megabytes where no percentage is known; `last` is the mark of
/// the line before, so that no line is given twice.
pub open spec fn progress_due(percent: nat, megabytes: nat, last: nat) -> Option<nat> {
    let by_percent = percent > 0 && percent % 10 == 0 && percent != last;
    let by_size = megabytes > 0 && megabytes % 10 == 0 && megabytes != last;
    if by_percent || (by_size && percent == 0) {
        Some(
            if percent > 0 {
                percent
            } else {
                megabytes
            },
        )
    } else {
        None
    }
}

proof fn lemma_digits_value_grows(digits: Seq<u8>, shorter: int)
    requires
        0 <= shorter <= digits.len(),
    ensures
        digits_value(digits.subrange(0, shorter)) <= digits_value(digits),
    decreases digits.len() - shorter,
{
    if shorter == digits.len() {
        assert(digits.subrange(0, shorter) =~= digits);
    } else {
        let longer = digits.subrange(0, shorter + 1);
        assert(longer.drop_last() =~= digits.subrange(0, shorter));
        lemma_digits_value_grows(digits, shorter + 1);
        assert(digits_value(longer) >= digits_value(longer.drop_last())) by (nonlinear_arith)
            requires
                digits_value(longer) >= digits_value(longer.drop_last()) * 10,
        ;
    }
}

fn content_length_prefix_bytes() -> (bytes: &'static [u8])
    ensures
        bytes@ == content_length_prefix(),
{
    let bytes = "content-length:".as_bytes();
    proof {
        reveal_strlit("content-length:");
        vstd::string::is_ascii_spec_bytes("content-length:");
        assert(bytes@ =~= content_length_prefix());
    }
    bytes
}

fn boundary_key_bytes() -> (bytes: &'static [u8])
    ensures
        bytes@ == boundary_key(),
        bytes@.len() == 9,
{
    let bytes = "boundary=".as_bytes();
    proof {
        reveal_strlit("boundary=");
        vstd::string::is_ascii_spec_bytes("boundary=");
        assert(bytes@ =~= boundary_key());
    }
    bytes
}

/// Whether the bytes read so far end with the blank line that closes the
/// head.
pub fn is_head_complete(buffer: &[u8]) -> (complete: bool)
    ensures
        complete == head_complete(buffer@),
{
    if buffer.len() < 4 {
        return false;
    }
    let mark: [u8; 4] = [CR, LF, CR, LF];
    assert(mark@ =~= header_end());
    occurs_at(buffer, buffer.len() - 4, mark.as_slice())
}

/// Finds the first line of `head` that begins with `prefix`, letters
/// compared without regard to case. Returns where the line begins and ends.
pub fn find_line(head: &[u8], prefix: &[u8]) -> (found: Option<(usize, usize)>)
    ensures
        match found {
            Some((from, to)) => {
                &&& from <= to <= head@.len()
                &&& first_line_with(header_lines(head@), prefix@) == Some(
                    head@.subrange(from as int, to as int),
                )
            },
            None => first_line_with(header_lines(head@), prefix@) is None,
        },
{
    let mut start: usize = 0;
    assert(head@.subrange(0, head.len() as int) =~= head@);
    while start < head.len()
        invariant
            start <= head.len(),
            first_line_with(
                header_lines(head@.subrange(start as int, head.len() as int)),
                prefix@,
            ) == first_line_with(header_lines(head@), prefix@),
        decreases head.len() - start,
    {
        let cut = split_line(head, start);
        let line = slice_subrange(head, start, cut.0);
        proof {
            let lines = header_lines(head@.subrange(start as int, head.len() as int));
            let rest = header_lines(head@.subrange(cut.1 as int, head.len() as int));
            assert(lines[0] == line@);
            assert(lines.drop_first() =~= rest);
        }
        if starts_with_ignoring_case(line, prefix) {
            return Some((start, cut.0));
        }
        start = cut.1;
    }
    proof {
        let done = head@.subrange(start as int, head.len() as int);
        assert(header_lines(done) =~= Seq::<Seq<u8>>::empty());
    }
    None
}

/// Reads the delimiter that the head declares.
pub fn extract_boundary(head: &[u8]) -> (boundary: Vec<u8>)
    ensures
        boundary@ == declared_boundary(head@),
{
    match find_line(head, content_type_prefix_bytes()) {
        Some((from, to)) => {
            let line = slice_subrange(head, from, to);
            let key = boundary_key_bytes();
            match find_from(line, 0, key) {
                Some(at) => {
                    proof {
                        lemma_first_match_least(line@, 0, key@);
                        assert(matches_at(line@, at as int, key@));
                    }
                    assert(at + 9 <= line.len());
                    let token = trim_bytes(slice_subrange(line, at + 9, line.len()));
                    let mut boundary: Vec<u8> = Vec::new();
                    boundary.push(HYPHEN);
                    boundary.push(HYPHEN);
                    let mut k: usize = 0;
                    while k < token.len()
                        invariant
                            k <= token.len(),
                            boundary@ == seq![HYPHEN, HYPHEN] + token@.subrange(0, k as int),
                        decreases token.len() - k,
                    {
                        boundary.push(token[k]);
                        assert(boundary@ =~= seq![HYPHEN, HYPHEN] + token@.subrange(0, k + 1));
                        k += 1;
                    }
                    assert(token@.subrange(0, k as int) =~= token@);
                    boundary
                },
                None => {
                    let boundary: Vec<u8> = Vec::new();
                    assert(boundary@ =~= Seq::<u8>::empty());
                    boundary
                },
            }
        },
        None => {
            let boundary: Vec<u8> = Vec::new();
            assert(boundary@ =~= Seq::<u8>::empty());
            boundary
        },
    }
}

/// Reads a count: decimal digits with or without a plus sign before them.
/// Gives 0 for any other text and for a number that a `usize` cannot hold.
pub fn parse_count(text: &[u8]) -> (count: usize)
    ensures
        count == count_value(text@),
{
    let start: usize = if text.len() > 0 && text[0] == PLUS {
        1
    } else {
        0
    };
    let digits = slice_subrange(text, start, text.len());
    proof {
        if start == 1 {
            assert(digits@ =~= text@.drop_first());
        } else {
            assert(digits@ =~= text@);
        }
    }
    if digits.len() == 0 {
        return 0;
    }
    let mut value: usize = 0;
    let mut k: usize = 0;
    assert(digits@.subrange(0, 0) =~= Seq::<u8>::empty());

    while k < digits.len()
        invariant
            k <= digits.len(),
            forall|j: int| 0 <= j < k ==> is_digit(#[trigger] digits@[j]),
            value == digits_value(digits@.subrange(0, k as int)),
            count_value(text@) == (if all_digits(digits@) && digits_value(digits@)
                <= usize::MAX {
                digits_value(digits@)
            } else {
                0
            }),
        decreases digits.len() - k,
    {
        let b = digits[k];
        if b < 48 || b > 57 {
            assert(!is_digit(digits@[k as int]));
            return 0;
        }
        let d: usize = (b - 48) as usize;
        proof {
            let longer = digits@.subrange(0, k + 1);
            assert(longer.drop_last() =~= digits@.subrange(0, k as int));
            assert(longer.last() == b);
            lemma_digits_value_grows(digits@, k + 1);
        }
        if value > (usize::MAX - d) / 10 {
            assert(digits_value(digits@.subrange(0, k + 1)) == value * 10 + d);
            assert(value * 10 + d > usize::MAX);
            return 0;
        }
        value = value * 10 + d;
        k += 1;
    }
    assert(digits@.subrange(0, k as int) =~= digits@);
    value
}

/// Reads the length that the head declares.
pub fn extract_content_length(head: &[u8]) -> (length: usize)
    ensures
        length == declared_length(head@),
{
    match find_line(head, content_length_prefix_bytes()) {
        Some((from, to)) => {
            let line = slice_subrange(head, from, to);
            let colon: [u8; 1] = [COLON];
            assert(colon@ =~= seq![COLON]);
            match find_from(line, 0, colon.as_slice()) {
                Some(first) => {
                    proof {
                        lemma_first_match_least(line@, 0, seq![COLON]);
                        assert(matches_at(line@, first as int, seq![COLON]));
                    }
                    assert(first + 1 <= line.len());
                    let end: usize = match find_from(line, first + 1, colon.as_slice()) {
                        Some(second) => {
                            proof {
                                lemma_first_match_least(line@, first + 1, seq![COLON]);
                            }
                            second
                        },
                        None => line.len(),
                    };
                    parse_count(trim_bytes(slice_subrange(line, first + 1, end)))
                },
                None => 0,
            }
        },
        None => 0,
    }
}

/// Whether the body is read in full: a length was declared and reached.
pub fn body_complete(content_length: usize, bytes_read: usize) -> (done: bool)
    ensures
        done == body_read(content_length as nat, bytes_read as nat),
{
    content_length > 0 && bytes_read >= content_length
}

/// How many bytes to ask the connection for next, with a buffer of
/// `capacity` bytes.
pub fn next_read_len(content_length: usize, bytes_read: usize, capacity: usize) -> (len: usize)
    ensures
        len == read_size(content_length as nat, bytes_read as nat, capacity as nat),
        len <= capacity,
{
    if content_length == 0 {
        capacity
    } else if bytes_read >= content_length {
        0
    } else if content_length - bytes_read < capacity {
        content_length - bytes_read
    } else {
        capacity
    }
}

/// Decides whether a progress line is due after a read. Gives the mark to
/// remember for the next decision where one is.
pub fn progress_mark(percent: usize, megabytes: usize, last: usize) -> (mark: Option<usize>)
    ensures
        match mark {
            Some(v) => progress_due(percent as nat, megabytes as nat, last as nat) == Some(
                v as nat,
            ),
            None => progress_due(percent as nat, megabytes as nat, last as nat) is None,
        },
{
    let by_percent = percent > 0 && percent % 10 == 0 && percent != last;
    let by_size = megabytes > 0 && megabytes % 10 == 0 && megabytes != last;
    if by_percent || (by_size && percent == 0) {
        if percent > 0 {
            Some(percent)
        } else {
            Some(megabytes)
        }
    } else {
        None
    }
}

} // verus!
