//! Classification of a part from its header block.
//!
//! A header block is the run of bytes between a delimiter line and the blank
//! line that ends the headers. It is read line by line. A
//! `Content-Disposition` line gives the field name and decides whether the
//! part is a plain field or a file; a `Content-Type` line gives a file part
//! its declared content type. Lines that are malformed change nothing: a part
//! whose headers cannot be read is a field with an empty name.

use crate::pattern::{find_from, first_match, lemma_first_match_least, matches_at};
use vstd::prelude::*;
use vstd::slice::slice_subrange;
use vstd::slice::slice_to_vec;

verus! {

pub const CR: u8 = 13;

pub const LF: u8 = 10;

pub const QUOTE: u8 = 34;

/// The bytes of a text made of ASCII characters.
pub open spec fn ascii(text: Seq<char>) -> Seq<u8> {
    Seq::new(text.len(), |i: int| text[i] as u8)
}

/// Header name that introduces the disposition of a part, in lower case.
pub open spec fn disposition_prefix() -> Seq<u8> {
    ascii("content-disposition:"@)
}

/// Header name that introduces the content type of a part, in lower case.
pub open spec fn content_type_prefix() -> Seq<u8> {
    ascii("content-type:"@)
}

/// Opening of the quoted field name inside a disposition line.
pub open spec fn name_key() -> Seq<u8> {
    ascii("name=\""@)
}

/// Opening of the quoted file name inside a disposition line.
pub open spec fn filename_key() -> Seq<u8> {
    ascii("filename=\""@)
}

/// What kind of part a header block announced.
#[derive(Debug, Clone, PartialEq, Eq)]
pub enum PartKind {
    Field,
    File { filename: Vec<u8>, content_type: Vec<u8> },
}

/// Mathematical value of a [`PartKind`].
pub ghost enum PartKindView {
    Field,
    File { filename: Seq<u8>, content_type: Seq<u8> },
}

impl View for PartKind {
    type V = PartKindView;

    open spec fn view(&self) -> PartKindView {
        match self {
            PartKind::Field => PartKindView::Field,
            PartKind::File { filename, content_type } => PartKindView::File {
                filename: filename@,
                content_type: content_type@,
            },
        }
    }
}

/// The name and kind of the part that is being read.
#[derive(Debug, Clone, PartialEq, Eq)]
pub struct PartDescriptor {
    pub kind: PartKind,
    pub field_name: Vec<u8>,
}

/// Mathematical value of a [`PartDescriptor`].
pub ghost struct PartView {
    pub kind: PartKindView,
    pub field_name: Seq<u8>,
}

impl View for PartDescriptor {
    type V = PartView;

    open spec fn view(&self) -> PartView {
        PartView { kind: self.kind@, field_name: self.field_name@ }
    }
}

/// The descriptor of a part of which nothing is known yet.
pub open spec fn blank_part() -> PartView {
    PartView { kind: PartKindView::Field, field_name: Seq::empty() }
}

/// Lower-case form of an ASCII letter; other bytes are unchanged.
pub open spec fn lower(b: u8) -> u8 {
    if 65 <= b <= 90 {
        (b + 32) as u8
    } else {
        b
    }
}

/// `line` begins with `prefix`, letters compared without regard to case.
/// `prefix` is given in lower case.
pub open spec fn has_prefix_ignoring_case(line: Seq<u8>, prefix: Seq<u8>) -> bool {
    &&& prefix.len() <= line.len()
    &&& forall|k: int| 0 <= k < prefix.len() ==> lower(#[trigger] line[k]) == prefix[k]
}

/// Whether a byte is a letter.
pub open spec fn is_letter(b: u8) -> bool {
    65 <= b <= 90 || 97 <= b <= 122
}

/// Where the parameter that `key` opens begins in `line`, at or after
/// `from`: the first place where `key` occurs and is a word of its own, at
/// the start of the line or after a byte that is no letter. The key `name="`
/// is therefore not found inside `filename="`.
pub open spec fn param_start(line: Seq<u8>, from: int, key: Seq<u8>) -> Option<int>
    decreases line.len() + 1 - from,
    via param_start_decreases
{
    match first_match(line, from, key) {
        Some(at) => if at == 0 || !is_letter(line[at - 1]) {
            Some(at)
        } else {
            param_start(line, at + 1, key)
        },
        None => None,
    }
}

#[via_fn]
proof fn param_start_decreases(line: Seq<u8>, from: int, key: Seq<u8>) {
    if from >= 0 {
        lemma_first_match_least(line, from, key);
        match first_match(line, from, key) {
            Some(at) => {
                assert(matches_at(line, at, key));
                assert(from <= at && at + key.len() <= line.len());
            },
            None => {},
        }
    }
}

/// The value between `key` (which ends in an opening quote) and the next
/// quote after it, where `key` opens a parameter of `line`. `None` where the
/// line has no such parameter or the value is not closed.
pub open spec fn quoted_param(line: Seq<u8>, key: Seq<u8>) -> Option<Seq<u8>> {
    match param_start(line, 0, key) {
        Some(at) => match first_match(line, at + key.len(), seq![QUOTE]) {
            Some(close) => Some(line.subrange(at + key.len(), close)),
            None => None,
        },
        None => None,
    }
}

/// White space as far as trimming is concerned: space, tab, line feed,
/// vertical tab, form feed, carriage return.
pub open spec fn is_space(b: u8) -> bool {
    b == 32 || 9 <= b <= 13
}

/// `s` without its leading white space.
pub open spec fn trim_start(s: Seq<u8>) -> Seq<u8>
    decreases s.len(),
{
    if s.len() > 0 && is_space(s[0]) {
        trim_start(s.drop_first())
    } else {
        s
    }
}

/// `s` without its trailing white space.
pub open spec fn trim_end(s: Seq<u8>) -> Seq<u8>
    decreases s.len(),
{
    if s.len() > 0 && is_space(s.last()) {
        trim_end(s.drop_last())
    } else {
        s
    }
}

/// `s` without white space at either end.
pub open spec fn trim(s: Seq<u8>) -> Seq<u8> {
    trim_end(trim_start(s))
}

/// Effect of a disposition line on the descriptor. A closed `name="…"` sets
/// the field name. Where the line has a `filename="` parameter, a closed
/// value makes the part a file and an open one leaves the kind as it was;
/// where it has none the part is a field.
pub open spec fn disposition_effect(part: PartView, line: Seq<u8>) -> PartView {
    let field_name = match quoted_param(line, name_key()) {
        Some(name) => name,
        None => part.field_name,
    };
    let kind = if param_start(line, 0, filename_key()) is Some {
        match quoted_param(line, filename_key()) {
            Some(filename) => PartKindView::File { filename, content_type: Seq::empty() },
            None => part.kind,
        }
    } else {
        PartKindView::Field
    };
    PartView { kind, field_name }
}

/// Effect of a content-type line: a file part takes the trimmed rest of the
/// line as its content type; a field is unchanged.
pub open spec fn content_type_effect(part: PartView, line: Seq<u8>) -> PartView {
    match part.kind {
        PartKindView::File { filename, content_type } => PartView {
            kind: PartKindView::File {
                filename,
                content_type: trim(
                    line.subrange(content_type_prefix().len() as int, line.len() as int),
                ),
            },
            field_name: part.field_name,
        },
        PartKindView::Field => part,
    }
}

/// Effect of one header line on the descriptor.
pub open spec fn header_line_effect(part: PartView, line: Seq<u8>) -> PartView {
    let after = if has_prefix_ignoring_case(line, disposition_prefix()) {
        disposition_effect(part, line)
    } else {
        part
    };
    if has_prefix_ignoring_case(line, content_type_prefix()) {
        content_type_effect(after, line)
    } else {
        after
    }
}

/// Number of bytes before the first line feed of `block`, or its length where
/// it holds none.
pub open spec fn line_length(block: Seq<u8>) -> nat
    decreases block.len(),
{
    if block.len() == 0 || block[0] == LF {
        0
    } else {
        1 + line_length(block.drop_first())
    }
}

/// A line without the carriage return that stood before its line feed.
pub open spec fn without_trailing_cr(line: Seq<u8>) -> Seq<u8> {
    if line.len() > 0 && line.last() == CR {
        line.drop_last()
    } else {
        line
    }
}

/// The lines of a header block. Lines end at a line feed; a carriage return
/// directly before the line feed belongs to the line ending. The last line
/// needs no line ending, and an empty block has no lines.
pub open spec fn header_lines(block: Seq<u8>) -> Seq<Seq<u8>>
    decreases block.len(),
{
    if block.len() == 0 {
        Seq::empty()
    } else {
        let n = line_length(block) as int;
        if n < block.len() {
            seq![without_trailing_cr(block.subrange(0, n))] + header_lines(
                block.subrange(n + 1, block.len() as int),
            )
        } else {
            seq![block]
        }
    }
}

/// Effect of a run of header lines, taken in order.
pub open spec fn header_lines_effect(part: PartView, lines: Seq<Seq<u8>>) -> PartView
    decreases lines.len(),
{
    if lines.len() == 0 {
        part
    } else {
        header_lines_effect(header_line_effect(part, lines[0]), lines.drop_first())
    }
}

/// The descriptor that results from reading `block` line by line, starting
/// from `part`.
pub open spec fn header_block_effect(part: PartView, block: Seq<u8>) -> PartView {
    header_lines_effect(part, header_lines(block))
}

/// The descriptor that a header block announces.
pub open spec fn parse_header_block(block: Seq<u8>) -> PartView {
    header_block_effect(blank_part(), block)
}

proof fn lemma_line_length_bounds(block: Seq<u8>)
    ensures
        line_length(block) <= block.len(),
        forall|k: int| 0 <= k < line_length(block) ==> block[k] != LF,
        line_length(block) < block.len() ==> block[line_length(block) as int] == LF,
    decreases block.len(),
{
    if block.len() == 0 || block[0] == LF {
    } else {
        let rest = block.drop_first();
        lemma_line_length_bounds(rest);
        assert forall|k: int| 0 <= k < line_length(block) implies block[k] != LF by {
            if k > 0 {
                assert(block[k] == rest[k - 1]);
            }
        }
        if line_length(block) < block.len() {
            assert(block[line_length(block) as int] == rest[line_length(rest) as int]);
        }
    }
}

proof fn lemma_line_length_is(block: Seq<u8>, n: int)
    requires
        0 <= n <= block.len(),
        forall|k: int| 0 <= k < n ==> block[k] != LF,
        n < block.len() ==> block[n] == LF,
    ensures
        line_length(block) == n,
{
    lemma_line_length_bounds(block);
}

/// Byte sequence of the disposition header name.
fn disposition_prefix_bytes() -> (bytes: &'static [u8])
    ensures
        bytes@ == disposition_prefix(),
{
    let bytes = "content-disposition:".as_bytes();
    proof {
        reveal_strlit("content-disposition:");
        vstd::string::is_ascii_spec_bytes("content-disposition:");
        assert(bytes@ =~= disposition_prefix());
    }
    bytes
}

/// Byte sequence of the content-type header name.
pub fn content_type_prefix_bytes() -> (bytes: &'static [u8])
    ensures
        bytes@ == content_type_prefix(),
        bytes@.len() == 13,
{
    let bytes = "content-type:".as_bytes();
    proof {
        reveal_strlit("content-type:");
        vstd::string::is_ascii_spec_bytes("content-type:");
        assert(bytes@ =~= content_type_prefix());
    }
    bytes
}

/// Byte sequence that opens a quoted field name.
fn name_key_bytes() -> (bytes: &'static [u8])
    ensures
        bytes@ == name_key(),
{
    let bytes = "name=\"".as_bytes();
    proof {
        reveal_strlit("name=\"");
        vstd::string::is_ascii_spec_bytes("name=\"");
        assert(bytes@ =~= name_key());
    }
    bytes
}

/// Byte sequence that opens a quoted file name.
fn filename_key_bytes() -> (bytes: &'static [u8])
    ensures
        bytes@ == filename_key(),
{
    let bytes = "filename=\"".as_bytes();
    proof {
        reveal_strlit("filename=\"");
        vstd::string::is_ascii_spec_bytes("filename=\"");
        assert(bytes@ =~= filename_key());
    }
    bytes
}

/// Lower-case form of an ASCII letter; other bytes are returned unchanged.
pub fn to_lower(b: u8) -> (l: u8)
    ensures
        l == lower(b),
{
    if 65 <= b && b <= 90 {
        b + 32
    } else {
        b
    }
}

/// Whether `line` begins with `prefix`, letters compared without regard to
/// case. `prefix` is given in lower case.
pub fn starts_with_ignoring_case(line: &[u8], prefix: &[u8]) -> (yes: bool)
    ensures
        yes == has_prefix_ignoring_case(line@, prefix@),
{
    if prefix.len() > line.len() {
        return false;
    }
    let mut k: usize = 0;
    while k < prefix.len()
        invariant
            k <= prefix.len() <= line.len(),
            forall|m: int| 0 <= m < k ==> lower(#[trigger] line@[m]) == prefix@[m],
        decreases prefix.len() - k,
    {
        if to_lower(line[k]) != prefix[k] {
            return false;
        }
        k += 1;
    }
    true
}

/// Whether a byte is a letter.
pub fn is_letter_byte(b: u8) -> (yes: bool)
    ensures
        yes == is_letter(b),
{
    (65 <= b && b <= 90) || (97 <= b && b <= 122)
}

/// Finds where the parameter that `key` opens begins in `line`.
pub fn find_param(line: &[u8], key: &[u8]) -> (found: Option<usize>)
    ensures
        match found {
            Some(at) => {
                &&& param_start(line@, 0, key@) == Some(at as int)
                &&& matches_at(line@, at as int, key@)
            },
            None => param_start(line@, 0, key@) is None,
        },
{
    let mut from: usize = 0;
    loop
        invariant
            from <= line.len(),
            param_start(line@, from as int, key@) == param_start(line@, 0, key@),
        decreases line.len() - from,
    {
        proof {
            lemma_first_match_least(line@, from as int, key@);
        }
        match find_from(line, from, key) {
            Some(at) => {
                assert(matches_at(line@, at as int, key@));
                if at == 0 || !is_letter_byte(line[at - 1]) {
                    return Some(at);
                }
                if at >= line.len() {
                    assert(first_match(line@, at + 1, key@) is None);
                    assert(param_start(line@, at + 1, key@) is None);
                    return None;
                }
                from = at + 1;
            },
            None => {
                return None;
            },
        }
    }
}

/// Extracts the quoted value of the parameter that `key` opens.
pub fn quoted_value(line: &[u8], key: &[u8]) -> (value: Option<Vec<u8>>)
    ensures
        match value {
            Some(v) => quoted_param(line@, key@) == Some(v@),
            None => quoted_param(line@, key@) is None,
        },
{
    match find_param(line, key) {
        Some(at) => {
            assert(at + key.len() <= line.len());
            let open: usize = at + key.len();
            let quote: [u8; 1] = [QUOTE];
            assert(quote@ =~= seq![QUOTE]);
            match find_from(line, open, quote.as_slice()) {
                Some(close) => {
                    proof {
                        lemma_first_match_least(line@, open as int, seq![QUOTE]);
                    }
                    Some(slice_to_vec(slice_subrange(line, open, close)))
                },
                None => None,
            }
        },
        None => None,
    }
}

/// Removes white space from both ends of `s`.
pub fn trim_bytes(s: &[u8]) -> (trimmed: &[u8])
    ensures
        trimmed@ == trim(s@),
{
    let mut lo: usize = 0;
    assert(s@.subrange(0, s.len() as int) =~= s@);
    while lo < s.len() && is_space_byte(s[lo])
        invariant
            lo <= s.len(),
            trim_start(s@.subrange(lo as int, s.len() as int)) == trim_start(s@),
        decreases s.len() - lo,
    {
        proof {
            let cur = s@.subrange(lo as int, s.len() as int);
            assert(cur[0] == s@[lo as int]);
            assert(cur.drop_first() =~= s@.subrange(lo + 1, s.len() as int));
        }
        lo += 1;
    }
    proof {
        let cur = s@.subrange(lo as int, s.len() as int);
        if lo < s.len() {
            assert(cur[0] == s@[lo as int]);
        }
        assert(trim_start(s@) == cur);
    }
    let mut hi: usize = s.len();
    while hi > lo && is_space_byte(s[hi - 1])
        invariant
            lo <= hi <= s.len(),
            trim_end(s@.subrange(lo as int, hi as int)) == trim(s@),
        decreases hi - lo,
    {
        proof {
            let cur = s@.subrange(lo as int, hi as int);
            assert(cur.last() == s@[hi - 1]);
            assert(cur.drop_last() =~= s@.subrange(lo as int, hi - 1));
        }
        hi -= 1;
    }
    proof {
        let cur = s@.subrange(lo as int, hi as int);
        if hi > lo {
            assert(cur.last() == s@[hi - 1]);
        }
        assert(trim_end(cur) == cur);
    }
    slice_subrange(s, lo, hi)
}

/// Whether a byte counts as white space when trimming.
pub fn is_space_byte(b: u8) -> (yes: bool)
    ensures
        yes == is_space(b),
{
    b == 32 || (9 <= b && b <= 13)
}

/// Applies one header line to the descriptor.
pub fn apply_header_line(part: PartDescriptor, line: &[u8]) -> (updated: PartDescriptor)
    ensures
        updated@ == header_line_effect(part@, line@),
{
    let mut current = part;
    if starts_with_ignoring_case(line, disposition_prefix_bytes()) {
        let PartDescriptor { kind, field_name } = current;
        let new_name = match quoted_value(line, name_key_bytes()) {
            Some(name) => name,
            None => field_name,
        };
        let new_kind = if find_param(line, filename_key_bytes()).is_some() {
            match quoted_value(line, filename_key_bytes()) {
                Some(filename) => PartKind::File { filename, content_type: Vec::new() },
                None => kind,
            }
        } else {
            PartKind::Field
        };
        current = PartDescriptor { kind: new_kind, field_name: new_name };
    }
    let prefix = content_type_prefix_bytes();
    if starts_with_ignoring_case(line, prefix) {
        let PartDescriptor { kind, field_name } = current;
        let new_kind = match kind {
            PartKind::File { filename, content_type } => {
                let rest = slice_subrange(line, prefix.len(), line.len());
                PartKind::File { filename, content_type: slice_to_vec(trim_bytes(rest)) }
            },
            PartKind::Field => PartKind::Field,
        };
        current = PartDescriptor { kind: new_kind, field_name };
    }
    current
}

/// Splits the first line off the rest of a block that begins at `start`.
/// Returns where the line ends and where the rest after its line ending
/// begins.
pub fn split_line(block: &[u8], start: usize) -> (cut: (usize, usize))
    requires
        start < block@.len(),
    ensures
        start <= cut.0 <= cut.1 <= block@.len(),
        start < cut.1,
        header_lines(block@.subrange(start as int, block@.len() as int)) == seq![
            block@.subrange(start as int, cut.0 as int),
        ] + header_lines(block@.subrange(cut.1 as int, block@.len() as int)),
{
    let ghost rest = block@.subrange(start as int, block.len() as int);
    let mut end: usize = start;
    while end < block.len() && block[end] != LF
        invariant
            start <= end <= block.len(),
            forall|k: int| start <= k < end ==> block@[k] != LF,
        decreases block.len() - end,
    {
        end += 1;
    }
    proof {
        assert forall|k: int| 0 <= k < end - start implies rest[k] != LF by {
            assert(rest[k] == block@[start + k]);
        }
        if end < block.len() {
            assert(rest[end - start] == block@[end as int]);
        }
        lemma_line_length_is(rest, end - start);
    }
    if end < block.len() {
        let mut line_end: usize = end;
        if line_end > start && block[line_end - 1] == CR {
            line_end -= 1;
        }
        proof {
            let raw = rest.subrange(0, end - start);
            assert(raw =~= block@.subrange(start as int, end as int));
            if end > start {
                assert(raw.last() == block@[end - 1]);
            }
            assert(block@.subrange(start as int, line_end as int) =~= without_trailing_cr(raw));
            let tail = rest.subrange(end - start + 1, rest.len() as int);
            assert(tail =~= block@.subrange(end + 1, block.len() as int));
        }
        (line_end, end + 1)
    } else {
        proof {
            assert(block@.subrange(start as int, end as int) =~= rest);
            let done = block@.subrange(end as int, block.len() as int);
            assert(header_lines(done) =~= Seq::<Seq<u8>>::empty());
            assert(seq![rest] + header_lines(done) =~= seq![rest]);
        }
        (end, end)
    }
}

/// Reads a header block line by line and applies each line to the descriptor.
pub fn apply_header_block(part: PartDescriptor, block: &[u8]) -> (updated: PartDescriptor)
    ensures
        updated@ == header_block_effect(part@, block@),
{
    let mut current = part;
    let mut start: usize = 0;
    assert(block@.subrange(0, block.len() as int) =~= block@);
    while start < block.len()
        invariant
            start <= block.len(),
            header_block_effect(current@, block@.subrange(start as int, block.len() as int))
                == header_block_effect(part@, block@),
        decreases block.len() - start,
    {
        let cut = split_line(block, start);
        let line = slice_subrange(block, start, cut.0);
        proof {
            let lines = header_lines(block@.subrange(start as int, block.len() as int));
            let rest = header_lines(block@.subrange(cut.1 as int, block.len() as int));
            assert(lines[0] == line@);
            assert(lines.drop_first() =~= rest);
        }
        current = apply_header_line(current, line);
        start = cut.1;
    }
    proof {
        let done = block@.subrange(start as int, block.len() as int);
        assert(header_lines(done) =~= Seq::<Seq<u8>>::empty());
    }
    current
}

/// Reads the header block of a part: the descriptor that the block
/// announces, starting from a part of which nothing is known.
pub fn parse_part_headers(block: &[u8]) -> (part: PartDescriptor)
    ensures
        part@ == parse_header_block(block@),
{
    let blank = PartDescriptor { kind: PartKind::Field, field_name: Vec::new() };
    assert(blank@.field_name =~= blank_part().field_name);
    apply_header_block(blank, block)
}

} // verus!
