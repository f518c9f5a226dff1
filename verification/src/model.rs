//! Mathematical model of the parser.
//!
//! The parser is a machine with three states that reads a buffer, the
//! retained bytes followed by the new chunk, from a cursor. [`step`] is its
//! transition function: from a machine, a buffer and a cursor it gives the
//! next machine, the next cursor and the actions that the file sink has to
//! carry out. [`scan`] repeats it until the buffer holds nothing more that can
//! be decided, and [`feed`] is one whole call: it scans and keeps what is left
//! for the next call.
//!
//! A step never depends on bytes that have not arrived yet in a way that
//! later input could overturn: a delimiter is acted on only once the two bytes
//! after it are there, and bytes of a part are released only when no
//! delimiter, nor the line break before it, can still begin among them.

use crate::headers::{ascii, blank_part, header_block_effect, PartKindView, PartView, CR, LF};
use crate::pattern::{first_match, lemma_first_match_least};
use vstd::prelude::*;

verus! {

pub const DOT: u8 = 46;

pub const SLASH: u8 = 47;

pub const BACKSLASH: u8 = 92;

/// Where the parser is in the grammar of a multipart body.
#[derive(Debug, Clone, Copy, PartialEq, Eq, Structural)]
pub enum ParserState {
    /// Looking for the delimiter that opens the next part.
    SearchingBoundary,
    /// Inside the header block of a part.
    ReadingHeaders,
    /// Inside the payload of a part; its sink is open.
    ReadingData,
}

/// Record of a file part whose sink was closed.
pub ghost struct FileRecord {
    pub field_name: Seq<u8>,
    pub filename: Seq<u8>,
    pub size: nat,
    pub path: Seq<u8>,
}

/// Running counts of one connection.
pub ghost struct StatsView {
    pub total_chunks: nat,
    pub total_bytes: nat,
    pub fields_count: nat,
    pub files_count: nat,
    pub files_saved: Seq<FileRecord>,
}

/// What the file sink is asked to do.
pub ghost enum ActionView {
    /// Create the file for a new file part.
    OpenFile { filename: Seq<u8>, path: Seq<u8> },
    /// A file part is refused because of its file name: nothing is stored
    /// for it.
    RefuseFile { filename: Seq<u8> },
    /// Append bytes to the open file.
    Write(Seq<u8>),
    /// Close the open file.
    CloseFile,
}

/// The whole state of a parser.
pub ghost struct ParserView {
    pub boundary: Seq<u8>,
    pub retained: Seq<u8>,
    pub state: ParserState,
    pub part: PartView,
    /// Payload bytes of the current part that were released so far.
    pub written: nat,
    pub stats: StatsView,
}

/// Result of one transition.
pub ghost struct Step {
    pub machine: ParserView,
    pub pos: int,
    pub actions: Seq<ActionView>,
    /// Nothing more can be decided from the buffer as it stands.
    pub halted: bool,
}

/// Result of scanning a buffer.
pub ghost struct Scan {
    pub machine: ParserView,
    pub pos: int,
    pub actions: Seq<ActionView>,
}

/// Result of one call with a chunk.
pub ghost struct Fed {
    pub machine: ParserView,
    pub actions: Seq<ActionView>,
}

/// The blank line that ends a header block.
pub open spec fn header_end() -> Seq<u8> {
    seq![CR, LF, CR, LF]
}

/// Directory under which files are stored, with its separator.
pub open spec fn storage_prefix() -> Seq<u8> {
    ascii("./uploads/"@)
}

/// Where a file part with this file name is stored: the name is joined to
/// the storage directory.
pub open spec fn storage_path(filename: Seq<u8>) -> Seq<u8> {
    storage_prefix() + filename
}

/// A file name that names a file directly inside the storage directory: it
/// is not empty, is neither `.` nor `..`, and holds no slash, backslash or
/// zero byte.
pub open spec fn plain_filename(name: Seq<u8>) -> bool {
    &&& name.len() > 0
    &&& name != seq![DOT]
    &&& name != seq![DOT, DOT]
    &&& forall|k: int|
        0 <= k < name.len() ==> #[trigger] name[k] != SLASH && name[k] != BACKSLASH && name[k] != 0
}

/// The part is a file that is stored: its headers announced a file, and the
/// file name is plain. A file part with any other name is refused.
pub open spec fn is_stored(part: PartView) -> bool {
    part.kind matches PartKindView::File { filename, content_type } && plain_filename(filename)
}

/// A record names a file inside the storage directory.
pub open spec fn record_in_storage(record: FileRecord) -> bool {
    plain_filename(record.filename) && record.path == storage_path(record.filename)
}

/// An action that opens a file opens one inside the storage directory.
pub open spec fn action_in_storage(action: ActionView) -> bool {
    action matches ActionView::OpenFile { filename, path } ==> plain_filename(filename) && path
        == storage_path(filename)
}

/// The parser before any input.
pub open spec fn initial(boundary: Seq<u8>) -> ParserView {
    ParserView {
        boundary,
        retained: Seq::empty(),
        state: ParserState::SearchingBoundary,
        part: blank_part(),
        written: 0,
        stats: StatsView {
            total_chunks: 0,
            total_bytes: 0,
            fields_count: 0,
            files_count: 0,
            files_saved: Seq::empty(),
        },
    }
}

/// Position of the next delimiter that can be acted on: the first occurrence
/// of the boundary at or after `pos`, provided the two bytes that follow it
/// have arrived.
pub open spec fn next_delimiter(boundary: Seq<u8>, data: Seq<u8>, pos: int) -> Option<int> {
    match first_match(data, pos, boundary) {
        Some(at) => if at + boundary.len() + 2 <= data.len() {
            Some(at)
        } else {
            None
        },
        None => None,
    }
}

/// Cursor after a delimiter that ends at `end`: a line break directly after
/// it is skipped.
pub open spec fn after_line_break(data: Seq<u8>, end: int) -> int {
    if 0 <= end && end + 2 <= data.len() && data[end] == CR && data[end + 1] == LF {
        end + 2
    } else {
        end
    }
}

/// End of the payload of a part that began at `pos`, when its closing
/// delimiter stands at `at`: the two bytes before the delimiter are the line
/// break that belongs to it.
pub open spec fn payload_end(pos: int, at: int) -> int {
    if at - 2 >= pos {
        at - 2
    } else {
        pos
    }
}

/// How far the payload of a part that began at `pos` can be released when
/// the buffer of length `len` holds no delimiter from `pos` on: a delimiter
/// that has not arrived in full may begin among the last `boundary_len - 1`
/// bytes, and its line break two bytes before that.
pub open spec fn safe_end(pos: int, len: int, boundary_len: int) -> int {
    if len - boundary_len - 1 >= pos {
        len - boundary_len - 1
    } else {
        pos
    }
}

/// Actions that release `payload` to the sink of `part`. Only a stored
/// file keeps its payload, and nothing is written for an empty payload.
pub open spec fn write_actions(part: PartView, payload: Seq<u8>) -> Seq<ActionView> {
    if is_stored(part) && payload.len() > 0 {
        seq![ActionView::Write(payload)]
    } else {
        Seq::empty()
    }
}

/// Actions that close the sink of `part`.
pub open spec fn close_actions(part: PartView) -> Seq<ActionView> {
    if is_stored(part) {
        seq![ActionView::CloseFile]
    } else {
        Seq::empty()
    }
}

/// Actions that open the sink of `part`: the file of a file part is opened
/// inside the storage directory where its name is plain, and the part is
/// refused where it is not.
pub open spec fn open_actions(part: PartView) -> Seq<ActionView> {
    match part.kind {
        PartKindView::File { filename, content_type } => if plain_filename(filename) {
            seq![ActionView::OpenFile { filename, path: storage_path(filename) }]
        } else {
            seq![ActionView::RefuseFile { filename }]
        },
        PartKindView::Field => Seq::empty(),
    }
}

/// The machine after the header block `block` of a part was read: the part
/// is classified, its sink is open, and a file that is stored is counted.
pub open spec fn opened(m: ParserView, block: Seq<u8>) -> ParserView {
    let part = header_block_effect(m.part, block);
    ParserView {
        state: ParserState::ReadingData,
        part,
        written: 0,
        stats: StatsView {
            files_count: if is_stored(part) {
                m.stats.files_count + 1
            } else {
                m.stats.files_count
            },
            ..m.stats
        },
        ..m
    }
}

/// The machine after `count` more payload bytes were released.
pub open spec fn released(m: ParserView, count: nat) -> ParserView {
    ParserView { written: m.written + count, ..m }
}

/// The machine after the sink of the current part was closed: a stored
/// file leaves its record, with the number of bytes that were released to it
/// as its size; a field is counted; a refused file leaves nothing.
pub open spec fn closed(m: ParserView) -> ParserView {
    ParserView {
        state: ParserState::SearchingBoundary,
        written: 0,
        stats: match m.part.kind {
            PartKindView::File { filename, content_type } => if plain_filename(filename) {
                StatsView {
                    files_saved: m.stats.files_saved.push(
                        FileRecord {
                            field_name: m.part.field_name,
                            filename,
                            size: m.written,
                            path: storage_path(filename),
                        },
                    ),
                    ..m.stats
                }
            } else {
                m.stats
            },
            PartKindView::Field => StatsView {
                fields_count: m.stats.fields_count + 1,
                ..m.stats
            },
        },
        ..m
    }
}

/// The machine after a delimiter was passed: a new part begins, of which
/// nothing is known yet.
pub open spec fn delimited(m: ParserView) -> ParserView {
    ParserView { state: ParserState::ReadingHeaders, part: blank_part(), written: 0, ..m }
}

/// One transition of the machine `m` on the buffer `data` from the cursor
/// `pos`.
pub open spec fn step(m: ParserView, data: Seq<u8>, pos: int) -> Step {
    match m.state {
        ParserState::SearchingBoundary => match next_delimiter(m.boundary, data, pos) {
            Some(at) => Step {
                machine: delimited(m),
                pos: after_line_break(data, at + m.boundary.len()),
                actions: Seq::empty(),
                halted: false,
            },
            None => Step { machine: m, pos, actions: Seq::empty(), halted: true },
        },
        ParserState::ReadingHeaders => match first_match(data, pos, header_end()) {
            Some(at) => {
                let next = opened(m, data.subrange(pos, at));
                Step {
                    machine: next,
                    pos: at + 4,
                    actions: open_actions(next.part),
                    halted: false,
                }
            },
            None => Step { machine: m, pos, actions: Seq::empty(), halted: true },
        },
        ParserState::ReadingData => match first_match(data, pos, m.boundary) {
            Some(at) => {
                let end = payload_end(pos, at);
                let payload = data.subrange(pos, end);
                Step {
                    machine: closed(released(m, payload.len())),
                    pos: at,
                    actions: write_actions(m.part, payload) + close_actions(m.part),
                    halted: false,
                }
            },
            None => {
                let end = safe_end(pos, data.len() as int, m.boundary.len() as int);
                let payload = data.subrange(pos, end);
                Step {
                    machine: released(m, payload.len()),
                    pos: end,
                    actions: write_actions(m.part, payload),
                    halted: true,
                }
            },
        },
    }
}

/// Order of the states within one cursor position: closing a part leads to
/// the search for the delimiter, and passing the delimiter to the headers.
pub open spec fn state_rank(state: ParserState) -> nat {
    match state {
        ParserState::ReadingData => 2,
        ParserState::SearchingBoundary => 1,
        ParserState::ReadingHeaders => 0,
    }
}

/// A transition that does not halt moves the cursor forward within the
/// buffer, or keeps it and moves to a state of lower rank.
pub proof fn lemma_step_progress(m: ParserView, data: Seq<u8>, pos: int)
    requires
        0 <= pos <= data.len(),
    ensures
        pos <= step(m, data, pos).pos <= data.len(),
        step(m, data, pos).machine.boundary == m.boundary,
        !step(m, data, pos).halted ==> (step(m, data, pos).pos > pos || state_rank(
            step(m, data, pos).machine.state,
        ) < state_rank(m.state)),
{
    lemma_first_match_least(data, pos, m.boundary);
    lemma_first_match_least(data, pos, header_end());
}

/// What one round of a scan gives: the transition itself where it halts,
/// and else the transition followed by `rest`, the scan from where it led.
pub open spec fn scan_round(s: Step, rest: Scan) -> Scan {
    if s.halted {
        Scan { machine: s.machine, pos: s.pos, actions: s.actions }
    } else {
        Scan { machine: rest.machine, pos: rest.pos, actions: s.actions + rest.actions }
    }
}

/// Repeats [`step`] from the cursor `pos` until it halts, and collects the
/// actions in order. Its definition is given to other modules by
/// [`lemma_scan_unfold`], one round at a time.
pub closed spec fn scan(m: ParserView, data: Seq<u8>, pos: int) -> Scan
    decreases data.len() - pos, state_rank(m.state),
    via scan_decreases
{
    if 0 <= pos <= data.len() {
        let s = step(m, data, pos);
        if s.halted {
            scan_round(s, Scan { machine: m, pos, actions: Seq::empty() })
        } else {
            scan_round(s, scan(s.machine, data, s.pos))
        }
    } else {
        Scan { machine: m, pos, actions: Seq::empty() }
    }
}

/// The definition of [`scan`]: within the buffer it is one transition,
/// followed by the scan from where the transition led unless it halted.
pub proof fn lemma_scan_unfold(m: ParserView, data: Seq<u8>, pos: int)
    ensures
        0 <= pos <= data.len() ==> scan(m, data, pos) == scan_round(
            step(m, data, pos),
            scan(step(m, data, pos).machine, data, step(m, data, pos).pos),
        ),
        !(0 <= pos <= data.len()) ==> scan(m, data, pos) == (Scan {
            machine: m,
            pos,
            actions: Seq::empty(),
        }),
{
}

#[via_fn]
proof fn scan_decreases(m: ParserView, data: Seq<u8>, pos: int) {
    if 0 <= pos <= data.len() {
        lemma_step_progress(m, data, pos);
    }
}

/// The machine after a chunk was counted.
pub open spec fn counted(m: ParserView, chunk: Seq<u8>) -> ParserView {
    ParserView {
        stats: StatsView {
            total_chunks: m.stats.total_chunks + 1,
            total_bytes: m.stats.total_bytes + chunk.len(),
            ..m.stats
        },
        ..m
    }
}

/// One call with a chunk: the chunk is counted, the retained bytes followed
/// by the chunk are scanned, and what the scan did not consume is retained.
pub open spec fn feed(m: ParserView, chunk: Seq<u8>) -> Fed {
    let data = m.retained + chunk;
    let done = scan(counted(m, chunk), data, 0);
    Fed {
        machine: ParserView {
            retained: data.subrange(done.pos, data.len() as int),
            ..done.machine
        },
        actions: done.actions,
    }
}

/// The end of input: where a sink is open, the retained bytes are its last
/// payload and it is closed; the retained bytes are dropped in any case.
pub open spec fn finish(m: ParserView) -> Fed {
    if m.state == ParserState::ReadingData {
        Fed {
            machine: ParserView {
                retained: Seq::empty(),
                ..closed(released(m, m.retained.len()))
            },
            actions: write_actions(m.part, m.retained) + close_actions(m.part),
        }
    } else {
        Fed { machine: ParserView { retained: Seq::empty(), ..m }, actions: Seq::empty() }
    }
}

/// Number of parts whose header block was consumed and that are counted or
/// wait to be counted: every one of them took at least the four bytes of its
/// blank line from the input.
pub open spec fn parts_begun(m: ParserView) -> nat {
    m.stats.files_count + m.stats.fields_count + if m.state == ParserState::ReadingData
        && m.part.kind is Field {
        1nat
    } else {
        0nat
    }
}

/// Number of file records that exist or are owed: one is owed to a stored
/// file whose sink is open.
pub open spec fn files_begun(m: ParserView) -> nat {
    m.stats.files_saved.len() + if m.state == ParserState::ReadingData && is_stored(m.part) {
        1nat
    } else {
        0nat
    }
}

/// What holds of a parser that has `unread` bytes of what it was given
/// still before it.
///
/// - Its counts are covered by the bytes it has consumed: every part that
///   was begun took four bytes, and every released byte one. No count can
///   then outgrow the byte count.
/// - The count of files is the number of records, and one more while the
///   sink of a stored file is open.
/// - Every record names a file inside the storage directory.
/// - Bytes are counted as released only while a sink is open, and once
///   bytes of a part were released, the length of the boundary and one byte
///   are still unread.
pub open spec fn covered(m: ParserView, unread: int) -> bool {
    &&& unread >= 0
    &&& 4 * parts_begun(m) + m.written + unread <= m.stats.total_bytes
    &&& files_begun(m) == m.stats.files_count
    &&& forall|k: int|
        0 <= k < m.stats.files_saved.len() ==> record_in_storage(#[trigger] m.stats.files_saved[k])
    &&& m.state != ParserState::ReadingData ==> m.written == 0
    &&& m.state == ParserState::ReadingData && m.written > 0 ==> unread >= m.boundary.len() + 1
}

/// What holds of every parser between calls: [`covered`] with the retained
/// bytes unread.
pub open spec fn well_formed(m: ParserView) -> bool {
    covered(m, m.retained.len() as int)
}

/// A transition keeps the counts covered.
pub proof fn lemma_step_covered(m: ParserView, data: Seq<u8>, pos: int)
    requires
        0 <= pos <= data.len(),
        covered(m, data.len() - pos),
    ensures
        covered(step(m, data, pos).machine, data.len() - step(m, data, pos).pos),
{
    lemma_first_match_least(data, pos, m.boundary);
    lemma_first_match_least(data, pos, header_end());
}

} // verus!
