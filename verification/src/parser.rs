//! The streaming parser.
//!
//! A [`StreamingParser`] is fed the chunks of a body in the order in which
//! they arrive. It never performs input or output itself: each call returns
//! the [`SinkAction`]s that the caller has to carry out on its file sink, in
//! order. What a call does is stated by [`crate::model::feed`].

use crate::headers::{apply_header_block, header_block_effect, PartDescriptor, PartKind, CR, LF};
use crate::laws::{lemma_bounded_retention, lemma_feed_counts, lemma_opens_in_storage};
use crate::model::{
    action_in_storage, close_actions, closed, covered, delimited, feed, finish, header_end,
    initial, is_stored,
    plain_filename, BACKSLASH, DOT, SLASH,
    lemma_scan_unfold, lemma_step_covered, lemma_step_progress, open_actions, released, scan,
    state_rank, step, storage_path, storage_prefix, well_formed, write_actions, ActionView,
    FileRecord, ParserState, ParserView, Scan, StatsView,
};
use crate::pattern::{find_from, first_match, lemma_first_match_least, matches_at};
use vstd::prelude::*;
use vstd::slice::slice_subrange;
use vstd::slice::slice_to_vec;

verus! {

/// Record of a stored file, made when the sink of a file part is closed.
#[derive(Debug, Clone, PartialEq, Eq)]
pub struct FileInfo {
    pub field_name: Vec<u8>,
    pub filename: Vec<u8>,
    pub size: usize,
    pub path: Vec<u8>,
}

impl View for FileInfo {
    type V = FileRecord;

    open spec fn view(&self) -> FileRecord {
        FileRecord {
            field_name: self.field_name@,
            filename: self.filename@,
            size: self.size as nat,
            path: self.path@,
        }
    }
}

/// Mathematical value of a list of file records.
pub open spec fn file_records(files: Seq<FileInfo>) -> Seq<FileRecord> {
    files.map_values(|f: FileInfo| f@)
}

/// Running counts of one connection.
#[derive(Debug, Clone, PartialEq, Eq)]
pub struct Stats {
    pub total_chunks: usize,
    pub total_bytes: usize,
    pub fields_count: usize,
    pub files_count: usize,
    pub files_saved: Vec<FileInfo>,
}

impl View for Stats {
    type V = StatsView;

    open spec fn view(&self) -> StatsView {
        StatsView {
            total_chunks: self.total_chunks as nat,
            total_bytes: self.total_bytes as nat,
            fields_count: self.fields_count as nat,
            files_count: self.files_count as nat,
            files_saved: file_records(self.files_saved@),
        }
    }
}

/// What the caller has to do on its file sink.
#[derive(Debug, Clone, PartialEq, Eq)]
pub enum SinkAction {
    /// Create the file at `path` for a new file part. The path lies inside
    /// the storage directory.
    OpenFile { filename: Vec<u8>, path: Vec<u8> },
    /// A file part was refused because its file name is not plain: no file
    /// is opened for it, its payload is dropped, and it leaves no record.
    RefuseFile { filename: Vec<u8> },
    /// Append the bytes to the open file.
    Write(Vec<u8>),
    /// Close the open file.
    CloseFile,
}

impl View for SinkAction {
    type V = ActionView;

    open spec fn view(&self) -> ActionView {
        match self {
            SinkAction::OpenFile { filename, path } => ActionView::OpenFile {
                filename: filename@,
                path: path@,
            },
            SinkAction::RefuseFile { filename } => ActionView::RefuseFile { filename: filename@ },
            SinkAction::Write(bytes) => ActionView::Write(bytes@),
            SinkAction::CloseFile => ActionView::CloseFile,
        }
    }
}

/// An action that opens a file opens one with a plain name, inside the
/// storage directory.
pub open spec fn opens_in_storage(action: SinkAction) -> bool {
    action matches SinkAction::OpenFile { filename, path } ==> plain_filename(filename@) && path@
        == storage_path(filename@)
}

/// Mathematical value of a list of actions.
pub open spec fn action_views(actions: Seq<SinkAction>) -> Seq<ActionView> {
    actions.map_values(|a: SinkAction| a@)
}

/// Incremental parser of one multipart body.
pub struct StreamingParser {
    boundary: Vec<u8>,
    retained: Vec<u8>,
    state: ParserState,
    part: PartDescriptor,
    written: usize,
    stats: Stats,
}

impl View for StreamingParser {
    type V = ParserView;

    closed spec fn view(&self) -> ParserView {
        ParserView {
            boundary: self.boundary@,
            retained: self.retained@,
            state: self.state,
            part: self.part@,
            written: self.written as nat,
            stats: self.stats@,
        }
    }
}

/// The path under which a file part with this file name is stored.
pub fn storage_path_for(filename: &[u8]) -> (path: Vec<u8>)
    ensures
        path@ == storage_path(filename@),
{
    let prefix = "./uploads/".as_bytes();
    proof {
        reveal_strlit("./uploads/");
        vstd::string::is_ascii_spec_bytes("./uploads/");
        assert(prefix@ =~= storage_prefix());
    }
    let mut path = slice_to_vec(prefix);
    let mut k: usize = 0;
    while k < filename.len()
        invariant
            k <= filename.len(),
            path@ == storage_prefix() + filename@.subrange(0, k as int),
        decreases filename.len() - k,
    {
        path.push(filename[k]);
        assert(path@ =~= storage_prefix() + filename@.subrange(0, k + 1));
        k += 1;
    }
    assert(filename@.subrange(0, k as int) =~= filename@);
    path
}

/// Whether a file name that a client sent can be joined to the storage
/// directory without leaving it. The parser asks this of every file part:
/// it opens a file only for a plain name, and refuses the part otherwise.
pub fn is_plain_filename(name: &[u8]) -> (plain: bool)
    ensures
        plain == plain_filename(name@),
{
    if name.len() == 0 {
        return false;
    }
    if name.len() == 1 && name[0] == DOT {
        assert(name@ =~= seq![DOT]);
        return false;
    }
    if name.len() == 2 && name[0] == DOT && name[1] == DOT {
        assert(name@ =~= seq![DOT, DOT]);
        return false;
    }
    proof {
        if name@ == seq![DOT] {
            assert(name@.len() == 1 && name@[0] == DOT);
        }
        if name@ == seq![DOT, DOT] {
            assert(name@.len() == 2 && name@[0] == DOT && name@[1] == DOT);
        }
    }
    let mut k: usize = 0;
    while k < name.len()
        invariant
            k <= name.len(),
            forall|j: int|
                0 <= j < k ==> #[trigger] name@[j] != SLASH && name@[j] != BACKSLASH && name@[j]
                    != 0,
        decreases name.len() - k,
    {
        let b = name[k];
        if b == SLASH || b == BACKSLASH || b == 0 {
            return false;
        }
        k += 1;
    }
    true
}

impl StreamingParser {
    /// A parser for bodies whose parts are separated by `boundary`, which is
    /// the whole delimiter: two hyphens followed by the declared token.
    pub fn new(boundary: &[u8]) -> (parser: Self)
        ensures
            parser@ == initial(boundary@),
            well_formed(parser@),
    {
        let parser = StreamingParser {
            boundary: slice_to_vec(boundary),
            retained: Vec::new(),
            state: ParserState::SearchingBoundary,
            part: PartDescriptor { kind: PartKind::Field, field_name: Vec::new() },
            written: 0,
            stats: Stats {
                total_chunks: 0,
                total_bytes: 0,
                fields_count: 0,
                files_count: 0,
                files_saved: Vec::new(),
            },
        };
        proof {
            let start = initial(boundary@);
            assert(parser@.retained =~= start.retained);
            assert(parser@.part.field_name =~= start.part.field_name);
            assert(parser@.stats.files_saved =~= start.stats.files_saved);
        }
        parser
    }

    /// Position of the first occurrence of the boundary in `data`.
    pub fn find_boundary(&self, data: &[u8]) -> (found: Option<usize>)
        ensures
            match found {
                Some(at) => first_match(data@, 0, self@.boundary) == Some(at as int),
                None => first_match(data@, 0, self@.boundary) is None,
            },
    {
        find_from(data, 0, self.boundary.as_slice())
    }

    /// Position of the first occurrence of `pattern` in `data`.
    pub fn find_pattern(&self, data: &[u8], pattern: &[u8]) -> (found: Option<usize>)
        ensures
            match found {
                Some(at) => first_match(data@, 0, pattern@) == Some(at as int),
                None => first_match(data@, 0, pattern@) is None,
            },
    {
        find_from(data, 0, pattern)
    }

    /// The running counts.
    pub fn get_stats(&self) -> (stats: &Stats)
        ensures
            stats@ == self@.stats,
    {
        &self.stats
    }

    /// The state the parser is in.
    pub fn state(&self) -> (state: ParserState)
        ensures
            state == self@.state,
    {
        self.state
    }

    /// Number of payload bytes of the current part that were released so
    /// far; 0 outside a part.
    pub fn released_len(&self) -> (len: usize)
        ensures
            len == self@.written,
    {
        self.written
    }

    /// Number of bytes that are held back for the next call.
    pub fn retained_len(&self) -> (len: usize)
        ensures
            len == self@.retained.len(),
    {
        self.retained.len()
    }

    /// Reads the header block of the current part into its descriptor.
    fn parse_headers(&mut self, headers: &[u8])
        ensures
            final(self)@ == (ParserView {
                part: header_block_effect(old(self)@.part, headers@),
                ..old(self)@
            }),
    {
        let mut part = PartDescriptor { kind: PartKind::Field, field_name: Vec::new() };
        std::mem::swap(&mut self.part, &mut part);
        self.part = apply_header_block(part, headers);
    }

    /// Whether the current part is a file that is stored.
    fn stores_part(&self) -> (stored: bool)
        ensures
            stored == is_stored(self@.part),
    {
        match &self.part.kind {
            PartKind::File { filename, content_type } => is_plain_filename(filename.as_slice()),
            PartKind::Field => false,
        }
    }

    /// Opens the sink of the part whose headers were read. The file of a
    /// file part is asked for and counted where its name is plain; the part
    /// is refused where it is not.
    fn open_file_writer(&mut self, actions: &mut Vec<SinkAction>)
        requires
            old(self)@.state == ParserState::ReadingHeaders,
            is_stored(old(self)@.part) ==> old(self)@.stats.files_count < usize::MAX,
        ensures
            final(self)@ == (ParserView {
                state: ParserState::ReadingData,
                written: 0,
                stats: StatsView {
                    files_count: if is_stored(old(self)@.part) {
                        old(self)@.stats.files_count + 1
                    } else {
                        old(self)@.stats.files_count
                    },
                    ..old(self)@.stats
                },
                ..old(self)@
            }),
            action_views(final(actions)@) == action_views(old(actions)@) + open_actions(
                old(self)@.part,
            ),
    {
        self.state = ParserState::ReadingData;
        self.written = 0;
        match &self.part.kind {
            PartKind::File { filename, content_type } => {
                let name = slice_to_vec(filename.as_slice());
                if is_plain_filename(filename.as_slice()) {
                    let path = storage_path_for(filename.as_slice());
                    self.stats.files_count += 1;
                    actions.push(SinkAction::OpenFile { filename: name, path });
                } else {
                    actions.push(SinkAction::RefuseFile { filename: name });
                }
                assert(action_views(actions@) =~= action_views(old(actions)@) + open_actions(
                    old(self)@.part,
                ));
            },
            PartKind::Field => {
                assert(action_views(actions@) =~= action_views(old(actions)@) + open_actions(
                    old(self)@.part,
                ));
            },
        }
    }

    /// Releases payload bytes to the sink of the current part, which is
    /// open.
    fn write_data(&mut self, payload: &[u8], actions: &mut Vec<SinkAction>)
        requires
            old(self)@.state == ParserState::ReadingData,
            old(self)@.written + payload@.len() <= usize::MAX,
        ensures
            final(self)@ == released(old(self)@, payload@.len()),
            action_views(final(actions)@) == action_views(old(actions)@) + write_actions(
                old(self)@.part,
                payload@,
            ),
    {
        self.written += payload.len();
        if payload.len() > 0 && self.stores_part() {
            actions.push(SinkAction::Write(slice_to_vec(payload)));
        }
        assert(action_views(actions@) =~= action_views(old(actions)@) + write_actions(
            old(self)@.part,
            payload@,
        ));
    }

    /// Closes the sink of the current part, which is open: a stored file
    /// leaves its record, a field is counted, a refused file leaves nothing.
    fn close_file_writer(&mut self, actions: &mut Vec<SinkAction>)
        requires
            old(self)@.state == ParserState::ReadingData,
            old(self)@.part.kind is Field ==> old(self)@.stats.fields_count < usize::MAX,
        ensures
            final(self)@ == closed(old(self)@),
            action_views(final(actions)@) == action_views(old(actions)@) + close_actions(
                old(self)@.part,
            ),
    {
        match &self.part.kind {
            PartKind::File { filename, content_type } => {
                if is_plain_filename(filename.as_slice()) {
                    let info = FileInfo {
                        field_name: slice_to_vec(self.part.field_name.as_slice()),
                        filename: slice_to_vec(filename.as_slice()),
                        size: self.written,
                        path: storage_path_for(filename.as_slice()),
                    };
                    self.stats.files_saved.push(info);
                    actions.push(SinkAction::CloseFile);
                    assert(file_records(self.stats.files_saved@) =~= file_records(
                        old(self).stats.files_saved@,
                    ).push(info@));
                }
            },
            PartKind::Field => {
                self.stats.fields_count += 1;
            },
        }
        self.state = ParserState::SearchingBoundary;
        self.written = 0;
        assert(action_views(actions@) =~= action_views(old(actions)@) + close_actions(
            old(self)@.part,
        ));
    }
}

/// Appends the bytes of `more` to `buffer`.
fn append_bytes(buffer: &mut Vec<u8>, more: &[u8])
    ensures
        final(buffer)@ == old(buffer)@ + more@,
{
    let mut k: usize = 0;
    while k < more.len()
        invariant
            k <= more.len(),
            buffer@ == old(buffer)@ + more@.subrange(0, k as int),
        decreases more.len() - k,
    {
        buffer.push(more[k]);
        assert(buffer@ =~= old(buffer)@ + more@.subrange(0, k + 1));
        k += 1;
    }
    assert(more@.subrange(0, k as int) =~= more@);
}

impl StreamingParser {
    /// Passes the delimiter that opens a part: nothing is known of the new
    /// part yet.
    fn pass_delimiter(&mut self)
        ensures
            final(self)@ == delimited(old(self)@),
    {
        self.state = ParserState::ReadingHeaders;
        self.part = PartDescriptor { kind: PartKind::Field, field_name: Vec::new() };
        self.written = 0;
        assert(self@.part.field_name =~= delimited(old(self)@).part.field_name);
    }

    /// One transition while a delimiter is looked for.
    fn advance_searching(&mut self, data: &[u8], pos: usize) -> (next: (usize, bool))
        requires
            pos <= data@.len(),
            old(self)@.state == ParserState::SearchingBoundary,
        ensures
            final(self)@ == step(old(self)@, data@, pos as int).machine,
            next.0 == step(old(self)@, data@, pos as int).pos,
            next.1 == step(old(self)@, data@, pos as int).halted,
    {
        proof {
            lemma_first_match_least(data@, pos as int, self@.boundary);
        }
        match find_from(data, pos, self.boundary.as_slice()) {
            Some(at) => {
                assert(matches_at(data@, at as int, self@.boundary));
                if data.len() - at - self.boundary.len() >= 2 {
                    let end: usize = at + self.boundary.len();
                    let after: usize = if data[end] == CR && data[end + 1] == LF {
                        end + 2
                    } else {
                        end
                    };
                    self.pass_delimiter();
                    (after, false)
                } else {
                    (pos, true)
                }
            },
            None => (pos, true),
        }
    }

    /// One transition inside a header block.
    fn advance_headers(&mut self, data: &[u8], pos: usize, actions: &mut Vec<SinkAction>) -> (next:
        (usize, bool))
        requires
            pos <= data@.len(),
            old(self)@.state == ParserState::ReadingHeaders,
            covered(old(self)@, data@.len() - pos),
            old(self)@.stats.total_bytes <= usize::MAX,
        ensures
            final(self)@ == step(old(self)@, data@, pos as int).machine,
            next.0 == step(old(self)@, data@, pos as int).pos,
            next.1 == step(old(self)@, data@, pos as int).halted,
            action_views(final(actions)@) == action_views(old(actions)@) + step(
                old(self)@,
                data@,
                pos as int,
            ).actions,
    {
        let mark: [u8; 4] = [CR, LF, CR, LF];
        assert(mark@ =~= header_end());
        proof {
            lemma_first_match_least(data@, pos as int, header_end());
        }
        match find_from(data, pos, mark.as_slice()) {
            Some(at) => {
                assert(matches_at(data@, at as int, header_end()));
                assert(at + 4 <= data.len());
                let block = slice_subrange(data, pos, at);
                self.parse_headers(block);
                self.open_file_writer(actions);
                (at + 4, false)
            },
            None => {
                assert(action_views(actions@) + Seq::<ActionView>::empty() =~= action_views(
                    actions@,
                ));
                (pos, true)
            },
        }
    }

    /// One transition inside the payload of a part.
    fn advance_data(&mut self, data: &[u8], pos: usize, actions: &mut Vec<SinkAction>) -> (next: (
        usize,
        bool,
    ))
        requires
            pos <= data@.len(),
            old(self)@.state == ParserState::ReadingData,
            covered(old(self)@, data@.len() - pos),
            old(self)@.stats.total_bytes <= usize::MAX,
        ensures
            final(self)@ == step(old(self)@, data@, pos as int).machine,
            next.0 == step(old(self)@, data@, pos as int).pos,
            next.1 == step(old(self)@, data@, pos as int).halted,
            action_views(final(actions)@) == action_views(old(actions)@) + step(
                old(self)@,
                data@,
                pos as int,
            ).actions,
    {
        proof {
            lemma_first_match_least(data@, pos as int, self@.boundary);
        }
        let ghost done = action_views(actions@);
        let ghost s = step(self@, data@, pos as int);
        match find_from(data, pos, self.boundary.as_slice()) {
            Some(at) => {
                assert(matches_at(data@, at as int, self@.boundary));
                let end: usize = if at >= 2 && at - 2 >= pos {
                    at - 2
                } else {
                    pos
                };
                let payload = slice_subrange(data, pos, end);
                self.write_data(payload, actions);
                self.close_file_writer(actions);
                assert(action_views(actions@) =~= done + s.actions);
                (at, false)
            },
            None => {
                let end: usize = if data.len() > self.boundary.len() && data.len()
                    - self.boundary.len() - 1 >= pos {
                    data.len() - self.boundary.len() - 1
                } else {
                    pos
                };
                let payload = slice_subrange(data, pos, end);
                self.write_data(payload, actions);
                (end, true)
            },
        }
    }

    /// One transition of the parser on the buffer `data` from `pos`.
    fn advance(&mut self, data: &[u8], pos: usize, actions: &mut Vec<SinkAction>) -> (next: (
        usize,
        bool,
    ))
        requires
            pos <= data@.len(),
            covered(old(self)@, data@.len() - pos),
            old(self)@.stats.total_bytes <= usize::MAX,
        ensures
            final(self)@ == step(old(self)@, data@, pos as int).machine,
            next.0 == step(old(self)@, data@, pos as int).pos,
            next.1 == step(old(self)@, data@, pos as int).halted,
            action_views(final(actions)@) == action_views(old(actions)@) + step(
                old(self)@,
                data@,
                pos as int,
            ).actions,
    {
        match self.state {
            ParserState::SearchingBoundary => {
                assert(action_views(actions@) + Seq::<ActionView>::empty() =~= action_views(
                    actions@,
                ));
                self.advance_searching(data, pos)
            },
            ParserState::ReadingHeaders => self.advance_headers(data, pos, actions),
            ParserState::ReadingData => self.advance_data(data, pos, actions),
        }
    }

    /// Takes in the next chunk of the body and returns what the file sink has
    /// to do, in order.
    ///
    /// The retained bytes followed by the chunk are read as far as they can
    /// be decided; the rest is retained for the next call. The chunk and its
    /// bytes are counted.
    pub fn process_chunk(&mut self, chunk: &[u8]) -> (actions: Vec<SinkAction>)
        requires
            well_formed(old(self)@),
            old(self)@.stats.total_bytes + chunk.len() <= usize::MAX,
            old(self)@.stats.total_chunks < usize::MAX,
        ensures
            final(self)@ == feed(old(self)@, chunk@).machine,
            action_views(actions@) == feed(old(self)@, chunk@).actions,
            well_formed(final(self)@),
            final(self)@.boundary == old(self)@.boundary,
            final(self)@.stats.total_chunks == old(self)@.stats.total_chunks + 1,
            final(self)@.stats.total_bytes == old(self)@.stats.total_bytes + chunk@.len(),
            final(self)@.state == ParserState::ReadingData ==> final(self)@.retained.len()
                <= old(self)@.boundary.len() + 1,
            final(self)@.state == ParserState::ReadingData && final(self)@.written > 0
                ==> final(self)@.retained.len() == old(self)@.boundary.len() + 1,
            forall|k: int| 0 <= k < actions@.len() ==> opens_in_storage(#[trigger] actions@[k]),
    {
        proof {
            lemma_feed_counts(old(self)@, chunk@);
            lemma_bounded_retention(old(self)@, chunk@);
            lemma_opens_in_storage(old(self)@, chunk@);
        }
        self.stats.total_chunks += 1;
        self.stats.total_bytes += chunk.len();
        let ghost counted = self@;
        let mut data = slice_to_vec(self.retained.as_slice());
        append_bytes(&mut data, chunk);
        let mut actions: Vec<SinkAction> = Vec::new();
        let mut pos: usize = 0;
        let mut halted = false;
        assert(action_views(actions@) =~= Seq::<ActionView>::empty());
        assert(Seq::<ActionView>::empty() + scan(counted, data@, 0).actions =~= scan(
            counted,
            data@,
            0,
        ).actions);
        while !halted
            invariant
                pos <= data.len(),
                self@.retained == counted.retained,
                halted ==> scan(counted, data@, 0) == (Scan {
                    machine: self@,
                    pos: pos as int,
                    actions: action_views(actions@),
                }),
                !halted ==> scan(counted, data@, 0) == (Scan {
                    machine: scan(self@, data@, pos as int).machine,
                    pos: scan(self@, data@, pos as int).pos,
                    actions: action_views(actions@) + scan(self@, data@, pos as int).actions,
                }),
                covered(self@, data@.len() - pos),
            decreases
                    if halted {
                        0int
                    } else {
                        1int
                    },
                    data.len() - pos,
                    state_rank(self@.state),
        {
            let ghost before = self@;
            let ghost done = action_views(actions@);
            let ghost s = step(before, data@, pos as int);
            proof {
                lemma_step_progress(before, data@, pos as int);
                lemma_step_covered(before, data@, pos as int);
                lemma_scan_unfold(before, data@, pos as int);
            }
            let next = self.advance(data.as_slice(), pos, &mut actions);
            pos = next.0;
            halted = next.1;
            proof {
                if !halted {
                    let rest = scan(self@, data@, pos as int);
                    assert(done + (s.actions + rest.actions) =~= (done + s.actions)
                        + rest.actions);
                }
            }
        }
        self.retained = slice_to_vec(slice_subrange(data.as_slice(), pos, data.len()));
        assert(action_views(actions@) == feed(old(self)@, chunk@).actions);
        assert forall|k: int| 0 <= k < actions@.len() implies opens_in_storage(
            #[trigger] actions@[k],
        ) by {
            assert(action_views(actions@)[k] == actions@[k]@);
            assert(action_in_storage(feed(old(self)@, chunk@).actions[k]));
        }
        actions
    }

    /// Ends the body. Where the sink of a part is open, the retained bytes
    /// are its last payload and the sink is closed; the parser then looks
    /// for a delimiter again. The retained bytes are dropped in any case.
    pub fn finalize(&mut self) -> (actions: Vec<SinkAction>)
        requires
            well_formed(old(self)@),
        ensures
            final(self)@ == finish(old(self)@).machine,
            action_views(actions@) == finish(old(self)@).actions,
            well_formed(final(self)@),
            forall|k: int| 0 <= k < actions@.len() ==> opens_in_storage(#[trigger] actions@[k]),
    {
        proof {
            lemma_opens_in_storage(old(self)@, Seq::empty());
        }
        let mut actions: Vec<SinkAction> = Vec::new();
        let mut kept: Vec<u8> = Vec::new();
        std::mem::swap(&mut kept, &mut self.retained);
        assert(action_views(actions@) =~= Seq::<ActionView>::empty());
        match self.state {
            ParserState::ReadingData => {
                self.write_data(kept.as_slice(), &mut actions);
                self.close_file_writer(&mut actions);
                assert(action_views(actions@) =~= finish(old(self)@).actions);
            },
            _ => {},
        }
        assert forall|k: int| 0 <= k < actions@.len() implies opens_in_storage(
            #[trigger] actions@[k],
        ) by {
            assert(action_views(actions@)[k] == actions@[k]@);
            assert(action_in_storage(finish(old(self)@).actions[k]));
        }
        actions
    }
}

} // verus!
