//! What holds of the parser as a whole.
//!
//! Each law is a proof about [`feed`], the function that says what one call
//! of the parser does, and about [`feed_all`], a run of such calls.

use crate::headers::{blank_part, header_block_effect, PartView};
use crate::invariance::{
    lemma_scan_extend, lemma_scan_recounted, lemma_scan_shift, lemma_scan_within, recounted,
};
use crate::model::{
    action_in_storage, after_line_break, close_actions, closed, counted, covered, feed, finish,
    header_end, is_stored, lemma_scan_unfold, next_delimiter,
    lemma_step_covered, lemma_step_progress, opened, payload_end, released, scan, state_rank,
    step, storage_path, well_formed, write_actions, ActionView, Fed, FileRecord, ParserState,
    ParserView, StatsView,
};
use crate::pattern::{
    first_match, lemma_first_match_after_miss, lemma_first_match_least, matches_at,
};
use crate::sink::{
    lemma_open_after_concat, lemma_perform_all_concat, lemma_perform_all_one, open_after,
    perform_all, StoredFile,
};
use vstd::prelude::*;

verus! {

/// The bytes of a run of chunks, in order.
pub open spec fn joined(chunks: Seq<Seq<u8>>) -> Seq<u8>
    decreases chunks.len(),
{
    if chunks.len() == 0 {
        Seq::empty()
    } else {
        chunks[0] + joined(chunks.drop_first())
    }
}

/// A run of calls, one for each chunk in order, and the actions of all of
/// them in order.
pub open spec fn feed_all(m: ParserView, chunks: Seq<Seq<u8>>) -> Fed
    decreases chunks.len(),
{
    if chunks.len() == 0 {
        Fed { machine: m, actions: Seq::empty() }
    } else {
        let first = feed(m, chunks[0]);
        let rest = feed_all(first.machine, chunks.drop_first());
        Fed { machine: rest.machine, actions: first.actions + rest.actions }
    }
}

/// Two parsers agree in everything but the number of calls they have seen.
pub open spec fn same_outcome(a: ParserView, b: ParserView) -> bool {
    a == (ParserView {
        stats: StatsView { total_chunks: a.stats.total_chunks, ..b.stats },
        ..b
    })
}

/// A scan leaves the retained bytes and the counts of chunks and bytes as
/// they were, and only adds to the file records.
pub proof fn lemma_scan_keeps(m: ParserView, data: Seq<u8>, pos: int)
    requires
        0 <= pos <= data.len(),
    ensures
        ({
            let after = scan(m, data, pos).machine;
            &&& after.retained == m.retained
            &&& after.stats.total_chunks == m.stats.total_chunks
            &&& after.stats.total_bytes == m.stats.total_bytes
            &&& after.stats.files_saved.len() >= m.stats.files_saved.len()
            &&& after.stats.files_saved.subrange(0, m.stats.files_saved.len() as int)
                == m.stats.files_saved
        }),
    decreases data.len() - pos, state_rank(m.state),
{
    lemma_step_progress(m, data, pos);
    lemma_scan_unfold(m, data, pos);
    let s = step(m, data, pos);
    let saved = m.stats.files_saved;
    if !s.halted {
        lemma_scan_keeps(s.machine, data, s.pos);
        let after = scan(m, data, pos).machine;
        let mid = s.machine.stats.files_saved;
        assert(mid.subrange(0, saved.len() as int) =~= saved);
        let records = after.stats.files_saved;
        assert(records.subrange(0, saved.len() as int) =~= records.subrange(
            0,
            mid.len() as int,
        ).subrange(0, saved.len() as int));
    } else {
        assert(saved.subrange(0, saved.len() as int) =~= saved);
    }
}

/// A scan keeps the counts covered.
pub proof fn lemma_scan_covered(m: ParserView, data: Seq<u8>, pos: int)
    requires
        0 <= pos <= data.len(),
        covered(m, data.len() - pos),
    ensures
        covered(scan(m, data, pos).machine, data.len() - scan(m, data, pos).pos),
    decreases data.len() - pos, state_rank(m.state),
{
    lemma_step_progress(m, data, pos);
    lemma_step_covered(m, data, pos);
    lemma_scan_unfold(m, data, pos);
    let s = step(m, data, pos);
    if !s.halted {
        lemma_scan_covered(s.machine, data, s.pos);
    }
}

/// A call keeps a parser well formed, counts its chunk and the bytes of it,
/// and keeps the boundary.
pub proof fn lemma_feed_counts(m: ParserView, chunk: Seq<u8>)
    ensures
        feed(m, chunk).machine.boundary == m.boundary,
        feed(m, chunk).machine.stats.total_chunks == m.stats.total_chunks + 1,
        feed(m, chunk).machine.stats.total_bytes == m.stats.total_bytes + chunk.len(),
        well_formed(m) ==> well_formed(feed(m, chunk).machine),
{
    let data = m.retained + chunk;
    let start = counted(m, chunk);
    lemma_scan_within(start, data, 0);
    lemma_scan_keeps(start, data, 0);
    if well_formed(m) {
        lemma_scan_covered(start, data, 0);
    }
}

/// **Completion.** After a run of calls the byte count has grown by the
/// number of bytes that were given, and the chunk count by the number of
/// calls. A parser that was fed a whole body, however it was cut, has
/// counted exactly the length of the body.
pub proof fn lemma_totals(m: ParserView, chunks: Seq<Seq<u8>>)
    ensures
        feed_all(m, chunks).machine.stats.total_bytes == m.stats.total_bytes + joined(
            chunks,
        ).len(),
        feed_all(m, chunks).machine.stats.total_chunks == m.stats.total_chunks + chunks.len(),
        feed_all(m, chunks).machine.boundary == m.boundary,
        well_formed(m) ==> well_formed(feed_all(m, chunks).machine),
    decreases chunks.len(),
{
    if chunks.len() > 0 {
        lemma_feed_counts(m, chunks[0]);
        lemma_totals(feed(m, chunks[0]).machine, chunks.drop_first());
    }
}

/// A scan of a buffer to which input was appended is the scan of the buffer
/// as it was, followed by a scan of what that one left together with the new
/// input.
proof fn lemma_scan_resume(c: ParserView, short: Seq<u8>, more: Seq<u8>, store: Seq<StoredFile>)
    ensures
        ({
            let before = scan(c, short, 0);
            let left = (short + more).subrange(before.pos, (short + more).len() as int);
            let after = scan(before.machine, left, 0);
            let whole = scan(c, short + more, 0);
            &&& 0 <= before.pos <= short.len()
            &&& whole.machine == after.machine
            &&& whole.pos == before.pos + after.pos
            &&& 0 <= after.pos <= left.len()
            &&& perform_all(store, whole.actions) == perform_all(
                store,
                before.actions + after.actions,
            )
        }),
{
    let long = short + more;
    lemma_scan_within(c, short, 0);
    let before = scan(c, short, 0);
    lemma_scan_extend(c, short, more, 0, store);
    lemma_scan_shift(before.machine, long, before.pos, before.pos);
    lemma_scan_within(before.machine, long, before.pos);
}

/// Feeding two chunks one after the other comes to what feeding their
/// concatenation as one chunk comes to: the parser ends in the same state
/// with the same retained bytes, descriptor, counts of fields and files and
/// file records, and the actions leave the same files.
pub proof fn lemma_feed_two_chunks(
    m: ParserView,
    x: Seq<u8>,
    y: Seq<u8>,
    store: Seq<StoredFile>,
)
    ensures
        same_outcome(feed(feed(m, x).machine, y).machine, feed(m, x + y).machine),
        perform_all(store, feed(m, x).actions + feed(feed(m, x).machine, y).actions)
            == perform_all(store, feed(m, x + y).actions),
{
    let short = m.retained + x;
    let long = m.retained + (x + y);
    assert(long =~= short + y);
    let start1 = counted(m, x);
    let scan1 = scan(start1, short, 0);
    let first = feed(m, x);
    lemma_scan_within(start1, short, 0);
    lemma_scan_keeps(start1, short, 0);
    let left = long.subrange(scan1.pos, long.len() as int);
    lemma_scan_resume(start1, short, y, store);
    assert(first.machine.retained + y =~= left);
    let start2 = counted(first.machine, y);
    let start = counted(m, x + y);
    assert(start == recounted(start1, start));
    lemma_scan_recounted(start1, start, long, 0);
    assert(start2 == recounted(scan1.machine, start2));
    lemma_scan_recounted(scan1.machine, start2, left, 0);
    let scan2 = scan(start2, left, 0);
    let whole = scan(start, long, 0);
    assert(left.subrange(scan2.pos, left.len() as int) =~= long.subrange(
        whole.pos,
        long.len() as int,
    ));
}

/// **Chunking invariance.** However a body is cut into chunks, feeding the
/// chunks in order comes to what feeding the whole body as one chunk comes
/// to: the parser ends in the same state with the same retained bytes, the
/// same counts of fields and files and the same file records, and the sink
/// holds the same files with the same contents. Only the number of calls
/// differs.
pub proof fn lemma_chunking_invariance(
    m: ParserView,
    chunks: Seq<Seq<u8>>,
    store: Seq<StoredFile>,
)
    requires
        chunks.len() > 0,
    ensures
        same_outcome(feed_all(m, chunks).machine, feed(m, joined(chunks)).machine),
        perform_all(store, feed_all(m, chunks).actions) == perform_all(
            store,
            feed(m, joined(chunks)).actions,
        ),
    decreases chunks.len(),
{
    let first = feed(m, chunks[0]);
    let rest = chunks.drop_first();
    if rest.len() == 0 {
        assert(joined(rest) =~= Seq::<u8>::empty());
        assert(joined(chunks) =~= chunks[0]);
        assert(feed_all(first.machine, rest).actions =~= Seq::<ActionView>::empty());
        assert(feed_all(m, chunks).actions =~= first.actions);
    } else {
        let mid = perform_all(store, first.actions);
        lemma_chunking_invariance(first.machine, rest, mid);
        lemma_feed_two_chunks(m, chunks[0], joined(rest), store);
        let tail_many = feed_all(first.machine, rest);
        let tail_one = feed(first.machine, joined(rest));
        lemma_perform_all_concat(store, first.actions, tail_many.actions);
        lemma_perform_all_concat(store, first.actions, tail_one.actions);
    }
}

/// **Bounded retention.** While the payload of a part is read, no more than
/// the length of the boundary and one byte is held back, whatever the size
/// of the part.
pub proof fn lemma_bounded_retention(m: ParserView, chunk: Seq<u8>)
    ensures
        feed(m, chunk).machine.state == ParserState::ReadingData ==> feed(
            m,
            chunk,
        ).machine.retained.len() <= m.boundary.len() + 1,
{
    let data = m.retained + chunk;
    lemma_scan_halts_near_end(counted(m, chunk), data, 0);
    lemma_scan_within(counted(m, chunk), data, 0);
}

proof fn lemma_scan_halts_near_end(m: ParserView, data: Seq<u8>, pos: int)
    requires
        0 <= pos <= data.len(),
    ensures
        scan(m, data, pos).machine.state == ParserState::ReadingData ==> data.len() - scan(
            m,
            data,
            pos,
        ).pos <= m.boundary.len() + 1,
    decreases data.len() - pos, state_rank(m.state),
{
    lemma_step_progress(m, data, pos);
    lemma_scan_unfold(m, data, pos);
    let s = step(m, data, pos);
    if !s.halted {
        lemma_scan_halts_near_end(s.machine, data, s.pos);
    }
}

/// **No premature emission.** While the payload of a part is read and the
/// buffer holds no delimiter, the bytes that are released end two bytes
/// before any place at which later input can complete a delimiter. So no
/// beginning of a delimiter, the whole of it but its last byte included, nor
/// the line break before it, reaches a sink before the input that follows
/// has shown what it is.
pub proof fn lemma_no_premature_emission(
    m: ParserView,
    data: Seq<u8>,
    pos: int,
    more: Seq<u8>,
    at: int,
)
    requires
        m.state == ParserState::ReadingData,
        0 <= pos <= data.len(),
        first_match(data, pos, m.boundary) is None,
        pos <= at,
        matches_at(data + more, at, m.boundary),
    ensures
        step(m, data, pos).halted,
        step(m, data, pos).machine.state == ParserState::ReadingData,
        step(m, data, pos).actions == write_actions(
            m.part,
            data.subrange(pos, step(m, data, pos).pos),
        ),
        pos <= step(m, data, pos).pos <= payload_end(pos, at),
{
    lemma_first_match_after_miss(data, more, pos, m.boundary);
}

/// Releasing the rest of a payload and closing the file leaves the file with
/// the payload appended, closed, and the other files as they were.
proof fn lemma_write_and_close(store: Seq<StoredFile>, part: PartView, payload: Seq<u8>)
    requires
        store.len() > 0,
        is_stored(part),
    ensures
        perform_all(store, write_actions(part, payload) + close_actions(part)) == store.update(
            store.len() - 1,
            StoredFile { content: store.last().content + payload, closed: true, ..store.last() },
        ),
        perform_all(store, write_actions(part, payload)) == store.update(
            store.len() - 1,
            StoredFile { content: store.last().content + payload, ..store.last() },
        ),
{
    let write = write_actions(part, payload);
    let close = close_actions(part);
    lemma_perform_all_concat(store, write, close);
    lemma_perform_all_one(perform_all(store, write), ActionView::CloseFile);
    if payload.len() > 0 {
        lemma_perform_all_one(store, ActionView::Write(payload));
    } else {
        assert(store.last().content + payload =~= store.last().content);
        assert(store.update(store.len() - 1, store.last()) =~= store);
    }
    assert(perform_all(store, write) =~= store.update(
        store.len() - 1,
        StoredFile { content: store.last().content + payload, ..store.last() },
    ));
    assert(perform_all(store, write + close) =~= store.update(
        store.len() - 1,
        StoredFile { content: store.last().content + payload, closed: true, ..store.last() },
    ));
}

/// Number of files of `store` that a scan from `m` cannot touch any more:
/// all of them, but for the file of a file part whose sink is open.
pub open spec fn settled(m: ParserView, store: Seq<StoredFile>) -> int {
    if m.state == ParserState::ReadingData && is_stored(m.part) {
        store.len() - 1
    } else {
        store.len() as int
    }
}

/// The actions of a scan leave the settled files as they are.
pub proof fn lemma_scan_keeps_settled(
    m: ParserView,
    data: Seq<u8>,
    pos: int,
    store: Seq<StoredFile>,
)
    requires
        0 <= pos <= data.len(),
        settled(m, store) >= 0,
    ensures
        ({
            let after = perform_all(store, scan(m, data, pos).actions);
            &&& after.len() >= settled(m, store)
            &&& forall|k: int| 0 <= k < settled(m, store) ==> after[k] == store[k]
        }),
    decreases data.len() - pos, state_rank(m.state),
{
    lemma_step_progress(m, data, pos);
    lemma_scan_unfold(m, data, pos);
    lemma_first_match_least(data, pos, m.boundary);
    let s = step(m, data, pos);
    let mid = perform_all(store, s.actions);
    match m.state {
        ParserState::SearchingBoundary => {},
        ParserState::ReadingHeaders => {
            if !s.halted && s.actions.len() > 0 {
                assert(s.actions =~= seq![s.actions[0]]);
                lemma_perform_all_one(store, s.actions[0]);
            }
        },
        ParserState::ReadingData => {
            if is_stored(m.part) {
                let payload = data.subrange(pos, if s.halted {
                    s.pos
                } else {
                    payload_end(pos, s.pos)
                });
                lemma_write_and_close(store, m.part, payload);
            } else {
                assert(s.actions =~= Seq::<ActionView>::empty());
            }
        },
    }
    if !s.halted {
        lemma_scan_keeps_settled(s.machine, data, s.pos, mid);
        lemma_perform_all_concat(store, s.actions, scan(s.machine, data, s.pos).actions);
    }
}

/// What a scan that begins inside a header block does for the file part
/// of that block: see [`lemma_file_round_trip`].
proof fn lemma_scan_round_trip(
    c: ParserView,
    data: Seq<u8>,
    pos: int,
    store: Seq<StoredFile>,
    terminator: int,
    delimiter: int,
)
    requires
        0 <= pos <= data.len(),
        c.state == ParserState::ReadingHeaders,
        first_match(data, pos, header_end()) == Some(terminator),
        is_stored(header_block_effect(c.part, data.subrange(pos, terminator))),
        first_match(data, terminator + 4, c.boundary) == Some(delimiter),
    ensures
        ({
            let part = header_block_effect(c.part, data.subrange(pos, terminator));
            let filename = part.kind->filename;
            let content = data.subrange(terminator + 4, payload_end(terminator + 4, delimiter));
            let files = perform_all(store, scan(c, data, pos).actions);
            let records = scan(c, data, pos).machine.stats.files_saved;
            &&& files.len() > store.len()
            &&& files[store.len() as int] == (StoredFile {
                filename,
                path: storage_path(filename),
                content,
                closed: true,
            })
            &&& forall|k: int| 0 <= k < store.len() ==> files[k] == store[k]
            &&& records.len() > c.stats.files_saved.len()
            &&& records[c.stats.files_saved.len() as int] == (FileRecord {
                field_name: part.field_name,
                filename,
                size: content.len(),
                path: storage_path(filename),
            })
            &&& forall|k: int|
                0 <= k < c.stats.files_saved.len() ==> records[k] == c.stats.files_saved[k]
        }),
{
    lemma_first_match_least(data, pos, header_end());
    lemma_first_match_least(data, terminator + 4, c.boundary);
    let s1 = step(c, data, pos);
    lemma_scan_unfold(c, data, pos);
    lemma_scan_unfold(s1.machine, data, s1.pos);
    let part = header_block_effect(c.part, data.subrange(pos, terminator));
    let filename = part.kind->filename;
    assert(s1.machine == opened(c, data.subrange(pos, terminator)));
    assert(s1.pos == terminator + 4);
    let s2 = step(s1.machine, data, s1.pos);
    let content = data.subrange(terminator + 4, payload_end(terminator + 4, delimiter));
    assert(s2.machine == closed(released(s1.machine, content.len())));
    assert(s2.pos == delimiter);
    let rest = scan(s2.machine, data, delimiter);
    assert(scan(c, data, pos).actions == s1.actions + (s2.actions + rest.actions));

    // The files.
    let opened_store = perform_all(store, s1.actions);
    lemma_perform_all_one(store, s1.actions[0]);
    assert(s1.actions =~= seq![s1.actions[0]]);
    let fresh = StoredFile {
        filename,
        path: storage_path(filename),
        content: Seq::empty(),
        closed: false,
    };
    assert(opened_store == store.push(fresh));
    lemma_write_and_close(opened_store, part, content);
    let closed_store = perform_all(opened_store, s2.actions);
    assert(fresh.content + content =~= content);
    lemma_scan_keeps_settled(s2.machine, data, delimiter, closed_store);
    lemma_perform_all_concat(store, s1.actions, s2.actions + rest.actions);
    lemma_perform_all_concat(opened_store, s2.actions, rest.actions);

    // The records.
    lemma_scan_keeps(s2.machine, data, delimiter);
    let before = c.stats.files_saved;
    let saved = s2.machine.stats.files_saved;
    let records = rest.machine.stats.files_saved;
    assert(saved == before.push(
        FileRecord {
            field_name: part.field_name,
            filename,
            size: content.len(),
            path: storage_path(filename),
        },
    ));
    assert forall|k: int| 0 <= k <= before.len() implies records[k] == saved[k] by {
        assert(records.subrange(0, saved.len() as int)[k] == records[k]);
    }
}

/// **Round trip for files, from inside the header block.** Take a parser
/// inside a header block and a body that goes on with the blank line at
/// `terminator`, announces a file with a plain name, and holds the next
/// delimiter at `delimiter`. However the body is cut into chunks, the sink
/// then holds a new file, closed, whose content is exactly the bytes between
/// the blank line and the line break before the delimiter, and the parser
/// has its record with that many bytes as its size. A file part without
/// payload leaves an empty file and a record of size 0. The files and
/// records that were there before are as they were.
pub proof fn lemma_file_round_trip(
    m: ParserView,
    chunks: Seq<Seq<u8>>,
    store: Seq<StoredFile>,
    terminator: int,
    delimiter: int,
)
    requires
        chunks.len() > 0,
        m.state == ParserState::ReadingHeaders,
        first_match(m.retained + joined(chunks), 0, header_end()) == Some(terminator),
        is_stored(
            header_block_effect(m.part, (m.retained + joined(chunks)).subrange(0, terminator)),
        ),
        first_match(m.retained + joined(chunks), terminator + 4, m.boundary) == Some(delimiter),
    ensures
        ({
            let data = m.retained + joined(chunks);
            let part = header_block_effect(m.part, data.subrange(0, terminator));
            let filename = part.kind->filename;
            let content = data.subrange(terminator + 4, payload_end(terminator + 4, delimiter));
            let files = perform_all(store, feed_all(m, chunks).actions);
            let records = feed_all(m, chunks).machine.stats.files_saved;
            &&& files.len() > store.len()
            &&& files[store.len() as int] == (StoredFile {
                filename,
                path: storage_path(filename),
                content,
                closed: true,
            })
            &&& forall|k: int| 0 <= k < store.len() ==> files[k] == store[k]
            &&& records.len() > m.stats.files_saved.len()
            &&& records[m.stats.files_saved.len() as int] == (FileRecord {
                field_name: part.field_name,
                filename,
                size: content.len(),
                path: storage_path(filename),
            })
            &&& forall|k: int|
                0 <= k < m.stats.files_saved.len() ==> records[k] == m.stats.files_saved[k]
        }),
{
    let body = joined(chunks);
    lemma_chunking_invariance(m, chunks, store);
    lemma_scan_round_trip(counted(m, body), m.retained + body, 0, store, terminator, delimiter);
}

/// Number of file records that a parser has or owes: the records, and one
/// more while the sink of a stored file is open.
pub open spec fn records_owed(m: ParserView) -> int {
    m.stats.files_saved.len() + if file_open(m) {
        1int
    } else {
        0int
    }
}

/// Releasing the rest of a payload and closing the sink changes no file but
/// the last, and adds none.
proof fn lemma_close_keeps_files(store: Seq<StoredFile>, part: PartView, payload: Seq<u8>)
    ensures
        perform_all(store, write_actions(part, payload) + close_actions(part)).len()
            == store.len(),
        forall|k: int|
            0 <= k < store.len() - 1 ==> perform_all(
                store,
                write_actions(part, payload) + close_actions(part),
            )[k] == store[k],
        !is_stored(part) ==> perform_all(
            store,
            write_actions(part, payload) + close_actions(part),
        ) == store,
{
    let actions = write_actions(part, payload) + close_actions(part);
    if is_stored(part) {
        if store.len() > 0 {
            lemma_write_and_close(store, part, payload);
        } else {
            let write = write_actions(part, payload);
            let close = close_actions(part);
            lemma_perform_all_concat(store, write, close);
            lemma_perform_all_one(perform_all(store, write), ActionView::CloseFile);
            if payload.len() > 0 {
                lemma_perform_all_one(store, ActionView::Write(payload));
            }
        }
    } else {
        assert(actions =~= Seq::<ActionView>::empty());
    }
}

/// **Round trip for files, over a body.** Take a parser that is not inside
/// a header block: it looks for a delimiter, as a new parser does, or is
/// inside the part before. Let the next delimiter that it can act on stand
/// at `opening`, let the header block after it end with the blank line at
/// `terminator` and announce a file with a plain name, and let the
/// delimiter after that stand at `delimiter`. However the body is cut into
/// chunks, the sink then holds a new file, closed, whose content is exactly
/// the bytes between the blank line and the line break before that
/// delimiter, and the parser has its record with that many bytes as its
/// size. The files that were closed before are as they were.
///
/// The positions count from the first retained byte; for a new parser they
/// are positions in the body.
pub proof fn lemma_file_round_trip_over_body(
    m: ParserView,
    chunks: Seq<Seq<u8>>,
    store: Seq<StoredFile>,
    opening: int,
    terminator: int,
    delimiter: int,
)
    requires
        chunks.len() > 0,
        m.state != ParserState::ReadingHeaders,
        next_delimiter(m.boundary, m.retained + joined(chunks), 0) == Some(opening),
        first_match(
            m.retained + joined(chunks),
            after_line_break(m.retained + joined(chunks), opening + m.boundary.len()),
            header_end(),
        ) == Some(terminator),
        is_stored(
            header_block_effect(
                blank_part(),
                (m.retained + joined(chunks)).subrange(
                    after_line_break(m.retained + joined(chunks), opening + m.boundary.len()),
                    terminator,
                ),
            ),
        ),
        first_match(m.retained + joined(chunks), terminator + 4, m.boundary) == Some(delimiter),
    ensures
        ({
            let data = m.retained + joined(chunks);
            let begin = after_line_break(data, opening + m.boundary.len());
            let part = header_block_effect(blank_part(), data.subrange(begin, terminator));
            let filename = part.kind->filename;
            let content = data.subrange(terminator + 4, payload_end(terminator + 4, delimiter));
            let files = perform_all(store, feed_all(m, chunks).actions);
            let records = feed_all(m, chunks).machine.stats.files_saved;
            &&& files.len() > store.len()
            &&& files[store.len() as int] == (StoredFile {
                filename,
                path: storage_path(filename),
                content,
                closed: true,
            })
            &&& forall|k: int| 0 <= k < settled(m, store) ==> files[k] == store[k]
            &&& records.len() > records_owed(m)
            &&& records[records_owed(m)] == (FileRecord {
                field_name: part.field_name,
                filename,
                size: content.len(),
                path: storage_path(filename),
            })
            &&& forall|k: int|
                0 <= k < m.stats.files_saved.len() ==> records[k] == m.stats.files_saved[k]
        }),
{
    let body = joined(chunks);
    let data = m.retained + body;
    lemma_chunking_invariance(m, chunks, store);
    let start = counted(m, body);
    lemma_first_match_least(data, 0, m.boundary);
    lemma_scan_unfold(start, data, 0);
    lemma_step_progress(start, data, 0);
    let first = step(start, data, 0);
    let none = Seq::<ActionView>::empty();
    if m.state == ParserState::SearchingBoundary {
        assert(first.actions + scan(first.machine, data, first.pos).actions =~= scan(
            first.machine,
            data,
            first.pos,
        ).actions);
        lemma_scan_round_trip(first.machine, data, first.pos, store, terminator, delimiter);
    } else {
        // The delimiter at `opening` closes the part before.
        let payload = data.subrange(0, payload_end(0, opening));
        assert(first.machine == closed(released(start, payload.len())));
        assert(first.pos == opening);
        lemma_close_keeps_files(store, m.part, payload);
        let after_close = perform_all(store, first.actions);
        lemma_scan_unfold(first.machine, data, opening);
        lemma_step_progress(first.machine, data, opening);
        lemma_first_match_least(data, opening, m.boundary);
        let second = step(first.machine, data, opening);
        let rest = scan(second.machine, data, second.pos);
        assert(second.actions + rest.actions =~= rest.actions);
        lemma_scan_round_trip(
            second.machine,
            data,
            second.pos,
            after_close,
            terminator,
            delimiter,
        );
        lemma_perform_all_concat(store, first.actions, rest.actions);
        let before = m.stats.files_saved;
        let saved = first.machine.stats.files_saved;
        if is_stored(m.part) {
            assert forall|k: int| 0 <= k < before.len() implies saved[k] == before[k] by {}
        }
    }
}

/// **Round trip for files, for any part of a body.** Cut a body in two
/// anywhere in front of a file part, so that the parser, fed the first
/// piece, is not inside a header block. Let the second piece, seen from
/// there, hold the part as [`lemma_file_round_trip_over_body`] asks. Then
/// however the whole body is cut into chunks, the sink holds the file of
/// that part, closed, with exactly the bytes between its blank line and the
/// line break before the next delimiter, after the files that the first
/// piece left; and the parser has its record.
pub proof fn lemma_file_round_trip_after_cut(
    m: ParserView,
    chunks: Seq<Seq<u8>>,
    store: Seq<StoredFile>,
    front: Seq<u8>,
    back: Seq<u8>,
    opening: int,
    terminator: int,
    delimiter: int,
)
    requires
        chunks.len() > 0,
        joined(chunks) == front + back,
        feed(m, front).machine.state != ParserState::ReadingHeaders,
        next_delimiter(m.boundary, feed(m, front).machine.retained + back, 0) == Some(opening),
        first_match(
            feed(m, front).machine.retained + back,
            after_line_break(
                feed(m, front).machine.retained + back,
                opening + m.boundary.len(),
            ),
            header_end(),
        ) == Some(terminator),
        is_stored(
            header_block_effect(
                blank_part(),
                (feed(m, front).machine.retained + back).subrange(
                    after_line_break(
                        feed(m, front).machine.retained + back,
                        opening + m.boundary.len(),
                    ),
                    terminator,
                ),
            ),
        ),
        first_match(feed(m, front).machine.retained + back, terminator + 4, m.boundary) == Some(
            delimiter,
        ),
    ensures
        ({
            let cut = feed(m, front).machine;
            let left = perform_all(store, feed(m, front).actions);
            let data = cut.retained + back;
            let begin = after_line_break(data, opening + m.boundary.len());
            let part = header_block_effect(blank_part(), data.subrange(begin, terminator));
            let filename = part.kind->filename;
            let content = data.subrange(terminator + 4, payload_end(terminator + 4, delimiter));
            let files = perform_all(store, feed_all(m, chunks).actions);
            let records = feed_all(m, chunks).machine.stats.files_saved;
            &&& files.len() > left.len()
            &&& files[left.len() as int] == (StoredFile {
                filename,
                path: storage_path(filename),
                content,
                closed: true,
            })
            &&& records.len() > records_owed(cut)
            &&& records[records_owed(cut)] == (FileRecord {
                field_name: part.field_name,
                filename,
                size: content.len(),
                path: storage_path(filename),
            })
        }),
{
    let cut = feed(m, front).machine;
    let left = perform_all(store, feed(m, front).actions);
    lemma_feed_counts(m, front);
    lemma_chunking_invariance(m, chunks, store);
    lemma_feed_two_chunks(m, front, back, store);
    lemma_perform_all_concat(store, feed(m, front).actions, feed(cut, back).actions);
    let one = seq![back];
    assert(one.drop_first() =~= Seq::<Seq<u8>>::empty());
    assert(joined(one) =~= back) by {
        reveal_with_fuel(joined, 2);
    }
    assert(feed_all(cut, one).machine == feed(cut, back).machine && feed_all(cut, one).actions
        =~= feed(cut, back).actions) by {
        reveal_with_fuel(feed_all, 2);
    }
    lemma_file_round_trip_over_body(cut, one, left, opening, terminator, delimiter);
}

/// **A sink is closed once.** Take a parser inside a part and a buffer in
/// which the closing delimiter stands at `at`. The transition releases the
/// payload before the line break of the delimiter and closes the sink: the
/// parser leaves the part, so that no sink is open any more. A stored file
/// leaves exactly one record, with the bytes that were released to it as
/// its size, which is 0 where the part had no payload, and its file is
/// closed; a field is counted once; a refused file leaves nothing.
pub proof fn lemma_sink_is_closed_once(m: ParserView, data: Seq<u8>, pos: int, at: int)
    requires
        m.state == ParserState::ReadingData,
        0 <= pos <= data.len(),
        first_match(data, pos, m.boundary) == Some(at),
    ensures
        ({
            let s = step(m, data, pos);
            let payload = data.subrange(pos, payload_end(pos, at));
            &&& !s.halted
            &&& s.pos == at
            &&& s.machine.state == ParserState::SearchingBoundary
            &&& !file_open(s.machine)
            &&& s.actions == write_actions(m.part, payload) + close_actions(m.part)
            &&& is_stored(m.part) ==> {
                &&& s.machine.stats.files_saved == m.stats.files_saved.push(
                    FileRecord {
                        field_name: m.part.field_name,
                        filename: m.part.kind->filename,
                        size: m.written + payload.len(),
                        path: storage_path(m.part.kind->filename),
                    },
                )
                &&& s.machine.stats.fields_count == m.stats.fields_count
                &&& s.machine.stats.files_count == m.stats.files_count
                &&& open_after(true, s.actions) == Some(false)
            }
            &&& m.part.kind is Field ==> {
                &&& s.machine.stats.files_saved == m.stats.files_saved
                &&& s.machine.stats.fields_count == m.stats.fields_count + 1
                &&& s.actions == Seq::<ActionView>::empty()
            }
            &&& !is_stored(m.part) && !(m.part.kind is Field) ==> {
                &&& s.machine.stats == m.stats
                &&& s.actions == Seq::<ActionView>::empty()
            }
        }),
{
    lemma_first_match_least(data, pos, m.boundary);
    lemma_step_in_turn(m, data, pos);
    let s = step(m, data, pos);
    if !is_stored(m.part) {
        assert(s.actions =~= Seq::<ActionView>::empty());
    }
}

/// The actions of a scan open files inside the storage directory only.
pub proof fn lemma_scan_opens_in_storage(m: ParserView, data: Seq<u8>, pos: int)
    requires
        0 <= pos <= data.len(),
    ensures
        forall|k: int|
            0 <= k < scan(m, data, pos).actions.len() ==> action_in_storage(
                #[trigger] scan(m, data, pos).actions[k],
            ),
    decreases data.len() - pos, state_rank(m.state),
{
    lemma_step_progress(m, data, pos);
    lemma_scan_unfold(m, data, pos);
    let s = step(m, data, pos);
    if !s.halted {
        lemma_scan_opens_in_storage(s.machine, data, s.pos);
    }
}

/// **Files stay inside the storage directory.** Every file that a call asks
/// to open has a plain name and lies inside the storage directory under
/// that name, whatever names the body sent. A file part with any other name
/// is refused: no file is opened for it. The end of input opens no file.
pub proof fn lemma_opens_in_storage(m: ParserView, chunk: Seq<u8>)
    ensures
        forall|k: int|
            0 <= k < feed(m, chunk).actions.len() ==> action_in_storage(
                #[trigger] feed(m, chunk).actions[k],
            ),
        forall|k: int|
            0 <= k < finish(m).actions.len() ==> action_in_storage(
                #[trigger] finish(m).actions[k],
            ),
{
    lemma_scan_opens_in_storage(counted(m, chunk), m.retained + chunk, 0);
}

/// **A delimiter that has begun is held back.** Take a well-formed parser
/// that, after a call, is inside a part of which it has released bytes.
/// Then it retains exactly the length of the boundary and one byte, and
/// these are the last bytes it was given. So where the input so far ends
/// with the first `k` bytes of the boundary, for any `k` below its length,
/// those bytes and the two before them are retained and none of them has
/// reached a sink. (Where no byte of the part was released yet, none of its
/// bytes has reached a sink at all.)
pub proof fn lemma_delimiter_start_is_held_back(m: ParserView, chunk: Seq<u8>, k: int)
    requires
        well_formed(m),
        feed(m, chunk).machine.state == ParserState::ReadingData,
        feed(m, chunk).machine.written > 0,
        1 <= k < m.boundary.len(),
        k <= (m.retained + chunk).len(),
        matches_at(
            m.retained + chunk,
            (m.retained + chunk).len() - k,
            m.boundary.subrange(0, k),
        ),
    ensures
        ({
            let data = m.retained + chunk;
            let retained = feed(m, chunk).machine.retained;
            &&& retained.len() == m.boundary.len() + 1
            &&& retained.len() <= data.len()
            &&& retained == data.subrange(data.len() - retained.len(), data.len() as int)
            &&& retained.len() >= k + 2
            &&& matches_at(retained, retained.len() - k, m.boundary.subrange(0, k))
        }),
{
    let data = m.retained + chunk;
    let start = counted(m, chunk);
    lemma_scan_within(start, data, 0);
    lemma_feed_counts(m, chunk);
    lemma_bounded_retention(m, chunk);
    let retained = feed(m, chunk).machine.retained;
    let prefix = m.boundary.subrange(0, k);
    assert forall|j: int| 0 <= j < prefix.len() implies #[trigger] retained[retained.len() - k
        + j] == prefix[j] by {
        assert(retained[retained.len() - k + j] == data[data.len() - k + j]);
    }
}

/// The parser has the sink of a file part open.
pub open spec fn file_open(m: ParserView) -> bool {
    m.state == ParserState::ReadingData && is_stored(m.part)
}

/// The actions of a scan come in turn, and leave a file open exactly where
/// the machine ends inside a file part.
pub proof fn lemma_scan_in_turn(m: ParserView, data: Seq<u8>, pos: int)
    requires
        0 <= pos <= data.len(),
    ensures
        open_after(file_open(m), scan(m, data, pos).actions) == Some(
            file_open(scan(m, data, pos).machine),
        ),
    decreases data.len() - pos, state_rank(m.state),
{
    lemma_step_progress(m, data, pos);
    lemma_scan_unfold(m, data, pos);
    lemma_first_match_least(data, pos, m.boundary);
    let s = step(m, data, pos);
    assert(open_after(file_open(m), s.actions) == Some(file_open(s.machine))) by {
        lemma_step_in_turn(m, data, pos);
    }
    if !s.halted {
        lemma_scan_in_turn(s.machine, data, s.pos);
        lemma_open_after_concat(file_open(m), s.actions, scan(s.machine, data, s.pos).actions);
    }
}

/// The actions of one transition come in turn.
proof fn lemma_step_in_turn(m: ParserView, data: Seq<u8>, pos: int)
    requires
        0 <= pos <= data.len(),
    ensures
        open_after(file_open(m), step(m, data, pos).actions) == Some(
            file_open(step(m, data, pos).machine),
        ),
{
    let s = step(m, data, pos);
    let none = Seq::<ActionView>::empty();
    lemma_first_match_least(data, pos, m.boundary);
    match m.state {
        ParserState::SearchingBoundary => {},
        ParserState::ReadingHeaders => {
            if !s.halted && s.actions.len() > 0 {
                assert(s.actions.drop_first() =~= none);
                assert(open_after(false, s.actions) == Some(is_stored(s.machine.part))) by {
                    reveal_with_fuel(open_after, 2);
                }
            }
        },
        ParserState::ReadingData => {
            if is_stored(m.part) {
                if s.halted {
                    if s.actions.len() > 0 {
                        assert(s.actions.drop_first() =~= none);
                    }
                    assert(open_after(true, s.actions) == Some(true)) by {
                        reveal_with_fuel(open_after, 2);
                    }
                } else {
                    let close = close_actions(m.part);
                    assert(close.drop_first() =~= none);
                    assert(open_after(true, close) == Some(false)) by {
                        reveal_with_fuel(open_after, 2);
                    }
                    let payload = data.subrange(pos, payload_end(pos, s.pos));
                    let write = write_actions(m.part, payload);
                    if write.len() > 0 {
                        assert(write.drop_first() =~= none);
                    }
                    assert(open_after(true, write) == Some(true)) by {
                        reveal_with_fuel(open_after, 2);
                    }
                    lemma_open_after_concat(true, write, close);
                }
            } else {
                assert(s.actions =~= none);
            }
        },
    }
}

/// **One sink at a time.** The actions of a call come in turn: a file is
/// opened only while none is open, and bytes are written and a file is
/// closed only while one is open. After the call a file is open exactly
/// where the parser is inside a file part, and after the end of input none
/// is.
pub proof fn lemma_one_sink_at_a_time(m: ParserView, chunk: Seq<u8>)
    ensures
        open_after(file_open(m), feed(m, chunk).actions) == Some(
            file_open(feed(m, chunk).machine),
        ),
        open_after(file_open(m), finish(m).actions) == Some(false),
        !file_open(finish(m).machine),
{
    lemma_scan_in_turn(counted(m, chunk), m.retained + chunk, 0);
    if m.state == ParserState::ReadingData {
        let none = Seq::<ActionView>::empty();
        if is_stored(m.part) {
            let write = write_actions(m.part, m.retained);
            let close = close_actions(m.part);
            assert(close.drop_first() =~= none);
            assert(open_after(true, close) == Some(false)) by {
                reveal_with_fuel(open_after, 2);
            }
            if write.len() > 0 {
                assert(write.drop_first() =~= none);
            }
            assert(open_after(true, write) == Some(true)) by {
                reveal_with_fuel(open_after, 2);
            }
            lemma_open_after_concat(true, write, close);
        } else {
            assert(finish(m).actions =~= none);
        }
    }
}

} // verus!
