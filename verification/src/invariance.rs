//! Why the parse does not depend on how the input is cut into chunks.
//!
//! Three facts about [`scan`] carry the argument. The counts of chunks and
//! bytes and the retained bytes play no part in a scan. A scan of a buffer
//! whose consumed front was cut away is the scan of the whole buffer, moved.
//! And a scan of a buffer to which input was appended goes through the place
//! where the scan of the shorter buffer stopped, so that it can be resumed
//! from there.

use crate::headers::PartView;
use crate::model::{
    close_actions, header_end, is_stored, lemma_scan_unfold, lemma_step_progress, payload_end,
    released, safe_end, scan, state_rank, step, write_actions, ActionView, ParserState,
    ParserView, Scan, StatsView, Step,
};
use crate::pattern::{
    first_match, lemma_first_match_after_miss, lemma_first_match_extend, lemma_first_match_least,
    lemma_first_match_shift, lemma_first_match_skip, matches_at,
};
use crate::sink::{
    lemma_perform_all_concat, lemma_perform_all_one, lemma_perform_writes_merge, perform,
    perform_all, StoredFile,
};
use vstd::prelude::*;

verus! {

/// `m` with the retained bytes and the counts of chunks and bytes of `like`.
pub open spec fn recounted(m: ParserView, like: ParserView) -> ParserView {
    ParserView {
        retained: like.retained,
        stats: StatsView {
            total_chunks: like.stats.total_chunks,
            total_bytes: like.stats.total_bytes,
            ..m.stats
        },
        ..m
    }
}

/// A transition neither reads nor changes the retained bytes and the counts
/// of chunks and bytes.
pub proof fn lemma_step_recounted(m: ParserView, like: ParserView, data: Seq<u8>, pos: int)
    ensures
        step(recounted(m, like), data, pos) == (Step {
            machine: recounted(step(m, data, pos).machine, like),
            ..step(m, data, pos)
        }),
{
}

/// A scan neither reads nor changes the retained bytes and the counts of
/// chunks and bytes.
pub proof fn lemma_scan_recounted(m: ParserView, like: ParserView, data: Seq<u8>, pos: int)
    ensures
        scan(recounted(m, like), data, pos) == (Scan {
            machine: recounted(scan(m, data, pos).machine, like),
            ..scan(m, data, pos)
        }),
    decreases data.len() - pos, state_rank(m.state),
{
    lemma_scan_unfold(m, data, pos);
    lemma_scan_unfold(recounted(m, like), data, pos);
    if 0 <= pos <= data.len() {
        lemma_step_recounted(m, like, data, pos);
        let s = step(m, data, pos);
        if !s.halted {
            lemma_step_progress(m, data, pos);
            lemma_scan_recounted(s.machine, like, data, s.pos);
        }
    }
}

/// A scan stays inside the buffer and keeps the boundary.
pub proof fn lemma_scan_within(m: ParserView, data: Seq<u8>, pos: int)
    requires
        0 <= pos <= data.len(),
    ensures
        pos <= scan(m, data, pos).pos <= data.len(),
        scan(m, data, pos).machine.boundary == m.boundary,
    decreases data.len() - pos, state_rank(m.state),
{
    lemma_step_progress(m, data, pos);
    lemma_scan_unfold(m, data, pos);
    let s = step(m, data, pos);
    if !s.halted {
        lemma_scan_within(s.machine, data, s.pos);
    }
}

/// A transition on the buffer without its first `cut` bytes is the
/// transition on the whole buffer, moved by `cut`.
pub proof fn lemma_step_shift(m: ParserView, data: Seq<u8>, cut: int, pos: int)
    requires
        0 <= cut <= pos <= data.len(),
    ensures
        step(m, data.subrange(cut, data.len() as int), pos - cut) == (Step {
            pos: step(m, data, pos).pos - cut,
            ..step(m, data, pos)
        }),
{
    let tail = data.subrange(cut, data.len() as int);
    lemma_first_match_shift(data, cut, pos - cut, m.boundary);
    lemma_first_match_shift(data, cut, pos - cut, header_end());
    lemma_first_match_least(data, pos, m.boundary);
    lemma_first_match_least(data, pos, header_end());
    match m.state {
        ParserState::SearchingBoundary => {
            match first_match(data, pos, m.boundary) {
                Some(at) => {
                    let end = at + m.boundary.len();
                    if end + 2 <= data.len() {
                        assert(tail[end - cut] == data[end]);
                        assert(tail[end - cut + 1] == data[end + 1]);
                    }
                },
                None => {},
            }
        },
        ParserState::ReadingHeaders => {
            match first_match(data, pos, header_end()) {
                Some(at) => {
                    assert(tail.subrange(pos - cut, at - cut) =~= data.subrange(pos, at));
                },
                None => {},
            }
        },
        ParserState::ReadingData => {
            match first_match(data, pos, m.boundary) {
                Some(at) => {
                    let end = payload_end(pos, at);
                    assert(payload_end(pos - cut, at - cut) == end - cut);
                    assert(tail.subrange(pos - cut, end - cut) =~= data.subrange(pos, end));
                },
                None => {
                    let end = safe_end(pos, data.len() as int, m.boundary.len() as int);
                    assert(safe_end(pos - cut, tail.len() as int, m.boundary.len() as int) == end
                        - cut);
                    assert(tail.subrange(pos - cut, end - cut) =~= data.subrange(pos, end));
                },
            }
        },
    }
}

/// A scan of the buffer without its first `cut` bytes is the scan of the
/// whole buffer, moved by `cut`.
pub proof fn lemma_scan_shift(m: ParserView, data: Seq<u8>, cut: int, pos: int)
    requires
        0 <= cut <= pos <= data.len(),
    ensures
        scan(m, data.subrange(cut, data.len() as int), pos - cut) == (Scan {
            pos: scan(m, data, pos).pos - cut,
            ..scan(m, data, pos)
        }),
    decreases data.len() - pos, state_rank(m.state),
{
    lemma_step_shift(m, data, cut, pos);
    lemma_step_progress(m, data, pos);
    lemma_scan_unfold(m, data, pos);
    lemma_scan_unfold(m, data.subrange(cut, data.len() as int), pos - cut);
    let s = step(m, data, pos);
    if !s.halted {
        lemma_scan_shift(s.machine, data, cut, s.pos);
    }
}

/// A transition that does not halt is not changed by input that is appended
/// to the buffer.
pub proof fn lemma_step_extend(m: ParserView, data: Seq<u8>, more: Seq<u8>, pos: int)
    requires
        0 <= pos <= data.len(),
        !step(m, data, pos).halted,
    ensures
        step(m, data + more, pos) == step(m, data, pos),
{
    let longer = data + more;
    lemma_first_match_least(data, pos, m.boundary);
    lemma_first_match_least(data, pos, header_end());
    match m.state {
        ParserState::SearchingBoundary => {
            lemma_first_match_extend(data, more, pos, m.boundary);
            let at = first_match(data, pos, m.boundary).unwrap();
            let end = at + m.boundary.len();
            assert(longer[end] == data[end]);
            assert(longer[end + 1] == data[end + 1]);
        },
        ParserState::ReadingHeaders => {
            lemma_first_match_extend(data, more, pos, header_end());
            let at = first_match(data, pos, header_end()).unwrap();
            assert(longer.subrange(pos, at) =~= data.subrange(pos, at));
        },
        ParserState::ReadingData => {
            lemma_first_match_extend(data, more, pos, m.boundary);
            let at = first_match(data, pos, m.boundary).unwrap();
            let end = payload_end(pos, at);
            assert(longer.subrange(pos, end) =~= data.subrange(pos, end));
        },
    }
}

/// Releasing a payload in two runs leaves the files that releasing it at
/// once leaves.
pub proof fn lemma_write_actions_merge(
    store: Seq<StoredFile>,
    part: PartView,
    first: Seq<u8>,
    second: Seq<u8>,
)
    ensures
        perform_all(store, write_actions(part, first) + write_actions(part, second))
            == perform_all(store, write_actions(part, first + second)),
{
    let one = write_actions(part, first);
    let two = write_actions(part, second);
    let both = write_actions(part, first + second);
    if !is_stored(part) {
        assert(one + two =~= both);
    } else if first.len() == 0 {
        assert(first + second =~= second);
        assert(one + two =~= both);
    } else if second.len() == 0 {
        assert(first + second =~= first);
        assert(one + two =~= both);
    } else {
        lemma_perform_all_concat(store, one, two);
        lemma_perform_all_one(store, ActionView::Write(first));
        lemma_perform_all_one(perform(store, ActionView::Write(first)), ActionView::Write(second));
        lemma_perform_all_one(store, ActionView::Write(first + second));
        lemma_perform_writes_merge(store, first, second);
    }
}

/// After input is appended, the scan of the longer buffer does what the scan
/// of the shorter one did and then what a scan does that is resumed where
/// the first one stopped: it ends in the same machine at the same place, and
/// its actions leave the same files.
pub proof fn lemma_scan_extend(
    m: ParserView,
    data: Seq<u8>,
    more: Seq<u8>,
    pos: int,
    store: Seq<StoredFile>,
)
    requires
        0 <= pos <= data.len(),
    ensures
        ({
            let before = scan(m, data, pos);
            let resumed = scan(before.machine, data + more, before.pos);
            let whole = scan(m, data + more, pos);
            &&& whole.machine == resumed.machine
            &&& whole.pos == resumed.pos
            &&& perform_all(store, whole.actions) == perform_all(
                store,
                before.actions + resumed.actions,
            )
        }),
    decreases data.len() - pos, state_rank(m.state),
{
    let longer = data + more;
    let s = step(m, data, pos);
    let before = scan(m, data, pos);
    let resumed = scan(before.machine, longer, before.pos);
    let whole = scan(m, longer, pos);
    lemma_step_progress(m, data, pos);
    lemma_scan_unfold(m, data, pos);
    lemma_scan_unfold(m, longer, pos);
    if !s.halted {
        lemma_step_extend(m, data, more, pos);
        let rest_before = scan(s.machine, data, s.pos);
        let rest_whole = scan(s.machine, longer, s.pos);
        let mid = perform_all(store, s.actions);
        lemma_scan_extend(s.machine, data, more, s.pos, mid);
        assert(before.actions == s.actions + rest_before.actions);
        assert(whole.actions == s.actions + rest_whole.actions);
        lemma_perform_all_concat(store, s.actions, rest_whole.actions);
        lemma_perform_all_concat(store, s.actions, rest_before.actions + resumed.actions);
        assert(before.actions + resumed.actions =~= s.actions + (rest_before.actions
            + resumed.actions));
    } else if m.state != ParserState::ReadingData {
        assert(before.actions + resumed.actions =~= resumed.actions);
    } else {
        lemma_scan_extend_data(m, data, more, pos, store);
    }
}

/// The case of [`lemma_scan_extend`] in which the shorter buffer held part
/// of a payload and no delimiter after it.
proof fn lemma_scan_extend_data(
    m: ParserView,
    data: Seq<u8>,
    more: Seq<u8>,
    pos: int,
    store: Seq<StoredFile>,
)
    requires
        0 <= pos <= data.len(),
        m.state == ParserState::ReadingData,
        step(m, data, pos).halted,
    ensures
        ({
            let before = scan(m, data, pos);
            let resumed = scan(before.machine, data + more, before.pos);
            let whole = scan(m, data + more, pos);
            &&& whole.machine == resumed.machine
            &&& whole.pos == resumed.pos
            &&& perform_all(store, whole.actions) == perform_all(
                store,
                before.actions + resumed.actions,
            )
        }),
{
    let longer = data + more;
    let width = m.boundary.len() as int;
    let s = step(m, data, pos);
    let before = scan(m, data, pos);
    lemma_scan_unfold(m, data, pos);
    let mid = s.pos;
    let held = s.machine;
    let first = data.subrange(pos, mid);
    assert(mid == safe_end(pos, data.len() as int, width));
    assert(held == released(m, first.len()));
    assert(before.actions == write_actions(m.part, first));
    let resumed = scan(held, longer, mid);
    let whole = scan(m, longer, pos);
    let from_mid = step(held, longer, mid);
    let from_pos = step(m, longer, pos);
    lemma_scan_unfold(m, longer, pos);
    lemma_scan_unfold(held, longer, mid);

    lemma_first_match_least(data, pos, m.boundary);
    lemma_first_match_after_miss(data, more, pos, m.boundary);
    assert forall|j: int| pos <= j < mid implies !matches_at(longer, j, m.boundary) by {
        assert(j + width <= data.len());
    }
    lemma_first_match_skip(longer, pos, mid, m.boundary);
    lemma_first_match_least(longer, pos, m.boundary);
    assert(first =~= longer.subrange(pos, mid));

    match first_match(longer, pos, m.boundary) {
        Some(at) => {
            let end = payload_end(pos, at);
            assert(at + width > data.len());
            assert(payload_end(mid, at) == end);
            assert(mid <= end);
            let second = longer.subrange(mid, end);
            let all = longer.subrange(pos, end);
            assert(first + second =~= all);
            assert(released(held, second.len()) == released(m, all.len()));
            assert(from_mid.machine == from_pos.machine);
            assert(from_mid.pos == from_pos.pos);
            let rest = scan(from_pos.machine, longer, at);
            let close = close_actions(m.part);
            assert(whole.actions == (write_actions(m.part, all) + close) + rest.actions);
            assert(resumed.actions == (write_actions(m.part, second) + close) + rest.actions);
            let tail = close + rest.actions;
            assert(whole.actions =~= write_actions(m.part, all) + tail);
            assert(before.actions + resumed.actions =~= (write_actions(m.part, first)
                + write_actions(m.part, second)) + tail);
            lemma_perform_all_concat(store, write_actions(m.part, all), tail);
            lemma_perform_all_concat(
                store,
                write_actions(m.part, first) + write_actions(m.part, second),
                tail,
            );
            lemma_write_actions_merge(store, m.part, first, second);
        },
        None => {
            let end = safe_end(pos, longer.len() as int, width);
            assert(safe_end(mid, longer.len() as int, width) == end);
            let second = longer.subrange(mid, end);
            let all = longer.subrange(pos, end);
            assert(first + second =~= all);
            assert(released(held, second.len()) == released(m, all.len()));
            assert(whole.actions == write_actions(m.part, all));
            assert(resumed.actions == write_actions(m.part, second));
            lemma_write_actions_merge(store, m.part, first, second);
        },
    }
}

} // verus!
