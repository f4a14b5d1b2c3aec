//! A whole run over a source held in memory: from the source bytes to the chunks.

use vstd::prelude::*;
use vstd::slice::slice_subrange;
use crate::bounds::{holds_object, in_sequence, lemma_chunks_are_source_slices};
use crate::chunk::{append_span, close_chunk, frame, open_chunk, ARRAY_OPEN};
use crate::scan::{
    first_object_end, lemma_first_object_end_ends, lemma_separator_before_object,
};
use crate::splitter::{Progress, Splitter, Step};

verus! {

/// Bytes read from the source at a time: one mebibyte.
pub const WINDOW_CAPACITY: usize = 1048576;

/// Source bytes per chunk where no other size is asked for: 512 mebibytes.
pub const DEFAULT_CHUNKSIZE: u64 = 536870912;

/// The source bytes from offset `lo` up to, not including, offset `hi`: what one
/// chunk holds between its brackets.
pub ghost struct Span {
    pub lo: int,
    pub hi: int,
}

/// The window read at `cursor`: at most `capacity` bytes, fewer where the source
/// ends first, none behind its end.
pub open spec fn window_at(source: Seq<u8>, cursor: nat, capacity: nat) -> Seq<u8> {
    if cursor >= source.len() {
        Seq::empty()
    } else if cursor + capacity >= source.len() {
        source.subrange(cursor as int, source.len() as int)
    } else {
        source.subrange(cursor as int, (cursor + capacity) as int)
    }
}

/// The spans of the chunks still to be closed when the run stands at `p`, the open
/// chunk first. A chunk that received no object is left out.
pub open spec fn chunk_spans(source: Seq<u8>, capacity: nat, p: Progress) -> Seq<Span>
    decreases source.len() - p.cursor,
    via chunk_spans_terminates
{
    let window = window_at(source, p.cursor, capacity);
    match first_object_end(window) {
        None => match p.body_start {
            None => Seq::empty(),
            Some(first) => seq![Span { lo: first as int, hi: p.cursor as int }],
        },
        Some(end) => if p.exceeds(p.object_limit(end)) {
            seq![Span { lo: p.body_first(window), hi: p.object_limit(end) }] + chunk_spans(
                source,
                capacity,
                p.next(window),
            )
        } else {
            chunk_spans(source, capacity, p.next(window))
        },
    }
}

#[via_fn]
proof fn chunk_spans_terminates(source: Seq<u8>, capacity: nat, p: Progress) {
    lemma_first_object_end_ends(window_at(source, p.cursor, capacity));
}

/// The state in which a run that stands at `p` ends: the state in which the window
/// read at the cursor holds no complete object.
pub open spec fn final_progress(source: Seq<u8>, capacity: nat, p: Progress) -> Progress
    decreases source.len() - p.cursor,
    via final_progress_terminates
{
    let window = window_at(source, p.cursor, capacity);
    match first_object_end(window) {
        None => p,
        Some(end) => final_progress(source, capacity, p.next(window)),
    }
}

#[via_fn]
proof fn final_progress_terminates(source: Seq<u8>, capacity: nat, p: Progress) {
    lemma_first_object_end_ends(window_at(source, p.cursor, capacity));
}

/// The chunk that holds the source bytes of `span`.
pub open spec fn file_of(source: Seq<u8>, span: Span) -> Seq<u8> {
    frame(source.subrange(span.lo, span.hi))
}

/// The chunks that a run over `source` leaves, in the order of their numbers.
pub open spec fn chunk_files(source: Seq<u8>, chunksize: nat, capacity: nat) -> Seq<Seq<u8>> {
    let spans = chunk_spans(source, capacity, Progress::start(chunksize));
    Seq::new(spans.len(), |i: int| file_of(source, spans[i]))
}

/// The number of chunks that a run over `source` opens, the one that may be
/// removed at its end counted in.
pub open spec fn chunks_opened(source: Seq<u8>, chunksize: nat, capacity: nat) -> nat {
    final_progress(source, capacity, Progress::start(chunksize)).chunk_index + 1
}

/// The window of at most `capacity` bytes that a read at offset `cursor` of
/// `source` gives.
pub fn read_window<'a>(source: &'a [u8], cursor: u64, capacity: usize) -> (window: &'a [u8])
    ensures
        window@ == window_at(source@, cursor as nat, capacity as nat),
{
    let len: usize = source.len();
    if cursor >= len as u64 {
        slice_subrange(source, 0, 0)
    } else {
        let at: usize = cursor as usize;
        if capacity >= len - at {
            slice_subrange(source, at, len)
        } else {
            slice_subrange(source, at, at + capacity)
        }
    }
}

/// What the open chunk holds behind its opening bracket when the run stands at `p`.
pub open spec fn open_body(source: Seq<u8>, p: Progress) -> Seq<u8> {
    match p.body_start {
        None => Seq::empty(),
        Some(first) => source.subrange(first as int, p.cursor as int),
    }
}

/// Runs over `source`, a JSON array of objects held in memory, reading it in
/// windows of at most `capacity` bytes. Returns the chunks that the run leaves,
/// the chunk numbered `i` at index `i`, and the state in which the run ended: its
/// cursor tells how far the source was consumed, its chunk number how many chunks
/// were opened.
pub fn run_over(source: &[u8], chunksize: u64, capacity: usize) -> (out: (
    Vec<Vec<u8>>,
    Splitter,
))
    ensures
        out.0@.len() == chunk_files(source@, chunksize as nat, capacity as nat).len(),
        forall|i: int|
            0 <= i < out.0@.len() ==> out.0@[i]@ == chunk_files(
                source@,
                chunksize as nat,
                capacity as nat,
            )[i],
        out.1@ == final_progress(
            source@,
            capacity as nat,
            Progress::start(chunksize as nat),
        ),
        out.1@.chunk_index + 1 == chunks_opened(source@, chunksize as nat, capacity as nat),
{
    let mut splitter = Splitter::new(chunksize);
    let mut files: Vec<Vec<u8>> = Vec::new();
    let mut current: Vec<u8> = open_chunk();
    let total: usize = source.len();
    let ghost start = Progress::start(chunksize as nat);
    let ghost all = chunk_spans(source@, capacity as nat, start);
    let ghost mut done: Seq<Span> = Seq::empty();
    loop
        invariant
            total == source@.len(),
            start == Progress::start(chunksize as nat),
            splitter@.wf(),
            splitter@.chunksize == chunksize,
            splitter@.cursor <= source@.len() || splitter@ == start,
            current@ == seq![ARRAY_OPEN] + open_body(source@, splitter@),
            files@.len() == done.len(),
            forall|i: int| 0 <= i < files@.len() ==> files@[i]@ == file_of(source@, done[i]),
            all == chunk_spans(source@, capacity as nat, start),
            all == done + chunk_spans(source@, capacity as nat, splitter@),
            final_progress(source@, capacity as nat, start) == final_progress(
                source@,
                capacity as nat,
                splitter@,
            ),
        decreases source@.len() - splitter@.cursor,
    {
        let window = read_window(source, splitter.cursor(), capacity);
        let ghost before = splitter@;
        proof {
            lemma_after_step(source@, capacity as nat, before);
        }
        match splitter.advance(window) {
            Step::Finish { remove_current } => {
                close_chunk(&mut current);
                if !remove_current {
                    files.push(current);
                    proof {
                        let span = Span {
                            lo: before.body_start->0 as int,
                            hi: before.cursor as int,
                        };
                        assert(current@ == file_of(source@, span));
                        done = done.push(span);
                    }
                }
                proof {
                    assert(all == done);
                    assert(chunk_files(source@, chunksize as nat, capacity as nat).len()
                        == all.len());
                }
                return (files, splitter);
            },
            Step::Append { skip, len } => {
                append_span(&mut current, slice_subrange(window, skip, skip + len));
            },
            Step::Rollover { skip, len, next_index } => {
                append_span(&mut current, slice_subrange(window, skip, skip + len));
                close_chunk(&mut current);
                files.push(current);
                current = open_chunk();
                proof {
                    let span = Span {
                        lo: before.body_first(window@),
                        hi: before.cursor + skip + len,
                    };
                    assert(done + (seq![span] + chunk_spans(source@, capacity as nat, splitter@))
                        == done.push(span) + chunk_spans(source@, capacity as nat, splitter@));
                    done = done.push(span);
                }
            },
        }
    }
}

/// What a step that finds an object does, in terms of the source: the bytes it
/// appends are source bytes that continue what the open chunk holds, and the rest
/// of the run is the run from the state it leaves.
proof fn lemma_after_step(source: Seq<u8>, capacity: nat, p: Progress)
    requires
        p.wf(),
        p.cursor <= source.len() || p.chunk_is_empty(),
    ensures
        window_at(source, p.cursor, capacity).len() == 0 || p.cursor + window_at(
            source,
            p.cursor,
            capacity,
        ).len() <= source.len(),
        first_object_end(window_at(source, p.cursor, capacity)) matches Some(end) ==> ({
            let window = window_at(source, p.cursor, capacity);
            let skip = p.lead(window);
            let limit = p.object_limit(end);
            let q = p.next(window);
            &&& 0 <= skip <= end < window.len()
            &&& limit <= source.len()
            &&& open_body(source, p) + window.subrange(skip, end + 1) == source.subrange(
                p.body_first(window),
                limit,
            )
            &&& open_body(source, q) == if p.exceeds(limit) {
                Seq::<u8>::empty()
            } else {
                source.subrange(p.body_first(window), limit)
            }
            &&& chunk_spans(source, capacity, p) == if p.exceeds(limit) {
                seq![Span { lo: p.body_first(window), hi: limit }] + chunk_spans(
                    source,
                    capacity,
                    q,
                )
            } else {
                chunk_spans(source, capacity, q)
            }
            &&& final_progress(source, capacity, p) == final_progress(source, capacity, q)
        }),
{
    let window = window_at(source, p.cursor, capacity);
    lemma_first_object_end_ends(window);
    if first_object_end(window) is Some {
        let end = first_object_end(window)->0;
        lemma_separator_before_object(window, end);
        let skip = p.lead(window);
        let limit = p.object_limit(end);
        assert(window.subrange(skip, end + 1) == source.subrange(p.cursor + skip, limit));
    }
}

/// Splits `source`, a JSON array of objects held in memory, into chunks, reading
/// it in windows of at most `capacity` bytes. Returns the chunks that a run
/// leaves, the chunk numbered `i` at index `i`.
///
/// Every chunk is a slice of the source between brackets; it holds at least one
/// complete object, so none is empty. The chunks follow one another in the
/// source, the first from the second source byte on, and what lies between one
/// chunk and the next is the separator behind the first of the two.
///
/// The first byte of the source is passed over unread.
pub fn split_bytes(source: &[u8], chunksize: u64, capacity: usize) -> (files: Vec<Vec<u8>>)
    ensures
        files@.len() == chunk_files(source@, chunksize as nat, capacity as nat).len(),
        forall|i: int|
            0 <= i < files@.len() ==> files@[i]@ == chunk_files(
                source@,
                chunksize as nat,
                capacity as nat,
            )[i],
        forall|i: int|
            0 <= i < files@.len() ==> holds_object(
                source@,
                #[trigger] chunk_spans(
                    source@,
                    capacity as nat,
                    Progress::start(chunksize as nat),
                )[i],
            ),
        in_sequence(
            source@,
            chunk_spans(source@, capacity as nat, Progress::start(chunksize as nat)),
            1,
        ),
{
    proof {
        lemma_chunks_are_source_slices(source@, chunksize as nat, capacity as nat);
    }
    run_over(source, chunksize, capacity).0
}

} // verus!
