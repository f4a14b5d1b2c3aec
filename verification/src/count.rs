//! How many chunks a run opens and leaves, and how that depends on the chunk size.

use vstd::prelude::*;
use crate::run::{chunk_files, chunk_spans, chunks_opened, final_progress, window_at};
use crate::scan::{
    first_object_end, lemma_first_object_end_ends, lemma_separator_before_object,
};
use crate::splitter::Progress;

verus! {

/// Of two runs that stand at the same cursor, the first is ahead of the second: it
/// has opened more chunks, or as many and its open chunk no later.
pub open spec fn ahead(first: Progress, second: Progress) -> bool {
    &&& first.cursor == second.cursor
    &&& first.chunk_index > second.chunk_index || (first.chunk_index == second.chunk_index
        && first.chunk_start <= second.chunk_start)
}

/// The step keeps the offsets of a state in order.
pub proof fn lemma_next_wf(p: Progress, window: Seq<u8>)
    requires
        p.wf(),
    ensures
        p.next(window).wf(),
        p.next(window).chunksize == p.chunksize,
        first_object_end(window) is Some ==> p.next(window).cursor > p.cursor,
{
    lemma_first_object_end_ends(window);
    if first_object_end(window) is Some {
        lemma_separator_before_object(window, first_object_end(window)->0);
    }
}

/// A run with the smaller chunk size that is ahead of a run with the larger one
/// stays ahead to the end, and both end at the same cursor.
pub proof fn lemma_stays_ahead(source: Seq<u8>, capacity: nat, small: Progress, large: Progress)
    requires
        small.wf(),
        large.wf(),
        small.chunksize <= large.chunksize,
        ahead(small, large),
    ensures
        ahead(final_progress(source, capacity, small), final_progress(source, capacity, large)),
        final_progress(source, capacity, small).wf(),
        final_progress(source, capacity, large).wf(),
    decreases source.len() - small.cursor,
{
    let window = window_at(source, small.cursor, capacity);
    lemma_first_object_end_ends(window);
    if first_object_end(window) is Some {
        lemma_next_wf(small, window);
        lemma_next_wf(large, window);
        lemma_stays_ahead(source, capacity, small.next(window), large.next(window));
    }
}

/// The chunks that the rest of a run leaves are those it still closes by a
/// rollover, and the one that is open at its end unless that one is empty.
pub proof fn lemma_span_count(source: Seq<u8>, capacity: nat, p: Progress)
    requires
        p.wf(),
    ensures
        chunk_spans(source, capacity, p).len() == final_progress(source, capacity, p).chunk_index
            - p.chunk_index + if final_progress(source, capacity, p).chunk_is_empty() {
            0int
        } else {
            1int
        },
    decreases source.len() - p.cursor,
{
    let window = window_at(source, p.cursor, capacity);
    lemma_first_object_end_ends(window);
    if first_object_end(window) is Some {
        lemma_next_wf(p, window);
        lemma_span_count(source, capacity, p.next(window));
    }
}

/// How far a run consumes the source does not depend on the chunk size: two runs
/// over the same source with the same window end at the same cursor.
pub proof fn lemma_same_cursor(source: Seq<u8>, first: nat, second: nat, capacity: nat)
    ensures
        final_progress(source, capacity, Progress::start(first)).cursor == final_progress(
            source,
            capacity,
            Progress::start(second),
        ).cursor,
{
    if first <= second {
        lemma_stays_ahead(source, capacity, Progress::start(first), Progress::start(second));
    } else {
        lemma_stays_ahead(source, capacity, Progress::start(second), Progress::start(first));
    }
}

/// A smaller chunk size never gives fewer chunks, whatever the source holds:
/// neither fewer chunks opened in the run nor fewer chunks left at its end.
pub proof fn lemma_smaller_chunksize_no_fewer_chunks(
    source: Seq<u8>,
    small: nat,
    large: nat,
    capacity: nat,
)
    requires
        small <= large,
    ensures
        chunks_opened(source, small, capacity) >= chunks_opened(source, large, capacity),
        chunk_files(source, small, capacity).len() >= chunk_files(source, large, capacity).len(),
{
    let from_small = Progress::start(small);
    let from_large = Progress::start(large);
    lemma_stays_ahead(source, capacity, from_small, from_large);
    lemma_span_count(source, capacity, from_small);
    lemma_span_count(source, capacity, from_large);
}

/// A run leaves as many chunks as it opened, or one fewer: the last one opened is
/// removed if it received no object.
pub proof fn lemma_chunks_left(source: Seq<u8>, chunksize: nat, capacity: nat)
    ensures
        chunk_files(source, chunksize, capacity).len() == chunks_opened(
            source,
            chunksize,
            capacity,
        ) - if final_progress(source, capacity, Progress::start(chunksize)).chunk_is_empty() {
            1int
        } else {
            0int
        },
{
    lemma_span_count(source, capacity, Progress::start(chunksize));
}

} // verus!
