//! Where the chunks of a run begin and end in the source, whatever the source holds.

use vstd::prelude::*;
use crate::chunk::frame;
use crate::depth::CLOSE_BRACE;
use crate::run::{chunk_files, chunk_spans, window_at, Span};
use crate::scan::{
    filler_len, first_object_end, is_filler, lemma_filler_ends, lemma_first_object_end_ends,
    lemma_first_object_end_is, lemma_object_end_local, lemma_object_end_shift,
    lemma_separator_before_object, lemma_separator_local, separator_len,
};
use crate::splitter::Progress;

verus! {

/// The span lies in the source behind its first byte, is not empty, ends with a
/// closing brace, and the bytes in it hold a complete top-level object.
pub open spec fn holds_object(source: Seq<u8>, span: Span) -> bool {
    &&& 1 <= span.lo < span.hi <= source.len()
    &&& source[span.hi - 1] == CLOSE_BRACE
    &&& first_object_end(source.subrange(span.lo, span.hi)) is Some
}

/// The length of the separator that stands in the source at offset `at`.
pub open spec fn separator_at(source: Seq<u8>, at: int) -> int {
    separator_len(source.subrange(at, source.len() as int))
}

/// The spans follow one another in the source, the first from `first_lo` on, and
/// between one span and the next lies the separator behind the first of the two,
/// no more and no less.
pub open spec fn in_sequence(source: Seq<u8>, spans: Seq<Span>, first_lo: int) -> bool {
    &&& spans.len() > 0 ==> spans[0].lo == first_lo
    &&& forall|i: int|
        0 < i < spans.len() ==> (#[trigger] spans[i]).lo == spans[i - 1].hi + separator_at(
            source,
            spans[i - 1].hi,
        )
}

/// What holds of every state that a run passes through: the offsets lie in order,
/// and if the open chunk has received bytes, they end with a closing brace at the
/// cursor and hold a complete top-level object.
pub open spec fn consistent(source: Seq<u8>, p: Progress) -> bool {
    &&& p.wf()
    &&& p.body_start matches Some(first) ==> holds_object(
        source,
        Span { lo: first as int, hi: p.cursor as int },
    )
}

/// An object found in the window read at the cursor of a consistent state leaves
/// the span from the chunk's first byte to the object's end holding an object.
proof fn lemma_object_extends(source: Seq<u8>, capacity: nat, p: Progress, end: int)
    requires
        consistent(source, p),
        first_object_end(window_at(source, p.cursor, capacity)) == Some(end),
    ensures
        holds_object(
            source,
            Span {
                lo: p.body_first(window_at(source, p.cursor, capacity)),
                hi: p.object_limit(end),
            },
        ),
        consistent(source, p.next(window_at(source, p.cursor, capacity))),
{
    let window = window_at(source, p.cursor, capacity);
    lemma_first_object_end_ends(window);
    lemma_separator_before_object(window, end);
    let lo = p.body_first(window);
    let hi = p.object_limit(end);
    let body = source.subrange(lo, hi);
    assert(source[hi - 1] == window[end]);
    match p.body_start {
        None => {
            let skip = p.lead(window);
            assert forall|j: int| 0 <= j <= end - skip implies body[j] == window[skip + j] by {}
            lemma_object_end_shift(body, window, skip, end - skip);
            lemma_first_object_end_is(body, end - skip);
        },
        Some(first) => {
            let before = source.subrange(first as int, p.cursor as int);
            lemma_first_object_end_ends(before);
            let i = first_object_end(before)->0;
            lemma_object_end_local(before, body, i);
            lemma_first_object_end_is(body, i);
        },
    }
}

/// The separator at the start of a window that holds an object is the separator
/// that stands in the source where the window was read.
proof fn lemma_separator_of_window(source: Seq<u8>, capacity: nat, cursor: nat, end: int)
    requires
        first_object_end(window_at(source, cursor, capacity)) == Some(end),
    ensures
        separator_len(window_at(source, cursor, capacity)) == separator_at(source, cursor as int),
{
    let window = window_at(source, cursor, capacity);
    let rest = source.subrange(cursor as int, source.len() as int);
    lemma_first_object_end_ends(window);
    lemma_separator_before_object(window, end);
    lemma_filler_ends(window);
    let n = filler_len(window);
    if n > end {
        assert(is_filler(window[end]));
    }
    lemma_separator_local(window, rest, n);
}

/// From a consistent state on, every chunk of the run holds an object, and the
/// chunks follow one another in the source with a separator between them.
pub proof fn lemma_spans_from(source: Seq<u8>, capacity: nat, p: Progress)
    requires
        consistent(source, p),
    ensures
        forall|i: int|
            0 <= i < chunk_spans(source, capacity, p).len() ==> holds_object(
                source,
                #[trigger] chunk_spans(source, capacity, p)[i],
            ),
        in_sequence(
            source,
            chunk_spans(source, capacity, p),
            p.body_first(window_at(source, p.cursor, capacity)),
        ),
    decreases source.len() - p.cursor,
{
    let window = window_at(source, p.cursor, capacity);
    let spans = chunk_spans(source, capacity, p);
    lemma_first_object_end_ends(window);
    match first_object_end(window) {
        None => {},
        Some(end) => {
            lemma_object_extends(source, capacity, p, end);
            let q = p.next(window);
            let rest = chunk_spans(source, capacity, q);
            let window_q = window_at(source, q.cursor, capacity);
            lemma_spans_from(source, capacity, q);
            if p.exceeds(p.object_limit(end)) {
                let span = Span { lo: p.body_first(window), hi: p.object_limit(end) };
                assert(spans == seq![span] + rest);
                if rest.len() > 0 {
                    lemma_first_object_end_ends(window_q);
                    let end_q = first_object_end(window_q)->0;
                    lemma_separator_of_window(source, capacity, q.cursor, end_q);
                    assert(rest[0].lo == span.hi + separator_at(source, span.hi));
                }
                assert forall|i: int| 0 <= i < spans.len() implies holds_object(
                    source,
                    #[trigger] spans[i],
                ) by {
                    if i > 0 {
                        assert(spans[i] == rest[i - 1]);
                    }
                }
                assert forall|i: int| 0 < i < spans.len() implies (#[trigger] spans[i]).lo
                    == spans[i - 1].hi + separator_at(source, spans[i - 1].hi) by {
                    assert(spans[i] == rest[i - 1]);
                    if i > 1 {
                        assert(spans[i - 1] == rest[i - 2]);
                    }
                }
            } else {
                assert(spans == rest);
            }
        },
    }
}

/// Every chunk of a run is a slice of the source that holds at least one complete
/// object: no chunk is empty. The first chunk begins behind the first source byte,
/// and between the end of one chunk and the start of the next lies exactly the
/// separator behind the earlier chunk: the bytes that are neither brace nor comma,
/// and one comma if one follows them. So the chunks, each without its brackets,
/// give back the source from its second byte up to the end of the last chunk, byte
/// for byte and in order, but for the separators between the chunks.
pub proof fn lemma_chunks_are_source_slices(source: Seq<u8>, chunksize: nat, capacity: nat)
    ensures
        forall|i: int|
            0 <= i < chunk_spans(source, capacity, Progress::start(chunksize)).len()
                ==> holds_object(
                source,
                #[trigger] chunk_spans(source, capacity, Progress::start(chunksize))[i],
            ),
        in_sequence(source, chunk_spans(source, capacity, Progress::start(chunksize)), 1),
{
    lemma_spans_from(source, capacity, Progress::start(chunksize));
}

/// Every chunk that a run leaves is framed as an array, and what stands between
/// its brackets is a slice of the source that is not empty, ends with a closing
/// brace and holds a complete top-level object.
pub proof fn lemma_no_empty_chunk(source: Seq<u8>, chunksize: nat, capacity: nat, i: int)
    requires
        0 <= i < chunk_files(source, chunksize, capacity).len(),
    ensures
        ({
            let span = chunk_spans(source, capacity, Progress::start(chunksize))[i];
            let body = source.subrange(span.lo, span.hi);
            &&& chunk_files(source, chunksize, capacity)[i] == frame(body)
            &&& body.len() > 0
            &&& body.last() == CLOSE_BRACE
            &&& first_object_end(body) is Some
        }),
{
    lemma_chunks_are_source_slices(source, chunksize, capacity);
    let span = chunk_spans(source, capacity, Progress::start(chunksize))[i];
    assert(holds_object(source, span));
}

} // verus!
