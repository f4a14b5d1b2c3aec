//! A run over a well-formed array: every object reaches a chunk, whole and in
//! order, and every chunk is an array of objects.

use vstd::prelude::*;
use crate::array::{
    array_of, gap, is_whitespace, joined, lemma_array_ends, lemma_comma_at_gap,
    lemma_gap_increases, lemma_gap_slice, lemma_item_byte, run_of_items, texts, Item,
};
use crate::chunk::{frame, ARRAY_CLOSE, ARRAY_OPEN};
use crate::depth::{CLOSE_BRACE, COMMA};
use crate::run::{chunk_files, chunk_spans, final_progress, window_at, Span};
use crate::scan::{
    filler_ends_at, first_object_end, is_filler, is_plain, lemma_filler_len_is,
    lemma_first_object_end_is, lemma_no_object_without_close, lemma_object_end_shift,
    object_ends_at, separator_len,
};
use crate::splitter::Progress;

verus! {

/// The offset in `array_of(items)` up to which the source is consumed once the
/// first `k` objects are: the second byte of the source before any object, else
/// the byte behind the closing brace of object `k - 1`.
pub open spec fn mark(items: Seq<Item>, k: int) -> int {
    if k <= 0 {
        1
    } else {
        gap(texts(items), k) - items[k - 1].trail.len()
    }
}

/// The number of bytes from where the source is consumed once the objects before
/// object `k` are, up to the end of object `k`: what a window must hold for the
/// object to be found.
pub open spec fn reach(items: Seq<Item>, k: int) -> int {
    mark(items, k + 1) - mark(items, k)
}

/// Every element is an object between whitespace, and every object is found in
/// the window read behind the object before it.
pub open spec fn items_fit(items: Seq<Item>, capacity: nat) -> bool {
    forall|k: int|
        0 <= k < items.len() ==> (#[trigger] items[k]).wf() && reach(items, k) <= capacity
}

/// Where element `k` begins and ends in the array.
proof fn lemma_item_bounds(items: Seq<Item>, k: int)
    requires
        0 <= k < items.len(),
    ensures
        0 <= gap(texts(items), k),
        gap(texts(items), k + 1) == gap(texts(items), k) + 1 + items[k].lead.len()
            + items[k].object.len() + items[k].trail.len(),
        gap(texts(items), k + 1) < array_of(items).len(),
        array_of(items).len() == gap(texts(items), items.len() as int) + 1,
{
    let all = texts(items);
    assert(all[k] == items[k].text());
    assert(gap(all, k + 1) == gap(all, k) + 1 + all[k].len());
    lemma_array_ends(all);
    lemma_gap_increases(all, 0, k);
    lemma_gap_increases(all, k + 1, all.len() as int);
}

/// Where byte `j` of the whitespace before object `k` stands in the array.
proof fn lemma_lead_byte(items: Seq<Item>, k: int, j: int)
    requires
        0 <= k < items.len(),
        0 <= j < items[k].lead.len(),
    ensures
        array_of(items)[gap(texts(items), k) + 1 + j] == items[k].lead[j],
{
    assert(texts(items)[k] == items[k].text());
    lemma_item_byte(texts(items), k, j);
}

/// Where byte `j` of object `k` stands in the array.
proof fn lemma_object_byte(items: Seq<Item>, k: int, j: int)
    requires
        0 <= k < items.len(),
        0 <= j < items[k].object.len(),
    ensures
        array_of(items)[gap(texts(items), k) + 1 + items[k].lead.len() + j]
            == items[k].object[j],
{
    assert(texts(items)[k] == items[k].text());
    lemma_item_byte(texts(items), k, items[k].lead.len() + j);
}

/// Where byte `j` of the whitespace behind object `k` stands in the array.
proof fn lemma_trail_byte(items: Seq<Item>, k: int, j: int)
    requires
        0 <= k < items.len(),
        0 <= j < items[k].trail.len(),
    ensures
        array_of(items)[gap(texts(items), k) + 1 + items[k].lead.len() + items[k].object.len()
            + j] == items[k].trail[j],
{
    assert(texts(items)[k] == items[k].text());
    lemma_item_byte(texts(items), k, items[k].lead.len() + items[k].object.len() + j);
}

/// Between the mark behind object `k - 1` and the first byte of object `k` stand
/// plain bytes only: whitespace, and the comma at the gap.
proof fn lemma_plain_before_object(items: Seq<Item>, k: int, x: int)
    requires
        0 <= k < items.len(),
        forall|i: int| 0 <= i < items.len() ==> (#[trigger] items[i]).wf(),
        mark(items, k) <= x < gap(texts(items), k) + 1 + items[k].lead.len(),
    ensures
        is_plain(array_of(items)[x]),
        x < gap(texts(items), k) ==> is_filler(array_of(items)[x]),
        x == gap(texts(items), k) ==> array_of(items)[x] == COMMA,
{
    let all = texts(items);
    let source = array_of(items);
    assert(items[k].wf());
    lemma_item_bounds(items, k);
    if x > gap(all, k) {
        let j = x - gap(all, k) - 1;
        lemma_lead_byte(items, k, j);
        assert(is_whitespace(items[k].lead[j]));
    } else if x == gap(all, k) {
        assert(k > 0);
        lemma_comma_at_gap(all, k);
    } else {
        assert(k > 0);
        assert(items[k - 1].wf());
        lemma_item_bounds(items, k - 1);
        let before = items[k - 1];
        let j = x - mark(items, k);
        lemma_trail_byte(items, k - 1, j);
        assert(is_whitespace(before.trail[j]));
    }
}

/// The marks lie in order in the array, and the window read at one mark reaches
/// the next.
proof fn lemma_mark_bounds(items: Seq<Item>, capacity: nat, k: int)
    requires
        items_fit(items, capacity),
        0 <= k < items.len(),
    ensures
        1 <= mark(items, k) <= gap(texts(items), k) + 1,
        mark(items, k + 1) == gap(texts(items), k) + 1 + items[k].lead.len()
            + items[k].object.len(),
        mark(items, k + 1) < array_of(items).len(),
        window_at(array_of(items), mark(items, k) as nat, capacity).len() >= reach(items, k),
        items[k].object.len() > 0,
{
    assert(items[k].wf());
    assert(gap(texts(items), 0) == 0);
    lemma_item_bounds(items, k);
    if k > 0 {
        assert(items[k - 1].wf());
        lemma_item_bounds(items, k - 1);
    }
}

/// The window read at the mark behind object `k - 1` holds the end of object `k`.
proof fn lemma_window_holds_object(items: Seq<Item>, capacity: nat, k: int)
    requires
        items_fit(items, capacity),
        0 <= k < items.len(),
    ensures
        object_ends_at(
            window_at(array_of(items), mark(items, k) as nat, capacity),
            reach(items, k) - 1,
        ),
{
    let source = array_of(items);
    let object = items[k].object;
    let at = mark(items, k);
    let window = window_at(source, at as nat, capacity);
    lemma_mark_bounds(items, capacity, k);
    assert(items[k].wf());
    let first = gap(texts(items), k) + 1 + items[k].lead.len();
    let m = first - at;
    assert forall|j: int| 0 <= j < m implies is_plain(#[trigger] window[j]) by {
        lemma_plain_before_object(items, k, at + j);
        assert(window[j] == source[at + j]);
    }
    assert forall|j: int| 0 <= j <= object.len() - 1 implies object[j] == window[m + j] by {
        lemma_object_byte(items, k, j);
        assert(window[m + j] == source[first + j]);
    }
    lemma_object_end_shift(object, window, m, object.len() - 1);
}

/// The window read at the mark behind object `k - 1` begins with the separator
/// before object `k`: the whitespace behind object `k - 1` and the comma.
proof fn lemma_window_separator(items: Seq<Item>, capacity: nat, k: int)
    requires
        items_fit(items, capacity),
        0 < k < items.len(),
    ensures
        separator_len(window_at(array_of(items), mark(items, k) as nat, capacity)) == gap(
            texts(items),
            k,
        ) + 1 - mark(items, k),
{
    let source = array_of(items);
    let at = mark(items, k);
    let window = window_at(source, at as nat, capacity);
    lemma_mark_bounds(items, capacity, k);
    let n = gap(texts(items), k) - at;
    assert(items[k - 1].wf());
    assert forall|j: int| 0 <= j < n implies is_filler(#[trigger] window[j]) by {
        lemma_plain_before_object(items, k, at + j);
        assert(window[j] == source[at + j]);
    }
    lemma_plain_before_object(items, k, gap(texts(items), k));
    assert(window[n] == source[gap(texts(items), k)]);
    assert(filler_ends_at(window, n));
    lemma_filler_len_is(window, n);
}

/// The run has consumed the first `k` objects, and no more: the cursor stands at
/// the mark behind them, and what the open chunk holds begins with an element.
pub open spec fn at_item(items: Seq<Item>, p: Progress, k: int) -> bool {
    &&& 0 <= k <= items.len()
    &&& p.cursor == mark(items, k)
    &&& match p.body_start {
        Some(first) => exists|a: int| 0 <= a < k && #[trigger] gap(texts(items), a) + 1 == first,
        None => (p.chunk_index == 0) == (k == 0),
    }
}

/// The offset of the first byte that the open chunk holds, or will hold if the
/// next object reaches it: the first byte of an element.
pub open spec fn chunk_first(items: Seq<Item>, p: Progress, k: int) -> int {
    match p.body_start {
        Some(first) => first as int,
        None => gap(texts(items), k) + 1,
    }
}

/// With objects still to come, the window read at the cursor holds the end of the
/// next object, the chunk begins with an element, and the step leaves the run
/// behind that object.
proof fn lemma_step_at_item(items: Seq<Item>, capacity: nat, p: Progress, k: int)
    requires
        items_fit(items, capacity),
        at_item(items, p, k),
        k < items.len(),
    ensures
        first_object_end(window_at(array_of(items), p.cursor, capacity)) == Some(
            reach(items, k) - 1,
        ),
        p.object_limit(reach(items, k) - 1) == mark(items, k + 1),
        p.body_first(window_at(array_of(items), p.cursor, capacity)) == chunk_first(items, p, k),
        exists|a: int| 0 <= a <= k && #[trigger] gap(texts(items), a) + 1 == chunk_first(items, p, k),
        at_item(items, p.next(window_at(array_of(items), p.cursor, capacity)), k + 1),
{
    let window = window_at(array_of(items), p.cursor, capacity);
    let end = reach(items, k) - 1;
    lemma_mark_bounds(items, capacity, k);
    lemma_window_holds_object(items, capacity, k);
    if k > 0 {
        lemma_window_separator(items, capacity, k);
    }
    lemma_first_object_end_is(window, end);
    assert(gap(texts(items), 0) == 0);
    let q = p.next(window);
    match p.body_start {
        Some(first) => {
            let a = choose|a: int| 0 <= a < k && #[trigger] gap(texts(items), a) + 1 == first;
            assert(gap(texts(items), a) + 1 == chunk_first(items, p, k));
        },
        None => {
            assert(gap(texts(items), k) + 1 == chunk_first(items, p, k));
        },
    }
}

/// With every object consumed, the window read at the cursor holds no object.
proof fn lemma_stop_behind_items(items: Seq<Item>, capacity: nat, p: Progress)
    requires
        items.len() > 0,
        items_fit(items, capacity),
        p.cursor == mark(items, items.len() as int),
    ensures
        first_object_end(window_at(array_of(items), p.cursor, capacity)) is None,
{
    let source = array_of(items);
    let n = items.len() as int;
    let window = window_at(source, p.cursor, capacity);
    let last = items[n - 1];
    assert(last.wf());
    lemma_item_bounds(items, n - 1);
    lemma_array_ends(texts(items));
    assert forall|j: int| 0 <= j < window.len() implies window[j] != CLOSE_BRACE by {
        let x = p.cursor + j;
        assert(window[j] == source[x]);
        if x < gap(texts(items), n) {
            let i = x - mark(items, n);
            lemma_trail_byte(items, n - 1, i);
            assert(is_whitespace(last.trail[i]));
        }
    }
    lemma_no_object_without_close(window);
}

/// The span holds whole elements: it begins with the first byte of one element and
/// ends with the closing brace of that element's object or of a later one.
pub open spec fn whole_items(items: Seq<Item>, span: Span) -> bool {
    exists|a: int, b: int|
        #![trigger gap(texts(items), a), mark(items, b)]
        0 <= a < b <= items.len() && span.lo == gap(texts(items), a) + 1 && span.hi == mark(
            items,
            b,
        )
}

/// Between the two spans lies the separator of two elements, and nothing else:
/// the first span ends with an object, the second begins with the element behind
/// the comma that follows it.
pub open spec fn one_comma_apart(items: Seq<Item>, earlier: Span, later: Span) -> bool {
    exists|b: int|
        0 < b < items.len() && earlier.hi == #[trigger] mark(items, b) && later.lo == gap(
            texts(items),
            b,
        ) + 1
}

/// What the chunks of the rest of a run hold, seen from a state between two
/// objects.
pub open spec fn covers_rest(items: Seq<Item>, p: Progress, k: int, spans: Seq<Span>) -> bool {
    &&& spans.len() == 0 <==> p.body_start is None && k == items.len()
    &&& spans.len() > 0 ==> spans[0].lo == chunk_first(items, p, k) && spans.last().hi == mark(
        items,
        items.len() as int,
    )
    &&& forall|i: int| 0 <= i < spans.len() ==> whole_items(items, #[trigger] spans[i])
    &&& forall|i: int|
        0 < i < spans.len() ==> one_comma_apart(items, spans[i - 1], #[trigger] spans[i])
}

/// A chunk closed behind object `k`, put before the chunks of the rest of the run,
/// gives the chunks of the run from the state before it.
proof fn lemma_cover_prepend(
    items: Seq<Item>,
    p: Progress,
    q: Progress,
    span: Span,
    rest: Seq<Span>,
    k: int,
)
    requires
        0 <= k < items.len(),
        covers_rest(items, q, k + 1, rest),
        q.body_start is None,
        whole_items(items, span),
        span.lo == chunk_first(items, p, k),
        span.hi == mark(items, k + 1),
    ensures
        covers_rest(items, p, k, seq![span] + rest),
{
    let spans = seq![span] + rest;
    assert(spans[0] == span);
    assert forall|i: int| 0 <= i < spans.len() implies whole_items(items, #[trigger] spans[i]) by {
        if i > 0 {
            assert(spans[i] == rest[i - 1]);
        }
    }
    assert forall|i: int| 0 < i < spans.len() implies one_comma_apart(
        items,
        spans[i - 1],
        #[trigger] spans[i],
    ) by {
        assert(spans[i] == rest[i - 1]);
        if i > 1 {
            assert(spans[i - 1] == rest[i - 2]);
        } else {
            assert(rest[0].lo == gap(texts(items), k + 1) + 1);
            assert(span.hi == mark(items, k + 1));
        }
    }
    if rest.len() > 0 {
        assert(spans.last() == rest.last());
    }
}

/// From a state between two objects on, the chunks hold whole elements up to the
/// last object, and between two chunks lies the separator of two elements.
proof fn lemma_spans_at_item(items: Seq<Item>, capacity: nat, p: Progress, k: int)
    requires
        items.len() > 0,
        items_fit(items, capacity),
        at_item(items, p, k),
    ensures
        covers_rest(items, p, k, chunk_spans(array_of(items), capacity, p)),
        final_progress(array_of(items), capacity, p).cursor == mark(items, items.len() as int),
    decreases items.len() - k,
{
    let source = array_of(items);
    let n = items.len() as int;
    let window = window_at(source, p.cursor, capacity);
    let spans = chunk_spans(source, capacity, p);
    if k == n {
        lemma_stop_behind_items(items, capacity, p);
        if p.body_start is Some {
            let first = p.body_start->0;
            let a = choose|a: int| 0 <= a < k && #[trigger] gap(texts(items), a) + 1 == first;
            let span = Span { lo: first as int, hi: p.cursor as int };
            assert(spans == seq![span]);
            assert(span.lo == gap(texts(items), a) + 1 && span.hi == mark(items, n));
            assert(whole_items(items, spans[0]));
        }
    } else {
        lemma_step_at_item(items, capacity, p, k);
        let end = reach(items, k) - 1;
        let q = p.next(window);
        let rest = chunk_spans(source, capacity, q);
        lemma_spans_at_item(items, capacity, q, k + 1);
        if p.exceeds(p.object_limit(end)) {
            let span = Span { lo: chunk_first(items, p, k), hi: mark(items, k + 1) };
            assert(spans == seq![span] + rest);
            let a = choose|a: int|
                0 <= a <= k && #[trigger] gap(texts(items), a) + 1 == chunk_first(items, p, k);
            assert(span.lo == gap(texts(items), a) + 1 && span.hi == mark(items, k + 1));
            assert(whole_items(items, span));
            lemma_cover_prepend(items, p, q, span, rest, k);
        } else {
            assert(spans == rest);
            assert(chunk_first(items, q, k + 1) == chunk_first(items, p, k));
        }
    }
}

/// A run over a well-formed array loses no object and cuts none. If every element
/// of the array is an object between whitespace and every object is found in its
/// window, then there are chunks exactly if there are objects; the first chunk
/// begins behind the opening bracket and the last ends with the last object, where
/// the run ends too; every chunk holds whole elements; and between two chunks lies
/// the separator of two elements, the whitespace behind the one object and the
/// comma, and nothing else.
pub proof fn lemma_array_is_covered(items: Seq<Item>, chunksize: nat, capacity: nat)
    requires
        items_fit(items, capacity),
    ensures
        ({
            let source = array_of(items);
            let start = Progress::start(chunksize);
            let spans = chunk_spans(source, capacity, start);
            let n = items.len() as int;
            &&& spans.len() == 0 <==> n == 0
            &&& n > 0 ==> spans[0].lo == 1 && spans.last().hi == mark(items, n)
            &&& n > 0 ==> final_progress(source, capacity, start).cursor == mark(items, n)
            &&& forall|i: int| 0 <= i < spans.len() ==> whole_items(items, #[trigger] spans[i])
            &&& forall|i: int|
                0 < i < spans.len() ==> one_comma_apart(items, spans[i - 1], #[trigger] spans[i])
        }),
{
    let source = array_of(items);
    let start = Progress::start(chunksize);
    let n = items.len() as int;
    if n == 0 {
        let window = window_at(source, start.cursor, capacity);
        assert(texts(items) =~= Seq::<Seq<u8>>::empty());
        assert(joined(texts(items)) == Seq::<u8>::empty());
        assert(source == seq![ARRAY_OPEN, ARRAY_CLOSE]);
        assert forall|j: int| 0 <= j < window.len() implies window[j] != CLOSE_BRACE by {
            assert(window[j] == source[1 + j]);
        }
        lemma_no_object_without_close(window);
    } else {
        assert(gap(texts(items), 0) == 0);
        assert(at_item(items, start, 0));
        lemma_spans_at_item(items, capacity, start, 0);
    }
}

/// Every chunk of a run over a well-formed array is an array of objects: an
/// opening bracket, some elements of the source in a row, from the whitespace
/// before the first object to the closing brace of the last, with the commas and
/// the whitespace that stood between them, a line feed and a closing bracket. No
/// comma stands before the first object or behind the last.
pub proof fn lemma_chunk_is_array_of_items(
    items: Seq<Item>,
    chunksize: nat,
    capacity: nat,
    i: int,
)
    requires
        items_fit(items, capacity),
        0 <= i < chunk_files(array_of(items), chunksize, capacity).len(),
    ensures
        exists|a: int, b: int|
            0 <= a < b <= items.len() && chunk_files(array_of(items), chunksize, capacity)[i]
                == frame(#[trigger] run_of_items(items, a, b)),
{
    let source = array_of(items);
    let all = texts(items);
    let span = chunk_spans(source, capacity, Progress::start(chunksize))[i];
    lemma_array_is_covered(items, chunksize, capacity);
    assert(whole_items(items, span));
    let (a, b) = choose|a: int, b: int|
        #![trigger gap(texts(items), a), mark(items, b)]
        0 <= a < b <= items.len() && span.lo == gap(texts(items), a) + 1 && span.hi == mark(
            items,
            b,
        );
    lemma_gap_slice(all, a, b);
    lemma_item_bounds(items, b - 1);
    lemma_gap_increases(all, 0, a);
    lemma_gap_increases(all, a, b - 1);
    let whole = source.subrange(gap(all, a) + 1, gap(all, b));
    assert(source.subrange(span.lo, span.hi) == whole.subrange(
        0,
        whole.len() - items[b - 1].trail.len(),
    ));
    assert(chunk_files(source, chunksize, capacity)[i] == frame(run_of_items(items, a, b)));
}

/// Each span stretched over the whitespace that stands behind it in the source:
/// up to the comma before the next span, and the last span up to the closing
/// bracket of the source.
pub open spec fn stretched(source: Seq<u8>, spans: Seq<Span>) -> Seq<Span> {
    Seq::new(
        spans.len(),
        |i: int|
            Span {
                lo: spans[i].lo,
                hi: if i + 1 < spans.len() {
                    spans[i + 1].lo - 1
                } else {
                    source.len() - 1
                },
            },
    )
}

/// What the chunks hold between their brackets, each with the whitespace that
/// stood behind it in the source.
pub open spec fn with_trails(source: Seq<u8>, spans: Seq<Span>) -> Seq<Seq<u8>> {
    Seq::new(
        spans.len(),
        |i: int| source.subrange(stretched(source, spans)[i].lo, stretched(source, spans)[i].hi),
    )
}

/// Pieces of the source that follow one another from its second byte on, with a
/// comma between each two, give, joined by commas, the source from its second
/// byte to the end of the last piece.
proof fn lemma_joined_pieces(source: Seq<u8>, pieces: Seq<Span>, n: int)
    requires
        1 <= n <= pieces.len(),
        pieces[0].lo == 1,
        forall|i: int|
            0 <= i < pieces.len() ==> 1 <= (#[trigger] pieces[i]).lo <= pieces[i].hi < source.len(),
        forall|i: int|
            0 < i < pieces.len() ==> (#[trigger] pieces[i]).lo == pieces[i - 1].hi + 1
                && source[pieces[i - 1].hi] == COMMA,
    ensures
        joined(
            Seq::new(n as nat, |i: int| source.subrange(pieces[i].lo, pieces[i].hi)),
        ) == source.subrange(1, pieces[n - 1].hi),
    decreases n,
{
    let part = Seq::new(n as nat, |i: int| source.subrange(pieces[i].lo, pieces[i].hi));
    assert(1 <= pieces[n - 1].lo <= pieces[n - 1].hi);
    assert(part.last() == source.subrange(pieces[n - 1].lo, pieces[n - 1].hi));
    if n == 1 {
        assert(joined(part) == part[0]);
    } else {
        lemma_joined_pieces(source, pieces, n - 1);
        assert(part.drop_last() == Seq::new(
            (n - 1) as nat,
            |i: int| source.subrange(pieces[i].lo, pieces[i].hi),
        ));
        assert(1 <= pieces[n - 2].lo <= pieces[n - 2].hi);
        assert(pieces[n - 1].lo == pieces[n - 2].hi + 1);
        assert(source[pieces[n - 2].hi] == COMMA);
        assert(joined(part) == joined(part.drop_last()) + seq![COMMA] + part.last());
        assert(joined(part) == source.subrange(1, pieces[n - 1].hi));
    }
}

/// The chunks of a run over a well-formed array, each stretched over the
/// whitespace behind it, follow one another with a comma between each two.
proof fn lemma_stretched_in_order(items: Seq<Item>, chunksize: nat, capacity: nat)
    requires
        items.len() > 0,
        items_fit(items, capacity),
    ensures
        ({
            let source = array_of(items);
            let pieces = stretched(
                source,
                chunk_spans(source, capacity, Progress::start(chunksize)),
            );
            &&& pieces.len() > 0
            &&& pieces[0].lo == 1
            &&& pieces.last().hi == source.len() - 1
            &&& forall|i: int|
                0 <= i < pieces.len() ==> 1 <= (#[trigger] pieces[i]).lo <= pieces[i].hi
                    < source.len()
            &&& forall|i: int|
                0 < i < pieces.len() ==> (#[trigger] pieces[i]).lo == pieces[i - 1].hi + 1
                    && source[pieces[i - 1].hi] == COMMA
        }),
{
    let source = array_of(items);
    let all = texts(items);
    let spans = chunk_spans(source, capacity, Progress::start(chunksize));
    let pieces = stretched(source, spans);
    let n = items.len() as int;
    let count = spans.len() as int;
    lemma_array_is_covered(items, chunksize, capacity);
    lemma_item_bounds(items, n - 1);
    assert forall|i: int| 0 <= i < count implies 1 <= (#[trigger] pieces[i]).lo <= pieces[i].hi
        < source.len() by {
        lemma_piece_bounds(items, capacity, spans[i]);
        if i + 1 < count {
            assert(one_comma_apart(items, spans[i], spans[i + 1]));
            lemma_piece_bounds(items, capacity, spans[i + 1]);
        }
    }
    assert forall|i: int| 0 < i < count implies (#[trigger] pieces[i]).lo == pieces[i - 1].hi + 1
        && source[pieces[i - 1].hi] == COMMA by {
        assert(one_comma_apart(items, spans[i - 1], spans[i]));
        let b = choose|b: int|
            0 < b < items.len() && spans[i - 1].hi == #[trigger] mark(items, b) && spans[i].lo
                == gap(texts(items), b) + 1;
        lemma_comma_at_gap(all, b);
    }
}

/// A span of whole elements begins behind the opening bracket and ends before the
/// gap behind its last element.
proof fn lemma_piece_bounds(items: Seq<Item>, capacity: nat, span: Span)
    requires
        items_fit(items, capacity),
        whole_items(items, span),
    ensures
        1 <= span.lo < span.hi < array_of(items).len(),
        forall|b: int|
            0 < b <= items.len() && span.hi == mark(items, b) ==> span.hi <= #[trigger] gap(
                texts(items),
                b,
            ),
{
    let all = texts(items);
    let (a, b) = choose|a: int, b: int|
        #![trigger gap(texts(items), a), mark(items, b)]
        0 <= a < b <= items.len() && span.lo == gap(texts(items), a) + 1 && span.hi == mark(
            items,
            b,
        );
    assert(items[b - 1].wf());
    lemma_item_bounds(items, b - 1);
    lemma_gap_increases(all, 0, a);
    lemma_gap_increases(all, a, b - 1);
    assert forall|c: int| 0 < c <= items.len() && span.hi == mark(items, c) implies span.hi
        <= #[trigger] gap(texts(items), c) by {}
}

/// Nothing of a well-formed array is lost: what the chunks hold between their
/// brackets, each with the whitespace that stood behind it in the source, joined
/// by commas in the order of the chunks, is the elements joined by commas, which
/// is the source between its brackets, byte for byte.
pub proof fn lemma_chunks_rejoined(items: Seq<Item>, chunksize: nat, capacity: nat)
    requires
        items_fit(items, capacity),
    ensures
        joined(
            with_trails(
                array_of(items),
                chunk_spans(array_of(items), capacity, Progress::start(chunksize)),
            ),
        ) == joined(texts(items)),
        joined(texts(items)) == array_of(items).subrange(1, array_of(items).len() - 1),
{
    let source = array_of(items);
    let all = texts(items);
    let spans = chunk_spans(source, capacity, Progress::start(chunksize));
    assert(joined(all) == source.subrange(1, source.len() - 1));
    if items.len() == 0 {
        lemma_array_is_covered(items, chunksize, capacity);
        assert(all =~= Seq::<Seq<u8>>::empty());
        assert(with_trails(source, spans) =~= Seq::<Seq<u8>>::empty());
    } else {
        let pieces = stretched(source, spans);
        lemma_stretched_in_order(items, chunksize, capacity);
        lemma_joined_pieces(source, pieces, pieces.len() as int);
        assert(with_trails(source, spans) =~= Seq::new(
            pieces.len(),
            |i: int| source.subrange(pieces[i].lo, pieces[i].hi),
        ));
    }
}

} // verus!
