//! The chunk writer's framing: every chunk is a JSON array of its own.

use vstd::prelude::*;

verus! {

/// The opening bracket, `[`, with which every chunk begins.
pub const ARRAY_OPEN: u8 = 91;

/// The closing bracket, `]`, with which every chunk ends.
pub const ARRAY_CLOSE: u8 = 93;

/// The line feed written before the closing bracket.
pub const LINE_FEED: u8 = 10;

/// What closes a chunk: a line feed and the closing bracket.
pub open spec fn closing() -> Seq<u8> {
    seq![LINE_FEED, ARRAY_CLOSE]
}

/// A chunk with the object bytes `body`: the opening bracket, the bytes as they
/// stood in the source, a line feed and the closing bracket.
pub open spec fn frame(body: Seq<u8>) -> Seq<u8> {
    seq![ARRAY_OPEN] + body + closing()
}

/// A chunk that has just been opened: the opening bracket alone.
pub fn open_chunk() -> (chunk: Vec<u8>)
    ensures
        chunk@ == seq![ARRAY_OPEN],
{
    let mut chunk: Vec<u8> = Vec::new();
    chunk.push(ARRAY_OPEN);
    chunk
}

/// Appends the bytes of `span` to `chunk`, unchanged and in order.
pub fn append_span(chunk: &mut Vec<u8>, span: &[u8])
    ensures
        final(chunk)@ == old(chunk)@ + span@,
{
    let mut i: usize = 0;
    while i < span.len()
        invariant
            i <= span.len(),
            chunk@ == old(chunk)@ + span@.take(i as int),
        decreases span.len() - i,
    {
        chunk.push(span[i]);
        i += 1;
    }
    assert(span@.take(span@.len() as int) == span@);
}

/// Closes `chunk` with a line feed and the closing bracket.
pub fn close_chunk(chunk: &mut Vec<u8>)
    ensures
        final(chunk)@ == old(chunk)@ + closing(),
{
    chunk.push(LINE_FEED);
    chunk.push(ARRAY_CLOSE);
}

/// Whether `content` is a closed chunk without a single byte between its brackets,
/// the kind that is removed at the end of a run.
pub fn is_empty_chunk(content: &[u8]) -> (empty: bool)
    ensures
        empty == (content@ == frame(Seq::empty())),
{
    let empty = content.len() == 3 && content[0] == ARRAY_OPEN && content[1] == LINE_FEED
        && content[2] == ARRAY_CLOSE;
    proof {
        let bare = frame(Seq::empty());
        assert(bare.len() == 3 && bare[0] == ARRAY_OPEN && bare[1] == LINE_FEED && bare[2]
            == ARRAY_CLOSE);
        if empty {
            assert(content@ =~= bare);
        }
    }
    empty
}

} // verus!
