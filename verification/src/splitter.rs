//! The rollover policy: where the stream cursor stands, which chunk is open, and
//! what to do with each window of source bytes.

use vstd::prelude::*;
use crate::scan::{
    find_object_end, first_object_end, lemma_separator_before_object, separator_len,
    skip_separator,
};

verus! {

/// What the driver does with the window it has just read.
#[derive(Clone, Copy, Debug, PartialEq, Eq, Structural)]
pub enum Step {
    /// Pass over the first `skip` bytes of the window and append the `len` bytes
    /// behind them to the open chunk.
    Append { skip: usize, len: usize },
    /// Pass over the first `skip` bytes of the window, append the `len` bytes
    /// behind them to the open chunk, close that chunk, and open the chunk
    /// numbered `next_index`.
    Rollover { skip: usize, len: usize, next_index: u64 },
    /// Close the open chunk and stop. The chunk received no object, and is to be
    /// removed, exactly if `remove_current` is set.
    Finish { remove_current: bool },
}

/// The mathematical content of a [`Splitter`].
pub ghost struct Progress {
    /// Offset of the first source byte not yet consumed.
    pub cursor: nat,
    /// Number of the open chunk.
    pub chunk_index: nat,
    /// Offset up to which the source was consumed when the open chunk was opened.
    pub chunk_start: nat,
    /// Offset of the first source byte that the open chunk holds, once it holds one.
    pub body_start: Option<nat>,
    /// Source bytes a chunk may consume before it is closed.
    pub chunksize: nat,
}

impl Progress {
    /// The state in which a run begins: chunk 0 is open and the first source byte,
    /// the opening bracket, is passed over.
    pub open spec fn start(chunksize: nat) -> Progress {
        Progress { cursor: 1, chunk_index: 0, chunk_start: 0, body_start: None, chunksize }
    }

    /// The offsets lie in order: the open chunk was opened at or before the cursor,
    /// what it holds begins behind the first source byte and before the cursor, and
    /// no more chunks were opened than bytes consumed. An empty chunk was opened
    /// where the cursor stands, but for chunk 0 at the start of the run.
    pub open spec fn wf(self) -> bool {
        &&& self.chunk_index <= self.chunk_start <= self.cursor
        &&& 1 <= self.cursor
        &&& match self.body_start {
            Some(first) => self.chunk_start <= first && 1 <= first < self.cursor,
            None => self.chunk_start == self.cursor || (self.chunk_index == 0 && self.cursor
                == 1),
        }
    }

    /// The open chunk has received no object.
    pub open spec fn chunk_is_empty(self) -> bool {
        self.body_start is None
    }

    /// The number of leading window bytes to pass over. A chunk opened by a
    /// rollover begins behind the separator: behind the bytes that are neither
    /// brace nor comma, and behind one comma if one follows them. Nothing else is
    /// passed over.
    pub open spec fn lead(self, window: Seq<u8>) -> int {
        if self.chunk_is_empty() && self.chunk_index > 0 {
            separator_len(window)
        } else {
            0
        }
    }

    /// The cursor once the object that ends at index `end` of the window is consumed.
    pub open spec fn object_limit(self, end: int) -> int {
        self.cursor + end + 1
    }

    /// Consuming source bytes up to offset `limit` takes the open chunk over its size.
    pub open spec fn exceeds(self, limit: int) -> bool {
        limit - self.chunk_start > self.chunksize
    }

    /// The offset of the first source byte that the open chunk holds once it has
    /// taken its share of the window.
    pub open spec fn body_first(self, window: Seq<u8>) -> int {
        match self.body_start {
            Some(first) => first as int,
            None => self.cursor + self.lead(window),
        }
    }

    /// The step to take on a window read at the cursor.
    pub open spec fn step(self, window: Seq<u8>) -> Step {
        match first_object_end(window) {
            None => Step::Finish { remove_current: self.chunk_is_empty() },
            Some(end) => {
                let skip = self.lead(window);
                if self.exceeds(self.object_limit(end)) {
                    Step::Rollover {
                        skip: skip as usize,
                        len: (end + 1 - skip) as usize,
                        next_index: (self.chunk_index + 1) as u64,
                    }
                } else {
                    Step::Append { skip: skip as usize, len: (end + 1 - skip) as usize }
                }
            },
        }
    }

    /// The state after the step on a window read at the cursor.
    pub open spec fn next(self, window: Seq<u8>) -> Progress {
        match first_object_end(window) {
            None => self,
            Some(end) => {
                let limit = self.object_limit(end);
                if self.exceeds(limit) {
                    Progress {
                        cursor: limit as nat,
                        chunk_index: self.chunk_index + 1,
                        chunk_start: limit as nat,
                        body_start: None,
                        chunksize: self.chunksize,
                    }
                } else {
                    Progress {
                        cursor: limit as nat,
                        body_start: Some(self.body_first(window) as nat),
                        ..self
                    }
                }
            },
        }
    }
}

/// The driver's state for one run: the stream cursor and the open chunk.
pub struct Splitter {
    cursor: u64,
    chunk_index: u64,
    chunk_start: u64,
    body_start: Option<u64>,
    chunksize: u64,
}

impl View for Splitter {
    type V = Progress;

    closed spec fn view(&self) -> Progress {
        Progress {
            cursor: self.cursor as nat,
            chunk_index: self.chunk_index as nat,
            chunk_start: self.chunk_start as nat,
            body_start: match self.body_start {
                Some(first) => Some(first as nat),
                None => None,
            },
            chunksize: self.chunksize as nat,
        }
    }
}

impl Splitter {
    #[verifier::type_invariant]
    closed spec fn inv(self) -> bool {
        self@.wf()
    }

    /// The state in which a run begins, for chunks of at most `chunksize` source
    /// bytes each, give or take the last object of a chunk.
    pub fn new(chunksize: u64) -> (s: Self)
        ensures
            s@ == Progress::start(chunksize as nat),
    {
        Splitter { cursor: 1, chunk_index: 0, chunk_start: 0, body_start: None, chunksize }
    }

    /// Offset of the first source byte not yet consumed: where the next window is
    /// to be read.
    pub fn cursor(&self) -> (offset: u64)
        ensures
            offset == self@.cursor,
    {
        self.cursor
    }

    /// Number of the open chunk. One more than this is the number of chunks opened
    /// so far.
    pub fn chunk_index(&self) -> (index: u64)
        ensures
            index == self@.chunk_index,
    {
        self.chunk_index
    }

    /// Offset up to which the source was consumed when the open chunk was opened.
    pub fn chunk_start(&self) -> (offset: u64)
        ensures
            offset == self@.chunk_start,
    {
        self.chunk_start
    }

    /// Offset of the first source byte that the open chunk holds, once it holds one.
    pub fn body_start(&self) -> (first: Option<u64>)
        ensures
            first is Some == self@.body_start is Some,
            first matches Some(offset) ==> self@.body_start == Some(offset as nat),
    {
        self.body_start
    }

    /// Source bytes a chunk may consume before it is closed.
    pub fn chunksize(&self) -> (size: u64)
        ensures
            size == self@.chunksize,
    {
        self.chunksize
    }

    /// Whether the open chunk has received no object yet.
    pub fn chunk_is_empty(&self) -> (empty: bool)
        ensures
            empty == self@.chunk_is_empty(),
            self@.wf(),
    {
        proof {
            use_type_invariant(self);
        }
        self.body_start.is_none()
    }

    /// Whether a window of `window_len` bytes read at the cursor can be taken:
    /// whether the offsets in it still fit the cursor's type.
    pub fn can_advance(&self, window_len: usize) -> (fits: bool)
        ensures
            fits == (self@.cursor + window_len <= u64::MAX),
    {
        window_len as u64 <= u64::MAX - self.cursor
    }

    /// Decides what to do with `window`, the bytes read at the cursor, and moves on.
    ///
    /// If the window holds the end of a top-level object, the bytes up to that end
    /// go to the open chunk and the cursor moves behind them; if the chunk has
    /// then consumed more than `chunksize` source bytes, it is closed and the next
    /// one is opened. The first bytes that reach a chunk opened in this way are
    /// those behind the separator: the bytes that are neither brace nor comma are
    /// passed over, and one comma behind them. If the window holds no end of an
    /// object, the run is over and the state stays as it is.
    pub fn advance(&mut self, window: &[u8]) -> (step: Step)
        requires
            old(self)@.cursor + window@.len() <= u64::MAX,
        ensures
            step == old(self)@.step(window@),
            final(self)@ == old(self)@.next(window@),
            old(self)@.wf(),
            final(self)@.wf(),
    {
        proof {
            use_type_invariant(&*self);
        }
        let window_len: usize = window.len();
        match find_object_end(window) {
            None => Step::Finish { remove_current: self.body_start.is_none() },
            Some(end) => {
                proof {
                    lemma_separator_before_object(window@, end as int);
                }
                assert(end < window_len);
                let skip: usize = if self.body_start.is_none() && self.chunk_index > 0 {
                    skip_separator(window)
                } else {
                    0
                };
                let len: usize = end + 1 - skip;
                let limit: u64 = self.cursor + (end + 1) as u64;
                if limit - self.chunk_start > self.chunksize {
                    let next_index: u64 = self.chunk_index + 1;
                    *self = Splitter {
                        cursor: limit,
                        chunk_index: next_index,
                        chunk_start: limit,
                        body_start: None,
                        chunksize: self.chunksize,
                    };
                    Step::Rollover { skip, len, next_index }
                } else {
                    let first: u64 = match self.body_start {
                        Some(first) => first,
                        None => self.cursor + skip as u64,
                    };
                    *self = Splitter {
                        cursor: limit,
                        chunk_index: self.chunk_index,
                        chunk_start: self.chunk_start,
                        body_start: Some(first),
                        chunksize: self.chunksize,
                    };
                    Step::Append { skip, len }
                }
            },
        }
    }

    /// Takes the step on `window` if the offsets in it fit the cursor's type, and
    /// else leaves the state as it is and returns `None`.
    pub fn try_advance(&mut self, window: &[u8]) -> (step: Option<Step>)
        ensures
            old(self)@.wf(),
            final(self)@.wf(),
            match step {
                Some(taken) => {
                    &&& old(self)@.cursor + window@.len() <= u64::MAX
                    &&& taken == old(self)@.step(window@)
                    &&& final(self)@ == old(self)@.next(window@)
                },
                None => {
                    &&& old(self)@.cursor + window@.len() > u64::MAX
                    &&& final(self)@ == old(self)@
                },
            },
    {
        if self.can_advance(window.len()) {
            Some(self.advance(window))
        } else {
            proof {
                use_type_invariant(&*self);
            }
            None
        }
    }
}

} // verus!
