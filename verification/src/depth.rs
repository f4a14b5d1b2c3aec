//! The depth tracker: a brace counter that reports when a top-level object closes.

use vstd::prelude::*;
use crate::naming::{decimal, push_decimal};

verus! {

/// The opening brace, `{`.
pub const OPEN_BRACE: u8 = 123;

/// The closing brace, `}`.
pub const CLOSE_BRACE: u8 = 125;

/// The comma, `,`, that stands between two items of an array.
pub const COMMA: u8 = 44;

/// The mathematical content of a [`Descriptor`]: the nesting level after the last
/// byte seen and the level just before it.
pub ghost struct Levels {
    pub depth: nat,
    pub prev_depth: nat,
}

impl Levels {
    /// The levels before any byte has been seen.
    pub open spec fn zero() -> Levels {
        Levels { depth: 0, prev_depth: 0 }
    }

    /// An object has just closed: the last byte brought the level back to zero.
    pub open spec fn object_closed(self) -> bool {
        self.depth == 0 && self.prev_depth > 0
    }

    /// The levels after `byte` has been seen. A closing brace while no object is
    /// open leaves the levels at zero: it closes nothing.
    pub open spec fn after(self, byte: u8) -> Levels {
        if byte == OPEN_BRACE {
            Levels { depth: self.depth + 1, prev_depth: self.depth }
        } else if byte == CLOSE_BRACE && self.depth > 0 {
            Levels { depth: (self.depth - 1) as nat, prev_depth: self.depth }
        } else if byte == CLOSE_BRACE {
            Levels::zero()
        } else {
            Levels { depth: self.depth, prev_depth: self.depth }
        }
    }
}

/// The words before the levels in a description: `Descriptor: `.
pub open spec fn description_lead() -> Seq<u8> {
    seq![68u8, 101u8, 115u8, 99u8, 114u8, 105u8, 112u8, 116u8, 111u8, 114u8, 58u8, 32u8]
}

/// The arrow between the levels in a description: ` -> `.
pub open spec fn description_arrow() -> Seq<u8> {
    seq![32u8, 45u8, 62u8, 32u8]
}

/// Nesting state kept while scanning bytes for the end of a top-level object.
pub struct Descriptor {
    depth: usize,
    prev_depth: usize,
}

impl View for Descriptor {
    type V = Levels;

    closed spec fn view(&self) -> Levels {
        Levels { depth: self.depth as nat, prev_depth: self.prev_depth as nat }
    }
}

impl Descriptor {
    /// A tracker outside any object.
    pub fn new() -> (d: Self)
        ensures
            d@ == Levels::zero(),
    {
        Self { depth: 0, prev_depth: 0 }
    }

    /// The current nesting level.
    pub fn depth(&self) -> (n: usize)
        ensures
            n == self@.depth,
    {
        self.depth
    }

    /// The nesting level before the last byte.
    pub fn prev_depth(&self) -> (n: usize)
        ensures
            n == self@.prev_depth,
    {
        self.prev_depth
    }

    /// Records an opening brace. The level must still fit its type.
    pub fn increment(&mut self)
        requires
            old(self)@.depth < usize::MAX,
        ensures
            final(self)@ == old(self)@.after(OPEN_BRACE),
    {
        self.prev_depth = self.depth;
        self.depth += 1;
    }

    /// Records a closing brace. While no object is open it closes nothing: the
    /// levels stay at zero and no object end is reported.
    pub fn decrement(&mut self)
        ensures
            final(self)@ == old(self)@.after(CLOSE_BRACE),
            old(self)@.depth == 0 ==> !final(self)@.object_closed(),
    {
        self.prev_depth = self.depth;
        if self.depth > 0 {
            self.depth -= 1;
        }
    }

    /// Records a byte that is no brace.
    pub fn equalize(&mut self)
        ensures
            final(self)@ == (Levels { depth: old(self)@.depth, prev_depth: old(self)@.depth }),
    {
        self.prev_depth = self.depth;
    }

    /// Whether the last byte recorded closed a top-level object.
    pub fn object_end(&self) -> (closed: bool)
        ensures
            closed == self@.object_closed(),
    {
        self.depth == 0 && self.prev_depth > 0
    }

    /// Puts the tracker back outside any object.
    pub fn zero(&mut self)
        ensures
            final(self)@ == Levels::zero(),
    {
        self.depth = 0;
        self.prev_depth = 0;
    }

    /// Records `byte` by the rule for its kind and reports whether it closed a
    /// top-level object.
    pub fn feed(&mut self, byte: u8) -> (closed: bool)
        requires
            byte == OPEN_BRACE ==> old(self)@.depth < usize::MAX,
        ensures
            final(self)@ == old(self)@.after(byte),
            closed == final(self)@.object_closed(),
    {
        if byte == OPEN_BRACE {
            self.increment();
        } else if byte == CLOSE_BRACE {
            self.decrement();
        } else {
            self.equalize();
        }
        self.object_end()
    }

    /// The levels in words, in ASCII: `Descriptor: `, the level before the last
    /// byte, ` -> `, and the current level.
    pub fn describe(&self) -> (text: Vec<u8>)
        ensures
            text@ == description_lead() + decimal(self@.prev_depth) + description_arrow()
                + decimal(self@.depth),
    {
        let mut text: Vec<u8> = Vec::new();
        text.push(68);
        text.push(101);
        text.push(115);
        text.push(99);
        text.push(114);
        text.push(105);
        text.push(112);
        text.push(116);
        text.push(111);
        text.push(114);
        text.push(58);
        text.push(32);
        assert(text@ == description_lead());
        push_decimal(&mut text, self.prev_depth as u64);
        let ghost first = text@;
        text.push(32);
        text.push(45);
        text.push(62);
        text.push(32);
        assert(text@ == first + description_arrow());
        push_decimal(&mut text, self.depth as u64);
        text
    }
}

} // verus!
