//! Which sides of a rendered text area are taken up by box borders, as a
//! small bit set, and how many rows and columns they consume.

use vstd::prelude::*;

verus! {

pub const TOP: u8 = 0x1;

pub const BOT: u8 = 0x2;

pub const LEFT: u8 = 0x4;

pub const RIGHT: u8 = 0x8;

/// Offsets to account for box borders: one flag per covered side.
#[derive(Clone, Copy, PartialEq, Eq, Structural, Debug)]
pub struct BoxOffsets {
    pub flags: u8,
}

impl BoxOffsets {
    pub fn new() -> (r: BoxOffsets)
        ensures
            r.flags == 0,
    {
        BoxOffsets { flags: 0 }
    }

    pub fn top(self) -> (r: BoxOffsets)
        ensures
            r.flags == self.flags | TOP,
    {
        BoxOffsets { flags: self.flags | TOP }
    }

    pub fn bot(self) -> (r: BoxOffsets)
        ensures
            r.flags == self.flags | BOT,
    {
        BoxOffsets { flags: self.flags | BOT }
    }

    pub fn left(self) -> (r: BoxOffsets)
        ensures
            r.flags == self.flags | LEFT,
    {
        BoxOffsets { flags: self.flags | LEFT }
    }

    pub fn right(self) -> (r: BoxOffsets)
        ensures
            r.flags == self.flags | RIGHT,
    {
        BoxOffsets { flags: self.flags | RIGHT }
    }

    pub fn has(&self, flag: u8) -> (r: bool)
        ensures
            r == (self.flags & flag != 0),
    {
        self.flags & flag != 0
    }

    /// How many rows the top and bottom borders take.
    pub fn vertical(&self) -> (r: u16)
        ensures
            r == (if self.flags & TOP != 0 {
                1int
            } else {
                0int
            }) + (if self.flags & BOT != 0 {
                1int
            } else {
                0int
            }),
    {
        let t: u16 = if self.has(TOP) {
            1
        } else {
            0
        };
        let b: u16 = if self.has(BOT) {
            1
        } else {
            0
        };
        t + b
    }

    /// How many columns the left and right borders take.
    pub fn horizontal(&self) -> (r: u16)
        ensures
            r == (if self.flags & LEFT != 0 {
                1int
            } else {
                0int
            }) + (if self.flags & RIGHT != 0 {
                1int
            } else {
                0int
            }),
    {
        let l: u16 = if self.has(LEFT) {
            1
        } else {
            0
        };
        let r: u16 = if self.has(RIGHT) {
            1
        } else {
            0
        };
        l + r
    }
}

} // verus!
