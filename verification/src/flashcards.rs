//! Plain flashcard browsing: a wrapping position over a non-empty list,
//! and the data a flashcard screen displays.

use crate::deck::Face;
use vstd::prelude::*;

verus! {

/// A position into a non-empty list that steps forward and backward with
/// wrap-around.
#[derive(Clone, Copy, PartialEq, Eq, Structural, Debug)]
pub struct WrappingIndex {
    pub index: usize,
    pub len: usize,
}

impl WrappingIndex {
    pub open spec fn wf(&self) -> bool {
        self.index < self.len
    }

    /// Starts at the first position of a list of `len` elements.
    pub fn new(len: usize) -> (r: WrappingIndex)
        requires
            len >= 1,
        ensures
            r.wf(),
            r.index == 0,
            r.len == len,
    {
        WrappingIndex { index: 0, len }
    }

    pub fn max_index(&self) -> (r: usize)
        requires
            self.wf(),
        ensures
            r == self.len - 1,
    {
        self.len - 1
    }

    /// The position one step forward, wrapping to the start.
    pub fn next_index(&self) -> (r: usize)
        requires
            self.wf(),
        ensures
            r == (if self.index == self.len - 1 {
                0int
            } else {
                self.index + 1
            }),
            r < self.len,
    {
        let max_index = self.max_index();
        if self.index == max_index {
            0
        } else {
            self.index + 1
        }
    }

    /// The position one step backward, wrapping to the end.
    pub fn prev_index(&self) -> (r: usize)
        requires
            self.wf(),
        ensures
            r == (if self.index == 0 {
                self.len - 1
            } else {
                self.index - 1
            }),
            r < self.len,
    {
        if self.index == 0 {
            self.max_index()
        } else {
            self.index - 1
        }
    }

    pub fn increment(&mut self)
        requires
            old(self).wf(),
        ensures
            final(self).wf(),
            final(self).len == old(self).len,
            final(self).index == (if old(self).index == old(self).len - 1 {
                0int
            } else {
                old(self).index + 1
            }),
    {
        self.index = self.next_index();
    }

    pub fn decrement(&mut self)
        requires
            old(self).wf(),
        ensures
            final(self).wf(),
            final(self).len == old(self).len,
            final(self).index == (if old(self).index == 0 {
                old(self).len - 1
            } else {
                old(self).index - 1
            }),
    {
        self.index = self.prev_index();
    }

    /// Moves to `index`, clamped to the last position.
    pub fn set(&mut self, index: usize)
        requires
            old(self).wf(),
        ensures
            final(self).wf(),
            final(self).len == old(self).len,
            final(self).index == (if index <= old(self).len - 1 {
                index as int
            } else {
                old(self).len - 1
            }),
    {
        let max_index = self.max_index();
        self.index = if index < max_index {
            index
        } else {
            max_index
        };
    }
}

/// What one flashcard screen shows: the current face with its name, and
/// the fronts of the previous and next cards.
#[derive(Debug)]
pub struct FlashcardWidget {
    pub face_name: String,
    pub face: Face,
    pub prev: String,
    pub next: String,
}

impl FlashcardWidget {
    pub fn new(face_name: String, face: Face, prev: String, next: String) -> (r: FlashcardWidget)
        ensures
            r.face_name == face_name,
            r.face == face,
            r.prev == prev,
            r.next == next,
    {
        FlashcardWidget { face_name, face, prev, next }
    }
}

} // verus!
