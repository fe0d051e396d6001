//! Positional edits of a text.

use crate::range::Range;
use vstd::prelude::*;

verus! {

/// One edit of the first text toward the second.
///
/// A change has one of three shapes. An insertion has `range2` and
/// `insert_pos`: the part of the second text at `range2` goes in at
/// `insert_pos`. A deletion has `range1` alone: that part of the first text
/// goes. A replacement has `range1` and `range2`: the one part takes the place
/// of the other.
#[derive(Debug, Clone, Copy, PartialEq, Eq)]
pub struct Change {
    pub range1: Option<Range>,
    pub range2: Option<Range>,
    pub insert_pos: Option<usize>,
    pub is_attribute: bool,
}

impl Change {
    pub open spec fn is_insertion(self) -> bool {
        self.range1 is None && self.range2 is Some && self.insert_pos is Some
    }

    pub open spec fn is_deletion(self) -> bool {
        self.range1 is Some && self.range2 is None && self.insert_pos is None
    }

    pub open spec fn is_replacement(self) -> bool {
        self.range1 is Some && self.range2 is Some && self.insert_pos is None
    }

    /// Whether the change has one of the three shapes.
    pub open spec fn well_shaped(self) -> bool {
        self.is_insertion() || self.is_deletion() || self.is_replacement()
    }

    /// The offset into the first text at which the change starts: that of
    /// `range1` if there is one, else `insert_pos`, else 0.
    pub open spec fn start(self) -> usize {
        match self.range1 {
            Some(range) => range.start,
            None => match self.insert_pos {
                Some(pos) => pos,
                None => 0,
            },
        }
    }

    /// The offset into the first text at which the change ends: that of
    /// `range1` if there is one; an insertion ends where it starts.
    pub open spec fn end(self) -> usize {
        match self.range1 {
            Some(range) => range.end,
            None => self.start(),
        }
    }

    pub fn new(
        range1: Option<Range>,
        range2: Option<Range>,
        insert_pos: Option<usize>,
        is_attribute: bool,
    ) -> (r: Self)
        ensures
            r == (Change { range1, range2, insert_pos, is_attribute }),
    {
        Self { range1, range2, insert_pos, is_attribute }
    }

    pub fn copy(&self) -> (r: Self)
        ensures
            r == *self,
    {
        *self
    }

    /// Computes [`Change::start`].
    pub fn start_offset(&self) -> (r: usize)
        ensures
            r == self.start(),
    {
        match self.range1 {
            Some(range) => range.start,
            None => match self.insert_pos {
                Some(pos) => pos,
                None => 0,
            },
        }
    }

    /// Computes [`Change::end`].
    pub fn end_offset(&self) -> (r: usize)
        ensures
            r == self.end(),
    {
        match self.range1 {
            Some(range) => range.end,
            None => self.start_offset(),
        }
    }
}

} // verus!
