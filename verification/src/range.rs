//! Byte ranges into a source text.

use vstd::prelude::*;

verus! {

/// A half-open span `[start, end)` of byte offsets into a source text.
#[derive(Debug, Clone, Copy, PartialEq, Eq, Structural)]
pub struct Range {
    pub start: usize,
    pub end: usize,
}

impl Range {
    /// Whether the span is ordered and lies inside a text of `len` bytes.
    pub open spec fn fits(self, len: nat) -> bool {
        self.start <= self.end && self.end <= len
    }
}

impl From<std::ops::Range<usize>> for Range {
    fn from(value: std::ops::Range<usize>) -> (r: Self) {
        Self { start: value.start, end: value.end }
    }
}

impl vstd::std_specs::convert::FromSpecImpl<std::ops::Range<usize>> for Range {
    open spec fn obeys_from_spec() -> bool {
        true
    }

    open spec fn from_spec(value: std::ops::Range<usize>) -> Self {
        Range { start: value.start, end: value.end }
    }
}

} // verus!
