//! Byte ranges inside a document.

use vstd::prelude::*;

verus! {

/// A range of bytes `[start, end)` inside a document.
#[derive(Clone, Copy, Debug, PartialEq, Eq, Structural, Hash)]
pub struct Offset {
    start: u32,
    end: u32,
}

impl Offset {
    pub closed spec fn start_spec(&self) -> u32 {
        self.start
    }

    pub closed spec fn end_spec(&self) -> u32 {
        self.end
    }

    /// Creates the range `[start, end)`.
    pub fn new(start: u32, end: u32) -> (o: Offset)
        ensures
            o.start_spec() == start,
            o.end_spec() == end,
    {
        Offset { start, end }
    }

    /// Whether both ranges are the same.
    pub fn same_range(&self, other: &Offset) -> (r: bool)
        ensures
            r == (*self == *other),
    {
        self.start == other.start && self.end == other.end
    }

    /// The first byte of the range.
    #[verifier::when_used_as_spec(start_spec)]
    pub fn start(&self) -> (s: u32)
        ensures
            s == self.start_spec(),
    {
        self.start
    }

    /// One past the last byte of the range.
    #[verifier::when_used_as_spec(end_spec)]
    pub fn end(&self) -> (e: u32)
        ensures
            e == self.end_spec(),
    {
        self.end
    }
}

} // verus!
