//! An inclusive range of positions in a text.

use crate::index::Index;
use std::ops::RangeInclusive;
use vstd::prelude::*;

verus! {

/// A range of positions, inclusive at both ends, where each end is an
/// [`Index`]: the first and the last code point that the range holds.
#[derive(Clone, Copy, Debug, PartialEq, Eq, PartialOrd, Ord, Hash, Structural)]
pub struct Range {
    start: Index,
    end: Index,
}

impl Range {
    /// The first position, for use in contracts.
    pub closed spec fn spec_start(&self) -> Index {
        self.start
    }

    /// The last position, for use in contracts.
    pub closed spec fn spec_end(&self) -> Index {
        self.end
    }

    /// Construct a new range from the start and end indices.
    pub fn new(start: Index, end: Index) -> (r: Self)
        ensures
            r.start() == start,
            r.end() == end,
    {
        Self { start, end }
    }

    /// Return the start index of this range.
    #[verifier::when_used_as_spec(spec_start)]
    pub fn start(&self) -> (r: Index)
        ensures
            r == self.spec_start(),
    {
        self.start
    }

    /// Return the end index of this range.
    #[verifier::when_used_as_spec(spec_end)]
    pub fn end(&self) -> (r: Index)
        ensures
            r == self.spec_end(),
    {
        self.end
    }

    /// Return a standard library range for just the byte indices.
    pub fn bytes(&self) -> (r: RangeInclusive<usize>)
        ensures
            r@.start == self.start().byte(),
            r@.end == self.end().byte(),
            !r@.exhausted,
    {
        self.start.byte()..=self.end.byte()
    }

    /// Return a standard library range for just the character indices.
    pub fn characters(&self) -> (r: RangeInclusive<usize>)
        ensures
            r@.start == self.start().character(),
            r@.end == self.end().character(),
            !r@.exhausted,
    {
        self.start.character()..=self.end.character()
    }

    /// A range is known by its two ends.
    pub proof fn lemma_same_ends(self, other: Self)
        requires
            self.start() == other.start(),
            self.end() == other.end(),
        ensures
            self == other,
    {
    }
}

} // verus!
