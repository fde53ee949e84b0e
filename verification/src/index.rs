//! A position in a text, in both coordinate systems at once.

use vstd::prelude::*;

verus! {

/// A position in a text: the byte offset and the character offset of one
/// code point. Both count from zero.
#[derive(Clone, Copy, Debug, PartialEq, Eq, PartialOrd, Ord, Hash, Structural)]
pub struct Index {
    byte: usize,
    character: usize,
}

impl Index {
    /// The byte offset, for use in contracts.
    pub closed spec fn spec_byte(&self) -> usize {
        self.byte
    }

    /// The character offset, for use in contracts.
    pub closed spec fn spec_character(&self) -> usize {
        self.character
    }

    /// Construct a new index with byte and character indices.
    pub fn new(byte: usize, character: usize) -> (r: Self)
        ensures
            r.byte() == byte,
            r.character() == character,
    {
        Self { byte, character }
    }

    /// Return the byte part of this index.
    #[verifier::when_used_as_spec(spec_byte)]
    pub fn byte(&self) -> (r: usize)
        ensures
            r == self.spec_byte(),
    {
        self.byte
    }

    /// Return the character part of this index.
    #[verifier::when_used_as_spec(spec_character)]
    pub fn character(&self) -> (r: usize)
        ensures
            r == self.spec_character(),
    {
        self.character
    }

    /// An index is known by its two parts.
    pub proof fn lemma_same_parts(self, other: Self)
        requires
            self.byte() == other.byte(),
            self.character() == other.character(),
        ensures
            self == other,
    {
    }
}

impl Default for Index {
    /// The position of the first code point of a text.
    fn default() -> (r: Self)
        ensures
            r.byte() == 0,
            r.character() == 0,
    {
        Self { byte: 0, character: 0 }
    }
}

} // verus!
