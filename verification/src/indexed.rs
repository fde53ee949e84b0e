//! A text together with the table of its lines.

use crate::encoding::{
    byte_offset, lemma_byte_len, lemma_byte_offset_is_boundary, lemma_byte_offset_is_prefix_len,
    lemma_byte_offset_monotone, lemma_encoded_slice, lemma_lead_byte,
};
use crate::lines::{
    lemma_line_count_bounds, lemma_line_holding_char_unique,
    lemma_line_of_holds, lemma_line_shape, lemma_lines_ordered, line_count, line_end,
    line_holds_char, line_of, line_start, line_text,
};
use crate::range::Range;
use crate::scan::{code_point_width, is_line_table};
use crate::spans::{
    last_byte_start, lemma_bytes_covered, lemma_line_byte_shape,
    lemma_line_holding_byte_unique, lemma_lines_byte_ordered, line_byte_end, line_byte_start,
    line_holds_byte, line_of_byte,
};
use std::borrow::Cow;
use std::ops::RangeInclusive;
use vstd::prelude::*;
use vstd::string::StringSliceAdditionalSpecFns;
use vstd::utf8::{encode_utf8, encode_utf8_decode_utf8};

verus! {

/// A text, borrowed or owned, and an index of the byte and character ranges
/// of its lines. Both are immutable: a changed text needs a new index.
///
/// Each entry of the index holds the position of the first code point of a
/// line and that of its last one, the newline where the line has one. The
/// empty text has no lines.
#[derive(Debug)]
pub struct IndexedString<'a> {
    source: Cow<'a, str>,
    lines: Vec<Range>,
}

impl<'a> View for IndexedString<'a> {
    type V = Seq<char>;

    /// The text, as its sequence of code points.
    closed spec fn view(&self) -> Seq<char> {
        self.source@
    }
}

impl<'a> IndexedString<'a> {
    /// Whether the text is borrowed from the caller rather than owned.
    pub closed spec fn is_borrowed(&self) -> bool {
        self.source is Borrowed
    }
}

/// The offset of the code point with ordinal `c`, in bytes or in characters.
spec fn offset_of(text: Seq<char>, byte: bool, c: int) -> int {
    if byte {
        byte_offset(text, c)
    } else {
        c
    }
}

/// Whether line `l` holds the offset `index`, taken in bytes or in characters.
spec fn line_holds(text: Seq<char>, byte: bool, l: int, index: int) -> bool {
    if byte {
        line_holds_byte(text, l, index)
    } else {
        line_holds_char(text, l, index)
    }
}

impl<'a> From<&'a str> for IndexedString<'a> {
    /// Index a borrowed text.
    fn from(s: &'a str) -> (r: Self)
        ensures
            r@ == s@,
            r.is_borrowed(),
    {
        let lines = Self::make_lines(s);
        Self { source: Cow::Borrowed(s), lines }
    }
}

/// What `from` returns is said by its own `ensures`: an index holds a
/// vector, which no specification function can build.
impl<'a> vstd::std_specs::convert::FromSpecImpl<&'a str> for IndexedString<'a> {
    open spec fn obeys_from_spec() -> bool {
        false
    }

    open spec fn from_spec(v: &'a str) -> Self {
        arbitrary()
    }
}

impl From<String> for IndexedString<'_> {
    /// Index a text and keep it.
    fn from(s: String) -> (r: Self)
        ensures
            r@ == s@,
            !r.is_borrowed(),
    {
        let lines = Self::make_lines(s.as_str());
        Self { source: Cow::Owned(s), lines }
    }
}

/// What `from` returns is said by its own `ensures`, as for a borrowed text.
impl vstd::std_specs::convert::FromSpecImpl<String> for IndexedString<'_> {
    open spec fn obeys_from_spec() -> bool {
        false
    }

    open spec fn from_spec(v: String) -> Self {
        arbitrary()
    }
}

impl AsRef<str> for IndexedString<'_> {
    /// The source, as a string.
    fn as_ref(&self) -> (r: &str)
        ensures
            r@ == self@,
    {
        self.as_str()
    }
}

impl Clone for IndexedString<'_> {
    /// A second index of the same text. A borrowed text stays borrowed.
    fn clone(&self) -> (r: Self)
        ensures
            r@ == self@,
            r.is_borrowed() == self.is_borrowed(),
    {
        proof {
            use_type_invariant(self);
        }
        let source = match &self.source {
            Cow::Borrowed(b) => Cow::Borrowed(*b),
            Cow::Owned(o) => Cow::Owned(o.clone()),
        };
        let lines = self.lines.clone();
        assert(lines@ =~= self.lines@);
        Self { source, lines }
    }
}

impl<'a> IndexedString<'a> {
    /// The table of lines always describes the text that it is held with.
    #[verifier::type_invariant]
    spec fn well_formed(&self) -> bool {
        is_line_table(self.source@, self.lines@)
    }

    /// Returns the number of lines of the text.
    pub fn lines(&self) -> (r: usize)
        ensures
            r == line_count(self@),
            self@.len() == 0 <==> r == 0,
    {
        proof {
            use_type_invariant(self);
            lemma_line_count_bounds(self@);
        }
        self.lines.len()
    }

    /// Return a reference to the source, as a string.
    pub fn as_str(&self) -> (r: &str)
        ensures
            r@ == self@,
    {
        match &self.source {
            Cow::Borrowed(b) => b,
            Cow::Owned(o) => o.as_str(),
        }
    }

    /// Return a reference to the source, as a byte array.
    pub fn as_bytes(&self) -> (r: &[u8])
        ensures
            r@ == encode_utf8(self@),
    {
        self.as_str().as_bytes()
    }

    /// Return the line containing the provided byte index. If the index is
    /// outside the range of the string return `None`.
    ///
    /// The byte span of a line ends at the first byte of its last code
    /// point, so the bytes that continue the last code point of the text are
    /// on no line.
    pub fn line_for_byte(&self, byte: usize) -> (r: Option<usize>)
        ensures
            r is Some <==> self@.len() > 0 && byte <= last_byte_start(self@),
            r matches Some(line) ==> line_holds_byte(self@, line as int, byte as int),
            r matches Some(line) ==> line == line_of_byte(self@, byte as int),
            byte >= encode_utf8(self@).len() ==> r is None,
            self@.len() == 0 ==> r is None,
    {
        let found = self.line_for(true, byte);
        proof {
            if self@.len() > 0 {
                lemma_byte_offset_monotone(self@, self@.len() - 1, self@.len() as int);
                lemma_byte_len(self@);
            }
            if let Some(line) = found {
                lemma_line_holding_byte_unique(self@, line as int, byte as int);
            }
        }
        found
    }

    /// Return the line containing the provided character index. If the index
    /// is outside the range of the string return `None`.
    pub fn line_for_character(&self, character: usize) -> (r: Option<usize>)
        ensures
            r is Some <==> character < self@.len(),
            r matches Some(line) ==> line_holds_char(self@, line as int, character as int),
            r matches Some(line) ==> line == line_of(self@, character as int),
            self@.len() == 0 ==> r is None,
    {
        let found = self.line_for(false, character);
        proof {
            if let Some(line) = found {
                lemma_line_holding_char_unique(self@, line as int, character as int);
            }
        }
        found
    }

    /// The line that holds `index`, an offset in bytes or in characters: a
    /// bisection over the whole table.
    fn line_for(&self, byte: bool, index: usize) -> (r: Option<usize>)
        ensures
            r is Some <==> self@.len() > 0 && index <= offset_of(self@, byte, self@.len() - 1),
            r matches Some(line) ==> line_holds(self@, byte, line as int, index as int),
    {
        proof {
            use_type_invariant(self);
        }
        let start: usize = 0;
        let end: usize = self.lines.len();
        let found = self.inner_line_for(byte, index, start, end);
        proof {
            let text = self@;
            let last = line_count(text) - 1;
            lemma_line_count_bounds(text);
            if text.len() > 0 && index <= offset_of(text, byte, text.len() - 1) {
                lemma_line_shape(text, last);
                if byte {
                    lemma_bytes_covered(text, last, index as int);
                    let m = choose|m: int| 0 <= m <= last && line_holds_byte(text, m, index as int);
                    assert(line_holds(text, byte, m, index as int));
                } else {
                    lemma_line_of_holds(text, index as int);
                    assert(line_holds(text, byte, line_of(text, index as int), index as int));
                }
            }
            if let Some(line) = found {
                lemma_line_shape(text, line as int);
                lemma_line_byte_shape(text, line as int);
            }
        }
        found
    }

    /// The line among those from `start` up to, not including, `end` that
    /// holds `index`, by bisection.
    fn inner_line_for(&self, byte: bool, index: usize, start: usize, end: usize) -> (r: Option<
        usize,
    >)
        requires
            start <= end <= line_count(self@),
        ensures
            r matches Some(line) ==> start <= line < end && line_holds(
                self@,
                byte,
                line as int,
                index as int,
            ),
            r is None ==> forall|l: int| start <= l < end ==> !line_holds(self@, byte, l, index as int),
        decreases end - start,
    {
        proof {
            use_type_invariant(self);
        }
        if start >= end {
            return None;
        }
        let mid_index: usize = start + ((end - start) / 2);
        let mid_range = self.lines[mid_index];
        let (first, last): (usize, usize) = if byte {
            (mid_range.start().byte(), mid_range.end().byte())
        } else {
            (mid_range.start().character(), mid_range.end().character())
        };
        if index < first {
            proof {
                assert forall|l: int| mid_index <= l < end implies !line_holds(
                    self@,
                    byte,
                    l,
                    index as int,
                ) by {
                    if mid_index < l {
                        lemma_lines_ordered(self@, mid_index as int, l);
                        lemma_lines_byte_ordered(self@, mid_index as int, l);
                        lemma_line_shape(self@, mid_index as int);
                        lemma_line_byte_shape(self@, mid_index as int);
                    }
                }
            }
            self.inner_line_for(byte, index, start, mid_index)
        } else if index > last {
            proof {
                assert forall|l: int| start <= l <= mid_index implies !line_holds(
                    self@,
                    byte,
                    l,
                    index as int,
                ) by {
                    if l < mid_index {
                        lemma_lines_ordered(self@, l, mid_index as int);
                        lemma_lines_byte_ordered(self@, l, mid_index as int);
                        lemma_line_shape(self@, mid_index as int);
                        lemma_line_byte_shape(self@, mid_index as int);
                    }
                }
            }
            self.inner_line_for(byte, index, mid_index + 1, end)
        } else {
            Some(mid_index)
        }
    }

    /// Return the byte range (including any terminating newline) for the
    /// provided line number. If the line number is outside the range of the
    /// string return `None`.
    pub fn byte_range_for_line(&self, line: usize) -> (r: Option<RangeInclusive<usize>>)
        ensures
            r is Some <==> line < line_count(self@),
            r matches Some(range) ==> {
                &&& range@.start == line_byte_start(self@, line as int)
                &&& range@.end == line_byte_end(self@, line as int)
                &&& !range@.exhausted
            },
            self@.len() == 0 ==> r is None,
    {
        proof {
            use_type_invariant(self);
            lemma_line_count_bounds(self@);
        }
        if line < self.lines.len() {
            Some(self.lines[line].bytes())
        } else {
            None
        }
    }

    /// Return the character range (including any terminating newline) for
    /// the provided line number. If the line number is outside the range of
    /// the string return `None`.
    pub fn character_range_for_line(&self, line: usize) -> (r: Option<RangeInclusive<usize>>)
        ensures
            r is Some <==> line < line_count(self@),
            r matches Some(range) ==> {
                &&& range@.start == line_start(self@, line as int)
                &&& range@.end == line_end(self@, line as int)
                &&& !range@.exhausted
            },
            self@.len() == 0 ==> r is None,
    {
        proof {
            use_type_invariant(self);
            lemma_line_count_bounds(self@);
        }
        if line < self.lines.len() {
            Some(self.lines[line].characters())
        } else {
            None
        }
    }

    /// Return the line, as a string, (including any terminating newline) for
    /// the provided line number. If the line number is outside the range of
    /// the string return `None`.
    ///
    /// The slice borrows from the source and runs through the last byte of
    /// the line's last code point.
    pub fn line_str(&self, line: usize) -> (r: Option<&str>)
        ensures
            r is Some <==> line < line_count(self@),
            r matches Some(s) ==> s@ == line_text(self@, line as int),
            self@.len() == 0 ==> r is None,
    {
        proof {
            use_type_invariant(self);
            lemma_line_count_bounds(self@);
        }
        if line < self.lines.len() {
            let range = self.lines[line];
            let source = self.as_str();
            let ghost text = self@;
            let ghost first = line_start(text, line as int);
            let ghost after = line_end(text, line as int) + 1;
            proof {
                lemma_line_shape(text, line as int);
                lemma_lead_byte(text, after - 1);
                lemma_encoded_slice(text, 0, after);
                lemma_encoded_slice(text, first, after);
                lemma_byte_offset_is_boundary(text, after);
                lemma_byte_offset_is_boundary(text.subrange(0, after), first);
                lemma_byte_offset_is_prefix_len(text, first);
                lemma_byte_offset_is_prefix_len(text.subrange(0, after), first);
                assert(text.subrange(0, after).subrange(0, first) =~= text.subrange(0, first));
            }
            let from: usize = range.start().byte();
            let last: usize = range.end().byte();
            let to: usize = last + code_point_width(source.as_bytes()[last]);
            let (head, _) = source.split_at(to);
            let (_, tail) = head.split_at(from);
            proof {
                assert(tail.spec_bytes() =~= encode_utf8(line_text(text, line as int)));
                encode_utf8_decode_utf8(tail@);
                encode_utf8_decode_utf8(line_text(text, line as int));
            }
            Some(tail)
        } else {
            None
        }
    }
}

} // verus!
