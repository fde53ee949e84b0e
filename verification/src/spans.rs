//! The lines of a text in byte coordinates.
//!
//! The byte span of a line runs from the byte offset of its first code point
//! to the byte offset of its last one, both included. A newline takes one
//! byte, so the byte spans of successive lines follow each other without a
//! gap.

use crate::encoding::{
    byte_offset, char_at_byte, char_width, lemma_byte_len, lemma_byte_offset_monotone,
    lemma_char_at_byte,
};
use crate::lines::{
    lemma_line_of_holds, lemma_line_shape, lemma_lines_ordered, line_count, line_end, line_of,
    line_start,
};
use vstd::prelude::*;
use vstd::utf8::encode_utf8;

verus! {

/// The byte offset of the first code point of line `l`.
pub open spec fn line_byte_start(text: Seq<char>, l: int) -> int {
    byte_offset(text, line_start(text, l))
}

/// The byte offset of the last code point of line `l`.
pub open spec fn line_byte_end(text: Seq<char>, l: int) -> int {
    byte_offset(text, line_end(text, l))
}

/// Whether line `l` exists and its byte span holds the byte offset `b`.
pub open spec fn line_holds_byte(text: Seq<char>, l: int, b: int) -> bool {
    0 <= l < line_count(text) && line_byte_start(text, l) <= b <= line_byte_end(text, l)
}

/// The byte offset of the last code point of a text that is not empty: the
/// largest byte offset that is on a line.
pub open spec fn last_byte_start(text: Seq<char>) -> int {
    byte_offset(text, text.len() - 1)
}

/// A newline takes one byte.
pub proof fn lemma_newline_width()
    ensures
        char_width('\n') == 1,
{
    assert('\n' as u32 == 0x0a);
}

/// The byte span of an existing line: it lies inside the encoded text, and
/// the next line starts on the byte after its end.
pub proof fn lemma_line_byte_shape(text: Seq<char>, l: int)
    requires
        0 <= l < line_count(text),
    ensures
        0 <= line_byte_start(text, l) <= line_byte_end(text, l) <= last_byte_start(text),
        last_byte_start(text) < encode_utf8(text).len(),
        l == 0 ==> line_byte_start(text, l) == 0,
        l > 0 ==> line_byte_start(text, l) == line_byte_end(text, l - 1) + 1,
        l == line_count(text) - 1 <==> line_byte_end(text, l) == last_byte_start(text),
{
    let n = text.len() as int;
    lemma_line_shape(text, l);
    lemma_byte_offset_monotone(text, 0, line_start(text, l));
    lemma_byte_offset_monotone(text, line_start(text, l), line_end(text, l));
    lemma_byte_offset_monotone(text, line_end(text, l), n - 1);
    lemma_byte_offset_monotone(text, n - 1, n);
    lemma_byte_len(text);
    if l > 0 {
        lemma_line_shape(text, l - 1);
        lemma_newline_width();
    }
}

/// Every byte offset up to the end of line `l` is on that line or on one
/// before it.
pub proof fn lemma_bytes_covered(text: Seq<char>, l: int, b: int)
    requires
        0 <= l < line_count(text),
        0 <= b <= line_byte_end(text, l),
    ensures
        exists|m: int| 0 <= m <= l && line_holds_byte(text, m, b),
    decreases l,
{
    lemma_line_byte_shape(text, l);
    if line_byte_start(text, l) <= b {
        assert(line_holds_byte(text, l, b));
    } else {
        lemma_bytes_covered(text, l - 1, b);
    }
}

/// An earlier line ends, in bytes too, before a later one starts.
pub proof fn lemma_lines_byte_ordered(text: Seq<char>, i: int, j: int)
    requires
        0 <= i < j < line_count(text),
    ensures
        line_byte_end(text, i) < line_byte_start(text, j),
{
    lemma_lines_ordered(text, i, j);
    lemma_line_shape(text, i);
    lemma_line_shape(text, j);
    lemma_byte_offset_monotone(text, line_end(text, i), line_start(text, j));
}

/// The line that the byte at offset `b` is on: the line of the code point
/// that the byte belongs to.
pub open spec fn line_of_byte(text: Seq<char>, b: int) -> int {
    line_of(text, char_at_byte(text, b))
}

/// A byte offset that is on a line is on the line that `line_of_byte` names.
pub proof fn lemma_line_holding_byte_unique(text: Seq<char>, l: int, b: int)
    requires
        line_holds_byte(text, l, b),
    ensures
        l == line_of_byte(text, b),
{
    lemma_line_byte_shape(text, l);
    lemma_char_at_byte(text, b);
    let k = char_at_byte(text, b);
    let m = line_of(text, k);
    lemma_line_of_holds(text, k);
    lemma_line_shape(text, m);
    lemma_byte_offset_monotone(text, line_start(text, m), k);
    if k < line_end(text, m) {
        lemma_byte_offset_monotone(text, k + 1, line_end(text, m));
    } else if text[k] == '\n' {
        lemma_newline_width();
    }
    assert(line_holds_byte(text, m, b));
    if l < m {
        lemma_lines_byte_ordered(text, l, m);
    } else if m < l {
        lemma_lines_byte_ordered(text, m, l);
    }
}

} // verus!
