//! The lines of a text, as a mathematical model.
//!
//! A text is a sequence of code points. A line is a maximal run of code
//! points that ends at a newline, or at the last code point of the text. The
//! newline belongs to the line that it ends. All positions here are character
//! offsets; `crate::encoding` turns them into byte offsets.

use vstd::prelude::*;

verus! {

/// The number of newlines among the first `i` code points of `text`.
pub open spec fn newlines_before(text: Seq<char>, i: int) -> int
    decreases i,
{
    if i <= 0 {
        0
    } else {
        newlines_before(text, i - 1) + if text[i - 1] == '\n' {
            1int
        } else {
            0int
        }
    }
}

/// The line that code point `i` is on: as many lines end before it as there
/// are newlines before it.
pub open spec fn line_of(text: Seq<char>, i: int) -> int {
    newlines_before(text, i)
}

/// The number of lines of `text`: none for the empty text, otherwise one more
/// than the line of the last code point.
pub open spec fn line_count(text: Seq<char>) -> int {
    if text.len() == 0 {
        0
    } else {
        line_of(text, text.len() - 1) + 1
    }
}

/// The first position at or after `i` that ends a line: a newline, or the
/// last code point of the text.
pub open spec fn line_close(text: Seq<char>, i: int) -> int
    decreases text.len() - i,
{
    if i + 1 >= text.len() || text[i] == '\n' {
        i
    } else {
        line_close(text, i + 1)
    }
}

/// The character offset of the first code point of line `l`.
pub open spec fn line_start(text: Seq<char>, l: int) -> int
    decreases l,
{
    if l <= 0 {
        0
    } else {
        line_close(text, line_start(text, l - 1)) + 1
    }
}

/// The character offset of the last code point of line `l`: its newline, or
/// the last code point of the text.
pub open spec fn line_end(text: Seq<char>, l: int) -> int {
    line_close(text, line_start(text, l))
}

/// The code points of line `l`, its newline included.
pub open spec fn line_text(text: Seq<char>, l: int) -> Seq<char> {
    text.subrange(line_start(text, l), line_end(text, l) + 1)
}

/// Whether line `l` exists and holds the code point at character offset `c`.
pub open spec fn line_holds_char(text: Seq<char>, l: int, c: int) -> bool {
    0 <= l < line_count(text) && line_start(text, l) <= c <= line_end(text, l)
}

/// The count of newlines never falls as the position moves right, and rises
/// by at most one for each code point.
pub proof fn lemma_newlines_monotone(text: Seq<char>, i: int, j: int)
    requires
        0 <= i <= j,
    ensures
        0 <= newlines_before(text, i) <= newlines_before(text, j),
        newlines_before(text, j) - newlines_before(text, i) <= j - i,
    decreases j,
{
    if i < j {
        lemma_newlines_monotone(text, i, j - 1);
    } else if 0 < i {
        lemma_newlines_monotone(text, i - 1, i - 1);
    }
}

/// Across a stretch without newlines the count stays the same.
pub proof fn lemma_newlines_constant(text: Seq<char>, i: int, j: int)
    requires
        0 <= i <= j,
        forall|k: int| i <= k < j ==> text[k] != '\n',
    ensures
        newlines_before(text, j) == newlines_before(text, i),
    decreases j - i,
{
    if i < j {
        lemma_newlines_constant(text, i, j - 1);
    }
}

/// A text has at most as many lines as code points, and none only when it is
/// empty.
pub proof fn lemma_line_count_bounds(text: Seq<char>)
    ensures
        0 <= line_count(text) <= text.len(),
        line_count(text) == 0 <==> text.len() == 0,
{
    if text.len() > 0 {
        lemma_newlines_monotone(text, 0, text.len() - 1);
    }
}

/// From a position inside the text, the line ends inside the text, with no
/// newline before its end.
pub proof fn lemma_line_close(text: Seq<char>, i: int)
    requires
        0 <= i < text.len(),
    ensures
        i <= line_close(text, i) < text.len(),
        forall|k: int| i <= k < line_close(text, i) ==> text[k] != '\n',
        line_close(text, i) == text.len() - 1 || text[line_close(text, i)] == '\n',
        newlines_before(text, line_close(text, i)) == newlines_before(text, i),
    decreases text.len() - i,
{
    if !(i + 1 >= text.len() || text[i] == '\n') {
        lemma_line_close(text, i + 1);
    }
    lemma_newlines_constant(text, i, line_close(text, i));
}

/// The shape of an existing line: it lies inside the text, starts right
/// after as many newlines as its number says, ends at a newline unless it is
/// the last line, and the last line ends with the text.
pub proof fn lemma_line_shape(text: Seq<char>, l: int)
    requires
        0 <= l < line_count(text),
    ensures
        0 <= line_start(text, l) <= line_end(text, l) < text.len(),
        newlines_before(text, line_start(text, l)) == l,
        newlines_before(text, line_end(text, l)) == l,
        forall|k: int| line_start(text, l) <= k < line_end(text, l) ==> text[k] != '\n',
        l > 0 ==> line_start(text, l) == line_end(text, l - 1) + 1,
        l < line_count(text) - 1 ==> text[line_end(text, l)] == '\n',
        l == line_count(text) - 1 <==> line_end(text, l) == text.len() - 1,
    decreases l,
{
    let last = text.len() - 1;
    if l > 0 {
        lemma_line_shape(text, l - 1);
        let prev = line_end(text, l - 1);
        assert(text[prev] == '\n');
        assert(newlines_before(text, prev + 1) == l);
        lemma_newlines_monotone(text, prev + 1, text.len() as int);
    }
    let s = line_start(text, l);
    lemma_newlines_monotone(text, s, last);
    assert(s <= last) by {
        if s > last {
            lemma_newlines_monotone(text, last, s);
        }
    }
    lemma_line_close(text, s);
    let e = line_end(text, l);
    if e < last {
        assert(newlines_before(text, e + 1) == l + 1);
        lemma_newlines_monotone(text, e + 1, last);
    }
}

/// Lines come in order and do not touch: an earlier line ends before a later
/// one starts.
pub proof fn lemma_lines_ordered(text: Seq<char>, i: int, j: int)
    requires
        0 <= i < j < line_count(text),
    ensures
        line_end(text, i) < line_start(text, j),
    decreases j,
{
    lemma_line_shape(text, j);
    if i < j - 1 {
        lemma_lines_ordered(text, i, j - 1);
        lemma_line_shape(text, j - 1);
    }
}

/// Every code point is on the line that `line_of` names, and that line exists.
pub proof fn lemma_line_of_holds(text: Seq<char>, c: int)
    requires
        0 <= c < text.len(),
    ensures
        line_holds_char(text, line_of(text, c), c),
{
    let l = line_of(text, c);
    lemma_newlines_monotone(text, 0, c);
    lemma_newlines_monotone(text, c, text.len() - 1);
    lemma_line_shape(text, l);
    let s = line_start(text, l);
    let e = line_end(text, l);
    if c < s {
        lemma_line_shape(text, l - 1);
        lemma_newlines_monotone(text, c, s - 1);
    }
    if c > e {
        lemma_newlines_monotone(text, e + 1, c);
    }
}

/// A code point is on no other line than the one `line_of` names.
pub proof fn lemma_line_holding_char_unique(text: Seq<char>, l: int, c: int)
    requires
        line_holds_char(text, l, c),
    ensures
        l == line_of(text, c),
{
    lemma_line_shape(text, l);
    lemma_newlines_constant(text, line_start(text, l), c);
}

} // verus!
