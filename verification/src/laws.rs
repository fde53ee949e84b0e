//! What holds of the lines of every text.

use crate::encoding::{
    byte_offset, char_at_byte, lemma_byte_len, lemma_byte_offset_monotone, lemma_char_at_byte,
};
use crate::lines::{
    lemma_line_count_bounds, lemma_line_shape, line_count, line_end, line_holds_char, line_start,
    line_text,
};
use crate::range::Range;
use crate::scan::{is_line_span, is_line_table};
use crate::spans::{
    last_byte_start, lemma_bytes_covered, lemma_line_byte_shape, lemma_lines_byte_ordered,
    line_holds_byte,
};
use vstd::prelude::*;
use vstd::utf8::encode_utf8;

verus! {

/// The texts of all the lines of `text`, in order.
pub open spec fn line_texts(text: Seq<char>) -> Seq<Seq<char>> {
    Seq::new(line_count(text) as nat, |l: int| line_text(text, l))
}

/// The first `m` lines, put together, are the text up to the start of line
/// `m`.
proof fn lemma_leading_lines(text: Seq<char>, m: int)
    requires
        0 <= m <= line_count(text),
    ensures
        Seq::new(m as nat, |l: int| line_text(text, l)).flatten() == text.subrange(
            0,
            line_start(text, m),
        ),
        0 <= line_start(text, m) <= text.len(),
    decreases m,
{
    let lines = Seq::new(m as nat, |l: int| line_text(text, l));
    lines.lemma_flatten_and_flatten_alt_are_equivalent();
    if m == 0 {
        assert(lines.flatten_alt() =~= text.subrange(0, 0));
    } else {
        let before = Seq::new((m - 1) as nat, |l: int| line_text(text, l));
        lemma_leading_lines(text, m - 1);
        lemma_line_shape(text, m - 1);
        before.lemma_flatten_and_flatten_alt_are_equivalent();
        assert(lines.drop_last() =~= before);
        assert(lines.last() == line_text(text, m - 1));
        assert(lines.flatten_alt() =~= text.subrange(0, line_start(text, m)));
    }
}

/// The lines part the text: put together in order, they are the text, with
/// nothing lost, added or moved.
pub proof fn lemma_lines_partition_text(text: Seq<char>)
    ensures
        line_texts(text).flatten() == text,
{
    let n = line_count(text);
    lemma_line_count_bounds(text);
    lemma_leading_lines(text, n);
    if n > 0 {
        lemma_line_shape(text, n - 1);
    }
    assert(text.subrange(0, line_start(text, n)) =~= text);
}

/// Every byte offset of the text, up to the first byte of its last code
/// point, is on a line.
pub proof fn lemma_every_byte_on_a_line(text: Seq<char>, b: int)
    requires
        0 <= b < encode_utf8(text).len(),
        b <= last_byte_start(text),
    ensures
        exists|l: int| line_holds_byte(text, l, b),
{
    lemma_line_count_bounds(text);
    let last = line_count(text) - 1;
    lemma_line_byte_shape(text, last);
    lemma_bytes_covered(text, last, b);
    let m = choose|m: int| 0 <= m <= last && line_holds_byte(text, m, b);
    assert(line_holds_byte(text, m, b));
}

/// A code point whose bytes hold the offset `b` is the one that
/// `char_at_byte` names.
pub proof fn lemma_char_at_byte_unique(text: Seq<char>, b: int, k: int)
    requires
        0 <= k < text.len(),
        byte_offset(text, k) <= b < byte_offset(text, k + 1),
    ensures
        k == char_at_byte(text, b),
{
    lemma_byte_offset_monotone(text, 0, k);
    lemma_byte_offset_monotone(text, k + 1, text.len() as int);
    lemma_byte_len(text);
    lemma_char_at_byte(text, b);
    let found = char_at_byte(text, b);
    if found < k {
        lemma_byte_offset_monotone(text, found + 1, k);
    } else if k < found {
        lemma_byte_offset_monotone(text, k + 1, found);
    }
}

/// No byte offset is on two lines.
pub proof fn lemma_byte_on_one_line(text: Seq<char>, l1: int, l2: int, b: int)
    requires
        line_holds_byte(text, l1, b),
        line_holds_byte(text, l2, b),
    ensures
        l1 == l2,
{
    if l1 < l2 {
        lemma_lines_byte_ordered(text, l1, l2);
    } else if l2 < l1 {
        lemma_lines_byte_ordered(text, l2, l1);
    }
}

/// The empty text has no lines, so no offset is on a line of it.
pub proof fn lemma_empty_text_has_no_lines(text: Seq<char>)
    requires
        text.len() == 0,
    ensures
        line_count(text) == 0,
        forall|l: int, b: int| !line_holds_byte(text, l, b),
        forall|l: int, c: int| !line_holds_char(text, l, c),
{
}

/// No byte offset at or past the end of the encoded text is on a line.
pub proof fn lemma_past_the_end_on_no_line(text: Seq<char>, l: int, b: int)
    requires
        b >= encode_utf8(text).len(),
    ensures
        !line_holds_byte(text, l, b),
{
    if 0 <= l < line_count(text) {
        lemma_line_byte_shape(text, l);
    }
}

/// In a table of the lines of a text, every span runs forward and holds no
/// newline before its end, each span starts on the code point after the one
/// before it, every span but the last ends at a newline, the last ends with
/// the text, and a character offset is never larger than the byte offset
/// beside it.
pub proof fn lemma_line_table_shape(text: Seq<char>, table: Seq<Range>, l: int)
    requires
        is_line_table(text, table),
        0 <= l < table.len(),
    ensures
        table[l].start().character() <= table[l].end().character() < text.len(),
        table[l].start().byte() <= table[l].end().byte() < encode_utf8(text).len(),
        table[l].start().character() <= table[l].start().byte(),
        table[l].end().character() <= table[l].end().byte(),
        l > 0 ==> table[l].start().character() == table[l - 1].end().character() + 1,
        l > 0 ==> table[l].start().byte() == table[l - 1].end().byte() + 1,
        l == 0 ==> table[l].start().character() == 0 && table[l].start().byte() == 0,
        l < table.len() - 1 ==> text[table[l].end().character() as int] == '\n',
        l == table.len() - 1 ==> table[l].end().character() == text.len() - 1,
        forall|k: int|
            table[l].start().character() <= k < table[l].end().character() ==> text[k] != '\n',
{
    lemma_line_shape(text, l);
    lemma_line_byte_shape(text, l);
    lemma_byte_offset_monotone(text, 0, line_start(text, l));
    lemma_byte_offset_monotone(text, 0, line_end(text, l));
    assert(is_line_span(text, l, table[l]));
    if l > 0 {
        assert(is_line_span(text, l - 1, table[l - 1]));
    }
}

/// A text has one table of lines only.
pub proof fn lemma_line_table_unique(text: Seq<char>, one: Seq<Range>, other: Seq<Range>)
    requires
        is_line_table(text, one),
        is_line_table(text, other),
    ensures
        one == other,
{
    assert forall|l: int| 0 <= l < one.len() implies one[l] == other[l] by {
        assert(is_line_span(text, l, one[l]));
        assert(is_line_span(text, l, other[l]));
        one[l].start().lemma_same_parts(other[l].start());
        one[l].end().lemma_same_parts(other[l].end());
        one[l].lemma_same_ends(other[l]);
    }
    assert(one =~= other);
}

} // verus!
