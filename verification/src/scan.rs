//! The scan that cuts a text into lines.

use crate::encoding::{
    byte_offset, lead_width, lemma_byte_len, lemma_byte_offset_injective, lemma_byte_offset_monotone,
    lemma_char_offset_le_byte_offset, lemma_lead_byte,
};
use crate::index::Index;
use crate::indexed::IndexedString;
use crate::lines::{
    lemma_line_count_bounds, line_close, line_count, line_end, line_of, line_start,
};
use crate::range::Range;
use vstd::prelude::*;
use vstd::utf8::encode_utf8;

verus! {

/// Whether `r` is the span of line `l` of `text`: the positions of the line's
/// first and last code point, each as a character offset and as the byte
/// offset of that code point.
pub open spec fn is_line_span(text: Seq<char>, l: int, r: Range) -> bool {
    &&& r.start().character() == line_start(text, l)
    &&& r.start().byte() == byte_offset(text, line_start(text, l))
    &&& r.end().character() == line_end(text, l)
    &&& r.end().byte() == byte_offset(text, line_end(text, l))
}

/// Whether `table` lists the spans of all the lines of `text`, in order.
pub open spec fn is_line_table(text: Seq<char>, table: Seq<Range>) -> bool {
    &&& table.len() == line_count(text)
    &&& forall|l: int| 0 <= l < table.len() ==> is_line_span(text, l, #[trigger] table[l])
}

/// The number of bytes of the code point that starts with `lead`.
pub(crate) fn code_point_width(lead: u8) -> (width: usize)
    ensures
        width == lead_width(lead),
{
    if lead <= 0x7f {
        1
    } else if lead <= 0xdf {
        2
    } else if lead <= 0xef {
        3
    } else {
        4
    }
}

impl IndexedString<'_> {
    /// Cut a text into its lines, in one pass over its code points.
    ///
    /// A line ends at a newline or at the last code point of the text, so a
    /// newline at the very end opens no further line, and the empty text has
    /// no line at all.
    pub fn make_lines(s: &str) -> (lines: Vec<Range>)
        ensures
            is_line_table(s@, lines@),
            lines@.len() == 0 <==> s@.len() == 0,
    {
        let bytes = s.as_bytes();
        let total = bytes.len();
        let ghost text = s@;
        let mut lines: Vec<Range> = Vec::new();
        let mut start = Index::new(0, 0);
        let mut byte: usize = 0;
        let mut character: usize = 0;
        proof {
            lemma_byte_len(text);
        }
        while byte < total
            invariant
                text == s@,
                bytes@ == encode_utf8(text),
                total == bytes@.len(),
                total == byte_offset(text, text.len() as int),
                0 <= character <= text.len(),
                byte == byte_offset(text, character as int),
                start.character() == line_start(text, lines@.len() as int),
                start.byte() == byte_offset(text, start.character() as int),
                start.character() <= character,
                character < text.len() ==> line_close(text, start.character() as int)
                    == line_close(text, character as int),
                character < text.len() ==> lines@.len() == line_of(text, character as int),
                character == text.len() ==> lines@.len() == line_count(text),
                forall|l: int| 0 <= l < lines@.len() ==> is_line_span(text, l, #[trigger] lines@[l]),
            decreases total - byte,
        {
            proof {
                if character as int >= text.len() {
                    lemma_byte_offset_injective(text, character as int, text.len() as int);
                }
                lemma_lead_byte(text, character as int);
                lemma_char_offset_le_byte_offset(text, character as int + 1);
                if byte_offset(text, character as int + 1) == total {
                    lemma_byte_offset_injective(text, character as int + 1, text.len() as int);
                }
            }
            let lead = bytes[byte];
            let width = code_point_width(lead);
            if lead == 0x0a || byte + width == total {
                let here = Index::new(byte, character);
                lines.push(Range::new(start, here));
                start = Index::new(byte + width, character + 1);
            }
            byte += width;
            character += 1;
        }
        proof {
            lemma_byte_offset_monotone(text, character as int, text.len() as int);
            lemma_byte_offset_injective(text, character as int, text.len() as int);
            lemma_line_count_bounds(text);
        }
        lines
    }
}

} // verus!
