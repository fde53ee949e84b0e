//! Byte offsets of code points in the UTF-8 encoding of a text.
//!
//! A text is modelled as its sequence of code points, `Seq<char>`. Its bytes
//! are `encode_utf8` of that sequence. This module relates positions counted
//! in code points to positions counted in bytes.

use vstd::prelude::*;
use vstd::utf8::*;

verus! {

/// The number of bytes that encode one code point.
pub open spec fn char_width(c: char) -> int {
    encode_scalar(c as u32).len() as int
}

/// The byte offset of the code point with ordinal `k`: the total width of the
/// `k` code points before it. For `k == text.len()` this is the length of the
/// text in bytes.
pub open spec fn byte_offset(text: Seq<char>, k: int) -> int
    decreases k,
{
    if k <= 0 {
        0
    } else {
        byte_offset(text, k - 1) + char_width(text[k - 1])
    }
}

/// The width of the encoding that a leading byte announces.
pub open spec fn lead_width(lead: u8) -> int {
    if lead <= 0x7f {
        1
    } else if lead <= 0xdf {
        2
    } else if lead <= 0xef {
        3
    } else {
        4
    }
}

/// A code point takes between one and four bytes.
pub proof fn lemma_char_width_bounds(c: char)
    ensures
        1 <= char_width(c) <= 4,
{
}

/// Byte offsets grow at least as fast as character offsets.
pub proof fn lemma_byte_offset_monotone(text: Seq<char>, i: int, j: int)
    requires
        0 <= i <= j <= text.len(),
    ensures
        j - i <= byte_offset(text, j) - byte_offset(text, i),
        byte_offset(text, j) - byte_offset(text, i) <= 4 * (j - i),
    decreases j - i,
{
    if i < j {
        lemma_byte_offset_monotone(text, i, j - 1);
        lemma_char_width_bounds(text[j - 1]);
    }
}

/// A character offset never exceeds the byte offset of the same code point.
pub proof fn lemma_char_offset_le_byte_offset(text: Seq<char>, k: int)
    requires
        0 <= k <= text.len(),
    ensures
        k <= byte_offset(text, k),
{
    lemma_byte_offset_monotone(text, 0, k);
}

/// Two code points with the same byte offset are the same code point.
pub proof fn lemma_byte_offset_injective(text: Seq<char>, i: int, j: int)
    requires
        0 <= i <= text.len(),
        0 <= j <= text.len(),
        byte_offset(text, i) == byte_offset(text, j),
    ensures
        i == j,
{
    if i < j {
        lemma_byte_offset_monotone(text, i, j);
    } else if j < i {
        lemma_byte_offset_monotone(text, j, i);
    }
}

/// Encoding distributes over concatenation.
pub proof fn lemma_encode_concat(a: Seq<char>, b: Seq<char>)
    ensures
        encode_utf8(a + b) == encode_utf8(a) + encode_utf8(b),
    decreases a.len(),
{
    if a.len() == 0 {
        assert(a + b =~= b);
        assert(encode_utf8(a) + encode_utf8(b) =~= encode_utf8(b));
    } else {
        lemma_encode_concat(a.drop_first(), b);
        assert((a + b).drop_first() =~= a.drop_first() + b);
        assert((a + b)[0] == a[0]);
        assert(encode_utf8(a + b) =~= encode_utf8(a) + encode_utf8(b));
    }
}

/// The encoding of a single code point.
pub proof fn lemma_encode_single(c: char)
    ensures
        encode_utf8(seq![c]) == encode_scalar(c as u32),
{
    let s = seq![c];
    assert(s.drop_first() =~= Seq::<char>::empty());
    assert(encode_utf8(s.drop_first()) =~= Seq::<u8>::empty());
    assert(encode_utf8(s) =~= encode_scalar(c as u32));
}

/// The byte offset of code point `k` is the length of the encoding of the
/// `k` code points before it.
pub proof fn lemma_byte_offset_is_prefix_len(text: Seq<char>, k: int)
    requires
        0 <= k <= text.len(),
    ensures
        byte_offset(text, k) == encode_utf8(text.subrange(0, k)).len(),
    decreases k,
{
    if k == 0 {
        assert(text.subrange(0, 0) =~= Seq::<char>::empty());
    } else {
        lemma_byte_offset_is_prefix_len(text, k - 1);
        let head = text.subrange(0, k - 1);
        let one = seq![text[k - 1]];
        assert(text.subrange(0, k) =~= head + one);
        lemma_encode_concat(head, one);
        lemma_encode_single(text[k - 1]);
    }
}

/// The length of a text in bytes is the byte offset of its end.
pub proof fn lemma_byte_len(text: Seq<char>)
    ensures
        byte_offset(text, text.len() as int) == encode_utf8(text).len(),
{
    lemma_byte_offset_is_prefix_len(text, text.len() as int);
    assert(text.subrange(0, text.len() as int) =~= text);
}

/// Cutting the bytes of a text at the byte offsets of two code points gives
/// the encoding of the code points between them.
pub proof fn lemma_encoded_slice(text: Seq<char>, i: int, j: int)
    requires
        0 <= i <= j <= text.len(),
    ensures
        0 <= byte_offset(text, i) <= byte_offset(text, j) <= encode_utf8(text).len(),
        encode_utf8(text).subrange(byte_offset(text, i), byte_offset(text, j)) == encode_utf8(
            text.subrange(i, j),
        ),
{
    let n = text.len() as int;
    let a = text.subrange(0, i);
    let b = text.subrange(i, j);
    let c = text.subrange(j, n);
    lemma_byte_offset_is_prefix_len(text, i);
    lemma_byte_offset_is_prefix_len(text, j);
    lemma_byte_offset_monotone(text, 0, i);
    lemma_byte_offset_monotone(text, i, j);
    lemma_byte_offset_monotone(text, j, n);
    lemma_byte_len(text);
    assert(text.subrange(0, j) =~= a + b);
    assert(text =~= (a + b) + c);
    lemma_encode_concat(a, b);
    lemma_encode_concat(a + b, c);
    assert(encode_utf8(text).subrange(byte_offset(text, i), byte_offset(text, j)) =~= encode_utf8(
        b,
    ));
}

/// Byte offsets in the rest of a text, counted from code point `i`, are the
/// byte offsets in the whole text less that of `i`.
pub proof fn lemma_byte_offset_shift(text: Seq<char>, i: int, k: int)
    requires
        0 <= i,
        0 <= k,
        i + k <= text.len(),
    ensures
        byte_offset(text, i + k) == byte_offset(text, i) + byte_offset(
            text.subrange(i, text.len() as int),
            k,
        ),
{
    let rest = text.subrange(i, text.len() as int);
    lemma_encoded_slice(text, i, i + k);
    lemma_byte_offset_is_prefix_len(rest, k);
    assert(rest.subrange(0, k) =~= text.subrange(i, i + k));
}

/// What the first byte of a code point's encoding tells: how many bytes the
/// code point takes, and whether it is a newline.
pub proof fn lemma_lead_byte(text: Seq<char>, k: int)
    requires
        0 <= k < text.len(),
    ensures
        0 <= byte_offset(text, k) < byte_offset(text, k + 1) <= encode_utf8(text).len(),
        lead_width(encode_utf8(text)[byte_offset(text, k)]) == char_width(text[k]),
        !is_continuation_byte(encode_utf8(text)[byte_offset(text, k)]),
        encode_utf8(text)[byte_offset(text, k)] == 0x0a <==> text[k] == '\n',
{
    let n = text.len() as int;
    let rest = text.subrange(k, n);
    let bytes = encode_utf8(text);
    let tail = encode_utf8(rest);
    let lead = bytes[byte_offset(text, k)];
    lemma_encoded_slice(text, k, n);
    lemma_encoded_slice(text, k + 1, n);
    lemma_byte_len(text);
    lemma_char_width_bounds(text[k]);
    encode_utf8_first_scalar(rest);
    assert(rest[0] == text[k]);
    assert(tail[0] == lead);
    if lead == 0x0a {
        assert((0x0au8 & 0x7f) as u32 == 0x0au32) by (bit_vector);
        assert(text[k] as u32 == 0x0a);
        char_u32_cast(text[k], 0x0au32);
        assert(text[k] == '\n');
    }
    if text[k] == '\n' {
        assert((0x0au32 & 0x7f) as u8 == 0x0au8) by (bit_vector);
        assert(encode_scalar(text[k] as u32)[0] == 0x0a);
        assert(tail =~= encode_scalar(rest[0] as u32) + encode_utf8(rest.drop_first()));
        assert(lead == 0x0a);
    }
}

/// The byte offset of every code point, and the end of the text, is a
/// character boundary of the encoded text.
pub proof fn lemma_byte_offset_is_boundary(text: Seq<char>, k: int)
    requires
        0 <= k <= text.len(),
    ensures
        is_char_boundary(encode_utf8(text), byte_offset(text, k)),
    decreases text.len(),
{
    let bytes = encode_utf8(text);
    encode_utf8_valid_utf8(text);
    if k > 0 {
        let rest = text.drop_first();
        encode_utf8_first_scalar(text);
        lemma_byte_offset_shift(text, 1, k - 1);
        lemma_byte_offset_monotone(text, 0, k);
        lemma_encoded_slice(text, k, text.len() as int);
        assert(byte_offset(text, 1) == char_width(text[0])) by {
            reveal_with_fuel(byte_offset, 2);
        }
        assert(pop_first_scalar(bytes) =~= encode_utf8(rest));
        lemma_byte_offset_is_boundary(rest, k - 1);
    }
}

/// The ordinal of the code point whose encoding holds the byte at offset
/// `b`: the code points are stepped over from the front until `b` falls
/// inside one.
pub open spec fn char_at_byte(text: Seq<char>, b: int) -> int
    decreases text.len(),
{
    if text.len() == 0 || b < char_width(text[0]) {
        0
    } else {
        1 + char_at_byte(text.drop_first(), b - char_width(text[0]))
    }
}

/// Every byte of the encoded text belongs to one code point, the one that
/// `char_at_byte` names.
pub proof fn lemma_char_at_byte(text: Seq<char>, b: int)
    requires
        0 <= b < encode_utf8(text).len(),
    ensures
        0 <= char_at_byte(text, b) < text.len(),
        byte_offset(text, char_at_byte(text, b)) <= b < byte_offset(
            text,
            char_at_byte(text, b) + 1,
        ),
    decreases text.len(),
{
    let n = text.len() as int;
    lemma_byte_len(text);
    assert(byte_offset(text, 1) == char_width(text[0])) by {
        reveal_with_fuel(byte_offset, 2);
    }
    if b >= char_width(text[0]) {
        let rest = text.drop_first();
        let shifted = b - char_width(text[0]);
        assert(rest =~= text.subrange(1, n));
        lemma_byte_offset_shift(text, 1, n - 1);
        lemma_byte_len(rest);
        lemma_char_at_byte(rest, shifted);
        lemma_byte_offset_shift(text, 1, char_at_byte(rest, shifted));
        lemma_byte_offset_shift(text, 1, char_at_byte(rest, shifted) + 1);
    }
}

} // verus!
