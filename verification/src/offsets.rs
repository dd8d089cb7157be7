//! From byte offsets to UTF-16 offsets.
//!
//! The engine computes on the bytes of a UTF-8 text. The messages that leave it
//! count UTF-16 code units. A character of one to three bytes is one code
//! unit, a character of four bytes is two; the count is carried by the first
//! byte of each character, and continuation bytes carry nothing.

use vstd::prelude::*;
use vstd::utf8::{encode_scalar, encode_utf8, is_scalar};

verus! {

/// The number of UTF-16 code units that the character starting with byte `b`
/// takes, and 0 where `b` continues a character.
pub open spec fn units_of(b: u8) -> nat {
    if 0x80 <= b < 0xC0 {
        0
    } else if b >= 0xF0 {
        2
    } else {
        1
    }
}

/// The number of UTF-16 code units of the characters that start before byte
/// `offset`: the UTF-16 offset that stands for that byte offset.
pub open spec fn units_before(bytes: Seq<u8>, offset: int) -> nat
    decreases offset,
{
    if offset <= 0 {
        0
    } else if offset > bytes.len() {
        units_before(bytes, bytes.len() as int)
    } else {
        units_before(bytes, offset - 1) + units_of(bytes[offset - 1])
    }
}

/// The length of the text in UTF-16 code units.
pub open spec fn units_total(bytes: Seq<u8>) -> nat {
    units_before(bytes, bytes.len() as int)
}

/// A later byte offset never stands for an earlier UTF-16 offset.
pub proof fn lemma_units_monotone(bytes: Seq<u8>, a: int, b: int)
    requires
        a <= b,
    ensures
        units_before(bytes, a) <= units_before(bytes, b),
    decreases b,
{
    if b <= 0 {
    } else if b > bytes.len() {
        if a > bytes.len() {
        } else {
            lemma_units_monotone(bytes, a, bytes.len() as int);
        }
    } else if a < b {
        lemma_units_monotone(bytes, a, b - 1);
    }
}

/// No byte offset stands for a UTF-16 offset beyond the length of the text.
pub proof fn lemma_units_bounded(bytes: Seq<u8>, a: int)
    ensures
        units_before(bytes, a) <= units_total(bytes),
{
    if a <= bytes.len() {
        lemma_units_monotone(bytes, a, bytes.len() as int);
    }
}

/// The number of UTF-16 code units carried by byte `b`.
pub fn units_of_byte(b: u8) -> (units: u32)
    ensures
        units == units_of(b),
{
    if 0x80 <= b && b < 0xC0 {
        0
    } else if b >= 0xF0 {
        2
    } else {
        1
    }
}

/// Carries a UTF-16 offset forward: given that `count` stands for the byte
/// offset `from`, the UTF-16 offset that stands for `to`. `None` where that
/// offset does not fit in 32 bits.
pub(crate) fn advance(bytes: &[u8], from: usize, count: u32, to: usize) -> (reached: Option<
    u32,
>)
    requires
        from <= to <= bytes@.len(),
        count == units_before(bytes@, from as int),
    ensures
        reached is Some <==> units_before(bytes@, to as int) <= u32::MAX,
        reached matches Some(c) ==> c == units_before(bytes@, to as int),
{
    let mut at = from;
    let mut sum = count;
    while at < to
        invariant
            from <= at <= to <= bytes@.len(),
            sum == units_before(bytes@, at as int),
        decreases to - at,
    {
        let units = units_of_byte(bytes[at]);
        if sum > u32::MAX - units {
            proof {
                lemma_units_monotone(bytes@, at + 1, to as int);
            }
            return None;
        }
        sum = sum + units;
        at += 1;
    }
    Some(sum)
}

/// The UTF-16 offset that stands for the byte offset `offset` of the text.
/// `None` where the offset lies beyond the text or the UTF-16 offset does not
/// fit in 32 bits.
pub fn utf16_offset(bytes: &[u8], offset: usize) -> (units: Option<u32>)
    ensures
        units is Some <==> offset <= bytes@.len() && units_before(bytes@, offset as int)
            <= u32::MAX,
        units matches Some(u) ==> u == units_before(bytes@, offset as int),
{
    if offset > bytes.len() {
        return None;
    }
    advance(bytes, 0, 0, offset)
}

/// The length of the text in UTF-16 code units, where it fits in 32 bits.
pub fn utf16_len(bytes: &[u8]) -> (len: Option<u32>)
    ensures
        len is Some <==> units_total(bytes@) <= u32::MAX,
        len matches Some(l) ==> l == units_total(bytes@),
{
    advance(bytes, 0, 0, bytes.len())
}

/// The number of UTF-16 code units that the character `c` takes: two for a
/// character beyond the basic plane, one for any other.
pub open spec fn utf16_width(c: char) -> nat {
    if c as u32 >= 0x10000 {
        2
    } else {
        1
    }
}

/// The length of `chars` in UTF-16 code units.
pub open spec fn utf16_length(chars: Seq<char>) -> nat
    decreases chars.len(),
{
    if chars.len() == 0 {
        0
    } else {
        utf16_width(chars[0]) + utf16_length(chars.drop_first())
    }
}

/// The units carried by the bytes of one after the other add up.
pub proof fn lemma_units_add(front: Seq<u8>, back: Seq<u8>)
    ensures
        units_total(front + back) == units_total(front) + units_total(back),
    decreases back.len(),
{
    let whole = front + back;
    if back.len() == 0 {
        assert(whole =~= front);
    } else {
        let shorter = back.drop_last();
        lemma_units_add(front, shorter);
        lemma_units_step(whole);
        lemma_units_step(back);
        assert(whole.drop_last() =~= front + shorter);
    }
}

/// The units of a text are those of the text without its last byte and those
/// of that byte.
proof fn lemma_units_step(bytes: Seq<u8>)
    requires
        bytes.len() > 0,
    ensures
        units_total(bytes) == units_total(bytes.drop_last()) + units_of(bytes.last()),
{
    lemma_units_prefix(bytes, bytes.drop_last(), bytes.len() - 1);
}

/// The units before an offset depend on the bytes before the offset only.
proof fn lemma_units_prefix(a: Seq<u8>, b: Seq<u8>, offset: int)
    requires
        0 <= offset <= a.len(),
        offset <= b.len(),
        forall|i: int| 0 <= i < offset ==> a[i] == b[i],
    ensures
        units_before(a, offset) == units_before(b, offset),
    decreases offset,
{
    if offset > 0 {
        lemma_units_prefix(a, b, offset - 1);
    }
}

/// The bytes that encode one character carry the UTF-16 width of the character.
proof fn lemma_units_of_scalar(v: u32)
    requires
        is_scalar(v),
    ensures
        units_total(encode_scalar(v)) == if v >= 0x10000 {
            2nat
        } else {
            1nat
        },
{
    let bytes = encode_scalar(v);
    assert(0x7f & v <= 0x7f) by (bit_vector);
    assert(0xC0u8 | (((v >> 6) & 0x1F) as u8) >= 0xC0 && 0xC0u8 | (((v >> 6) & 0x1F) as u8) < 0xE0)
        by (bit_vector);
    assert(0xE0u8 | (((v >> 12) & 0x0F) as u8) >= 0xE0 && 0xE0u8 | (((v >> 12) & 0x0F) as u8)
        < 0xF0) by (bit_vector);
    assert(0xF0u8 | (((v >> 18) & 0x7) as u8) >= 0xF0) by (bit_vector);
    assert(0x80u8 | ((v & 0x3F) as u8) >= 0x80 && 0x80u8 | ((v & 0x3F) as u8) < 0xC0)
        by (bit_vector);
    assert(0x80u8 | (((v >> 6) & 0x3F) as u8) >= 0x80 && 0x80u8 | (((v >> 6) & 0x3F) as u8) < 0xC0)
        by (bit_vector);
    assert(0x80u8 | (((v >> 12) & 0x3F) as u8) >= 0x80 && 0x80u8 | (((v >> 12) & 0x3F) as u8)
        < 0xC0) by (bit_vector);
    assert(v <= 0x7F ==> ((v & 0x7F) as u8) < 0x80) by (bit_vector);
    reveal_with_fuel(units_before, 5);
}

/// The length that the engine counts for a text is its length in UTF-16 code
/// units: the bytes of the UTF-8 form of a text carry, between them, one unit
/// for each character of the basic plane and two for each character beyond.
pub proof fn law_units_are_utf16(chars: Seq<char>)
    ensures
        units_total(encode_utf8(chars)) == utf16_length(chars),
    decreases chars.len(),
{
    if chars.len() == 0 {
        assert(encode_utf8(chars) =~= Seq::<u8>::empty());
    } else {
        vstd::utf8::char_is_scalar(chars[0]);
        lemma_units_of_scalar(chars[0] as u32);
        lemma_units_add(encode_scalar(chars[0] as u32), encode_utf8(chars.drop_first()));
        law_units_are_utf16(chars.drop_first());
    }
}

} // verus!
