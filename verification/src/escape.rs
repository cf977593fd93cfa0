//! The escape-set definition and the theorem that the character-level and
//! byte-level views of a string classify it alike.

use vstd::prelude::*;

verus! {

use vstd::utf8::char_is_scalar;
use vstd::utf8::encode_scalar;
use vstd::utf8::encode_utf8;
use vstd::utf8::has_width_1_encoding;
use vstd::utf8::has_width_2_encoding;
use vstd::utf8::has_width_3_encoding;
use vstd::utf8::last_continuation_byte;
use vstd::utf8::leading_byte_width_1;
use vstd::utf8::leading_byte_width_2;
use vstd::utf8::leading_byte_width_3;
use vstd::utf8::leading_byte_width_4;
use vstd::utf8::second_last_continuation_byte;
use vstd::utf8::third_last_continuation_byte;

/// A character must be escaped inside a JSON string literal exactly when it
/// is a control character (code point below 0x20), the double quote (0x22),
/// or the backslash (0x5C).
pub open spec fn escapable_char(c: char) -> bool {
    (c as u32) < 0x20 || (c as u32) == 0x22 || (c as u32) == 0x5C
}

/// The same classification on one raw byte of a UTF-8 encoding.
pub open spec fn escapable_byte(b: u8) -> bool {
    b < 0x20 || b == 0x22 || b == 0x5C
}

/// Whether a character sequence contains at least one escapable character.
pub open spec fn has_escapable_char(s: Seq<char>) -> bool {
    exists|i: int| 0 <= i < s.len() && escapable_char(s[i])
}

/// Whether a byte sequence contains at least one escapable byte.
pub open spec fn has_escapable_byte(bs: Seq<u8>) -> bool {
    exists|i: int| 0 <= i < bs.len() && escapable_byte(bs[i])
}

/// An empty string holds no character at all, so it holds nothing that
/// would need escaping: every classifier answers `false` on it.
pub proof fn lemma_empty_input(s: Seq<char>)
    requires
        s.len() == 0,
    ensures
        !has_escapable_char(s),
{
}

/// Searching a concatenation finds an escapable byte exactly when one of
/// the two halves contains one.
proof fn lemma_has_escapable_byte_concat(a: Seq<u8>, b: Seq<u8>)
    ensures
        has_escapable_byte(a + b) == (has_escapable_byte(a) || has_escapable_byte(b)),
{
    if has_escapable_byte(a) {
        let i = choose|i: int| 0 <= i < a.len() && escapable_byte(a[i]);
        assert((a + b)[i] == a[i]);
        assert(has_escapable_byte(a + b));
    } else if has_escapable_byte(b) {
        let i = choose|i: int| 0 <= i < b.len() && escapable_byte(b[i]);
        assert((a + b)[a.len() + i] == b[i]);
        assert(has_escapable_byte(a + b));
    } else {
        if has_escapable_byte(a + b) {
            let i = choose|i: int| 0 <= i < (a + b).len() && escapable_byte((a + b)[i]);
            if i < a.len() {
                assert((a + b)[i] == a[i]);
            } else {
                assert((a + b)[i] == b[i - a.len()]);
            }
        }
    }
}

/// A non-empty character sequence contains an escapable character exactly
/// when its head is escapable or its tail contains one.
proof fn lemma_has_escapable_char_uncons(s: Seq<char>)
    requires
        s.len() > 0,
    ensures
        has_escapable_char(s) == (escapable_char(s[0]) || has_escapable_char(s.drop_first())),
{
    if escapable_char(s[0]) {
        assert(has_escapable_char(s));
    } else if has_escapable_char(s.drop_first()) {
        let i = choose|i: int| 0 <= i < s.drop_first().len() && escapable_char(s.drop_first()[i]);
        assert(s[i + 1] == s.drop_first()[i]);
        assert(has_escapable_char(s));
    } else {
        if has_escapable_char(s) {
            let i = choose|i: int| 0 <= i < s.len() && escapable_char(s[i]);
            if i > 0 {
                assert(s.drop_first()[i - 1] == s[i]);
            }
        }
    }
}

/// The UTF-8 encoding of one character contains an escapable byte exactly
/// when the character itself is escapable. Every escapable code point is
/// below 0x80 and encodes as the single identical byte, while every byte
/// of a multi-byte encoding is at least 0x80 and so never escapable.
proof fn lemma_encode_scalar_escapable(c: char)
    ensures
        has_escapable_byte(encode_scalar(c as u32)) == escapable_char(c),
{
    char_is_scalar(c);
    let v = c as u32;
    if has_width_1_encoding(v) {
        let b1 = leading_byte_width_1(v);
        assert((b1 < 0x20 || b1 == 0x22 || b1 == 0x5C) == (v < 0x20 || v == 0x22 || v == 0x5C))
            by (bit_vector)
            requires
                v <= 0x7F,
                b1 == (v & 0x7F) as u8,
        ;
        assert(encode_scalar(v) == seq![b1]);
        if escapable_byte(b1) {
            assert(seq![b1][0] == b1);
            assert(has_escapable_byte(seq![b1]));
        } else {
            assert(forall|i: int|
                0 <= i < seq![b1].len() ==> !escapable_byte(seq![b1][i]));
        }
    } else {
        assert(!escapable_char(c));
        let bytes = encode_scalar(v);
        assert(forall|i: int| 0 <= i < bytes.len() ==> bytes[i] >= 0x80) by {
            if has_width_2_encoding(v) {
                let b1 = leading_byte_width_2(v);
                let b2 = last_continuation_byte(v);
                assert(b1 >= 0x80 && b2 >= 0x80) by (bit_vector)
                    requires
                        b1 == 0xC0 | ((v >> 6) & 0x1F) as u8,
                        b2 == 0x80 | (v & 0x3F) as u8,
                ;
                assert(bytes == seq![b1, b2]);
            } else if has_width_3_encoding(v) {
                let b1 = leading_byte_width_3(v);
                let b2 = second_last_continuation_byte(v);
                let b3 = last_continuation_byte(v);
                assert(b1 >= 0x80 && b2 >= 0x80 && b3 >= 0x80) by (bit_vector)
                    requires
                        b1 == 0xE0 | ((v >> 12) & 0x0F) as u8,
                        b2 == 0x80 | ((v >> 6) & 0x3F) as u8,
                        b3 == 0x80 | (v & 0x3F) as u8,
                ;
                assert(bytes == seq![b1, b2, b3]);
            } else {
                let b1 = leading_byte_width_4(v);
                let b2 = third_last_continuation_byte(v);
                let b3 = second_last_continuation_byte(v);
                let b4 = last_continuation_byte(v);
                assert(b1 >= 0x80 && b2 >= 0x80 && b3 >= 0x80 && b4 >= 0x80) by (bit_vector)
                    requires
                        b1 == 0xF0 | ((v >> 18) & 0x7) as u8,
                        b2 == 0x80 | ((v >> 12) & 0x3F) as u8,
                        b3 == 0x80 | ((v >> 6) & 0x3F) as u8,
                        b4 == 0x80 | (v & 0x3F) as u8,
                ;
                assert(bytes == seq![b1, b2, b3, b4]);
            }
        }
        assert(!has_escapable_byte(bytes));
    }
}

/// The byte-level view of a string and its character-level view classify
/// it alike: the UTF-8 encoding of a character sequence contains an
/// escapable byte exactly when the sequence contains an escapable
/// character. Escapable code points are single-byte in UTF-8, and no byte
/// of a multi-byte encoding can alias into the escape set, because lead
/// and continuation bytes of such encodings are all at least 0x80.
pub proof fn lemma_utf8_escape_equivalence(s: Seq<char>)
    ensures
        has_escapable_byte(encode_utf8(s)) == has_escapable_char(s),
    decreases s.len(),
{
    if s.len() == 0 {
        assert(!has_escapable_byte(encode_utf8(s)));
        assert(!has_escapable_char(s));
    } else {
        let head = encode_scalar(s[0] as u32);
        let tail = encode_utf8(s.drop_first());
        assert(encode_utf8(s) == head + tail);
        lemma_utf8_escape_equivalence(s.drop_first());
        lemma_has_escapable_byte_concat(head, tail);
        lemma_encode_scalar_escapable(s[0]);
        lemma_has_escapable_char_uncons(s);
    }
}

} // verus!
