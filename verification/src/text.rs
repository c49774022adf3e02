//! Texts and their bytes. The recognizers read a text byte by byte; this
//! module says what that means for its characters.

use vstd::prelude::*;
use vstd::string::{is_ascii, StringSliceAdditionalSpecFns};
use vstd::utf8::{
    char_is_scalar, encode_scalar, encode_utf8, has_width_1_encoding, is_ascii_chars,
    is_ascii_chars_encode_utf8, leading_byte_width_2, leading_byte_width_3, leading_byte_width_4,
};
use crate::grammar::{is_literal, lemma_literal_is_ascii};

verus! {

/// Every byte of `bytes` lies in the ASCII range.
pub open spec fn is_ascii_bytes(bytes: Seq<u8>) -> bool {
    forall|i: int| 0 <= i < bytes.len() ==> #[trigger] bytes[i] < 0x80
}

/// A character that UTF-8 encodes in one byte is an ASCII character.
proof fn lemma_ascii_char(c: char)
    requires
        has_width_1_encoding(c as u32),
    ensures
        '\0' <= c <= '\u{7f}',
{
}

/// Characters whose UTF-8 bytes all lie in the ASCII range are ASCII
/// characters.
pub proof fn lemma_ascii_bytes_of_ascii_chars(chars: Seq<char>)
    requires
        is_ascii_bytes(encode_utf8(chars)),
    ensures
        is_ascii_chars(chars),
    decreases chars.len(),
{
    if chars.len() > 0 {
        char_is_scalar(chars[0]);
        let c = chars[0] as u32;
        let head = encode_scalar(c);
        let tail = chars.drop_first();
        let rest = encode_utf8(tail);
        let bytes = encode_utf8(chars);
        assert(bytes == head + rest);
        assert(bytes[0] == head[0]);
        assert(leading_byte_width_2(c) >= 0x80 && leading_byte_width_3(c) >= 0x80
            && leading_byte_width_4(c) >= 0x80) by (bit_vector);
        assert(has_width_1_encoding(c));
        assert forall|i: int| 0 <= i < rest.len() implies #[trigger] rest[i] < 0x80 by {
            assert(rest[i] == bytes[head.len() + i]);
        }
        lemma_ascii_bytes_of_ascii_chars(tail);
        lemma_ascii_char(chars[0]);
        assert forall|i: int| 0 <= i < chars.len() implies '\0' <= #[trigger] chars[i]
            <= '\u{7f}' by {
            if i > 0 {
                assert(chars[i] == tail[i - 1]);
            }
        }
    }
}

/// A text that is a literal is an ASCII text, and its bytes are its
/// characters, one for one. A text with a character beyond ASCII is
/// therefore no literal.
pub proof fn lemma_literal_text(text: &str)
    requires
        is_literal(text.spec_bytes()),
    ensures
        is_ascii(text),
        text.spec_bytes().len() == text@.len(),
        forall|i: int| 0 <= i < text@.len() ==> text.spec_bytes()[i] == #[trigger] text@[i] as u8,
{
    lemma_literal_is_ascii(text.spec_bytes());
    lemma_ascii_bytes_of_ascii_chars(text@);
    is_ascii_chars_encode_utf8(text@);
}

} // verus!
