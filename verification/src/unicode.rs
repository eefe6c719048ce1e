//! UTF-8 width detection and single-character decoding, together with the
//! classification of an unconsumed byte stream: it either starts with a whole
//! character, has ended (possibly inside a truncated trailing encoding), or is
//! invalid at its front.

use vstd::prelude::*;
use vstd::utf8::*;

verus! {

broadcast use vstd::utf8::char_is_scalar, vstd::utf8::char_u32_cast;

/// Number of bytes in the UTF-8 encoding announced by the leading bits of `b`,
/// or 0 when `b` cannot begin any encoding (a continuation byte, or a byte
/// above 0xF7).
pub open spec fn spec_lead_width(b: u8) -> int {
    if is_leading_byte_width_1(b) {
        1
    } else if is_leading_byte_width_2(b) {
        2
    } else if is_leading_byte_width_3(b) {
        3
    } else if is_leading_byte_width_4(b) {
        4
    } else {
        0
    }
}

/// Maps the top bits of a leading byte to the width of the encoding it starts:
/// a pure lookup, independent of any buffer state. 0 marks a byte that cannot
/// lead an encoding.
pub fn utf8_char_width(b: u8) -> (w: usize)
    ensures
        w == spec_lead_width(b),
{
    if b < 0x80 {
        1
    } else if b < 0xC0 {
        0
    } else if b < 0xE0 {
        2
    } else if b < 0xF0 {
        3
    } else if b < 0xF8 {
        4
    } else {
        0
    }
}

/// The stream starts with a complete, well-formed UTF-8 encoding of one
/// Unicode scalar value.
pub open spec fn stream_has_char(s: Seq<u8>) -> bool {
    s.len() > 0 && valid_first_scalar(s)
}

/// The stream has ended: it is empty, or it holds fewer bytes than the leading
/// byte announces (a multi-byte encoding truncated by the end of the source,
/// tolerated rather than reported as corruption).
pub open spec fn stream_at_end(s: Seq<u8>) -> bool {
    s.len() == 0 || (1 <= spec_lead_width(s[0]) && s.len() < spec_lead_width(s[0]))
}

/// The bytes at the front of the stream are not a valid UTF-8 encoding and the
/// stream has not ended: decoding must fail.
pub open spec fn stream_invalid(s: Seq<u8>) -> bool {
    !stream_at_end(s) && !stream_has_char(s)
}

/// A stream that starts with a whole character is neither at its end nor
/// invalid, and the width of that character is the one its leading byte
/// announces: between 1 and 4, and within the stream.
pub proof fn lemma_has_char_width(s: Seq<u8>)
    requires
        stream_has_char(s),
    ensures
        1 <= length_of_first_scalar(s) <= 4,
        length_of_first_scalar(s) <= s.len(),
        length_of_first_scalar(s) == spec_lead_width(s[0]),
        pop_first_scalar(s).len() == s.len() - length_of_first_scalar(s),
        !stream_at_end(s),
        !stream_invalid(s),
{
}

/// A well-formed first encoding always decodes to a Unicode scalar value.
pub proof fn lemma_first_scalar_is_scalar(s: Seq<u8>)
    requires
        s.len() > 0,
        valid_first_scalar(s),
    ensures
        is_scalar(decode_first_scalar(s)),
{
    let b0 = s[0];
    if is_leading_byte_width_1(b0) {
        assert((b0 & 0x7F) as u32 <= 0x7F) by (bit_vector);
    } else if is_leading_byte_width_2(b0) {
        let b1 = s[1];
        assert(((((b0 & 0x1F) as u32) << 6) | ((b1 & 0x3F) as u32)) <= 0x7FF) by (bit_vector);
    } else if is_leading_byte_width_3(b0) {
        let b1 = s[1];
        let b2 = s[2];
        assert(((((b0 & 0x0F) as u32) << 12) | ((((b1 & 0x3F) as u32)) << 6) | ((b2
            & 0x3F) as u32)) <= 0xFFFF) by (bit_vector);
    } else {
        let b1 = s[1];
        let b2 = s[2];
        let b3 = s[3];
        assert(((((b0 & 0x07) as u32) << 18) | ((((b1 & 0x3F) as u32)) << 12) | ((((b2
            & 0x3F) as u32)) << 6) | ((b3 & 0x3F) as u32)) >= 0) by (bit_vector);
    }
}

/// Whether the stream starts with a valid encoding, and what that encoding
/// decodes to, depend only on its first `w` bytes, `w` being the width that
/// the leading byte announces.
pub proof fn lemma_first_scalar_prefix(s: Seq<u8>, w: int)
    requires
        1 <= w <= s.len(),
        w == spec_lead_width(s[0]),
    ensures
        valid_first_scalar(s.subrange(0, w)) == valid_first_scalar(s),
        valid_first_scalar(s) ==> decode_first_scalar(s.subrange(0, w)) == decode_first_scalar(s),
        valid_first_scalar(s) ==> length_of_first_scalar(s) == w,
{
    let span = s.subrange(0, w);
    assert(forall|j: int| 0 <= j < w ==> span[j] == s[j]);
}

/// Two chars with the same scalar value are the same char.
pub proof fn lemma_char_cast_injective(a: char, b: char)
    ensures
        (a as u32 == b as u32) ==> a == b,
{
    char_u32_cast(a, a as u32);
    char_u32_cast(b, b as u32);
}

/// The three cases of a stream are mutually exclusive and cover everything.
pub proof fn lemma_stream_classification(s: Seq<u8>)
    ensures
        stream_at_end(s) || stream_has_char(s) || stream_invalid(s),
        !(stream_at_end(s) && stream_has_char(s)),
        !(stream_at_end(s) && stream_invalid(s)),
        !(stream_has_char(s) && stream_invalid(s)),
{
    if stream_has_char(s) {
        lemma_has_char_width(s);
    }
}

/// One step of consuming a validly encoded stream: the character found is the
/// next character of the decoded text, and the remainder is validly encoded in
/// turn. Together with [`lemma_encode_round_trip`], consuming characters one
/// at a time reproduces the original text exactly.
pub proof fn lemma_valid_stream_step(s: Seq<u8>)
    requires
        valid_utf8(s),
        s.len() > 0,
    ensures
        stream_has_char(s),
        decode_utf8(s).len() > 0,
        decode_utf8(s)[0] == decode_first_scalar(s) as char,
        valid_utf8(pop_first_scalar(s)),
        decode_utf8(pop_first_scalar(s)) == decode_utf8(s).drop_first(),
{
    assert(decode_utf8(s) == seq![decode_first_scalar(s) as char] + decode_utf8(
        pop_first_scalar(s),
    ));
    assert(decode_utf8(s).drop_first() =~= decode_utf8(pop_first_scalar(s)));
}

/// The encoding of a text is valid UTF-8 and decodes back to that very text,
/// ending exactly where the text does: consuming every character one at a
/// time and concatenating them reproduces the text, then finds the end.
pub proof fn lemma_encode_round_trip(text: Seq<char>)
    ensures
        valid_utf8(encode_utf8(text)),
        decode_utf8(encode_utf8(text)) == text,
        text.len() == 0 <==> encode_utf8(text).len() == 0,
{
    encode_utf8_valid_utf8(text);
    encode_utf8_decode_utf8(text);
    if text.len() > 0 {
        encode_utf8_first_scalar(text);
    }
}

/// Relies on std's char::from_u32: it returns Some exactly when the value is a
/// Unicode scalar (not a surrogate half and at most 0x10FFFF), and the
/// returned char has that value.
pub assume_specification[ char::from_u32 ](v: u32) -> (r: Option<char>)
    ensures
        match r {
            Some(c) => c as u32 == v,
            None => !is_scalar(v),
        },
        is_scalar(v) ==> r is Some,
;

/// Reads the code point of the `width`-byte span at `pos`, by the leading-byte
/// and continuation-byte bit patterns alone; the span is not validated here.
pub fn read_code_point(buffer: &Vec<u8>, pos: usize, width: usize) -> (cp: u32)
    requires
        1 <= width <= 4,
        pos + width <= buffer.len(),
        spec_lead_width(buffer@[pos as int]) == width,
    ensures
        cp == decode_first_codepoint(buffer@.subrange(pos as int, pos + width)),
{
    proof {
        assert(forall|j: int| 0 <= j < width ==> #[trigger] buffer@.subrange(
            pos as int,
            pos + width,
        )[j] == buffer@[pos + j]);
    }
    let b0 = buffer[pos];
    if width == 1 {
        proof {
            assert((b0 & 0x7F) == b0) by (bit_vector)
                requires
                    b0 <= 0x7F,
            ;
        }
        b0 as u32
    } else if width == 2 {
        let b1 = buffer[pos + 1];
        (((b0 & 0x1F) as u32) << 6u32) | ((b1 & 0x3F) as u32)
    } else if width == 3 {
        let b1 = buffer[pos + 1];
        let b2 = buffer[pos + 2];
        (((b0 & 0x0F) as u32) << 12u32) | (((b1 & 0x3F) as u32) << 6u32) | ((b2 & 0x3F) as u32)
    } else {
        let b1 = buffer[pos + 1];
        let b2 = buffer[pos + 2];
        let b3 = buffer[pos + 3];
        (((b0 & 0x07) as u32) << 18u32) | (((b1 & 0x3F) as u32) << 12u32) | (((b2
            & 0x3F) as u32) << 6u32) | ((b3 & 0x3F) as u32)
    }
}

/// Decodes the character at `pos`, whose leading byte announces `width` bytes,
/// all already in the buffer. Returns None when the span is not a valid UTF-8
/// encoding of a Unicode scalar value: a broken continuation byte, an overlong
/// encoding, a surrogate half, or a value beyond the Unicode range.
pub fn decode_first(buffer: &Vec<u8>, pos: usize, width: usize) -> (r: Option<char>)
    requires
        1 <= width <= 4,
        pos + width <= buffer.len(),
        spec_lead_width(buffer@[pos as int]) == width,
    ensures
        ({
            let span = buffer@.subrange(pos as int, pos + width);
            match r {
                Some(c) => valid_first_scalar(span) && c as u32 == decode_first_scalar(span)
                    && length_of_first_scalar(span) == width,
                None => !valid_first_scalar(span),
            }
        }),
{
    let ghost span = buffer@.subrange(pos as int, pos + width);
    proof {
        assert(forall|j: int| 0 <= j < width ==> #[trigger] span[j] == buffer@[pos + j]);
    }
    let mut i: usize = 1;
    while i < width
        invariant
            1 <= i <= width <= 4,
            pos + width <= buffer.len(),
            span == buffer@.subrange(pos as int, pos + width),
            spec_lead_width(buffer@[pos as int]) == width,
            forall|j: int| 1 <= j < i ==> is_continuation_byte(#[trigger] buffer@[pos + j]),
        decreases width - i,
    {
        let b = buffer[pos + i];
        if !(0x80 <= b && b < 0xC0) {
            proof {
                assert(!is_continuation_byte(span[i as int]));
            }
            return None;
        }
        i += 1;
    }
    let cp = read_code_point(buffer, pos, width);
    if width == 2 && cp < 0x80 {
        return None;
    }
    if width == 3 && cp < 0x800 {
        return None;
    }
    if width == 4 && cp < 0x10000 {
        return None;
    }
    proof {
        assert(span[0] == buffer@[pos as int]);
        assert(valid_leading_and_continuation_bytes_first_codepoint(span));
        assert(length_of_first_codepoint(span) == width);
        assert(decode_first_codepoint(span) == cp);
    }
    match char::from_u32(cp) {
        Some(c) => {
            proof {
                assert(c as u32 == cp);
                vstd::utf8::char_is_scalar(c);
                assert(is_scalar(cp));
                assert(not_surrogate(cp));
                assert(not_overlong_encoding(cp, width as int));
                assert(valid_first_scalar(span));
            }
            Some(c)
        },
        None => {
            proof {
                if valid_first_scalar(span) {
                    lemma_first_scalar_is_scalar(span);
                }
            }
            None
        },
    }
}

} // verus!
