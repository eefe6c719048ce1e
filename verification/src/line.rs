//! The line-extraction model: what one bounded line read returns, appends and
//! consumes, as a function of the unconsumed byte stream and the two
//! character thresholds.

use vstd::prelude::*;
use vstd::utf8::char_u32_cast;
use vstd::utf8::decode_first_scalar;
use vstd::utf8::encode_utf8;
use vstd::utf8::encode_utf8_first_scalar;
use vstd::utf8::pop_first_scalar;
use crate::unicode::lemma_char_cast_injective;
use crate::unicode::lemma_has_char_width;
use crate::unicode::stream_at_end;
use crate::unicode::stream_has_char;

verus! {

/// How one bounded line extraction ends.
pub enum LineOutcome {
    /// A line is available: a terminator was found or, after at least one
    /// character, the stream ended.
    Line,
    /// Nothing to read: the stream was already at its end.
    Nothing,
    /// The running character count reached `fail_after` with no terminator.
    TooLong,
    /// The bytes at the cursor are not valid UTF-8.
    Invalid,
}

/// The outcome of reading one line from stream `s`, with `seen` characters
/// already counted against the thresholds. A terminator always ends the line,
/// even once `fail_after` is reached.
pub open spec fn line_outcome(s: Seq<u8>, seen: nat, fail_after: nat) -> LineOutcome
    decreases s.len(),
{
    if stream_at_end(s) {
        if seen > 0 {
            LineOutcome::Line
        } else {
            LineOutcome::Nothing
        }
    } else if !stream_has_char(s) {
        LineOutcome::Invalid
    } else if decode_first_scalar(s) == '\r' as u32 || decode_first_scalar(s) == '\n' as u32 {
        LineOutcome::Line
    } else if seen >= fail_after {
        LineOutcome::TooLong
    } else {
        line_outcome(pop_first_scalar(s), seen + 1, fail_after)
    }
}

/// The characters that reading one line appends to the accumulator: the
/// characters counted while below `drop_after`, the terminator excluded.
/// Characters appended before an error stay appended.
pub open spec fn line_content(s: Seq<u8>, seen: nat, drop_after: nat, fail_after: nat) -> Seq<char>
    decreases s.len(),
{
    if stream_at_end(s) || !stream_has_char(s) {
        Seq::empty()
    } else if decode_first_scalar(s) == '\r' as u32 || decode_first_scalar(s) == '\n' as u32 {
        Seq::empty()
    } else if seen >= fail_after {
        Seq::empty()
    } else if seen >= drop_after {
        line_content(pop_first_scalar(s), seen + 1, drop_after, fail_after)
    } else {
        seq![decode_first_scalar(s) as char] + line_content(
            pop_first_scalar(s),
            seen + 1,
            drop_after,
            fail_after,
        )
    }
}

/// The stream left after reading one line: everything up to and including the
/// terminator is consumed, a line feed directly after a carriage return
/// silently with it. On a failure the offending character (not the invalid
/// bytes) has been consumed.
pub open spec fn line_rest(s: Seq<u8>, seen: nat, fail_after: nat) -> Seq<u8>
    decreases s.len(),
{
    if stream_at_end(s) || !stream_has_char(s) {
        s
    } else if decode_first_scalar(s) == '\r' as u32 {
        let after_cr = pop_first_scalar(s);
        if stream_has_char(after_cr) && decode_first_scalar(after_cr) == '\n' as u32 {
            pop_first_scalar(after_cr)
        } else {
            after_cr
        }
    } else if decode_first_scalar(s) == '\n' as u32 {
        pop_first_scalar(s)
    } else if seen >= fail_after {
        pop_first_scalar(s)
    } else {
        line_rest(pop_first_scalar(s), seen + 1, fail_after)
    }
}

/// Like [`line_rest`], except that a carriage return consumes only itself:
/// the stream left when the look-ahead for a following line feed could not
/// read from the source because the source failed.
pub open spec fn line_rest_no_lookahead(s: Seq<u8>, seen: nat, fail_after: nat) -> Seq<u8>
    decreases s.len(),
{
    if stream_at_end(s) || !stream_has_char(s) {
        s
    } else if decode_first_scalar(s) == '\r' as u32 || decode_first_scalar(s) == '\n' as u32 {
        pop_first_scalar(s)
    } else if seen >= fail_after {
        pop_first_scalar(s)
    } else {
        line_rest_no_lookahead(pop_first_scalar(s), seen + 1, fail_after)
    }
}

/// A line read reports "nothing to read" exactly when it started at the end
/// of the stream, having counted no character yet.
pub proof fn lemma_outcome_nothing(s: Seq<u8>, seen: nat, fail_after: nat)
    requires
        line_outcome(s, seen, fail_after) == LineOutcome::Nothing,
    ensures
        stream_at_end(s),
        seen == 0,
    decreases s.len(),
{
    if stream_at_end(s) {
    } else if !stream_has_char(s) {
    } else if decode_first_scalar(s) == '\r' as u32 || decode_first_scalar(s) == '\n' as u32 {
    } else if seen >= fail_after {
    } else {
        lemma_has_char_width(s);
        lemma_outcome_nothing(pop_first_scalar(s), seen + 1, fail_after);
    }
}

/// A line terminator: a line feed, a carriage return, or both in that order.
/// All three end a line as one single break.
pub open spec fn is_terminator_seq(t: Seq<char>) -> bool {
    t == seq!['\n'] || t == seq!['\r'] || t == seq!['\r', '\n']
}

/// Reading one line from a stream that encodes `text`, then a terminator,
/// then `rest` yields exactly `text` with no terminator character, consumes
/// the whole terminator, and leaves exactly the encoding of `rest` — with
/// thresholds at or above the line's length, whichever of the three
/// terminators ends it. Applied repeatedly, a stream of N terminated lines
/// yields the N lines in order.
pub proof fn lemma_line_extraction(
    text: Seq<char>,
    term: Seq<char>,
    rest: Seq<char>,
    seen: nat,
    drop_after: nat,
    fail_after: nat,
)
    requires
        forall|i: int| 0 <= i < text.len() ==> text[i] != '\n' && text[i] != '\r',
        is_terminator_seq(term),
        term == seq!['\r'] ==> rest.len() == 0 || rest[0] != '\n',
        seen + text.len() <= drop_after,
        seen + text.len() <= fail_after,
    ensures
        line_outcome(encode_utf8(text + term + rest), seen, fail_after) == LineOutcome::Line,
        line_content(encode_utf8(text + term + rest), seen, drop_after, fail_after) == text,
        line_rest(encode_utf8(text + term + rest), seen, fail_after) == encode_utf8(rest),
    decreases text.len(),
{
    let total = text + term + rest;
    let s = encode_utf8(total);
    assert(total.len() > 0);
    assert(total[0] == if text.len() > 0 { text[0] } else { term[0] });
    encode_utf8_first_scalar(total);
    assert(s == vstd::utf8::encode_scalar(total[0] as u32) + encode_utf8(total.drop_first()));
    assert(s.len() > 0);
    assert(stream_has_char(s));
    lemma_has_char_width(s);
    assert(pop_first_scalar(s) =~= encode_utf8(total.drop_first()));
    char_u32_cast(total[0], decode_first_scalar(s));
    if text.len() > 0 {
        lemma_char_cast_injective(text[0], '\r');
        lemma_char_cast_injective(text[0], '\n');
        assert(decode_first_scalar(s) != '\r' as u32);
        assert(decode_first_scalar(s) != '\n' as u32);
        assert(total.drop_first() =~= text.drop_first() + term + rest);
        lemma_line_extraction(text.drop_first(), term, rest, seen + 1, drop_after, fail_after);
        assert(line_content(s, seen, drop_after, fail_after) == seq![text[0]]
            + text.drop_first());
        assert(seq![text[0]] + text.drop_first() =~= text);
    } else {
        if term == seq!['\n'] {
            assert(decode_first_scalar(s) == '\n' as u32);
            lemma_char_cast_injective('\r', '\n');
            assert(total.drop_first() =~= rest);
            assert(line_rest(s, seen, fail_after) == encode_utf8(rest));
            assert(line_content(s, seen, drop_after, fail_after) =~= text);
        } else if term == seq!['\r'] {
            assert(decode_first_scalar(s) == '\r' as u32);
            let after_cr = pop_first_scalar(s);
            assert(total.drop_first() =~= rest);
            assert(after_cr == encode_utf8(rest));
            if rest.len() == 0 {
                assert(after_cr.len() == 0);
                assert(!stream_has_char(after_cr));
            } else {
                encode_utf8_first_scalar(rest);
                char_u32_cast(rest[0], decode_first_scalar(after_cr));
                lemma_char_cast_injective(rest[0], '\n');
                assert(decode_first_scalar(after_cr) != '\n' as u32);
            }
            assert(line_rest(s, seen, fail_after) == encode_utf8(rest));
            assert(line_content(s, seen, drop_after, fail_after) =~= text);
        } else {
            assert(term == seq!['\r', '\n']);
            assert(decode_first_scalar(s) == '\r' as u32);
            let after_cr = pop_first_scalar(s);
            assert(total.drop_first() =~= seq!['\n'] + rest);
            assert(after_cr == encode_utf8(seq!['\n'] + rest));
            encode_utf8_first_scalar(seq!['\n'] + rest);
            assert((seq!['\n'] + rest)[0] == '\n');
            char_u32_cast('\n', decode_first_scalar(after_cr));
            assert(decode_first_scalar(after_cr) == '\n' as u32);
            assert(after_cr.len() > 0);
            assert(stream_has_char(after_cr));
            lemma_has_char_width(after_cr);
            assert(pop_first_scalar(after_cr) =~= encode_utf8((seq!['\n'] + rest).drop_first()));
            assert((seq!['\n'] + rest).drop_first() =~= rest);
            assert(line_rest(s, seen, fail_after) == encode_utf8(rest));
            assert(line_content(s, seen, drop_after, fail_after) =~= text);
        }
    }
}

/// An empty line — a terminator immediately next — is reported available with
/// nothing appended: the accumulator is left unchanged.
pub proof fn lemma_empty_line(s: Seq<u8>, drop_after: nat, fail_after: nat)
    requires
        stream_has_char(s),
        decode_first_scalar(s) == '\n' as u32 || decode_first_scalar(s) == '\r' as u32,
    ensures
        line_outcome(s, 0, fail_after) == LineOutcome::Line,
        line_content(s, 0, drop_after, fail_after) == Seq::<char>::empty(),
{
    lemma_has_char_width(s);
    assert(line_content(s, 0, drop_after, fail_after) =~= Seq::<char>::empty());
}

} // verus!
