//! The buffered decoder: a fixed-capacity buffer over a byte source, two
//! cursors, and character-at-a-time UTF-8 decoding that survives encodings
//! split across buffer refills.

use vstd::prelude::*;
use vstd::utf8::decode_first_scalar;
use vstd::utf8::length_of_first_scalar;
use vstd::utf8::pop_first_scalar;
use vstd::utf8::valid_first_scalar;
use crate::line::LineOutcome;
use crate::line::lemma_outcome_nothing;
use crate::line::line_content;
use crate::line::line_outcome;
use crate::line::line_rest;
use crate::line::line_rest_no_lookahead;
use crate::source::ByteSource;
use crate::unicode::decode_first;
use crate::unicode::lemma_char_cast_injective;
use crate::unicode::lemma_first_scalar_prefix;
use crate::unicode::lemma_stream_classification;
use crate::unicode::lemma_has_char_width;
use crate::unicode::stream_at_end;
use crate::unicode::stream_has_char;
use crate::unicode::stream_invalid;
use crate::unicode::utf8_char_width;

verus! {

broadcast use vstd::utf8::char_u32_cast;

/// Relies on std's String::push: it appends the given character to the end of
/// the string.
pub assume_specification[ String::push ](s: &mut String, c: char)
    ensures
        final(s)@ == old(s)@ + seq![c],
;

/// Capacity in bytes of the buffer that [`CharReader::new`] allocates.
pub const DEFAULT_BUF_SIZE: usize = 5000;

/// What a read operation can fail with. End of stream is not an error: it is
/// the absence value of the operation's result.
#[derive(Debug)]
pub enum ReadError<E> {
    /// The byte source itself failed; its error is handed through unchanged.
    Source(E),
    /// The bytes at the read position do not form a valid UTF-8 encoding of a
    /// Unicode scalar value. The cursor is left on the offending bytes.
    InvalidData,
    /// A line reached the `fail_after` threshold before any terminator.
    LineTooLong,
}

/// A buffered reader able to deliver chars or bounded lines from a byte
/// source, without crashing when the stream does not finish or contains no
/// terminator, and without retaining more than its buffer plus one bounded
/// line.
pub struct CharReader<S: ByteSource> {
    src: S,
    buffer: Vec<u8>,
    pos: usize,
    len: usize,
}

impl<S: ByteSource> CharReader<S> {
    /// All bytes not yet consumed: the unread region of the buffer followed by
    /// whatever the source still holds.
    pub closed spec fn stream(&self) -> Seq<u8> {
        self.buffer@.subrange(self.pos as int, self.len as int) + self.src.remaining()
    }

    /// The buffer invariant: bytes in `[pos, len)` are valid unconsumed data,
    /// both cursors are within the buffer, and the buffer can hold any one
    /// encoded character.
    pub closed spec fn wf(&self) -> bool {
        self.pos <= self.len && self.len <= self.buffer.len() && self.buffer.len() >= 4
    }

    /// The first `w` bytes of the stream sit in the buffer, so consuming them
    /// needs no further read from the source.
    pub closed spec fn loaded(&self, w: int) -> bool {
        self.pos + w <= self.len
    }

    /// Wraps a byte source with a buffer of `capacity` bytes. No read happens
    /// until the first operation. The capacity must fit the widest UTF-8
    /// encoding.
    pub fn with_capacity(src: S, capacity: usize) -> (r: Self)
        requires
            capacity >= 4,
        ensures
            r.wf(),
            r.stream() == src.remaining(),
    {
        let buffer = vec![0u8; capacity];
        let r = CharReader { src, buffer, pos: 0, len: 0 };
        proof {
            assert(r.stream() =~= r.src.remaining());
        }
        r
    }

    /// Wraps a byte source with the default buffer capacity. No read happens
    /// until the first operation.
    pub fn new(src: S) -> (r: Self)
        ensures
            r.wf(),
            r.stream() == src.remaining(),
    {
        Self::with_capacity(src, DEFAULT_BUF_SIZE)
    }

    /// Ensures that, if a whole character is next in the stream, its encoded
    /// bytes are in the buffer, and decodes it without consuming: `None` when
    /// the stream has ended (also when it ends inside a truncated multi-byte
    /// encoding), the character and its byte width when one is there, and an
    /// error when the bytes are invalid, with the cursor unadvanced.
    #[verifier::loop_isolation(false)]
    #[verifier::rlimit(60)]
    pub fn load_char(&mut self) -> (r: Result<Option<(char, usize)>, ReadError<S::Err>>)
        requires
            old(self).wf(),
        ensures
            final(self).wf(),
            match r {
                Ok(Some((c, w))) => {
                    &&& stream_has_char(old(self).stream())
                    &&& c as u32 == decode_first_scalar(old(self).stream())
                    &&& w == length_of_first_scalar(old(self).stream())
                    &&& final(self).stream() == old(self).stream()
                    &&& final(self).loaded(w as int)
                },
                Ok(None) => stream_at_end(old(self).stream()) && final(self).stream() == old(
                    self,
                ).stream(),
                Err(e) => {
                    &&& final(self).stream() == old(self).stream()
                    &&& match e {
                        ReadError::Source(_) => true,
                        ReadError::InvalidData => stream_invalid(old(self).stream()),
                        ReadError::LineTooLong => false,
                    }
                },
            },
            old(self).stream().len() == 0 ==> r matches Ok(None),
    {
        let ghost s0 = old(self).stream();
        if self.pos >= self.len {
            self.pos = 0;
            self.len = 0;
            proof {
                assert(self.stream() =~= s0);
            }
            let ghost rem0 = self.src.remaining();
            proof {
                assert(s0 =~= rem0);
            }
            let n = match self.src.read_into(&mut self.buffer, 0) {
                Ok(n) => n,
                Err(e) => {
                    proof {
                        assert(self.stream() =~= s0);
                    }
                    return Err(ReadError::Source(e));
                },
            };
            if n == 0 {
                proof {
                    assert(rem0.len() == 0);
                    assert(self.stream() =~= s0);
                }
                return Ok(None);
            }
            self.len = n;
            proof {
                assert forall|j: int| 0 <= j < self.stream().len() implies self.stream()[j]
                    == s0[j] by {
                    if j < n {
                        assert(self.buffer@[0 + j] == rem0[j]);
                    }
                }
                assert(self.stream() =~= s0);
            }
        }
        proof {
            assert(self.stream() == s0);
            assert(s0.len() >= self.len - self.pos);
            assert(s0[0] == self.buffer@[self.pos as int]);
        }
        let b = self.buffer[self.pos];
        let w = utf8_char_width(b);
        if w == 0 {
            proof {
                assert(!stream_at_end(s0));
                assert(!valid_first_scalar(s0));
            }
            return Err(ReadError::InvalidData);
        }
        if w > self.len - self.pos {
            // A character is split across the end of the buffered data: shift
            // the unread region down to offset 0, then top the buffer up until
            // the whole encoding is present or the source is drained.
            let count = self.len - self.pos;
            let ghost buf0 = self.buffer@;
            let ghost pos0 = self.pos as int;
            let ghost src0 = self.src;
            let mut i: usize = 0;
            while i < count
                invariant
                    i <= count,
                    self.pos == pos0,
                    self.pos + count == self.len,
                    self.src == src0,
                    self.buffer@.len() == buf0.len(),
                    forall|j: int| 0 <= j < i ==> #[trigger] self.buffer@[j] == buf0[pos0 + j],
                    forall|j: int|
                        pos0 + i <= j < buf0.len() ==> #[trigger] self.buffer@[j] == buf0[j],
                decreases count - i,
            {
                let b2 = self.buffer[self.pos + i];
                self.buffer[i] = b2;
                i += 1;
            }
            self.len = count;
            self.pos = 0;
            proof {
                assert(self.stream() =~= s0);
                assert(self.buffer@[0] == b);
            }
            while self.len < w
                invariant
                    self.wf(),
                    self.pos == 0,
                    1 <= self.len,
                    self.stream() == s0,
                    self.buffer@[0] == b,
                decreases self.src.remaining().len(),
            {
                let ghost pre = *self;
                let ghost rem0 = self.src.remaining();
                let start = self.len;
                let n = match self.src.read_into(&mut self.buffer, start) {
                    Ok(n) => n,
                    Err(e) => {
                        proof {
                            assert(self.stream() =~= pre.stream());
                        }
                        return Err(ReadError::Source(e));
                    },
                };
                if n == 0 {
                    proof {
                        assert(rem0.len() == 0);
                        assert(self.stream() =~= pre.stream());
                        assert(s0.len() == self.len - 0);
                        assert(stream_at_end(s0));
                    }
                    return Ok(None);
                }
                self.len = self.len + n;
                proof {
                    assert forall|j: int| 0 <= j < self.stream().len() implies self.stream()[j]
                        == pre.stream()[j] by {
                        if start <= j < start + n {
                            assert(self.buffer@[start + (j - start)] == rem0[j - start]);
                        }
                    }
                    assert(self.stream() =~= pre.stream());
                }
            }
        }
        proof {
            assert(self.stream() == s0);
            assert(self.loaded(w as int));
            assert(s0.subrange(0, w as int) =~= self.buffer@.subrange(
                self.pos as int,
                self.pos + w,
            ));
            lemma_first_scalar_prefix(s0, w as int);
        }
        match decode_first(&self.buffer, self.pos, w) {
            Some(c) => {
                proof {
                    assert(stream_has_char(s0));
                }
                Ok(Some((c, w)))
            },
            None => {
                proof {
                    assert(!valid_first_scalar(s0));
                    assert(!stream_at_end(s0));
                }
                Err(ReadError::InvalidData)
            },
        }
    }

    /// Advances the cursor past the character that a successful `load_char`
    /// left at the front of the buffer, `w` being its byte width.
    fn consume_loaded(&mut self, w: usize)
        requires
            old(self).wf(),
            old(self).loaded(w as int),
            stream_has_char(old(self).stream()),
            w == length_of_first_scalar(old(self).stream()),
        ensures
            final(self).wf(),
            final(self).stream() == pop_first_scalar(old(self).stream()),
    {
        proof {
            lemma_has_char_width(old(self).stream());
        }
        self.pos = self.pos + w;
        proof {
            assert(self.stream() =~= pop_first_scalar(old(self).stream()));
        }
    }

    /// Reads and consumes the next character, or `None` once the stream has
    /// ended; asking again after the end stays at `None`. On an error nothing
    /// is consumed.
    pub fn next_char(&mut self) -> (r: Result<Option<char>, ReadError<S::Err>>)
        requires
            old(self).wf(),
        ensures
            final(self).wf(),
            match r {
                Ok(Some(c)) => {
                    &&& stream_has_char(old(self).stream())
                    &&& c as u32 == decode_first_scalar(old(self).stream())
                    &&& final(self).stream() == pop_first_scalar(old(self).stream())
                },
                Ok(None) => stream_at_end(old(self).stream()) && final(self).stream() == old(
                    self,
                ).stream(),
                Err(e) => {
                    &&& final(self).stream() == old(self).stream()
                    &&& match e {
                        ReadError::Source(_) => true,
                        ReadError::InvalidData => stream_invalid(old(self).stream()),
                        ReadError::LineTooLong => false,
                    }
                },
            },
            old(self).stream().len() == 0 ==> r matches Ok(None),
    {
        match self.load_char() {
            Ok(Some((c, w))) => {
                self.consume_loaded(w);
                Ok(Some(c))
            },
            Ok(None) => Ok(None),
            Err(e) => Err(e),
        }
    }

    /// Returns the next character without consuming it: repeated peeks without
    /// an intervening consume return the same character.
    pub fn peek_char(&mut self) -> (r: Result<Option<char>, ReadError<S::Err>>)
        requires
            old(self).wf(),
        ensures
            final(self).wf(),
            final(self).stream() == old(self).stream(),
            match r {
                Ok(Some(c)) => stream_has_char(old(self).stream()) && c as u32
                    == decode_first_scalar(old(self).stream()),
                Ok(None) => stream_at_end(old(self).stream()),
                Err(e) => match e {
                    ReadError::Source(_) => true,
                    ReadError::InvalidData => stream_invalid(old(self).stream()),
                    ReadError::LineTooLong => false,
                },
            },
            old(self).stream().len() == 0 ==> r matches Ok(None),
    {
        match self.load_char() {
            Ok(Some((c, _))) => Ok(Some(c)),
            Ok(None) => Ok(None),
            Err(e) => Err(e),
        }
    }

    /// Appends the next line to `line`, with protection against wild stream
    /// content: characters counted from `drop_after` on are read but not
    /// stored, and reaching `fail_after` characters before any terminator
    /// fails with [`ReadError::LineTooLong`]. Thresholds are in chars, not
    /// bytes nor columns nor graphemes. Returns `Ok(false)` when there was no
    /// error but nothing to read (stream finished), and may return `Ok(true)`
    /// having appended nothing: the line was empty, or all of it was dropped.
    /// Characters appended before an error stay appended.
    #[verifier::loop_isolation(false)]
    pub fn read_line(&mut self, line: &mut String, drop_after: usize, fail_after: usize) -> (r:
        Result<bool, ReadError<S::Err>>)
        requires
            old(self).wf(),
        ensures
            final(self).wf(),
            ({
                let s0 = old(self).stream();
                let d = drop_after as nat;
                let f = fail_after as nat;
                match r {
                    Ok(b) => {
                        &&& b == (line_outcome(s0, 0, f) matches LineOutcome::Line)
                        &&& (line_outcome(s0, 0, f) matches LineOutcome::Line || line_outcome(
                            s0,
                            0,
                            f,
                        ) matches LineOutcome::Nothing)
                        &&& final(line)@ == old(line)@ + line_content(s0, 0, d, f)
                        &&& (final(self).stream() == line_rest(s0, 0, f) || final(self).stream()
                            == line_rest_no_lookahead(s0, 0, f))
                    },
                    Err(ReadError::InvalidData) => {
                        &&& line_outcome(s0, 0, f) matches LineOutcome::Invalid
                        &&& final(line)@ == old(line)@ + line_content(s0, 0, d, f)
                        &&& final(self).stream() == line_rest(s0, 0, f)
                    },
                    Err(ReadError::LineTooLong) => {
                        &&& line_outcome(s0, 0, f) matches LineOutcome::TooLong
                        &&& final(line)@ == old(line)@ + line_content(s0, 0, d, f)
                        &&& final(self).stream() == line_rest(s0, 0, f)
                    },
                    Err(ReadError::Source(_)) => exists|k: int|
                        0 <= k <= line_content(s0, 0, d, f).len() && final(line)@ == old(line)@
                            + line_content(s0, 0, d, f).take(k),
                }
            }),
            old(self).stream().len() == 0 ==> ({
                &&& match r {
                    Ok(b) => b == false,
                    Err(_) => false,
                }
                &&& final(self).stream() == old(self).stream()
                &&& final(line)@ == old(line)@
            }),
    {
        let ghost s0 = old(self).stream();
        let ghost l0 = old(line)@;
        let ghost d = drop_after as nat;
        let ghost f = fail_after as nat;
        let mut chars_count: usize = 0;
        let ghost mut appended: Seq<char> = Seq::empty();
        loop
            invariant
                self.wf(),
                chars_count <= fail_after,
                line@ == l0 + appended,
                line_outcome(s0, 0, f) == line_outcome(self.stream(), chars_count as nat, f),
                line_content(s0, 0, d, f) == appended + line_content(
                    self.stream(),
                    chars_count as nat,
                    d,
                    f,
                ),
                line_rest(s0, 0, f) == line_rest(self.stream(), chars_count as nat, f),
                line_rest_no_lookahead(s0, 0, f) == line_rest_no_lookahead(
                    self.stream(),
                    chars_count as nat,
                    f,
                ),
                s0.len() == 0 ==> self.stream() == s0 && chars_count == 0,
            decreases self.stream().len(),
        {
            let ghost cur = self.stream();
            let ghost k = chars_count as nat;
            match self.next_char() {
                Err(e) => {
                    proof {
                        match e {
                            ReadError::InvalidData => {
                                assert(line_outcome(cur, k, f) matches LineOutcome::Invalid);
                                assert(line_content(cur, k, d, f) =~= Seq::<char>::empty());
                                assert(appended + Seq::<char>::empty() =~= appended);
                                assert(line_rest(cur, k, f) == cur);
                            },
                            _ => {
                                assert(line_content(s0, 0, d, f).take(appended.len() as int)
                                    =~= appended);
                            },
                        }
                    }
                    return Err(e);
                },
                Ok(None) => {
                    proof {
                        assert(line_content(cur, k, d, f) =~= Seq::<char>::empty());
                        assert(appended + Seq::<char>::empty() =~= appended);
                        assert(line_rest(cur, k, f) == cur);
                    }
                    return Ok(chars_count > 0);
                },
                Ok(Some(c)) => {
                    if c == '\r' {
                        proof {
                            assert(decode_first_scalar(cur) == '\r' as u32);
                            assert(line_outcome(cur, k, f) matches LineOutcome::Line);
                            assert(line_content(cur, k, d, f) =~= Seq::<char>::empty());
                            assert(appended + Seq::<char>::empty() =~= appended);
                        }
                        let ghost after_cr = self.stream();
                        match self.load_char() {
                            Ok(Some((c2, w2))) => {
                                if c2 == '\n' {
                                    proof {
                                        assert(decode_first_scalar(after_cr) == '\n' as u32);
                                    }
                                    self.consume_loaded(w2);
                                } else {
                                    proof {
                                        lemma_char_cast_injective(c2, '\n');
                                        assert(decode_first_scalar(after_cr) != '\n' as u32);
                                    }
                                }
                            },
                            Ok(None) => {
                                proof {
                                    lemma_stream_classification(after_cr);
                                    assert(!stream_has_char(after_cr));
                                }
                            },
                            Err(_) => {},
                        }
                        return Ok(true);
                    } else if c == '\n' {
                        proof {
                            lemma_char_cast_injective('\r', '\n');
                            assert(c as u32 == '\n' as u32);
                            assert(decode_first_scalar(cur) == '\n' as u32);
                            assert(decode_first_scalar(cur) != '\r' as u32);
                            assert(line_content(cur, k, d, f) =~= Seq::<char>::empty());
                            assert(appended + Seq::<char>::empty() =~= appended);
                        }
                        return Ok(true);
                    } else {
                        proof {
                            lemma_char_cast_injective(c, '\r');
                            lemma_char_cast_injective(c, '\n');
                            assert(decode_first_scalar(cur) != '\r' as u32);
                            assert(decode_first_scalar(cur) != '\n' as u32);
                        }
                        if chars_count >= fail_after {
                            proof {
                                assert(line_outcome(cur, k, f) matches LineOutcome::TooLong);
                                assert(line_content(cur, k, d, f) =~= Seq::<char>::empty());
                                assert(appended + Seq::<char>::empty() =~= appended);
                                assert(line_rest(cur, k, f) == pop_first_scalar(cur));
                            }
                            return Err(ReadError::LineTooLong);
                        } else if chars_count >= drop_after {
                            proof {
                                assert(line_content(cur, k, d, f) == line_content(
                                    pop_first_scalar(cur),
                                    k + 1,
                                    d,
                                    f,
                                ));
                            }
                            chars_count = chars_count + 1;
                        } else {
                            line.push(c);
                            proof {
                                vstd::utf8::char_u32_cast(c, decode_first_scalar(cur));
                                let cc = decode_first_scalar(cur) as char;
                                assert(cc == c);
                                assert(line_content(cur, k, d, f) == seq![c] + line_content(
                                    pop_first_scalar(cur),
                                    k + 1,
                                    d,
                                    f,
                                ));
                                appended = appended + seq![c];
                                assert(line@ =~= l0 + appended);
                                assert(line_content(s0, 0, d, f) =~= appended + line_content(
                                    pop_first_scalar(cur),
                                    k + 1,
                                    d,
                                    f,
                                ));
                            }
                            chars_count = chars_count + 1;
                        }
                    }
                },
            }
        }
    }

    /// Returns the next line, if any, under the same thresholds as
    /// `read_line`: characters counted from `drop_after` on are dropped, and
    /// reaching `fail_after` characters before any terminator fails. `None`
    /// means there was no error but nothing to read.
    pub fn next_line(&mut self, drop_after: usize, fail_after: usize) -> (r: Result<
        Option<String>,
        ReadError<S::Err>,
    >)
        requires
            old(self).wf(),
        ensures
            final(self).wf(),
            ({
                let s0 = old(self).stream();
                let d = drop_after as nat;
                let f = fail_after as nat;
                match r {
                    Ok(Some(l)) => {
                        &&& line_outcome(s0, 0, f) matches LineOutcome::Line
                        &&& l@ == line_content(s0, 0, d, f)
                        &&& (final(self).stream() == line_rest(s0, 0, f) || final(self).stream()
                            == line_rest_no_lookahead(s0, 0, f))
                    },
                    Ok(None) => {
                        &&& line_outcome(s0, 0, f) matches LineOutcome::Nothing
                        &&& final(self).stream() == s0
                    },
                    Err(ReadError::InvalidData) => line_outcome(s0, 0, f)
                        matches LineOutcome::Invalid && final(self).stream() == line_rest(s0, 0, f),
                    Err(ReadError::LineTooLong) => line_outcome(s0, 0, f)
                        matches LineOutcome::TooLong && final(self).stream() == line_rest(s0, 0, f),
                    Err(ReadError::Source(_)) => true,
                }
            }),
            old(self).stream().len() == 0 ==> (r matches Ok(None)) && final(self).stream() == old(
                self,
            ).stream(),
    {
        let mut l = String::new();
        match self.read_line(&mut l, drop_after, fail_after) {
            Ok(true) => {
                proof {
                    assert(l@ =~= line_content(old(self).stream(), 0, drop_after as nat, fail_after as nat));
                }
                Ok(Some(l))
            },
            Ok(false) => {
                proof {
                    lemma_outcome_nothing(old(self).stream(), 0, fail_after as nat);
                }
                Ok(None)
            },
            Err(e) => Err(e),
        }
    }
}

} // verus!
