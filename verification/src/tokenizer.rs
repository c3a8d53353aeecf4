//! A cursor over a byte buffer that yields the tokens between spaces and
//! newlines.

use crate::text::{lemma_cut_after_ascii, lemma_cut_before_ascii, lemma_decode_nonempty, text_of};
use vstd::prelude::*;
use vstd::slice::*;
use vstd::utf8::*;

verus! {

/// The byte that separates tokens on one line.
pub const SPACE: u8 = 0x20;

/// The byte that ends a line.
pub const NEWLINE: u8 = 0x0A;

/// A token never holds a separator: a space or a newline.
pub open spec fn is_separator(b: u8) -> bool {
    b == SPACE || b == NEWLINE
}

/// Where the token that starts at `from` ends: the index of the first
/// separator at or after `from`, or the buffer's length if there is none.
/// At or past the end of the buffer it is `from` itself.
pub open spec fn token_end(buf: Seq<u8>, from: int) -> int
    decreases buf.len() - from,
{
    if from < 0 || from >= buf.len() || is_separator(buf[from]) {
        from
    } else {
        token_end(buf, from + 1)
    }
}

/// `token_end` is the first separator at or after `from`.
pub proof fn lemma_token_end(buf: Seq<u8>, from: int)
    requires
        0 <= from <= buf.len(),
    ensures
        from <= token_end(buf, from) <= buf.len(),
        forall|i: int| from <= i < token_end(buf, from) ==> !is_separator(#[trigger] buf[i]),
        token_end(buf, from) < buf.len() ==> is_separator(buf[token_end(buf, from)]),
    decreases buf.len() - from,
{
    if from < buf.len() && !is_separator(buf[from]) {
        lemma_token_end(buf, from + 1);
    }
}

/// Where the cursor stands once the token that starts at `from` has been
/// read: behind the separator that ended it, or at the end of the buffer
/// if none did. Without a token at `from` the cursor stays.
pub open spec fn cursor_after_token(buf: Seq<u8>, from: int) -> int {
    let end = token_end(buf, from);
    if end == from || end >= buf.len() {
        end
    } else {
        end + 1
    }
}

/// Whether the buffer holds a newline at `at`.
pub open spec fn newline_at(buf: Seq<u8>, at: int) -> bool {
    0 <= at < buf.len() && buf[at] == NEWLINE
}

/// The bytes of the token that starts at `from`; empty if none does.
pub open spec fn token_bytes(buf: Seq<u8>, from: int) -> Seq<u8> {
    buf.subrange(from, token_end(buf, from))
}

/// A cursor over a buffer of UTF-8 text.
pub struct Tokenizer<'a> {
    buf: &'a [u8],
    pos: usize,
}

impl<'a> Tokenizer<'a> {
    /// The cursor never leaves the buffer, and what lies behind it is
    /// well-formed text.
    #[verifier::type_invariant]
    spec fn well_formed(self) -> bool {
        &&& self.pos <= self.buf@.len()
        &&& valid_utf8(self.buf@.subrange(self.pos as int, self.buf@.len() as int))
    }

    /// The buffer that is read.
    pub closed spec fn bytes(&self) -> Seq<u8> {
        self.buf@
    }

    /// The index of the next byte to read.
    pub closed spec fn cursor(&self) -> int {
        self.pos as int
    }

    /// A tokenizer at the start of `buf`.
    pub fn new(buf: &'a [u8]) -> (t: Tokenizer<'a>)
        requires
            valid_utf8(buf@),
        ensures
            t.bytes() == buf@,
            t.cursor() == 0,
    {
        assert(buf@.subrange(0, buf@.len() as int) =~= buf@);
        Tokenizer { buf, pos: 0 }
    }

    /// Reads the token at the cursor and moves behind the separator that
    /// ends it. Where the cursor stands at a separator or at the end of the
    /// buffer there is no token, and the cursor stays.
    pub fn next(&mut self) -> (r: Option<String>)
        ensures
            final(self).bytes() == old(self).bytes(),
            final(self).cursor() == cursor_after_token(old(self).bytes(), old(self).cursor()),
            match r {
                Some(token) => {
                    &&& token_end(old(self).bytes(), old(self).cursor()) > old(self).cursor()
                    &&& token@ == decode_utf8(token_bytes(old(self).bytes(), old(self).cursor()))
                    &&& token@.len() > 0
                },
                None => token_end(old(self).bytes(), old(self).cursor()) == old(self).cursor(),
            },
    {
        proof {
            use_type_invariant(&*self);
        }
        let buf = self.buf;
        let start = self.pos;
        let mut end = self.pos;
        while end < buf.len() && buf[end] != SPACE && buf[end] != NEWLINE
            invariant
                start <= end <= buf@.len(),
                token_end(buf@, end as int) == token_end(buf@, start as int),
            decreases buf@.len() - end,
        {
            end += 1;
        }
        if start == end {
            return None;
        }
        let ghost tail = buf@.subrange(start as int, buf@.len() as int);
        proof {
            lemma_cut_before_ascii(tail, end - start);
            assert(tail.subrange(0, end - start) =~= buf@.subrange(start as int, end as int));
            assert(tail.subrange(end - start, tail.len() as int) =~= buf@.subrange(
                end as int,
                buf@.len() as int,
            ));
        }
        let token = text_of(slice_subrange(buf, start, end));
        proof {
            lemma_decode_nonempty(buf@.subrange(start as int, end as int));
        }
        if end < buf.len() {
            proof {
                let behind = buf@.subrange(end as int, buf@.len() as int);
                lemma_cut_after_ascii(behind);
                assert(behind.subrange(1, behind.len() as int) =~= buf@.subrange(
                    end + 1,
                    buf@.len() as int,
                ));
            }
            self.pos = end + 1;
        } else {
            self.pos = end;
        }
        Some(token)
    }

    /// Whether the cursor has reached the end of the buffer.
    pub fn is_end(&self) -> (r: bool)
        ensures
            r == (self.cursor() >= self.bytes().len()),
            0 <= self.cursor() <= self.bytes().len(),
    {
        proof {
            use_type_invariant(self);
        }
        self.pos >= self.buf.len()
    }

    /// Whether the byte just before the cursor is a newline: whether the
    /// token read last was the last of its line.
    pub fn was_newline(&self) -> (r: bool)
        ensures
            r == newline_at(self.bytes(), self.cursor() - 1),
    {
        proof {
            use_type_invariant(self);
        }
        self.pos > 0 && self.buf[self.pos - 1] == NEWLINE
    }

    /// Whether the cursor stands at a newline.
    pub fn is_newline(&self) -> (r: bool)
        ensures
            r == newline_at(self.bytes(), self.cursor()),
    {
        self.pos < self.buf.len() && self.buf[self.pos] == NEWLINE
    }

    /// Moves over the newline at the cursor. Where the cursor stands at
    /// anything else it stays.
    pub fn skip_newline(&mut self)
        ensures
            final(self).bytes() == old(self).bytes(),
            final(self).cursor() == if newline_at(old(self).bytes(), old(self).cursor()) {
                old(self).cursor() + 1
            } else {
                old(self).cursor()
            },
    {
        proof {
            use_type_invariant(&*self);
        }
        if self.pos < self.buf.len() && self.buf[self.pos] == NEWLINE {
            proof {
                let behind = self.buf@.subrange(self.pos as int, self.buf@.len() as int);
                lemma_cut_after_ascii(behind);
                assert(behind.subrange(1, behind.len() as int) =~= self.buf@.subrange(
                    self.pos + 1,
                    self.buf@.len() as int,
                ));
            }
            self.pos = self.pos + 1;
        }
    }

    /// The bytes that have not been read. They are well-formed text, as
    /// the whole buffer is.
    pub fn rest(self) -> (r: &'a [u8])
        ensures
            r@ == self.bytes().subrange(self.cursor(), self.bytes().len() as int),
            valid_utf8(r@),
    {
        proof {
            use_type_invariant(&self);
        }
        slice_subrange(self.buf, self.pos, self.buf.len())
    }
}

} // verus!
