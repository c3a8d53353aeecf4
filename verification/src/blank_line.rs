//! Where the body starts: behind a blank line, and nowhere else.

use crate::grammar::{
    cursor_after_header, cursor_after_value, head_end, headers_from, line_end, parse, uri_start,
    value_continues,
};
use crate::tokenizer::{cursor_after_token, is_separator, lemma_token_end, token_end, NEWLINE};
use vstd::prelude::*;

verus! {

/// A newline at `at` that directly follows a separator. Such a newline
/// ends no token: it is an empty line, or the end of a line whose last
/// token is followed by a space.
pub open spec fn blank_line_at(buf: Seq<u8>, at: int) -> bool {
    &&& 0 < at < buf.len()
    &&& buf[at] == NEWLINE
    &&& is_separator(buf[at - 1])
}

/// Whether a newline in `buf` directly follows a separator.
pub open spec fn has_blank_line(buf: Seq<u8>) -> bool {
    exists|at: int| blank_line_at(buf, at)
}

/// Where the cursor stands between tokens: at the end of the buffer, or
/// behind a separator.
pub open spec fn behind_separator(buf: Seq<u8>, at: int) -> bool {
    at == buf.len() || (0 < at < buf.len() && is_separator(buf[at - 1]))
}

/// Behind a token the cursor stands between tokens.
pub proof fn lemma_behind_token(buf: Seq<u8>, from: int)
    requires
        0 <= from < buf.len(),
        token_end(buf, from) > from,
    ensures
        from < cursor_after_token(buf, from) <= buf.len(),
        behind_separator(buf, cursor_after_token(buf, from)),
{
    lemma_token_end(buf, from);
}

/// Behind a header's value the cursor stands between tokens.
pub proof fn lemma_behind_value(buf: Seq<u8>, from: int)
    requires
        behind_separator(buf, from),
    ensures
        from <= cursor_after_value(buf, from) <= buf.len(),
        behind_separator(buf, cursor_after_value(buf, from)),
    decreases buf.len() - from,
{
    if value_continues(buf, from) {
        lemma_behind_token(buf, from);
        lemma_behind_value(buf, cursor_after_token(buf, from));
    }
}

/// Behind a header the cursor stands between tokens, further on.
pub proof fn lemma_behind_header(buf: Seq<u8>, from: int)
    requires
        0 <= from < buf.len(),
        token_end(buf, from) > from,
    ensures
        from < cursor_after_header(buf, from) <= buf.len(),
        behind_separator(buf, cursor_after_header(buf, from)),
{
    lemma_behind_token(buf, from);
    lemma_behind_value(buf, cursor_after_token(buf, from));
}

/// The headers end at the end of the buffer or behind a blank line.
pub proof fn lemma_headers_end(buf: Seq<u8>, from: int)
    requires
        behind_separator(buf, from),
    ensures
        headers_from(buf, from) matches Some((_, body_start)) ==> body_start == buf.len()
            || blank_line_at(buf, body_start - 1),
    decreases buf.len() - from,
{
    if from < buf.len() && buf[from] != NEWLINE && token_end(buf, from) != from {
        lemma_token_end(buf, from);
        lemma_behind_header(buf, from);
        lemma_headers_end(buf, cursor_after_header(buf, from));
    }
}

/// Behind the request line of a request the cursor stands between tokens.
pub proof fn lemma_behind_request_line(buf: Seq<u8>)
    requires
        parse(buf) is Ok,
    ensures
        0 < head_end(buf) <= buf.len(),
        behind_separator(buf, head_end(buf)),
{
    lemma_token_end(buf, 0);
    lemma_behind_token(buf, 0);
    lemma_token_end(buf, uri_start(buf));
    lemma_behind_token(buf, uri_start(buf));
    if line_end(buf) < buf.len() {
        lemma_token_end(buf, line_end(buf));
        if token_end(buf, line_end(buf)) > line_end(buf) {
            lemma_behind_token(buf, line_end(buf));
        }
    }
}

/// A body that is not empty is what follows a blank line.
pub proof fn lemma_body_follows_blank_line(buf: Seq<u8>)
    ensures
        parse(buf) matches Ok(request) ==> request.body.len() == 0 || exists|at: int|
            blank_line_at(buf, at) && request.body == buf.subrange(at + 1, buf.len() as int),
{
    if parse(buf) is Ok {
        let request = parse(buf)->Ok_0;
        lemma_behind_request_line(buf);
        if head_end(buf) < buf.len() {
            lemma_headers_end(buf, head_end(buf));
            let body_start = headers_from(buf, head_end(buf)).unwrap().1;
            if body_start != buf.len() {
                assert(blank_line_at(buf, body_start - 1) && request.body == buf.subrange(
                    (body_start - 1) + 1,
                    buf.len() as int,
                ));
            }
        }
    }
}

/// Without a blank line there is no body, however many headers there are.
pub proof fn lemma_no_blank_line_no_body(buf: Seq<u8>)
    requires
        !has_blank_line(buf),
    ensures
        parse(buf) matches Ok(request) ==> request.body.len() == 0,
{
    lemma_body_follows_blank_line(buf);
}

} // verus!
