//! The grammar of the request notation, as functions of the input bytes:
//! a request line of method, target and an optional version, then header
//! lines, then a blank line and the body.

use crate::tokenizer::{cursor_after_token, lemma_token_end, token_bytes, token_end, NEWLINE};
use vstd::prelude::*;
use vstd::utf8::*;

verus! {

/// What a request holds: the request line and the headers as text, the
/// body as bytes.
pub struct RequestModel {
    pub method: Seq<char>,
    pub uri: Seq<char>,
    pub version: Option<Seq<char>>,
    pub headers: Seq<(Seq<char>, Seq<char>)>,
    pub body: Seq<u8>,
}

/// Why an input is no request, with what was read before it failed.
#[allow(inconsistent_fields)]
pub enum ErrorModel {
    MissingRequest,
    UnexpectedGroup { stream: Seq<char> },
    UnexpectedToken,
    MissingMethod,
    MissingURI { method: Seq<char> },
    UnexpectedExtraToken { method: Seq<char>, uri: Seq<char>, version: Option<Seq<char>> },
    MissingHeaderName,
    InvalidVersion { version: Seq<char> },
    UnsupportedBody,
}

/// The text of the token that starts at `from`.
pub open spec fn token_text(buf: Seq<u8>, from: int) -> Seq<char> {
    decode_utf8(token_bytes(buf, from))
}

/// A header's name is its first token without one trailing colon.
pub open spec fn strip_colon(name: Seq<char>) -> Seq<char> {
    if name.len() > 0 && name.last() == ':' {
        name.drop_last()
    } else {
        name
    }
}

/// The tokens put together, with one space between each two.
pub open spec fn join_tokens(tokens: Seq<Seq<char>>) -> Seq<char>
    decreases tokens.len(),
{
    if tokens.len() == 0 {
        Seq::empty()
    } else if tokens.len() == 1 {
        tokens[0]
    } else {
        join_tokens(tokens.drop_last()) + seq![' '] + tokens.last()
    }
}

/// Whether a value token is read at `from`: not at the end of the buffer,
/// not behind a newline, and not at a separator.
pub open spec fn value_continues(buf: Seq<u8>, from: int) -> bool {
    &&& 0 < from < buf.len()
    &&& buf[from - 1] != NEWLINE
    &&& token_end(buf, from) > from
}

/// The tokens of a header's value, read from `from` to the end of the line.
pub open spec fn value_tokens(buf: Seq<u8>, from: int) -> Seq<Seq<char>>
    decreases buf.len() - from,
{
    if value_continues(buf, from) {
        proof {
            lemma_token_end(buf, from);
        }
        seq![token_text(buf, from)] + value_tokens(buf, cursor_after_token(buf, from))
    } else {
        Seq::empty()
    }
}

/// Where the cursor stands once a header's value has been read from `from`.
pub open spec fn cursor_after_value(buf: Seq<u8>, from: int) -> int
    decreases buf.len() - from,
{
    if value_continues(buf, from) {
        proof {
            lemma_token_end(buf, from);
        }
        cursor_after_value(buf, cursor_after_token(buf, from))
    } else {
        from
    }
}

/// The header that starts at `from`: its name, and its value's tokens
/// joined.
pub open spec fn header_at(buf: Seq<u8>, from: int) -> (Seq<char>, Seq<char>) {
    (
        strip_colon(token_text(buf, from)),
        join_tokens(value_tokens(buf, cursor_after_token(buf, from))),
    )
}

/// Where the cursor stands once the header that starts at `from` has been
/// read.
pub open spec fn cursor_after_header(buf: Seq<u8>, from: int) -> int {
    cursor_after_value(buf, cursor_after_token(buf, from))
}

/// The header lines read from `from`, with the index at which the body
/// starts: behind the first newline that the cursor meets at the start of
/// a header, or at the end of the buffer. `None` where a header would have
/// to start at a space.
pub open spec fn headers_from(buf: Seq<u8>, from: int) -> Option<
    (Seq<(Seq<char>, Seq<char>)>, int),
>
    decreases buf.len() - from,
{
    if from < 0 || from >= buf.len() {
        Some((Seq::empty(), buf.len() as int))
    } else if buf[from] == NEWLINE {
        Some((Seq::empty(), from + 1))
    } else if token_end(buf, from) == from {
        None
    } else {
        proof {
            lemma_token_end(buf, from);
            lemma_cursor_after_value(buf, cursor_after_token(buf, from));
        }
        match headers_from(buf, cursor_after_header(buf, from)) {
            Some((rest, body_start)) => Some((seq![header_at(buf, from)] + rest, body_start)),
            None => None,
        }
    }
}

/// Reading a value moves the cursor forward, and not out of the buffer.
pub proof fn lemma_cursor_after_value(buf: Seq<u8>, from: int)
    requires
        0 <= from <= buf.len(),
    ensures
        from <= cursor_after_value(buf, from) <= buf.len(),
    decreases buf.len() - from,
{
    if value_continues(buf, from) {
        lemma_token_end(buf, from);
        lemma_cursor_after_value(buf, cursor_after_token(buf, from));
    }
}

/// Where the target starts: behind the method.
pub open spec fn uri_start(buf: Seq<u8>) -> int {
    cursor_after_token(buf, 0)
}

/// Where the cursor stands behind the target.
pub open spec fn line_end(buf: Seq<u8>) -> int {
    cursor_after_token(buf, uri_start(buf))
}

/// Whether a third token is looked for on the request line: where input
/// remains behind the target, and the target was not the last of its line.
pub open spec fn reads_version(buf: Seq<u8>) -> bool {
    line_end(buf) < buf.len() && buf[line_end(buf) - 1] != NEWLINE
}

/// The version: the third token of the request line, if it has one.
pub open spec fn version_token(buf: Seq<u8>) -> Option<Seq<char>> {
    if reads_version(buf) && token_end(buf, line_end(buf)) > line_end(buf) {
        Some(token_text(buf, line_end(buf)))
    } else {
        None
    }
}

/// Where the cursor stands behind the request line.
pub open spec fn head_end(buf: Seq<u8>) -> int {
    if reads_version(buf) {
        cursor_after_token(buf, line_end(buf))
    } else {
        line_end(buf)
    }
}

/// The request that the notation in `buf` describes, or why it describes
/// none.
pub open spec fn parse(buf: Seq<u8>) -> Result<RequestModel, ErrorModel> {
    let method = token_text(buf, 0);
    let uri = token_text(buf, uri_start(buf));
    let version = version_token(buf);
    if token_end(buf, 0) == 0 {
        Err(ErrorModel::MissingMethod)
    } else if token_end(buf, uri_start(buf)) == uri_start(buf) {
        Err(ErrorModel::MissingURI { method })
    } else if head_end(buf) >= buf.len() {
        Ok(RequestModel { method, uri, version, headers: Seq::empty(), body: Seq::empty() })
    } else if buf[head_end(buf) - 1] != NEWLINE {
        Err(ErrorModel::UnexpectedExtraToken { method, uri, version })
    } else {
        match headers_from(buf, head_end(buf)) {
            Some((headers, body_start)) => Ok(
                RequestModel {
                    method,
                    uri,
                    version,
                    headers,
                    body: buf.subrange(body_start, buf.len() as int),
                },
            ),
            None => Err(ErrorModel::MissingHeaderName),
        }
    }
}

/// The request that a text in the notation describes.
pub open spec fn parse_text(input: Seq<char>) -> Result<RequestModel, ErrorModel> {
    parse(encode_utf8(input))
}

/// The request without a body that a text describes: a text with a body
/// is turned down.
pub open spec fn parse_head(input: Seq<char>) -> Result<RequestModel, ErrorModel> {
    match parse_text(input) {
        Ok(request) => if request.body.len() == 0 {
            Ok(request)
        } else {
            Err(ErrorModel::UnsupportedBody)
        },
        Err(error) => Err(error),
    }
}

} // verus!
