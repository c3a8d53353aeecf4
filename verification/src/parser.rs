//! The parser: it drives a tokenizer through the grammar and collects the
//! parts of the request.

use crate::error::{option_text, RequestError};
use crate::grammar::{
    cursor_after_header, cursor_after_value, header_at, headers_from, join_tokens, parse,
    strip_colon, token_text, value_tokens, ErrorModel, RequestModel,
};
use crate::tokenizer::{lemma_token_end, Tokenizer};
use vstd::prelude::*;
use vstd::string::*;
use vstd::utf8::*;

verus! {

/// The text of each header pair.
pub open spec fn headers_text(headers: Seq<(String, String)>) -> Seq<(Seq<char>, Seq<char>)> {
    Seq::new(headers.len(), |i: int| (headers[i].0@, headers[i].1@))
}

/// The text of each token.
pub open spec fn tokens_text(tokens: Seq<String>) -> Seq<Seq<char>> {
    Seq::new(tokens.len(), |i: int| tokens[i]@)
}

/// The name of a header: its first token without one trailing colon.
pub fn header_name(token: &str) -> (name: String)
    ensures
        name@ == strip_colon(token@),
{
    let n = token.unicode_len();
    if n > 0 && token.get_char(n - 1) == ':' {
        token.substring_char(0, n - 1).to_owned()
    } else {
        token.to_owned()
    }
}

/// The value of a header: its tokens with one space between each two.
pub fn header_value(tokens: &Vec<String>) -> (value: String)
    ensures
        value@ == join_tokens(tokens_text(tokens@)),
{
    let mut value = String::new();
    let mut i: usize = 0;
    while i < tokens.len()
        invariant
            i <= tokens.len(),
            value@ == join_tokens(tokens_text(tokens@).take(i as int)),
        decreases tokens.len() - i,
    {
        let ghost so_far = tokens_text(tokens@).take(i as int);
        let ghost longer = tokens_text(tokens@).take(i + 1);
        proof {
            assert(longer.drop_last() =~= so_far);
            assert(longer.last() == tokens@[i as int]@);
        }
        if i > 0 {
            value.append(" ");
            proof {
                reveal_strlit(" ");
                assert(" "@ =~= seq![' ']);
            }
        }
        value.append(tokens[i].as_str());
        i += 1;
    }
    proof {
        assert(tokens_text(tokens@).take(tokens.len() as int) =~= tokens_text(tokens@));
    }
    value
}

/// A request as it was read: the request line and the headers as text,
/// the body as the bytes of the input that follow the blank line.
pub struct Parser<'a> {
    pub method: String,
    pub uri: String,
    pub version: Option<String>,
    pub headers: Vec<(String, String)>,
    pub body: &'a [u8],
}

impl<'a> View for Parser<'a> {
    type V = RequestModel;

    open spec fn view(&self) -> RequestModel {
        RequestModel {
            method: self.method@,
            uri: self.uri@,
            version: option_text(self.version),
            headers: headers_text(self.headers@),
            body: self.body@,
        }
    }
}

/// The headers read so far, in front of what is read from the cursor on.
pub open spec fn headers_then(
    done: Seq<(Seq<char>, Seq<char>)>,
    rest: Option<(Seq<(Seq<char>, Seq<char>)>, int)>,
) -> Option<(Seq<(Seq<char>, Seq<char>)>, int)> {
    match rest {
        Some((headers, body_start)) => Some((done + headers, body_start)),
        None => None,
    }
}

impl<'a> Parser<'a> {
    /// Reads a request from `buf`: the method and the target, a version if
    /// the request line holds a third token, the header lines up to the
    /// first blank line, and what follows that line as the body.
    pub fn new(buf: &'a [u8]) -> (r: Result<Parser<'a>, RequestError>)
        requires
            valid_utf8(buf@),
        ensures
            match r {
                Ok(parser) => parse(buf@) == Ok::<RequestModel, ErrorModel>(parser@),
                Err(error) => parse(buf@) == Err::<RequestModel, ErrorModel>(error@),
            },
            r matches Ok(parser) ==> {
                &&& parser.method@.len() > 0
                &&& parser.uri@.len() > 0
                &&& valid_utf8(parser.body@)
            },
    {
        let mut tokenizer = Tokenizer::new(buf);
        let method = match tokenizer.next() {
            Some(token) => token,
            None => {
                return Err(RequestError::MissingMethod);
            },
        };
        let uri = match tokenizer.next() {
            Some(token) => token,
            None => {
                return Err(RequestError::MissingURI { method });
            },
        };
        let mut version: Option<String> = None;
        if !tokenizer.is_end() && !tokenizer.was_newline() {
            version = tokenizer.next();
        }
        if tokenizer.is_end() {
            let body = tokenizer.rest();
            assert(body@ =~= Seq::<u8>::empty());
            assert(headers_text(Seq::<(String, String)>::empty()) =~= Seq::empty());
            return Ok(Parser { method, uri, version, headers: Vec::new(), body });
        }
        if !tokenizer.was_newline() {
            return Err(RequestError::UnexpectedExtraToken { method, uri, version });
        }
        let mut headers: Vec<(String, String)> = Vec::new();
        let ghost head_end = tokenizer.cursor();
        assert(headers_text(headers@) + Seq::empty() =~= Seq::<(Seq<char>, Seq<char>)>::empty());
        while !tokenizer.is_end()
            invariant_except_break
                headers_from(buf@, head_end) == headers_then(
                    headers_text(headers@),
                    headers_from(buf@, tokenizer.cursor()),
                ),
            invariant
                tokenizer.bytes() == buf@,
                0 <= tokenizer.cursor() <= buf@.len(),
                headers_from(buf@, head_end) is None ==> parse(buf@) == Err::<
                    RequestModel,
                    ErrorModel,
                >(ErrorModel::MissingHeaderName),
            ensures
                headers_from(buf@, head_end) == Some((headers_text(headers@), tokenizer.cursor())),
            decreases buf@.len() - tokenizer.cursor(),
        {
            let ghost line_start = tokenizer.cursor();
            let ghost before = headers_text(headers@);
            if tokenizer.is_newline() {
                tokenizer.skip_newline();
                assert(before + Seq::empty() =~= before);
                break ;
            }
            let name = match tokenizer.next() {
                Some(token) => header_name(token.as_str()),
                None => {
                    return Err(RequestError::MissingHeaderName);
                },
            };
            proof {
                lemma_token_end(buf@, line_start);
            }
            let ghost value_start = tokenizer.cursor();
            let mut value: Vec<String> = Vec::new();
            assert(tokens_text(value@) + value_tokens(buf@, value_start) =~= value_tokens(
                buf@,
                value_start,
            ));
            loop
                invariant_except_break
                    value_tokens(buf@, value_start) == tokens_text(value@) + value_tokens(
                        buf@,
                        tokenizer.cursor(),
                    ),
                    cursor_after_value(buf@, value_start) == cursor_after_value(
                        buf@,
                        tokenizer.cursor(),
                    ),
                invariant
                    tokenizer.bytes() == buf@,
                    0 <= line_start < value_start <= tokenizer.cursor() <= buf@.len(),
                ensures
                    value_tokens(buf@, value_start) == tokens_text(value@),
                    cursor_after_value(buf@, value_start) == tokenizer.cursor(),
                decreases buf@.len() - tokenizer.cursor(),
            {
                let ghost at = tokenizer.cursor();
                let ghost read = tokens_text(value@);
                if tokenizer.is_end() || tokenizer.was_newline() {
                    assert(read + Seq::empty() =~= read);
                    break ;
                }
                match tokenizer.next() {
                    Some(part) => {
                        proof {
                            lemma_token_end(buf@, at);
                        }
                        value.push(part);
                        assert(tokens_text(value@) =~= read.push(token_text(buf@, at)));
                        assert(read.push(token_text(buf@, at)) + value_tokens(
                            buf@,
                            tokenizer.cursor(),
                        ) =~= read + value_tokens(buf@, at));
                    },
                    None => {
                        assert(read + Seq::empty() =~= read);
                        break ;
                    },
                }
            }
            let joined = header_value(&value);
            headers.push((name, joined));
            proof {
                let rest = headers_from(buf@, tokenizer.cursor());
                assert(tokenizer.cursor() == cursor_after_header(buf@, line_start));
                assert(headers_text(headers@) =~= before.push(header_at(buf@, line_start)));
                if rest is Some {
                    assert(before.push(header_at(buf@, line_start)) + rest.unwrap().0 =~= before + (
                    seq![header_at(buf@, line_start)] + rest.unwrap().0));
                }
            }
        }
        let body = tokenizer.rest();
        Ok(Parser { method, uri, version, headers, body })
    }
}

} // verus!
