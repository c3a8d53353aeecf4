//! A request that is still to be given its body.

use crate::error::{option_text, RequestError};
use crate::grammar::{parse_head, ErrorModel, RequestModel};
use crate::parser::{headers_text, Parser};
use vstd::prelude::*;
use vstd::utf8::encode_utf8_valid_utf8;

verus! {

/// A request without a body.
#[derive(Debug, PartialEq, Eq)]
pub struct RequestBuilder {
    pub method: String,
    pub uri: String,
    pub version: Option<String>,
    pub headers: Vec<(String, String)>,
}

impl View for RequestBuilder {
    type V = RequestModel;

    open spec fn view(&self) -> RequestModel {
        RequestModel {
            method: self.method@,
            uri: self.uri@,
            version: option_text(self.version),
            headers: headers_text(self.headers@),
            body: Seq::empty(),
        }
    }
}

impl Default for RequestBuilder {
    /// The builder that holds nothing.
    fn default() -> (builder: RequestBuilder)
        ensures
            builder@ == (RequestModel {
                method: Seq::empty(),
                uri: Seq::empty(),
                version: None,
                headers: Seq::empty(),
                body: Seq::empty(),
            }),
    {
        let builder = RequestBuilder {
            method: String::new(),
            uri: String::new(),
            version: None,
            headers: Vec::new(),
        };
        assert(headers_text(builder.headers@) =~= Seq::empty());
        builder
    }
}

impl RequestBuilder {
    /// Reads a request without a body from its notation. A notation that
    /// holds a body is turned down.
    pub fn new(input: &str) -> (r: Result<RequestBuilder, RequestError>)
        ensures
            match r {
                Ok(builder) => parse_head(input@) == Ok::<RequestModel, ErrorModel>(builder@),
                Err(error) => parse_head(input@) == Err::<RequestModel, ErrorModel>(error@),
            },
            r matches Ok(builder) ==> builder.method@.len() > 0 && builder.uri@.len() > 0,
    {
        let buf = input.as_bytes();
        proof {
            encode_utf8_valid_utf8(input@);
        }
        match Parser::new(buf) {
            Ok(Parser { method, uri, version, headers, body }) => {
                if body.len() != 0 {
                    Err(RequestError::UnsupportedBody)
                } else {
                    assert(body@ =~= Seq::<u8>::empty());
                    Ok(RequestBuilder { method, uri, version, headers })
                }
            },
            Err(error) => Err(error),
        }
    }
}

} // verus!
