//! A request with a body.

use crate::error::{option_text, RequestError};
use crate::grammar::{parse_text, ErrorModel, RequestModel};
use crate::parser::{headers_text, Parser};
use vstd::prelude::*;
use vstd::slice::slice_to_vec;
use vstd::utf8::{encode_utf8_valid_utf8, valid_utf8};

verus! {

/// A request with its body.
#[derive(Debug, PartialEq, Eq)]
pub struct Request {
    pub method: String,
    pub uri: String,
    pub version: Option<String>,
    pub headers: Vec<(String, String)>,
    pub body: Vec<u8>,
}

impl View for Request {
    type V = RequestModel;

    open spec fn view(&self) -> RequestModel {
        RequestModel {
            method: self.method@,
            uri: self.uri@,
            version: option_text(self.version),
            headers: headers_text(self.headers@),
            body: self.body@,
        }
    }
}

impl Default for Request {
    /// The request that holds nothing.
    fn default() -> (request: Request)
        ensures
            request@ == (RequestModel {
                method: Seq::empty(),
                uri: Seq::empty(),
                version: None,
                headers: Seq::empty(),
                body: Seq::empty(),
            }),
    {
        let request = Request {
            method: String::new(),
            uri: String::new(),
            version: None,
            headers: Vec::new(),
            body: Vec::new(),
        };
        assert(headers_text(request.headers@) =~= Seq::empty());
        request
    }
}

impl Request {
    /// Reads a request from its notation.
    pub fn new(input: &str) -> (r: Result<Request, RequestError>)
        ensures
            match r {
                Ok(request) => parse_text(input@) == Ok::<RequestModel, ErrorModel>(request@),
                Err(error) => parse_text(input@) == Err::<RequestModel, ErrorModel>(error@),
            },
            r matches Ok(request) ==> {
                &&& request.method@.len() > 0
                &&& request.uri@.len() > 0
                &&& valid_utf8(request.body@)
            },
    {
        let buf = input.as_bytes();
        proof {
            encode_utf8_valid_utf8(input@);
        }
        match Parser::new(buf) {
            Ok(Parser { method, uri, version, headers, body }) => Ok(
                Request { method, uri, version, headers, body: slice_to_vec(body) },
            ),
            Err(error) => Err(error),
        }
    }
}

} // verus!
