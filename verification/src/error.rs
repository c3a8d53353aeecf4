//! Why an input was turned down.

use crate::grammar::ErrorModel;
use vstd::prelude::*;

verus! {

/// The text of an optional token.
pub open spec fn option_text(token: Option<String>) -> Option<Seq<char>> {
    match token {
        Some(s) => Some(s@),
        None => None,
    }
}

/// Why an input is no request. Each kind carries what was read before the
/// input failed, for the caller's message.
#[derive(Debug, PartialEq, Eq)]
#[allow(inconsistent_fields)]
pub enum RequestError {
    /// Nothing was written where a request is asked for.
    MissingRequest,
    /// A bracketed group was written where a request is asked for.
    UnexpectedGroup { stream: String },
    /// What was written starts with a punctuation mark.
    UnexpectedToken,
    /// The input holds no token at all.
    MissingMethod,
    /// The input holds a method and nothing behind it.
    MissingURI { method: String },
    /// The request line goes on behind the method, the target and the
    /// version.
    UnexpectedExtraToken { method: String, uri: String, version: Option<String> },
    /// A header line starts with a space, so that no name can be read.
    MissingHeaderName,
    /// The version is none of the five that are known.
    InvalidVersion { version: String },
    /// The input has a body where none can be taken.
    UnsupportedBody,
}

impl View for RequestError {
    type V = ErrorModel;

    open spec fn view(&self) -> ErrorModel {
        match *self {
            RequestError::MissingRequest => ErrorModel::MissingRequest,
            RequestError::UnexpectedGroup { stream } => ErrorModel::UnexpectedGroup {
                stream: stream@,
            },
            RequestError::UnexpectedToken => ErrorModel::UnexpectedToken,
            RequestError::MissingMethod => ErrorModel::MissingMethod,
            RequestError::MissingURI { method } => ErrorModel::MissingURI { method: method@ },
            RequestError::UnexpectedExtraToken {
                method,
                uri,
                version,
            } => ErrorModel::UnexpectedExtraToken {
                method: method@,
                uri: uri@,
                version: option_text(version),
            },
            RequestError::MissingHeaderName => ErrorModel::MissingHeaderName,
            RequestError::InvalidVersion { version } => ErrorModel::InvalidVersion {
                version: version@,
            },
            RequestError::UnsupportedBody => ErrorModel::UnsupportedBody,
        }
    }
}

} // verus!
