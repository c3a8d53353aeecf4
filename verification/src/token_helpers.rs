//! What the emission of a request needs to know of it.

use crate::error::RequestError;
use crate::grammar::ErrorModel;
use crate::text::same_text;
use vstd::prelude::*;

verus! {

/// The protocol versions that a request can name.
#[derive(Debug, Clone, Copy, PartialEq, Eq, Structural)]
pub enum Version {
    Http09,
    Http10,
    Http11,
    Http2,
    Http3,
}

/// The version that a text names, if it names one.
pub open spec fn version_named(text: Seq<char>) -> Option<Version> {
    if text == "HTTP/0.9"@ {
        Some(Version::Http09)
    } else if text == "HTTP/1.0"@ {
        Some(Version::Http10)
    } else if text == "HTTP/1.1"@ {
        Some(Version::Http11)
    } else if text == "HTTP/2.0"@ {
        Some(Version::Http2)
    } else if text == "HTTP/3.0"@ {
        Some(Version::Http3)
    } else {
        None
    }
}

impl Version {
    /// The name of the constant that stands for this version.
    pub open spec fn constant(self) -> Seq<char> {
        match self {
            Version::Http09 => "HTTP_09"@,
            Version::Http10 => "HTTP_10"@,
            Version::Http11 => "HTTP_11"@,
            Version::Http2 => "HTTP_2"@,
            Version::Http3 => "HTTP_3"@,
        }
    }

    /// The name of the constant that stands for this version.
    pub fn ident(self) -> (name: &'static str)
        ensures
            name@ == self.constant(),
    {
        match self {
            Version::Http09 => "HTTP_09",
            Version::Http10 => "HTTP_10",
            Version::Http11 => "HTTP_11",
            Version::Http2 => "HTTP_2",
            Version::Http3 => "HTTP_3",
        }
    }
}

/// The version that a request names: none where it names none, and an
/// error where what it names is no version.
pub fn get_version(version: Option<&String>) -> (r: Result<Option<Version>, RequestError>)
    ensures
        match version {
            None => r == Ok::<Option<Version>, RequestError>(None),
            Some(text) => match version_named(text@) {
                Some(named) => r == Ok::<Option<Version>, RequestError>(Some(named)),
                None => r is Err && r->Err_0@ == (ErrorModel::InvalidVersion { version: text@ }),
            },
        },
{
    match version {
        None => Ok(None),
        Some(text) => {
            let text = text.as_str();
            if same_text(text, "HTTP/0.9") {
                Ok(Some(Version::Http09))
            } else if same_text(text, "HTTP/1.0") {
                Ok(Some(Version::Http10))
            } else if same_text(text, "HTTP/1.1") {
                Ok(Some(Version::Http11))
            } else if same_text(text, "HTTP/2.0") {
                Ok(Some(Version::Http2))
            } else if same_text(text, "HTTP/3.0") {
                Ok(Some(Version::Http3))
            } else {
                Err(RequestError::InvalidVersion { version: text.to_owned() })
            }
        },
    }
}

} // verus!
