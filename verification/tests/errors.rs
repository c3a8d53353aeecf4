use http_macros::error::RequestError;
use http_macros::input::{get_request, Source};
use http_macros::parser::Parser;
use http_macros::request::Request;
use http_macros::token_helpers::get_version;

#[test]
fn nothing_written_is_a_missing_request() {
    assert_eq!(get_request(Source::Empty), Err(RequestError::MissingRequest));
}

#[test]
fn group_is_refused_with_what_it_holds() {
    assert_eq!(
        get_request(Source::Group("GET /".to_string())),
        Err(RequestError::UnexpectedGroup {
            stream: "GET /".to_string()
        })
    );
}

#[test]
fn punctuation_in_front_is_refused() {
    assert_eq!(get_request(Source::Punct), Err(RequestError::UnexpectedToken));
}

#[test]
fn empty_input_misses_the_method() {
    assert_eq!(Parser::new(b"").err(), Some(RequestError::MissingMethod));
    assert_eq!(Request::new("").err(), Some(RequestError::MissingMethod));
}

#[test]
fn input_that_starts_with_a_separator_misses_the_method() {
    assert_eq!(Parser::new(b" GET /").err(), Some(RequestError::MissingMethod));
    assert_eq!(Parser::new(b"\nGET /").err(), Some(RequestError::MissingMethod));
}

#[test]
fn method_alone_misses_the_uri() {
    let expected = Some(RequestError::MissingURI {
        method: "POST".to_string(),
    });

    assert_eq!(Parser::new(b"POST").err(), expected);
    assert_eq!(Parser::new(b"POST ").err(), expected);
    assert_eq!(Parser::new(b"POST\n/").err().is_some(), false);
}

#[test]
fn extra_token_without_a_version_read() {
    let error = Parser::new(b"GET /hello  HTTP/1.1").err().unwrap();

    assert_eq!(
        error,
        RequestError::UnexpectedExtraToken {
            method: "GET".to_string(),
            uri: "/hello".to_string(),
            version: None,
        }
    );
}

#[test]
fn extra_token_behind_the_version() {
    let error = Request::new("POST /reminder HTTP/1.1 extra\nHost: a").err().unwrap();

    assert_eq!(
        error,
        RequestError::UnexpectedExtraToken {
            method: "POST".to_string(),
            uri: "/reminder".to_string(),
            version: Some("HTTP/1.1".to_string()),
        }
    );
}

#[test]
fn header_line_that_starts_with_a_space_has_no_name() {
    assert_eq!(
        Parser::new(b"GET /\n Host: a").err(),
        Some(RequestError::MissingHeaderName)
    );
}

#[test]
fn two_spaces_in_a_value_leave_the_line_unfinished() {
    assert_eq!(
        Parser::new(b"GET /\nHost: a  b").err(),
        Some(RequestError::MissingHeaderName)
    );
}

#[test]
fn unknown_version_is_invalid() {
    let version = "HTTP/4.0".to_string();

    assert_eq!(
        get_version(Some(&version)),
        Err(RequestError::InvalidVersion {
            version: "HTTP/4.0".to_string()
        })
    );
}

#[test]
fn version_is_not_judged_by_the_parser() {
    let request = Request::new("GET / FTP").unwrap();

    assert_eq!(request.version, Some("FTP".to_string()));
}
