use http_macros::error::RequestError;
use http_macros::parser::Parser;
use http_macros::tokenizer::Tokenizer;

#[test]
fn parser_tokenizer_next() {
    let buf = b"GET /hello HTTP/1.1\nHost: example.com\nUser-Agent: rust-test";
    let mut tokenizer = Tokenizer::new(buf);

    assert_eq!(tokenizer.next(), Some("GET".to_string()));
    assert_eq!(tokenizer.next(), Some("/hello".to_string()));
    assert_eq!(tokenizer.next(), Some("HTTP/1.1".to_string()));
    assert!(tokenizer.was_newline());
    assert_eq!(tokenizer.next(), Some("Host:".to_string()));
    assert_eq!(tokenizer.next(), Some("example.com".to_string()));
    assert!(tokenizer.was_newline());
    assert_eq!(tokenizer.next(), Some("User-Agent:".to_string()));
    assert_eq!(tokenizer.next(), Some("rust-test".to_string()));
    assert_eq!(tokenizer.next(), None);
}

#[test]
fn parser_parser_simple() {
    let buf = b"GET /hello";
    let parser = Parser::new(buf).unwrap();

    assert_eq!(parser.method, "GET");
    assert_eq!(parser.uri, "/hello");
    assert_eq!(parser.headers, vec![]);
    assert_eq!(parser.body, b"");
}

#[test]
fn parser_parser_with_headers() {
    let buf = b"GET /hello\nHost: example.com\nUser-Agent: rust-test";
    let parser = Parser::new(buf).unwrap();

    assert_eq!(parser.method, "GET");
    assert_eq!(parser.uri, "/hello");
    assert_eq!(
        parser.headers,
        Vec::from([
            ("Host".to_string(), "example.com".to_string()),
            ("User-Agent".to_string(), "rust-test".to_string())
        ])
    );
    assert_eq!(parser.body, b"");
}

#[test]
fn parser_parser_with_complex_headers() {
    let buf = b"GET /hello\nEmpty-Value:\nAccept: application/json; application/xml";
    let parser = Parser::new(buf).unwrap();

    assert_eq!(parser.method, "GET");
    assert_eq!(parser.uri, "/hello");
    assert_eq!(
        parser.headers,
        Vec::from([
            ("Empty-Value".to_string(), "".to_string()),
            (
                "Accept".to_string(),
                "application/json; application/xml".to_string()
            )
        ])
    );
    assert_eq!(parser.body, b"");
}

#[test]
fn parser_parser_with_headers_and_body() {
    let buf =
        b"GET /hello\nHost: example.com\nUser-Agent: rust-test\n\n{ \"note\": \"Buy milk\" }";
    let parser = Parser::new(buf).unwrap();

    assert_eq!(parser.method, "GET");
    assert_eq!(parser.uri, "/hello");
    assert_eq!(
        parser.headers,
        Vec::from([
            ("Host".to_string(), "example.com".to_string()),
            ("User-Agent".to_string(), "rust-test".to_string())
        ])
    );
    assert_eq!(parser.body, b"{ \"note\": \"Buy milk\" }");
}

#[test]
fn version_is_the_third_token_of_the_request_line() {
    let parser = Parser::new(b"GET /hello HTTP/1.1").unwrap();

    assert_eq!(parser.version, Some("HTTP/1.1".to_string()));
    assert_eq!(parser.headers, vec![]);
    assert_eq!(parser.body, b"");
}

#[test]
fn fourth_token_on_the_request_line_is_refused() {
    let error = Parser::new(b"GET /hello HTTP/1.1 extra").err().unwrap();

    assert_eq!(
        error,
        RequestError::UnexpectedExtraToken {
            method: "GET".to_string(),
            uri: "/hello".to_string(),
            version: Some("HTTP/1.1".to_string()),
        }
    );
}
