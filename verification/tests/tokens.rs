use http_macros::parser::Parser;
use http_macros::tokenizer::Tokenizer;

#[test]
fn lib_tokenizer_next() {
    let buf = b"GET /hello HTTP/1.1\nHost: example.com\nUser-Agent: rust-test";
    let mut tokenizer = Tokenizer::new(buf);

    assert_eq!(tokenizer.next(), Some("GET".to_string()));
    assert_eq!(tokenizer.next(), Some("/hello".to_string()));
    assert_eq!(tokenizer.next(), Some("HTTP/1.1".to_string()));
    assert!(tokenizer.was_newline());
    assert_eq!(tokenizer.next(), Some("Host:".to_string()));
    assert_eq!(tokenizer.next(), Some("example.com".to_string()));
    assert!(tokenizer.was_newline());
    assert_eq!(tokenizer.next(), Some("User-Agent:".to_string()));
    assert_eq!(tokenizer.next(), Some("rust-test".to_string()));
    assert_eq!(tokenizer.next(), None);
}

#[test]
fn lib_parser_simple() {
    let buf = b"GET /hello";
    let parser = Parser::new(buf).unwrap();

    assert_eq!(parser.method, "GET");
    assert_eq!(parser.uri, "/hello");
    assert_eq!(parser.headers, vec![]);
    assert_eq!(parser.body, b"");
}

#[test]
fn lib_parser_with_headers() {
    let buf = b"GET /hello\nHost: example.com\nUser-Agent: rust-test";
    let parser = Parser::new(buf).unwrap();

    assert_eq!(parser.method, "GET");
    assert_eq!(parser.uri, "/hello");
    assert_eq!(
        parser.headers,
        Vec::from([
            ("Host".to_string(), "example.com".to_string()),
            ("User-Agent".to_string(), "rust-test".to_string())
        ])
    );
    assert_eq!(parser.body, b"");
}

#[test]
fn lib_parser_with_complex_headers() {
    let buf = b"GET /hello\nEmpty-Value:\nAccept: application/json; application/xml";
    let parser = Parser::new(buf).unwrap();

    assert_eq!(parser.method, "GET");
    assert_eq!(parser.uri, "/hello");
    assert_eq!(
        parser.headers,
        Vec::from([
            ("Empty-Value".to_string(), "".to_string()),
            (
                "Accept".to_string(),
                "application/json; application/xml".to_string()
            )
        ])
    );
    assert_eq!(parser.body, b"");
}

#[test]
fn lib_parser_with_headers_and_body() {
    let buf =
        b"GET /hello\nHost: example.com\nUser-Agent: rust-test\n\n{ \"note\": \"Buy milk\" }";
    let parser = Parser::new(buf).unwrap();

    assert_eq!(parser.method, "GET");
    assert_eq!(parser.uri, "/hello");
    assert_eq!(
        parser.headers,
        Vec::from([
            ("Host".to_string(), "example.com".to_string()),
            ("User-Agent".to_string(), "rust-test".to_string())
        ])
    );
    assert_eq!(parser.body, b"{ \"note\": \"Buy milk\" }");
}

