use http_macros::parser::Parser;
use http_macros::request::Request;

fn pairs(headers: &[(&str, &str)]) -> Vec<(String, String)> {
    headers
        .iter()
        .map(|(name, value)| (name.to_string(), value.to_string()))
        .collect()
}

#[test]
fn without_a_blank_line_there_is_no_body() {
    for count in 0..6 {
        let mut text = String::from("GET /hello HTTP/1.1");
        for i in 0..count {
            text.push_str(&format!("\nX-Header-{}: value {}", i, i));
        }
        let parser = Parser::new(text.as_bytes()).unwrap();

        assert_eq!(parser.headers.len(), count);
        assert_eq!(parser.body, b"");
    }
}

#[test]
fn newline_at_the_end_of_the_last_header_is_no_blank_line() {
    let parser = Parser::new(b"GET /hello\nHost: example.com\n").unwrap();

    assert_eq!(parser.headers, pairs(&[("Host", "example.com")]));
    assert_eq!(parser.body, b"");
}

#[test]
fn blank_line_directly_behind_the_request_line_starts_the_body() {
    let parser = Parser::new(b"GET /hello\n\nHost: example.com").unwrap();

    assert_eq!(parser.headers, vec![]);
    assert_eq!(parser.body, b"Host: example.com");
}

#[test]
fn body_starts_behind_the_first_blank_line_only() {
    let parser = Parser::new(b"GET /\nA: 1\n\nline\n\nmore\n").unwrap();

    assert_eq!(parser.headers, pairs(&[("A", "1")]));
    assert_eq!(parser.body, b"line\n\nmore\n");
}

#[test]
fn space_in_front_of_a_newline_ends_the_headers_as_an_empty_line_does() {
    let parser = Parser::new(b"GET /\nHost: a \nbody").unwrap();

    assert_eq!(parser.headers, pairs(&[("Host", "a")]));
    assert_eq!(parser.body, b"body");
}

#[test]
fn headers_come_in_the_order_of_their_lines() {
    let parser = Parser::new(b"GET /\nB: 2\nA: 1\nC: 3").unwrap();

    assert_eq!(parser.headers, pairs(&[("B", "2"), ("A", "1"), ("C", "3")]));
}

#[test]
fn name_that_comes_again_is_kept_each_time() {
    let parser = Parser::new(b"GET /\nSet-Cookie: a=1\nHost: h\nSet-Cookie: b=2\nSet-Cookie: a=1")
        .unwrap();

    assert_eq!(
        parser.headers,
        pairs(&[
            ("Set-Cookie", "a=1"),
            ("Host", "h"),
            ("Set-Cookie", "b=2"),
            ("Set-Cookie", "a=1"),
        ])
    );
}

#[test]
fn header_line_at_the_end_adds_one_header_at_the_end() {
    let before = Request::new("GET /hello HTTP/1.1\nHost: a\nAccept: b c").unwrap();
    let after = Request::new("GET /hello HTTP/1.1\nHost: a\nAccept: b c\nHost: d e f").unwrap();

    let mut expected = before.headers.clone();
    expected.push(("Host".to_string(), "d e f".to_string()));
    assert_eq!(after.headers, expected);
    assert_eq!(after.method, before.method);
    assert_eq!(after.uri, before.uri);
    assert_eq!(after.version, before.version);
    assert_eq!(after.body, before.body);
}

#[test]
fn request_written_out_is_read_back() {
    let headers = pairs(&[
        ("Host", "example.com"),
        ("Accept", "application/json; application/xml"),
        ("Empty-Value", ""),
        ("Host", "example.org"),
        ("", "nameless"),
        ("a:", "colon kept"),
    ]);
    let mut text = String::from("PATCH /caf\u{e9} HTTP/2.0");
    for (name, value) in &headers {
        text.push('\n');
        text.push_str(name);
        text.push(':');
        if !value.is_empty() {
            text.push(' ');
            text.push_str(value);
        }
    }
    let request = Request::new(&text).unwrap();

    assert_eq!(request.method, "PATCH");
    assert_eq!(request.uri, "/caf\u{e9}");
    assert_eq!(request.version, Some("HTTP/2.0".to_string()));
    assert_eq!(request.headers, headers);
    assert_eq!(request.body, b"");
}

#[test]
fn only_one_colon_leaves_the_name() {
    let parser = Parser::new(b"GET /\nHost:: a\nPlain b\n: c").unwrap();

    assert_eq!(
        parser.headers,
        pairs(&[("Host:", "a"), ("Plain", "b"), ("", "c")])
    );
}

#[test]
fn version_on_the_second_line_is_a_header() {
    let parser = Parser::new(b"GET /hello\nHTTP/1.1").unwrap();

    assert_eq!(parser.version, None);
    assert_eq!(parser.headers, pairs(&[("HTTP/1.1", "")]));
}

#[test]
fn request_line_that_ends_in_a_space_has_no_version() {
    let parser = Parser::new(b"GET /hello ").unwrap();

    assert_eq!(parser.version, None);
    assert_eq!(parser.headers, vec![]);
    assert_eq!(parser.body, b"");
}
