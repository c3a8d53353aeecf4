use http_macros::tokenizer::Tokenizer;

#[test]
fn new_tokenizer_stands_at_the_start() {
    let tokenizer = Tokenizer::new(b"GET /");

    assert!(!tokenizer.is_end());
    assert!(!tokenizer.was_newline());
    assert!(!tokenizer.is_newline());
    assert_eq!(tokenizer.rest(), b"GET /");
}

#[test]
fn empty_buffer_is_at_its_end() {
    let mut tokenizer = Tokenizer::new(b"");

    assert!(tokenizer.is_end());
    assert!(!tokenizer.was_newline());
    assert!(!tokenizer.is_newline());
    assert_eq!(tokenizer.next(), None);
    assert_eq!(tokenizer.rest(), b"");
}

#[test]
fn next_stays_at_a_separator() {
    let mut tokenizer = Tokenizer::new(b"a  b");

    assert_eq!(tokenizer.next(), Some("a".to_string()));
    assert_eq!(tokenizer.next(), None);
    assert_eq!(tokenizer.next(), None);
    assert!(!tokenizer.is_end());
    assert_eq!(tokenizer.rest(), b" b");
}

#[test]
fn was_newline_tells_space_from_newline() {
    let mut tokenizer = Tokenizer::new(b"a b\nc");

    assert_eq!(tokenizer.next(), Some("a".to_string()));
    assert!(!tokenizer.was_newline());
    assert_eq!(tokenizer.next(), Some("b".to_string()));
    assert!(tokenizer.was_newline());
    assert_eq!(tokenizer.next(), Some("c".to_string()));
    assert!(!tokenizer.was_newline());
    assert!(tokenizer.is_end());
}

#[test]
fn skip_newline_takes_one_newline_and_nothing_else() {
    let mut tokenizer = Tokenizer::new(b"a\n\nb");

    assert_eq!(tokenizer.next(), Some("a".to_string()));
    assert!(tokenizer.is_newline());
    tokenizer.skip_newline();
    assert!(!tokenizer.is_newline());
    assert!(tokenizer.was_newline());
    tokenizer.skip_newline();
    assert_eq!(tokenizer.rest(), b"b");
}

#[test]
fn rest_is_what_was_not_read() {
    let mut tokenizer = Tokenizer::new(b"GET /hello\n\n{ \"a\": 1 }\n");

    assert_eq!(tokenizer.next(), Some("GET".to_string()));
    assert_eq!(tokenizer.next(), Some("/hello".to_string()));
    tokenizer.skip_newline();
    assert_eq!(tokenizer.rest(), b"{ \"a\": 1 }\n");
}

#[test]
fn rest_behind_the_last_token_is_empty() {
    let mut tokenizer = Tokenizer::new(b"GET");

    assert_eq!(tokenizer.next(), Some("GET".to_string()));
    assert!(tokenizer.is_end());
    assert!(!tokenizer.was_newline());
    assert_eq!(tokenizer.rest(), b"");
}

#[test]
fn tokens_of_more_than_one_byte_to_the_character() {
    let mut tokenizer = Tokenizer::new("GET /caf\u{e9}/\u{65e5}\u{672c} \u{1f980}".as_bytes());

    assert_eq!(tokenizer.next(), Some("GET".to_string()));
    assert_eq!(tokenizer.next(), Some("/caf\u{e9}/\u{65e5}\u{672c}".to_string()));
    assert_eq!(tokenizer.next(), Some("\u{1f980}".to_string()));
    assert_eq!(tokenizer.next(), None);
}

#[test]
fn tabs_and_carriage_returns_separate_nothing() {
    let mut tokenizer = Tokenizer::new(b"a\tb\r\nc");

    assert_eq!(tokenizer.next(), Some("a\tb\r".to_string()));
    assert!(tokenizer.was_newline());
    assert_eq!(tokenizer.next(), Some("c".to_string()));
}
