use http_macros::input::{
    blanks_of, chars_of, content_of, get_request, literal_request, request_lines, Source,
};

fn read(written: &str) -> String {
    get_request(Source::Literal(written.to_string())).unwrap()
}

#[test]
fn bare_tokens_are_taken_as_printed() {
    assert_eq!(
        get_request(Source::Ident("GET /hello".to_string())),
        Ok("GET /hello".to_string())
    );
}

#[test]
fn literal_loses_its_quotes() {
    assert_eq!(read("\"GET /hello\""), "GET /hello");
}

#[test]
fn raw_literal_loses_its_marks() {
    assert_eq!(read("r#\"GET /hello\"#"), "GET /hello");
    assert_eq!(read("r##\"GET /hello\"##"), "#\"GET /hello");
}

#[test]
fn quotes_inside_the_literal_stay() {
    assert_eq!(
        read("r#\"POST /\n\n{ \"note\": \"Buy milk\" }\"#"),
        "POST /\n\n{ \"note\": \"Buy milk\" }"
    );
}

#[test]
fn quotes_at_the_end_of_the_content_go_with_the_literal_s_own() {
    assert_eq!(read("r#\"POST /\n\n\"milk\"\"#"), "POST /\n\n\"milk");
}

#[test]
fn lines_lose_the_blanks_at_their_ends() {
    assert_eq!(
        read("\"GET /hello\n   Host: example.com  \n\tAccept: a b\t\""),
        "GET /hello\nHost: example.com\nAccept: a b"
    );
}

#[test]
fn blanks_inside_a_line_stay() {
    assert_eq!(read("\"  a  b   c \""), "a  b   c");
}

#[test]
fn white_space_is_more_than_space_and_tab() {
    assert_eq!(
        read("\"\u{a0}GET /\u{3000}\n\u{2003}Host: a\u{85}\r\n\u{b}X: y\u{c}\""),
        "GET /\nHost: a\nX: y"
    );
}

#[test]
fn characters_that_only_look_blank_stay() {
    assert_eq!(read("\"\u{200b}GET /\u{feff}\""), "\u{200b}GET /\u{feff}");
}

#[test]
fn line_of_blanks_behind_the_last_newline_is_an_empty_line() {
    assert_eq!(read("\"GET /\n   \""), "GET /\n");
}

#[test]
fn newline_at_the_end_starts_no_line() {
    assert_eq!(read("\"GET /\n\""), "GET /");
    assert_eq!(read("\"GET /\n\n\""), "GET /\n");
}

#[test]
fn empty_literal_holds_nothing() {
    assert_eq!(read("\"\""), "");
    assert_eq!(read("r#\"\"#"), "");
    assert_eq!(read(""), "");
}

#[test]
fn literal_request_is_what_get_request_gives() {
    assert_eq!(literal_request("\" GET / \""), "GET /");
}

#[test]
fn content_lies_between_the_quotes() {
    let chars = chars_of("r#\"ab\"#");

    assert_eq!(chars, vec!['r', '#', '"', 'a', 'b', '"', '#']);
    assert_eq!(content_of(&chars), (3, 5));
}

#[test]
fn content_of_quotes_alone_is_empty() {
    let chars = chars_of("\"\"\"");

    assert_eq!(content_of(&chars), (3, 3));
}

#[test]
fn lines_are_cut_by_the_marks_they_are_given() {
    let chars = chars_of("xaxx\nbx\n");
    let marked: Vec<bool> = vec![true, false, true, true, false, false, true, false];

    assert_eq!(
        request_lines(&chars, &marked, 0, 8),
        vec![(1, 2), (5, 6)]
    );
    assert_eq!(request_lines(&chars, &marked, 0, 7), vec![(1, 2), (5, 6)]);
    assert_eq!(request_lines(&chars, &marked, 4, 4), vec![]);
    assert_eq!(request_lines(&chars, &marked, 2, 5), vec![(4, 4)]);
    assert_eq!(request_lines(&chars, &marked, 2, 6), vec![(4, 4), (5, 6)]);
}

#[test]
fn blanks_are_marked_character_by_character() {
    let chars = chars_of(" a\t\u{a0}b\n");

    assert_eq!(blanks_of(&chars), vec![true, false, true, true, false, true]);
}
