use http_macros::token_helpers::{get_version, Version};

fn named(text: &str) -> Option<Version> {
    get_version(Some(&text.to_string())).unwrap()
}

#[test]
fn no_version_names_none() {
    assert_eq!(get_version(None), Ok(None));
}

#[test]
fn each_known_version_has_its_constant() {
    assert_eq!(named("HTTP/0.9"), Some(Version::Http09));
    assert_eq!(named("HTTP/1.0"), Some(Version::Http10));
    assert_eq!(named("HTTP/1.1"), Some(Version::Http11));
    assert_eq!(named("HTTP/2.0"), Some(Version::Http2));
    assert_eq!(named("HTTP/3.0"), Some(Version::Http3));
}

#[test]
fn constants_are_named_as_the_builder_names_them() {
    assert_eq!(Version::Http09.ident(), "HTTP_09");
    assert_eq!(Version::Http10.ident(), "HTTP_10");
    assert_eq!(Version::Http11.ident(), "HTTP_11");
    assert_eq!(Version::Http2.ident(), "HTTP_2");
    assert_eq!(Version::Http3.ident(), "HTTP_3");
}

#[test]
fn version_is_matched_letter_for_letter() {
    let lower = "http/1.1".to_string();
    let short = "HTTP/2".to_string();
    let long = "HTTP/1.1 ".to_string();

    assert!(get_version(Some(&lower)).is_err());
    assert!(get_version(Some(&short)).is_err());
    assert!(get_version(Some(&long)).is_err());
}
