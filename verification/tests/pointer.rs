use jsonref::json::{Json, Number};
use jsonref::pointer::{parse_index, split_text, step_into};
use jsonref::target::locate;
use jsonref::text::{chars_of, has_prefix, holds_text, with_text};

fn text(value: &str) -> Json {
    Json::String(value.to_string())
}

fn object(entries: Vec<(&str, Json)>) -> Json {
    Json::Object(entries.into_iter().map(|(key, value)| (key.to_string(), value)).collect())
}

fn sample() -> Json {
    object(vec![
        ("a", object(vec![("b", Json::Array(vec![text("zero"), text("one"), Json::Null]))])),
        ("", text("under the empty key")),
        ("a/b", text("never reached")),
        ("a~1b", text("tilde")),
        ("7", text("seven")),
    ])
}

#[test]
fn empty_pointer_is_the_document() {
    assert_eq!(sample().pointer(""), Some(&sample()));
}

#[test]
fn pointer_walks_objects_and_arrays() {
    let document = sample();
    assert_eq!(document.pointer("/a/b/1"), Some(&text("one")));
    assert_eq!(document.pointer("/a/b/2"), Some(&Json::Null));
    assert_eq!(document.pointer("/7"), Some(&text("seven")));
    assert_eq!(document.pointer("/"), Some(&text("under the empty key")));
    assert_eq!(document.pointer("/a~1b"), Some(&text("tilde")));
}

#[test]
fn pointer_that_leads_nowhere() {
    let document = sample();
    assert_eq!(document.pointer("a"), None);
    assert_eq!(document.pointer("/missing"), None);
    assert_eq!(document.pointer("/a/b/3"), None);
    assert_eq!(document.pointer("/a/b/x"), None);
    assert_eq!(document.pointer("/a/b/01"), None);
    assert_eq!(document.pointer("/a/b/+1"), None);
    assert_eq!(document.pointer("/a/b/-1"), None);
    assert_eq!(document.pointer("/a/b/1/c"), None);
    assert_eq!(document.pointer("/a/b/"), None);
    assert_eq!(document.pointer("/a/b/18446744073709551616"), None);
}

#[test]
fn index_is_decimal_without_sign_or_leading_zero() {
    assert_eq!(parse_index("0"), Some(0));
    assert_eq!(parse_index("10"), Some(10));
    assert_eq!(parse_index("907"), Some(907));
    assert_eq!(parse_index(&usize::MAX.to_string()), Some(usize::MAX));
    assert_eq!(parse_index("340282366920938463463374607431768211456"), None);
    assert_eq!(parse_index(""), None);
    assert_eq!(parse_index("00"), None);
    assert_eq!(parse_index("007"), None);
    assert_eq!(parse_index("+7"), None);
    assert_eq!(parse_index("7a"), None);
    assert_eq!(parse_index("٣"), None);
}

#[test]
fn text_is_split_at_every_separator() {
    assert_eq!(split_text("", '/'), vec![""]);
    assert_eq!(split_text("a", '/'), vec!["a"]);
    assert_eq!(split_text("a/bc//d/", '/'), vec!["a", "bc", "", "d", ""]);
    assert_eq!(split_text("/é/ü", '/'), vec!["", "é", "ü"]);
}

#[test]
fn step_goes_one_level() {
    let document = sample();
    assert_eq!(step_into(&document, "7"), Some(&text("seven")));
    assert_eq!(step_into(&document, "8"), None);
    assert_eq!(step_into(&Json::Number(Number::Real(0)), "0"), None);
    assert_eq!(step_into(&Json::Array(vec![Json::Bool(true)]), "0"), Some(&Json::Bool(true)));
}

#[test]
fn text_helpers() {
    assert_eq!(chars_of("aé/"), vec!['a', 'é', '/']);
    assert!(has_prefix("https://example.com", "http"));
    assert!(has_prefix("file", "file"));
    assert!(!has_prefix("fil", "file"));
    assert!(!has_prefix("ftp://example.com", "http"));
    assert!(has_prefix("anything", ""));
    let texts = vec!["a".to_string(), "b".to_string()];
    assert!(holds_text(&texts, &"b".to_string()));
    assert!(!holds_text(&texts, &"c".to_string()));
    assert_eq!(with_text(&texts, &"c".to_string()), vec!["a", "b", "c"]);
}

#[test]
fn reference_is_joined_onto_its_base() {
    let target = locate("http://example.com/schemas/root.json", "other.json#/a/b").unwrap();
    assert_eq!(target.full, "http://example.com/schemas/other.json#/a/b");
    assert_eq!(target.document, "http://example.com/schemas/other.json");
    assert_eq!(target.fragment, Some("/a/b".to_string()));

    let target = locate("http://example.com/schemas/root.json", "#").unwrap();
    assert_eq!(target.full, "http://example.com/schemas/root.json#");
    assert_eq!(target.document, "http://example.com/schemas/root.json");
    assert_eq!(target.fragment, Some("".to_string()));

    let target = locate("file:///work/anon.json", "https://example.com/x y.json").unwrap();
    assert_eq!(target.full, "https://example.com/x%20y.json");
    assert_eq!(target.document, "https://example.com/x%20y.json");
    assert_eq!(target.fragment, None);

    let target = locate("HTTP://Example.COM/a/../b.json#old", "").unwrap();
    assert_eq!(target.full, "http://example.com/b.json");
    assert_eq!(target.fragment, None);
}

#[test]
fn text_that_is_no_url_is_named() {
    match locate("schemas/root.json", "other.json") {
        Err(jsonref::error::Error::UrlParseError { url, source }) => {
            assert_eq!(url, "schemas/root.json");
            assert_eq!(source, url::ParseError::RelativeUrlWithoutBase);
        }
        other => panic!("unexpected: {:?}", other),
    }
    match locate("http://example.com/root.json", "http://[::1") {
        Err(jsonref::error::Error::UrlParseError { url, source }) => {
            assert_eq!(url, "http://[::1");
            assert_eq!(source, url::ParseError::InvalidIpv6Address);
        }
        other => panic!("unexpected: {:?}", other),
    }
}
