use jsonref::json::{Json, Number};
use jsonref::pointer::{escaped_segments, replace_pair, unescape};
use jsonref::remove::{parse_written_index, remove, remove_below, remove_from, Remove, RemoveError};

fn text(value: &str) -> Json {
    Json::String(value.to_string())
}

fn object(entries: Vec<(&str, Json)>) -> Json {
    Json::Object(entries.into_iter().map(|(key, value)| (key.to_string(), value)).collect())
}

fn table() -> Json {
    object(vec![("my_table", Json::Array(vec![text("a"), text("b"), text("c")]))])
}

#[test]
fn remove_an_element_in_a_table() {
    let mut array1 = table();
    assert_eq!(Some(text("a")), array1.remove("/my_table/0").unwrap());
    assert_eq!(object(vec![("my_table", Json::Array(vec![text("b"), text("c")]))]), array1);
}

#[test]
fn remove_a_field_from_an_object() {
    let mut object1 = object(vec![
        (
            "field1.0",
            object(vec![("field1.1", text("value1.1")), ("field1.2", text("value1.2"))]),
        ),
        ("field2.0", text("value2.0")),
    ]);
    assert_eq!(Some(text("value1.2")), object1.remove("/field1.0/field1.2").unwrap());
    assert_eq!(
        object(vec![
            ("field1.0", object(vec![("field1.1", text("value1.1"))])),
            ("field2.0", text("value2.0")),
        ]),
        object1
    );
}

#[test]
fn remove_below_an_array() {
    let mut document = Json::Array(vec![
        Json::Null,
        object(vec![("k", Json::Array(vec![text("x"), text("y")]))]),
    ]);
    assert_eq!(document.remove("/1/k/+1"), Ok(Some(text("y"))));
    assert_eq!(
        document,
        Json::Array(vec![Json::Null, object(vec![("k", Json::Array(vec![text("x")]))])])
    );
    assert_eq!(document.remove("/01/k"), Ok(None));
    assert_eq!(document.remove("/1/k"), Ok(Some(Json::Array(vec![text("x")]))));
    assert_eq!(document, Json::Array(vec![Json::Null, object(vec![])]));
}

#[test]
fn remove_where_nothing_is() {
    let mut document = table();
    assert_eq!(document.remove(""), Ok(None));
    assert_eq!(document.remove("/"), Ok(None));
    assert_eq!(document.remove("/other"), Ok(None));
    assert_eq!(document.remove("//my_table"), Ok(None));
    assert_eq!(document.remove("/other/0"), Ok(None));
    assert_eq!(document.remove("/my_table/0/x"), Ok(None));
    assert_eq!(document.remove("/my_table/7/x"), Ok(None));
    assert_eq!(document, table());
    let mut scalar = Json::Number(Number::PosInt(4));
    assert_eq!(scalar.remove("/a"), Ok(None));
    assert_eq!(scalar, Json::Number(Number::PosInt(4)));
}

#[test]
fn remove_skips_what_stands_before_the_first_slash() {
    let mut document = table();
    assert_eq!(document.remove("ignored/my_table/2"), Ok(Some(text("c"))));
    assert_eq!(document, object(vec![("my_table", Json::Array(vec![text("a"), text("b")]))]));
}

#[test]
fn remove_from_an_array_needs_an_index_of_it() {
    let mut document = table();
    assert_eq!(
        document.remove("/my_table/x"),
        Err(RemoveError::NotAnIndex { field: "x".to_string() })
    );
    assert_eq!(
        document.remove("/my_table/-1"),
        Err(RemoveError::NotAnIndex { field: "-1".to_string() })
    );
    assert_eq!(document.remove("/my_table/3"), Err(RemoveError::OutOfRange { index: 3, len: 3 }));
    assert_eq!(document, table());
    assert_eq!(document.remove("/my_table/002"), Ok(Some(text("c"))));
}

#[test]
fn remove_along_given_fields() {
    let mut document = table();
    assert_eq!(remove(&mut document, vec!["my_table", "1"]), Ok(Some(text("b"))));
    assert_eq!(remove(&mut document, vec![]), Ok(None));
    assert_eq!(remove(&mut document, vec!["", "my_table"]), Ok(None));
    assert_eq!(document, object(vec![("my_table", Json::Array(vec![text("a"), text("c")]))]));
}

#[test]
fn last_field_may_carry_a_plus_sign() {
    assert_eq!(parse_written_index("12"), Some(12));
    assert_eq!(parse_written_index("+12"), Some(12));
    assert_eq!(parse_written_index("012"), Some(12));
    assert_eq!(parse_written_index("+"), None);
    assert_eq!(parse_written_index(""), None);
    assert_eq!(parse_written_index("++1"), None);
    assert_eq!(parse_written_index("1+"), None);
    assert_eq!(parse_written_index("99999999999999999999999"), None);
}

#[test]
fn field_before_the_last_is_an_escaped_pointer() {
    let mut document = object(vec![("a/b", object(vec![("c", Json::Number(Number::PosInt(1)))]))]);
    assert_eq!(document.remove("/a~1b/c"), Ok(Some(Json::Number(Number::PosInt(1)))));
    assert_eq!(document, object(vec![("a/b", object(vec![]))]));

    let mut document = object(vec![
        ("a~1b", object(vec![("c", text("tilde"))])),
        ("a/b", object(vec![("c", text("slash"))])),
    ]);
    assert_eq!(document.remove("/a~01b/c"), Ok(Some(text("tilde"))));
    assert_eq!(document.remove("/a~1b/c"), Ok(Some(text("slash"))));
    assert_eq!(document.remove("/a~1b/c"), Ok(None));
}

#[test]
fn last_field_is_taken_as_it_stands() {
    let mut document = object(vec![("k", object(vec![("a~1b", text("raw")), ("a/b", text("slash"))]))]);
    assert_eq!(document.remove("/k/a~1b"), Ok(Some(text("raw"))));
    assert_eq!(document, object(vec![("k", object(vec![("a/b", text("slash"))]))]));
}

#[test]
fn field_with_slashes_leads_several_steps_down() {
    let inner = object(vec![("c", Json::Null)]);
    let mut document = object(vec![("", object(vec![("", inner)]))]);
    assert_eq!(remove(&mut document, vec!["/", "c"]), Ok(Some(Json::Null)));
    assert_eq!(document, object(vec![("", object(vec![("", object(vec![]))]))]));

    let mut document = object(vec![("", object(vec![("", Json::Array(vec![]))]))]);
    let before = document.clone();
    assert_eq!(
        remove(&mut document, vec!["/", "x"]),
        Err(RemoveError::NotAnIndex { field: "x".to_string() })
    );
    assert_eq!(document, before);

    let mut document = object(vec![(
        "a",
        Json::Array(vec![Json::Null, object(vec![("b", Json::Array(vec![text("x"), text("y")]))])]),
    )]);
    assert_eq!(remove(&mut document, vec!["a/1/b", "0"]), Ok(Some(text("x"))));
    assert_eq!(remove(&mut document, vec!["a/1/b", "1"]), Err(RemoveError::OutOfRange { index: 1, len: 1 }));
    assert_eq!(remove(&mut document, vec!["a/2/b", "0"]), Ok(None));
    assert_eq!(remove(&mut document, vec!["a/01/b", "0"]), Ok(None));
    assert_eq!(remove(&mut document, vec!["a/1", "b", "0"]), Ok(Some(text("y"))));
    assert_eq!(
        document,
        object(vec![("a", Json::Array(vec![Json::Null, object(vec![("b", Json::Array(vec![]))])]))])
    );
}

#[test]
fn removal_from_a_given_field_on() {
    let fields = vec!["skipped", "my_table", "1"];
    let (left, answer) = remove_from(table(), &fields, 1);
    assert_eq!(answer, Ok(Some(text("b"))));
    assert_eq!(left, object(vec![("my_table", Json::Array(vec![text("a"), text("c")]))]));
    let (left, answer) = remove_from(table(), &fields, 3);
    assert_eq!(answer, Ok(None));
    assert_eq!(left, table());

    let steps = vec!["none".to_string(), "my_table".to_string()];
    let (left, answer) = remove_below(table(), &steps, 1, &fields, 2);
    assert_eq!(answer, Ok(Some(text("b"))));
    assert_eq!(left, object(vec![("my_table", Json::Array(vec![text("a"), text("c")]))]));
    let (left, answer) = remove_below(table(), &steps, 0, &fields, 2);
    assert_eq!(answer, Ok(None));
    assert_eq!(left, table());
}

#[test]
fn escaped_text_is_unescaped_piece_by_piece() {
    assert_eq!(replace_pair("a~1b~1", '~', '1', "/"), "a/b/");
    assert_eq!(replace_pair("~~11~", '~', '1', "/"), "~/1~");
    assert_eq!(replace_pair("", '~', '1', "/"), "");
    assert_eq!(replace_pair("aaa", 'a', 'a', "b"), "ba");
    assert_eq!(unescape("a~1b"), "a/b");
    assert_eq!(unescape("a~0b"), "a~b");
    assert_eq!(unescape("~01"), "~1");
    assert_eq!(unescape("~10"), "/0");
    assert_eq!(unescape("~"), "~");
    assert_eq!(unescape("é~2"), "é~2");
    assert_eq!(escaped_segments("a~1b/c~0/"), vec!["a/b", "c~", ""]);
    assert_eq!(escaped_segments(""), vec![""]);
}
