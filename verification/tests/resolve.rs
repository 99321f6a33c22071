use jsonref::error::Error;
use jsonref::json::{Json, Number};
use jsonref::resolution::SourceKind;
use jsonref::resolver::{JsonRef, Progress, Stop, DEFAULT_EXPANSION_LIMIT};

fn text(value: &str) -> Json {
    Json::String(value.to_string())
}

fn object(entries: Vec<(&str, Json)>) -> Json {
    Json::Object(entries.into_iter().map(|(key, value)| (key.to_string(), value)).collect())
}

/// The same value with the entries of every object in the order of their keys.
fn sorted(value: &Json) -> Json {
    match value {
        Json::Array(items) => Json::Array(items.iter().map(sorted).collect()),
        Json::Object(entries) => {
            let mut entries: Vec<(String, Json)> =
                entries.iter().map(|(key, value)| (key.clone(), sorted(value))).collect();
            entries.sort_by(|a, b| a.0.cmp(&b.0));
            Json::Object(entries)
        }
        other => other.clone(),
    }
}

fn serve(served: &[(&str, Json)], identifier: &str) -> Json {
    served
        .iter()
        .find(|(name, _)| *name == identifier)
        .map(|(_, document)| document.clone())
        .unwrap()
}

/// Dereferences `value`, serving the documents it asks for from `served`,
/// and tells which documents were asked for.
fn deref_value(
    jsonref: &mut JsonRef,
    value: &mut Json,
    served: &[(&str, Json)],
) -> Result<Vec<String>, Error> {
    let mut loaded = Vec::new();
    loop {
        match jsonref.deref_value(value, "/work")? {
            Progress::Done(()) => return Ok(loaded),
            Progress::Load(request) => {
                loaded.push(request.identifier.clone());
                jsonref.supply(&request.identifier, serve(served, &request.identifier));
            }
        }
    }
}

fn deref_file(
    jsonref: &mut JsonRef,
    path: &str,
    document: &Json,
    served: &[(&str, Json)],
) -> Result<Json, Error> {
    loop {
        match jsonref.deref_file(path, document)? {
            Progress::Done(value) => return Ok(value),
            Progress::Load(request) => {
                assert_eq!(request.kind, SourceKind::File);
                jsonref.supply(&request.identifier, serve(served, &request.identifier));
            }
        }
    }
}

fn deref_url(
    jsonref: &mut JsonRef,
    url: &str,
    document: &Json,
    served: &[(&str, Json)],
) -> Result<Json, Error> {
    loop {
        match jsonref.deref_url(url, document)? {
            Progress::Done(value) => return Ok(value),
            Progress::Load(request) => {
                assert_eq!(request.kind, SourceKind::Http);
                jsonref.supply(&request.identifier, serve(served, &request.identifier));
            }
        }
    }
}

const TEST_URL: &str = "https://gist.githubusercontent.com/kindly/35a631d33792413ed8e34548abaa9d61/raw/b43dc7a76cc2a04fde2a2087f0eb389099b952fb/test.json";

const NESTED_URL: &str = "https://gist.githubusercontent.com/kindly/35a631d33792413ed8e34548abaa9d61/raw/0a691c035251f742e8710f71ba92ead307823385/test_nested.json";

fn test_document() -> Json {
    object(vec![("title", text("title from url"))])
}

fn nested_document() -> Json {
    object(vec![
        ("title", text("title from url")),
        (
            "properties",
            object(vec![
                ("prop1", object(vec![("title", text("sub property title in url"))])),
                ("prop2", object(vec![("$ref", text("#/properties/prop1"))])),
            ]),
        ),
    ])
}

#[test]
fn json_no_refs() {
    let no_ref_example = object(vec![(
        "properties",
        object(vec![("prop1", object(vec![("title", text("proptitle"))]))]),
    )]);

    let mut jsonref = JsonRef::new();

    let mut input = no_ref_example.clone();

    deref_value(&mut jsonref, &mut input, &[]).unwrap();

    assert_eq!(input, no_ref_example)
}

#[test]
fn json_with_recursion() {
    let mut simple_refs_example =
        object(vec![("properties", object(vec![("prop1", object(vec![("$ref", text("#"))]))]))]);

    let simple_refs_expected = object(vec![(
        "properties",
        object(vec![(
            "prop1",
            object(vec![("properties", object(vec![("prop1", object(vec![]))]))]),
        )]),
    )]);

    let mut jsonref = JsonRef::new();
    deref_value(&mut jsonref, &mut simple_refs_example, &[]).unwrap();
    jsonref.set_reference_key("__reference__");

    println!("{:?}", simple_refs_example);

    assert_eq!(sorted(&simple_refs_example), sorted(&simple_refs_expected))
}

#[test]
fn simple_from_url() {
    let mut simple_refs_example = object(vec![(
        "properties",
        object(vec![
            ("prop1", object(vec![("title", text("name"))])),
            ("prop2", object(vec![("$ref", text(TEST_URL)), ("title", text("old_title"))])),
        ]),
    )]);

    let simple_refs_expected = object(vec![(
        "properties",
        object(vec![
            ("prop1", object(vec![("title", text("name"))])),
            (
                "prop2",
                object(vec![
                    ("title", text("title from url")),
                    ("__reference__", object(vec![("title", text("old_title"))])),
                ]),
            ),
        ]),
    )]);

    let mut jsonref = JsonRef::new();
    jsonref.set_reference_key("__reference__");
    deref_value(&mut jsonref, &mut simple_refs_example, &[(TEST_URL, test_document())]).unwrap();

    assert_eq!(sorted(&simple_refs_example), sorted(&simple_refs_expected))
}

#[test]
fn nested_with_ref_from_url() {
    let mut simple_refs_example = object(vec![(
        "properties",
        object(vec![
            ("prop1", object(vec![("title", text("name"))])),
            ("prop2", object(vec![("$ref", text(NESTED_URL))])),
        ]),
    )]);

    let simple_refs_expected = object(vec![(
        "properties",
        object(vec![
            ("prop1", object(vec![("title", text("name"))])),
            (
                "prop2",
                object(vec![
                    ("__reference__", object(vec![])),
                    ("title", text("title from url")),
                    (
                        "properties",
                        object(vec![
                            ("prop1", object(vec![("title", text("sub property title in url"))])),
                            (
                                "prop2",
                                object(vec![
                                    ("__reference__", object(vec![])),
                                    ("title", text("sub property title in url")),
                                ]),
                            ),
                        ]),
                    ),
                ]),
            ),
        ]),
    )]);

    let mut jsonref = JsonRef::new();
    jsonref.set_reference_key("__reference__");
    deref_value(&mut jsonref, &mut simple_refs_example, &[(NESTED_URL, nested_document())])
        .unwrap();

    assert_eq!(sorted(&simple_refs_example), sorted(&simple_refs_expected))
}

#[test]
fn local_reference_is_replaced() {
    let mut input = object(vec![(
        "properties",
        object(vec![
            ("prop1", object(vec![("title", text("name"))])),
            ("prop2", object(vec![("$ref", text("#/properties/prop1"))])),
        ]),
    )]);
    let expected = object(vec![(
        "properties",
        object(vec![
            ("prop1", object(vec![("title", text("name"))])),
            ("prop2", object(vec![("title", text("name"))])),
        ]),
    )]);
    let mut jsonref = JsonRef::new();
    let loaded = deref_value(&mut jsonref, &mut input, &[]).unwrap();
    assert_eq!(input, expected);
    assert!(loaded.is_empty());
}

#[test]
fn replaced_object_is_kept_under_reference_key() {
    let mut input = object(vec![(
        "properties",
        object(vec![
            ("prop1", object(vec![("title", text("name"))])),
            (
                "prop2",
                object(vec![("$ref", text("#/properties/prop1")), ("title", text("old_title"))]),
            ),
        ]),
    )]);
    let expected = object(vec![(
        "properties",
        object(vec![
            ("prop1", object(vec![("title", text("name"))])),
            (
                "prop2",
                object(vec![
                    ("title", text("name")),
                    ("__reference__", object(vec![("title", text("old_title"))])),
                ]),
            ),
        ]),
    )]);
    let mut jsonref = JsonRef::new();
    jsonref.set_reference_key("__reference__");
    deref_value(&mut jsonref, &mut input, &[]).unwrap();
    assert_eq!(input, expected);
}

#[test]
fn siblings_are_dropped_without_reference_key() {
    let mut input = object(vec![
        ("a", object(vec![("title", text("name"))])),
        ("b", object(vec![("title", text("old_title")), ("$ref", text("#/a"))])),
    ]);
    let expected = object(vec![
        ("a", object(vec![("title", text("name"))])),
        ("b", object(vec![("title", text("name"))])),
    ]);
    let mut jsonref = JsonRef::new();
    deref_value(&mut jsonref, &mut input, &[]).unwrap();
    assert_eq!(input, expected);
}

#[test]
fn same_document_is_loaded_once() {
    let mut input = object(vec![
        ("a", object(vec![("$ref", text(TEST_URL))])),
        ("b", object(vec![("$ref", text(NESTED_URL))])),
        ("c", object(vec![("$ref", text(TEST_URL))])),
        ("d", object(vec![("$ref", text("https://example.com/other.json#/title"))])),
        ("e", object(vec![("$ref", text("https://example.com/other.json#/properties"))])),
    ]);
    let other = object(vec![("title", text("other")), ("properties", object(vec![]))]);
    let served = [
        (TEST_URL, test_document()),
        (NESTED_URL, nested_document()),
        ("https://example.com/other.json", other),
    ];
    let mut jsonref = JsonRef::new();
    let loaded = deref_value(&mut jsonref, &mut input, &served).unwrap();
    assert_eq!(
        loaded,
        vec![
            TEST_URL.to_string(),
            NESTED_URL.to_string(),
            "https://example.com/other.json".to_string()
        ]
    );
    let expected = object(vec![
        ("a", test_document()),
        (
            "b",
            object(vec![
                ("title", text("title from url")),
                (
                    "properties",
                    object(vec![
                        ("prop1", object(vec![("title", text("sub property title in url"))])),
                        ("prop2", object(vec![("title", text("sub property title in url"))])),
                    ]),
                ),
            ]),
        ),
        ("c", test_document()),
        ("d", text("other")),
        ("e", object(vec![])),
    ]);
    assert_eq!(input, expected);

    let mut again = object(vec![("x", object(vec![("$ref", text(TEST_URL))]))]);
    let loaded = deref_value(&mut jsonref, &mut again, &[]).unwrap();
    assert!(loaded.is_empty());
    assert_eq!(again, object(vec![("x", test_document())]));
}

#[test]
fn value_is_untouched_while_a_document_is_missing() {
    let mut input = object(vec![("a", object(vec![("$ref", text(TEST_URL))]))]);
    let before = input.clone();
    let mut jsonref = JsonRef::new();
    match jsonref.deref_value(&mut input, "/work").unwrap() {
        Progress::Load(request) => {
            assert_eq!(request.identifier, TEST_URL);
            assert_eq!(request.kind, SourceKind::Http);
        }
        Progress::Done(()) => panic!("nothing was loaded"),
    }
    assert_eq!(input, before);
}

#[test]
fn definitions_are_collected_from_all_documents() {
    let base = object(vec![
        (
            "definitions",
            object(vec![
                ("a", object(vec![("title", text("a of base"))])),
                ("b", object(vec![("title", text("b of base"))])),
            ]),
        ),
        ("properties", object(vec![("p", object(vec![("$ref", text("other.json"))]))])),
    ]);
    let other = object(vec![
        (
            "definitions",
            object(vec![
                ("b", object(vec![("title", text("b of other"))])),
                ("c", object(vec![("title", text("c of other"))])),
            ]),
        ),
        ("title", text("other")),
    ]);
    let expected = object(vec![
        ("properties", object(vec![("p", object(vec![("title", text("other"))]))])),
        (
            "definitions",
            object(vec![
                ("a", object(vec![("title", text("a of base"))])),
                ("b", object(vec![("title", text("b of other"))])),
                ("c", object(vec![("title", text("c of other"))])),
            ]),
        ),
    ]);
    let mut jsonref = JsonRef::new();
    let resolved = deref_file(
        &mut jsonref,
        "/schemas/base.json",
        &base,
        &[("file:///schemas/other.json", other)],
    )
    .unwrap();
    assert_eq!(resolved, expected);
}

#[test]
fn definitions_are_not_put_back_into_a_value() {
    let mut input = object(vec![
        ("definitions", object(vec![("a", object(vec![("title", text("a"))]))])),
        ("title", text("root")),
    ]);
    let mut jsonref = JsonRef::new();
    deref_value(&mut jsonref, &mut input, &[]).unwrap();
    assert_eq!(input, object(vec![("title", text("root"))]));
}

#[test]
fn file_without_definitions_gets_an_empty_map() {
    let document = object(vec![("title", text("root"))]);
    let mut jsonref = JsonRef::new();
    let resolved = deref_file(&mut jsonref, "/schemas/base.json", &document, &[]).unwrap();
    assert_eq!(
        resolved,
        object(vec![("title", text("root")), ("definitions", object(vec![]))])
    );
}

#[test]
fn file_that_is_no_object_cannot_take_definitions() {
    let document = Json::Array(vec![Json::Number(Number::PosInt(1))]);
    let mut jsonref = JsonRef::new();
    match jsonref.deref_file("/schemas/list.json", &document) {
        Err(Error::RootNotObject { url }) => assert_eq!(url, "file:///schemas/list.json"),
        other => panic!("unexpected: {:?}", other),
    }
}

#[test]
fn document_from_url_is_resolved_against_its_url() {
    let document = object(vec![
        ("a", object(vec![("$ref", text("#/b"))])),
        ("b", object(vec![("$ref", text("test.json"))])),
        ("definitions", object(vec![("d", Json::Null)])),
    ]);
    let served = [("https://example.com/schemas/test.json", test_document())];
    let mut jsonref = JsonRef::new();
    let resolved =
        deref_url(&mut jsonref, "https://example.com/schemas/root.json", &document, &served)
            .unwrap();
    assert_eq!(resolved, object(vec![("a", test_document()), ("b", test_document())]));
}

#[test]
fn relative_reference_is_read_against_nearest_id() {
    let mut input = object(vec![
        ("$id", text("https://example.com/schemas/root.json")),
        (
            "inner",
            object(vec![
                ("$id", text("https://example.org/deep/inner.json")),
                ("x", object(vec![("$ref", text("item.json"))])),
            ]),
        ),
        ("y", object(vec![("$ref", text("item.json"))])),
    ]);
    let served = [
        ("https://example.org/deep/item.json", text("item of inner")),
        ("https://example.com/schemas/item.json", text("item of root")),
    ];
    let mut jsonref = JsonRef::new();
    let loaded = deref_value(&mut jsonref, &mut input, &served).unwrap();
    assert_eq!(
        loaded,
        vec![
            "https://example.org/deep/item.json".to_string(),
            "https://example.com/schemas/item.json".to_string()
        ]
    );
    let expected = object(vec![
        ("$id", text("https://example.com/schemas/root.json")),
        (
            "inner",
            object(vec![
                ("$id", text("https://example.org/deep/inner.json")),
                ("x", text("item of inner")),
            ]),
        ),
        ("y", text("item of root")),
    ]);
    assert_eq!(input, expected);
}

#[test]
fn relative_reference_falls_back_to_the_document() {
    let mut input = object(vec![("x", object(vec![("$ref", text("sub/item.json#/title"))]))]);
    let mut jsonref = JsonRef::new();
    match jsonref.deref_value(&mut input, "/work").unwrap() {
        Progress::Load(request) => {
            assert_eq!(request.identifier, "file:///work/sub/item.json");
            assert_eq!(request.kind, SourceKind::File);
        }
        Progress::Done(()) => panic!("nothing was loaded"),
    }
    let item = object(vec![("title", text("item")), ("next", object(vec![("$ref", text("other.json"))]))]);
    jsonref.supply("file:///work/sub/item.json", item);
    match jsonref.deref_value(&mut input, "/work").unwrap() {
        Progress::Done(()) => {}
        Progress::Load(request) => panic!("asked for {}", request.identifier),
    }
    assert_eq!(input, object(vec![("x", text("item"))]));

    let mut whole = object(vec![("x", object(vec![("$ref", text("sub/item.json"))]))]);
    match jsonref.deref_value(&mut whole, "/work").unwrap() {
        Progress::Load(request) => assert_eq!(request.identifier, "file:///work/sub/other.json"),
        Progress::Done(()) => panic!("nothing was loaded"),
    }
}

#[test]
fn missing_fragment_names_reference_and_pointer() {
    let mut input = object(vec![("a", object(vec![("$ref", text("#/nowhere/1"))]))]);
    let before = input.clone();
    let mut jsonref = JsonRef::new();
    match jsonref.deref_value(&mut input, "/work") {
        Err(Error::JsonPointerNotFound { pointer }) => assert_eq!(
            pointer,
            "ref `#/nowhere/1` can not be resolved as pointer `/nowhere/1` can not be found in the schema"
        ),
        other => panic!("unexpected: {:?}", other),
    }
    assert_eq!(input, before);
}

#[test]
fn other_schemes_are_an_error() {
    let mut input = object(vec![("a", object(vec![("$ref", text("ftp://example.com/a.json"))]))]);
    let mut jsonref = JsonRef::new();
    match jsonref.deref_value(&mut input, "/work") {
        Err(Error::UnsupportedScheme { url }) => assert_eq!(url, "ftp://example.com/a.json"),
        other => panic!("unexpected: {:?}", other),
    }
    for url in ["httpx://h/a.json", "files:///a.json", "file-x:a", "http-s://h/a"] {
        let mut input = object(vec![("a", object(vec![("$ref", text(url))]))]);
        match jsonref.deref_value(&mut input, "/work") {
            Err(Error::UnsupportedScheme { url: named }) => assert_eq!(named, url),
            other => panic!("unexpected: {:?}", other),
        }
    }
}

#[test]
fn scheme_decides_how_a_document_is_fetched() {
    for (url, kind) in [
        ("http://h/a.json", SourceKind::Http),
        ("https://h/a.json", SourceKind::Http),
        ("file:///d/a.json", SourceKind::File),
    ] {
        let mut input = object(vec![("a", object(vec![("$ref", text(url))]))]);
        let mut jsonref = JsonRef::new();
        match jsonref.deref_value(&mut input, "/work").unwrap() {
            Progress::Load(request) => {
                assert_eq!(request.identifier, url);
                assert_eq!(request.kind, kind);
            }
            Progress::Done(()) => panic!("nothing was loaded"),
        }
    }
}

#[test]
fn base_that_is_no_url_is_an_error() {
    let mut input = object(vec![("$id", text("no url")), ("$ref", text("a.json"))]);
    let mut jsonref = JsonRef::new();
    match jsonref.deref_value(&mut input, "/work") {
        Err(Error::UrlParseError { url, source }) => {
            assert_eq!(url, "no url");
            assert_eq!(source, url::ParseError::RelativeUrlWithoutBase);
        }
        other => panic!("unexpected: {:?}", other),
    }
}

#[test]
fn reference_that_cannot_be_joined_is_an_error() {
    let mut input = object(vec![("$id", text("mailto:someone@example.com")), ("$ref", text("a.json"))]);
    let mut jsonref = JsonRef::new();
    match jsonref.deref_value(&mut input, "/work") {
        Err(Error::UrlParseError { url, source }) => {
            assert_eq!(url, "a.json");
            assert_eq!(source, url::ParseError::RelativeUrlWithCannotBeABaseBase);
        }
        other => panic!("unexpected: {:?}", other),
    }
}

#[test]
fn reference_that_is_no_string_stays() {
    let mut input = object(vec![(
        "p",
        object(vec![("$ref", Json::Number(Number::PosInt(5))), ("title", text("x"))]),
    )]);
    let before = input.clone();
    let mut jsonref = JsonRef::new();
    let loaded = deref_value(&mut jsonref, &mut input, &[]).unwrap();
    assert_eq!(input, before);
    assert!(loaded.is_empty());
}

#[test]
fn value_under_a_reference_that_is_no_string_is_resolved() {
    let mut input = object(vec![
        ("a", object(vec![("title", text("name"))])),
        (
            "b",
            object(vec![
                ("definitions", object(vec![("d", Json::Null)])),
                ("$ref", object(vec![("$ref", text("#/a"))])),
                ("c", Json::Array(vec![object(vec![("$ref", text("#/a/title"))])])),
            ]),
        ),
    ]);
    let expected = object(vec![
        ("a", object(vec![("title", text("name"))])),
        (
            "b",
            object(vec![
                ("$ref", object(vec![("title", text("name"))])),
                ("c", Json::Array(vec![text("name")])),
            ]),
        ),
    ]);
    let mut jsonref = JsonRef::new();
    deref_value(&mut jsonref, &mut input, &[]).unwrap();
    assert_eq!(input, expected);
}

#[test]
fn references_inside_arrays_are_replaced() {
    let mut input = object(vec![
        ("a", object(vec![("title", text("name"))])),
        (
            "list",
            Json::Array(vec![
                object(vec![("$ref", text("#/a"))]),
                Json::Number(Number::NegInt(-3)),
                Json::Array(vec![object(vec![("$ref", text("#/list/1"))])]),
            ]),
        ),
    ]);
    let expected = object(vec![
        ("a", object(vec![("title", text("name"))])),
        (
            "list",
            Json::Array(vec![
                object(vec![("title", text("name"))]),
                Json::Number(Number::NegInt(-3)),
                Json::Array(vec![Json::Number(Number::NegInt(-3))]),
            ]),
        ),
    ]);
    let mut jsonref = JsonRef::new();
    deref_value(&mut jsonref, &mut input, &[]).unwrap();
    assert_eq!(input, expected);
}

#[test]
fn cycle_leaves_the_siblings_of_the_reference() {
    let mut input = object(vec![(
        "a",
        object(vec![("$ref", text("#/a")), ("title", text("t"))]),
    )]);
    let mut jsonref = JsonRef::new();
    deref_value(&mut jsonref, &mut input, &[]).unwrap();
    assert_eq!(input, object(vec![("a", object(vec![("title", text("t"))]))]));
}

#[test]
fn endless_expansion_stops_at_the_limit() {
    let mut input = object(vec![(
        "a",
        object(vec![("$ref", text("#/a")), ("sib", object(vec![("$ref", text("#/a"))]))]),
    )]);
    let before = input.clone();
    let mut jsonref = JsonRef::new();
    match jsonref.deref_value(&mut input, "/work") {
        Err(Error::ExpansionLimit { url }) => assert_eq!(url, "file:///work/anon.json#/a"),
        other => panic!("unexpected: {:?}", other),
    }
    assert_eq!(input, before);
}

#[test]
fn expansion_limit_can_be_set() {
    assert_eq!(DEFAULT_EXPANSION_LIMIT, 64);
    let document = object(vec![
        ("a", object(vec![("$ref", text("#/b"))])),
        ("b", object(vec![("$ref", text("#/c"))])),
        ("c", text("end")),
    ]);
    let expected = object(vec![("a", text("end")), ("b", text("end")), ("c", text("end"))]);

    let mut jsonref = JsonRef::new();
    jsonref.set_expansion_limit(2);
    let mut input = document.clone();
    deref_value(&mut jsonref, &mut input, &[]).unwrap();
    assert_eq!(input, expected);

    jsonref.set_expansion_limit(1);
    let mut input = document.clone();
    match jsonref.deref_value(&mut input, "/work") {
        Err(Error::ExpansionLimit { url }) => assert_eq!(url, "file:///work/anon.json#/c"),
        other => panic!("unexpected: {:?}", other),
    }

    jsonref.set_expansion_limit(0);
    let mut input = object(vec![("c", text("end")), ("d", Json::Array(vec![Json::Null]))]);
    let plain = input.clone();
    deref_value(&mut jsonref, &mut input, &[]).unwrap();
    assert_eq!(input, plain);
}

#[test]
fn supplied_document_is_not_replaced() {
    let mut jsonref = JsonRef::new();
    jsonref.supply("https://example.com/a.json", text("first"));
    jsonref.supply("https://example.com/a.json", text("second"));
    let mut input = object(vec![("a", object(vec![("$ref", text("https://example.com/a.json"))]))]);
    deref_value(&mut jsonref, &mut input, &[]).unwrap();
    assert_eq!(input, object(vec![("a", text("first"))]));
}

#[test]
fn walk_takes_its_arguments_as_given() {
    let mut jsonref = JsonRef::new();
    jsonref.supply("https://example.com/a.json", object(vec![("t", text("a"))]));
    let node = object(vec![
        ("definitions", object(vec![("k", text("new"))])),
        ("$ref", text("a.json#/t")),
    ]);
    let definitions = vec![("k".to_string(), text("old")), ("j".to_string(), Json::Null)];
    let used = vec!["https://example.com/a.json#/t".to_string()];

    let (value, collected) = jsonref
        .deref(&node, "https://example.com/root.json", &Vec::new(), definitions.clone(), 1)
        .unwrap();
    assert_eq!(value, text("a"));
    assert_eq!(collected, vec![("k".to_string(), text("new")), ("j".to_string(), Json::Null)]);

    let (value, _) = jsonref
        .deref(&node, "https://example.com/root.json", &used, definitions.clone(), 0)
        .unwrap();
    assert_eq!(value, object(vec![]));

    match jsonref.deref(&node, "https://example.com/root.json", &Vec::new(), definitions, 0) {
        Err(Stop::Failed(Error::ExpansionLimit { url })) => {
            assert_eq!(url, "https://example.com/a.json#/t")
        }
        other => panic!("unexpected: {:?}", other),
    }
}

#[test]
fn resolved_value_has_no_key_twice() {
    let mut input = object(vec![
        ("a", object(vec![("title", text("name")), ("__reference__", text("first"))])),
        ("b", object(vec![("$ref", text("#/a")), ("title", text("old"))])),
    ]);
    let mut jsonref = JsonRef::new();
    jsonref.set_reference_key("__reference__");
    deref_value(&mut jsonref, &mut input, &[]).unwrap();
    assert!(input.is_well_formed());
    assert_eq!(
        input,
        object(vec![
            ("a", object(vec![("title", text("name")), ("__reference__", text("first"))])),
            (
                "b",
                object(vec![
                    ("title", text("name")),
                    ("__reference__", object(vec![("title", text("old"))])),
                ]),
            ),
        ])
    );
}

#[test]
fn each_reference_is_read_against_the_id_around_it() {
    let mut value = object(vec![
        ("$id", text("http://h/a/root.json")),
        ("p", object(vec![("$ref", text("x.json"))])),
        (
            "q",
            object(vec![
                ("$id", text("http://k/b/")),
                ("r", object(vec![("$ref", text("x.json"))])),
            ]),
        ),
    ]);
    let served = [
        ("http://h/a/x.json", object(vec![("from", text("http://h/a/x.json"))])),
        ("http://k/b/x.json", object(vec![("from", text("http://k/b/x.json"))])),
    ];
    let mut jsonref = JsonRef::new();
    let loaded = deref_value(&mut jsonref, &mut value, &served).unwrap();
    assert_eq!(loaded, vec!["http://h/a/x.json".to_string(), "http://k/b/x.json".to_string()]);
    assert_eq!(value.pointer("/p"), Some(&object(vec![("from", text("http://h/a/x.json"))])));
    assert_eq!(value.pointer("/q/r"), Some(&object(vec![("from", text("http://k/b/x.json"))])));
}

#[test]
fn document_from_url_loads_what_it_names_once() {
    let base = object(vec![
        ("a", object(vec![("$ref", text("s.json"))])),
        ("b", object(vec![("$ref", text("s.json#/title"))])),
        ("c", object(vec![("$ref", text("#/a"))])),
    ]);
    let mut jsonref = JsonRef::new();
    let mut loaded = Vec::new();
    let resolved = loop {
        match jsonref.deref_url("http://h/d/base.json", &base).unwrap() {
            Progress::Done(value) => break value,
            Progress::Load(request) => {
                loaded.push(request.identifier.clone());
                assert_eq!(request.identifier, "http://h/d/s.json");
                jsonref.supply(&request.identifier, object(vec![("title", text("t"))]));
            }
        }
    };
    assert_eq!(loaded, vec!["http://h/d/s.json".to_string()]);
    assert_eq!(
        resolved,
        object(vec![
            ("a", object(vec![("title", text("t"))])),
            ("b", text("t")),
            ("c", object(vec![("title", text("t"))])),
        ])
    );
}

#[test]
fn definitions_of_the_later_document_win() {
    let one = |n: u64| Json::Number(Number::PosInt(n));
    let base = object(vec![
        ("definitions", object(vec![("A", one(1)), ("B", one(2))])),
        ("p", object(vec![("$ref", text("other.json"))])),
    ]);
    let other = object(vec![
        ("definitions", object(vec![("B", one(3)), ("C", one(4))])),
        ("title", text("o")),
    ]);
    let mut jsonref = JsonRef::new();
    let resolved =
        deref_file(&mut jsonref, "/d/base.json", &base, &[("file:///d/other.json", other)])
            .unwrap();
    assert_eq!(
        resolved,
        object(vec![
            ("p", object(vec![("title", text("o"))])),
            ("definitions", object(vec![("A", one(1)), ("B", one(3)), ("C", one(4))])),
        ])
    );
}

#[test]
fn reference_in_a_loaded_file_is_read_against_that_file() {
    let base = object(vec![("p", object(vec![("$ref", text("sub/x.json"))]))]);
    let served = [
        ("file:///d/sub/x.json", object(vec![("q", object(vec![("$ref", text("y.json"))]))])),
        ("file:///d/sub/y.json", object(vec![("title", text("y"))])),
    ];
    let mut jsonref = JsonRef::new();
    let mut loaded = Vec::new();
    let resolved = loop {
        match jsonref.deref_file("/d/base.json", &base).unwrap() {
            Progress::Done(value) => break value,
            Progress::Load(request) => {
                loaded.push(request.identifier.clone());
                jsonref.supply(&request.identifier, serve(&served, &request.identifier));
            }
        }
    };
    assert_eq!(loaded, vec!["file:///d/sub/x.json".to_string(), "file:///d/sub/y.json".to_string()]);
    assert_eq!(
        resolved,
        object(vec![
            ("p", object(vec![("q", object(vec![("title", text("y"))]))])),
            ("definitions", object(vec![])),
        ])
    );
}
