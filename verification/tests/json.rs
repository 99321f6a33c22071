use jsonref::cache::SchemaCache;
use jsonref::json::{
    drop_key, has_distinct_keys, position_of, set_entry, value_of, Json, Number,
};

fn text(value: &str) -> Json {
    Json::String(value.to_string())
}

fn object(entries: Vec<(&str, Json)>) -> Json {
    Json::Object(entries.into_iter().map(|(key, value)| (key.to_string(), value)).collect())
}

fn table() -> Json {
    object(vec![("my_table", Json::Array(vec![text("a"), text("b"), text("c")]))])
}

#[test]
fn entries_are_found_by_their_first_key() {
    let mut entries = vec![
        ("a".to_string(), text("first")),
        ("b".to_string(), Json::Null),
        ("a".to_string(), text("second")),
    ];
    assert_eq!(position_of(&entries, "a"), Some(0));
    assert_eq!(position_of(&entries, "b"), Some(1));
    assert_eq!(position_of(&entries, "c"), None);
    assert_eq!(value_of(&entries, "a"), Some(&text("first")));
    assert_eq!(value_of(&entries, "c"), None);
    assert_eq!(drop_key(&entries, "a"), vec![("b".to_string(), Json::Null)]);
    assert_eq!(drop_key(&entries, "c"), entries);

    set_entry(&mut entries, "b".to_string(), Json::Bool(false));
    set_entry(&mut entries, "c".to_string(), Json::Bool(true));
    assert_eq!(
        entries,
        vec![
            ("a".to_string(), text("first")),
            ("b".to_string(), Json::Bool(false)),
            ("a".to_string(), text("second")),
            ("c".to_string(), Json::Bool(true)),
        ]
    );
}

#[test]
fn clone_copies_the_whole_tree() {
    let document = object(vec![
        ("n", Json::Number(Number::Real(4607182418800017408))),
        ("list", Json::Array(vec![table(), Json::Bool(true), Json::Null])),
    ]);
    assert_eq!(document.clone(), document);
}

#[test]
fn cache_keeps_documents_by_identifier() {
    let mut cache = SchemaCache::new();
    assert!(!cache.holds("https://example.com/a.json"));
    assert_eq!(cache.get("https://example.com/a.json"), None);
    cache.put("https://example.com/a.json".to_string(), text("a"));
    cache.put("https://example.com/b.json".to_string(), text("b"));
    assert!(cache.holds("https://example.com/a.json"));
    assert_eq!(cache.get("https://example.com/a.json"), Some(&text("a")));
    cache.put("https://example.com/a.json".to_string(), text("again"));
    assert_eq!(cache.get("https://example.com/a.json"), Some(&text("again")));
    assert_eq!(cache.get("https://example.com/b.json"), Some(&text("b")));
    assert_eq!(cache.get("https://example.com/a.json#"), None);
}

#[test]
fn well_formed_values_have_no_key_twice() {
    assert!(Json::Null.is_well_formed());
    assert!(table().is_well_formed());
    assert!(object(vec![]).is_well_formed());
    assert!(object(vec![("a", Json::Null), ("b", Json::Null), ("A", Json::Null)]).is_well_formed());
    assert!(!object(vec![("a", Json::Null), ("b", Json::Null), ("a", Json::Null)]).is_well_formed());
    let inner = object(vec![("k", text("x")), ("k", text("y"))]);
    assert!(!Json::Array(vec![table(), inner.clone()]).is_well_formed());
    assert!(!object(vec![("a", Json::Array(vec![inner]))]).is_well_formed());
    assert!(has_distinct_keys(&vec![("a".to_string(), Json::Null), ("".to_string(), Json::Null)]));
    assert!(!has_distinct_keys(&vec![("".to_string(), Json::Null), ("".to_string(), Json::Null)]));
}
